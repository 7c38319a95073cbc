//! What clients are told, and what is counted.

use crate::server::error_status;
use crate::server::gauge_of;
use crate::server::is_answer;
use crate::server::is_checked;
use crate::server::Answer;
use crate::server::Outcome;
use crate::text::decimal;
use crate::text::is_white;
use crate::transform::Error;
use crate::vips::counted;
use crate::vips::is_trimmed;
use crate::vips::Image;
use vstd::prelude::*;

verus! {

/// Each kind of error has its own status: 400 for a bad parameter, 413 for too many pixels, 415 for
/// an unsupported format and 422 for an image that libvips cannot process.
pub proof fn law_errors_have_their_status(error: Error, input_len: u64, answer: Answer)
    requires
        is_answer(Outcome::Done(Err(error)), input_len, answer),
    ensures
        answer.status == 400 <==> error is InvalidParam,
        answer.status == 413 <==> error is TooLarge,
        answer.status == 415 <==> error is UnsupportedFormat,
        answer.status == 422 <==> error is Vips,
        error_status(error) == answer.status,
{
}

/// A client that gets an error is told what is wrong: the parameter, the number of pixels that is
/// allowed, or what libvips says.
pub proof fn law_errors_are_explained(error: Error, input_len: u64, answer: Answer)
    requires
        is_answer(Outcome::Done(Err(error)), input_len, answer),
    ensures
        answer.body is Text,
        ({
            let text = answer.body->Text_0@;
            match error {
                Error::UnsupportedFormat => text
                    == "unsupported input format; expected JPEG, PNG, WebP or AVIF"@,
                Error::InvalidParam(message) => text == message@,
                Error::TooLarge(limit) => text == "input exceeds "@ + decimal(limit as nat)
                    + " pixels"@,
                Error::Vips(error) => text == "failed to process image: "@ + error.0@,
            }
        }),
{
}

/// A client gets the image exactly when its request succeeded, as it was encoded and under its own
/// type. Only then are bytes counted, those of the input and of the output.
pub proof fn law_success_is_answered_with_the_image(
    outcome: Outcome,
    input_len: u64,
    answer: Answer,
)
    requires
        is_answer(outcome, input_len, answer),
    ensures
        answer.status == 200 <==> outcome matches Outcome::Done(Ok(_)),
        answer.body is Image <==> answer.status == 200,
        answer.tally is Some <==> answer.status == 200,
        outcome matches Outcome::Done(Ok(output)) ==> {
            &&& answer.body->bytes@ == output.bytes@
            &&& answer.body->mime@ == seq!['i', 'm', 'a', 'g', 'e', '/'] + output.format.named()
            &&& answer.tally->0.format@ == output.format.named()
            &&& answer.tally->0.input_bytes == input_len
            &&& answer.tally->0.output_bytes == output.bytes@.len()
        },
{
    reveal_strlit("image/");
    assert("image/"@ =~= seq!['i', 'm', 'a', 'g', 'e', '/']);
}

/// A request that waited too long is answered with 503, one whose task broke off with 500 and
/// nothing else.
pub proof fn law_other_outcomes_are_server_errors(input_len: u64, busy: Answer, broken: Answer)
    requires
        is_answer(Outcome::Busy, input_len, busy),
        is_answer(Outcome::Broken, input_len, broken),
    ensures
        busy.status == 503,
        busy.body is Text,
        busy.body->Text_0@ == seq!['s', 'e', 'r', 'v', 'e', 'r', ' ', 'b', 'u', 's', 'y'],
        broken.status == 500,
        broken.body is Empty,
{
    reveal_strlit("server busy");
    assert("server busy"@ =~= seq!['s', 'e', 'r', 'v', 'e', 'r', ' ', 'b', 'u', 's', 'y']);
}

/// A gauge shows the number of bytes, up to the largest that it can show.
pub proof fn law_gauges_show_what_they_can(bytes: usize)
    ensures
        gauge_of(bytes) == bytes || (gauge_of(bytes) == 0x7fff_ffff_ffff_ffff && bytes
            > 0x7fff_ffff_ffff_ffff),
{
}

/// The server starts with an AVIF speed from 0 to 9, and with the one that it is given.
pub proof fn law_speeds_go_up_to_nine(speed: u8, checked: Result<u8, String>)
    requires
        is_checked(speed, checked),
    ensures
        checked is Ok <==> speed <= 9,
        checked matches Ok(n) ==> n == speed,
        checked matches Err(message) ==> message@ == "CITLALI_AVIF_SPEED: must be 0..="@
            + seq!['9'],
{
    assert(decimal(9) =~= seq!['9']);
}

/// The area of an image is the product of its sides, whatever their signs.
pub proof fn law_area_is_a_product(image: Image)
    ensures
        image.width >= 0 && image.height >= 0 ==> image.area() == image.width * image.height,
        image.width < 0 && image.height < 0 ==> image.area() == image.width * image.height,
        image.width >= 0 && image.height < 0 ==> image.area() == -(image.width * image.height),
        image.width < 0 && image.height >= 0 ==> image.area() == -(image.width * image.height),
{
    let (w, h) = (image.width as int, image.height as int);
    assert((-w) * (-h) == w * h) by (nonlinear_arith);
    assert((-w) * h == -(w * h)) by (nonlinear_arith);
    assert(w * (-h) == -(w * h)) by (nonlinear_arith);
}

/// A call has made something exactly when it says so, with a status of 0, and there is something; it
/// is that.
pub proof fn law_only_success_counts<T>(status: i32, out: Option<T>, image: T)
    ensures
        counted(status, out) == Some(image) <==> status == 0 && out == Some(image),
        counted(status, out) is None <==> status != 0 || out is None,
{
}

/// White space is what Unicode calls so: tab to carriage return, space, next line, no-break space,
/// the Ogham space, the spaces from en quad to hair space, the line and paragraph separators, the
/// narrow no-break and medium mathematical spaces and the ideographic space.
pub proof fn law_white_space_is_unicode(c: char)
    ensures
        is_white(c) <==> ({
            let n = c as int;
            ||| 9 <= n <= 13
            ||| n == 32
            ||| n == 133
            ||| n == 160
            ||| n == 5760
            ||| 8192 <= n <= 8202
            ||| n == 8232
            ||| n == 8233
            ||| n == 8239
            ||| n == 8287
            ||| n == 12288
        }),
{
}

/// A message is the text without the white space at its ends, all of it and no more: there is only
/// one such message.
pub proof fn law_only_the_ends_are_trimmed(
    front: Seq<char>,
    message: Seq<char>,
    back: Seq<char>,
    trimmed: Seq<char>,
)
    requires
        forall|k: int| 0 <= k < front.len() ==> is_white(#[trigger] front[k]),
        forall|k: int| 0 <= k < back.len() ==> is_white(#[trigger] back[k]),
        message.len() > 0 ==> !is_white(message[0]) && !is_white(message.last()),
        is_trimmed(front + message + back, trimmed),
    ensures
        trimmed == message,
{
    let text = front + message + back;
    let (a, b) = choose|a: int, b: int|
        {
            &&& 0 <= a <= b <= text.len()
            &&& trimmed == #[trigger] text.subrange(a, b)
            &&& forall|k: int| 0 <= k < a ==> is_white(#[trigger] text[k])
            &&& forall|k: int| b <= k < text.len() ==> is_white(#[trigger] text[k])
            &&& a < b ==> !is_white(text[a]) && !is_white(text[b - 1])
        };
    let (f, m) = (front.len() as int, message.len() as int);
    if m > 0 {
        assert(text[f] == message[0]);
        assert(text[f + m - 1] == message.last());
        assert(a <= f && b >= f + m);
        if a < f {
            assert(text[a] == front[a]);
        }
        if b > f + m {
            assert(text[b - 1] == back[b - 1 - f - m]);
        }
        assert(trimmed =~= message);
    } else {
        if a < b {
            if a < f {
                assert(text[a] == front[a]);
            } else {
                assert(text[a] == back[a - f]);
            }
        }
        assert(trimmed =~= message);
    }
}

} // verus!
