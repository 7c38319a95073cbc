//! What the encoder is asked for, and how numbers are written in it.

use crate::face::markup::value;
use crate::text::decimal;
use crate::transform::avif_quality;
use crate::transform::Format;
use vstd::prelude::*;

verus! {

/// `part` stands somewhere in `text`.
pub open spec fn holds(text: Seq<char>, part: Seq<char>) -> bool {
    exists|at: int|
        0 <= at && at + part.len() <= text.len() && #[trigger] text.subrange(at, at + part.len())
            == part
}

/// `text` starts with `part`.
pub open spec fn starts_with(text: Seq<char>, part: Seq<char>) -> bool {
    part.len() <= text.len() && text.take(part.len() as int) == part
}

/// A number is written in decimal digits, the last of which is its remainder by ten, without
/// leading zeros; read as a number, it is the same again.
pub proof fn law_decimals_read_back(n: nat)
    ensures
        decimal(n).len() > 0,
        forall|k: int|
            0 <= k < decimal(n).len() ==> '0' <= #[trigger] decimal(n)[k] && decimal(n)[k] <= '9',
        n > 0 ==> decimal(n)[0] != '0',
        decimal(n).last() as int == 48 + n % 10,
        n < 10 ==> decimal(n).len() == 1,
        n >= 10 ==> decimal(n).drop_last() == decimal(n / 10),
        value(decimal(n)) == n,
    decreases n,
{
    if n >= 10 {
        law_decimals_read_back(n / 10);
        assert(decimal(n).drop_last() =~= decimal(n / 10));
        assert(decimal(n)[0] == decimal(n / 10)[0]);
        assert forall|k: int| 0 <= k < decimal(n).len() implies '0' <= #[trigger] decimal(n)[k]
            && decimal(n)[k] <= '9' by {
            if k < decimal(n).len() - 1 {
                assert(decimal(n)[k] == decimal(n / 10)[k]);
            }
        }
    } else {
        assert(decimal(n).drop_last() =~= Seq::<char>::empty());
        assert(value(Seq::<char>::empty()) == 0);
    }
}

/// Different numbers are written differently.
pub proof fn law_decimals_differ(m: nat, n: nat)
    requires
        decimal(m) == decimal(n),
    ensures
        m == n,
{
    law_decimals_read_back(m);
    law_decimals_read_back(n);
}

proof fn lemma_held(front: Seq<char>, part: Seq<char>, back: Seq<char>, text: Seq<char>)
    requires
        text == front + part + back,
    ensures
        holds(text, part),
{
    assert(text.subrange(
        front.len() as int,
        (front.len() + part.len()) as int,
    ) =~= part);
}

proof fn lemma_same_middle(front: Seq<char>, a: Seq<char>, b: Seq<char>, back: Seq<char>)
    requires
        front + a + back == front + b + back,
    ensures
        a == b,
{
    assert((front + a + back).len() == (front + b + back).len());
    assert((front + a + back).subrange(
        front.len() as int,
        (front.len() + a.len()) as int,
    ) =~= a);
    assert((front + b + back).subrange(
        front.len() as int,
        (front.len() + b.len()) as int,
    ) =~= b);
}

/// What stands before an explicit quality.
spec fn before(format: Format) -> Seq<char> {
    match format {
        Format::Jpeg => ".jpg[Q="@,
        Format::Webp => ".webp[Q="@,
        Format::Avif => ".avif[Q="@,
        Format::Png => ".png[palette,Q="@,
    }
}

/// What stands behind an explicit quality.
spec fn behind(format: Format, avif_speed: u8) -> Seq<char> {
    match format {
        Format::Jpeg => ",optimize_coding,quant_table=3,keep=none]"@,
        Format::Webp => ",effort=2,keep=none]"@,
        Format::Avif => ",effort="@ + decimal((9 - avif_speed) as nat) + ",keep=none]"@,
        Format::Png => ",keep=none]"@,
    }
}

proof fn lemma_parts(format: Format, q: u8, avif_speed: u8)
    ensures
        format.suffix(Some(q), avif_speed) == before(format) + decimal(q as nat) + behind(
            format,
            avif_speed,
        ),
{
    if format == Format::Avif {
        assert(format.suffix(Some(q), avif_speed) =~= before(format) + decimal(q as nat) + behind(
            format,
            avif_speed,
        ));
    }
}

/// An explicit quality reaches the encoder as it is: it is the encoder's `Q`, in decimal.
pub proof fn law_quality_reaches_the_encoder(format: Format, q: u8, avif_speed: u8)
    ensures
        holds(
            format.suffix(Some(q), avif_speed),
            seq!['Q', '='] + decimal(q as nat) + seq![','],
        ),
{
    lemma_parts(format, q, avif_speed);
    reveal_strlit(".jpg[Q=");
    reveal_strlit(".webp[Q=");
    reveal_strlit(".avif[Q=");
    reveal_strlit(".png[palette,Q=");
    reveal_strlit(",optimize_coding,quant_table=3,keep=none]");
    reveal_strlit(",effort=2,keep=none]");
    reveal_strlit(",effort=");
    reveal_strlit(",keep=none]");
    let (b, c) = (before(format), behind(format, avif_speed));
    let d = decimal(q as nat);
    let part = seq!['Q', '='] + d + seq![','];
    assert(b.len() >= 2 && b[b.len() - 2] == 'Q' && b[b.len() - 1] == '=');
    assert(c.len() >= 1 && c[0] == ',');
    let front = b.take(b.len() - 2);
    let back = c.skip(1);
    assert(b + d + c =~= front + part + back);
    lemma_held(front, part, back, format.suffix(Some(q), avif_speed));
}

/// Different qualities never give the same options.
pub proof fn law_qualities_make_a_difference(format: Format, p: u8, q: u8, avif_speed: u8)
    requires
        format.suffix(Some(p), avif_speed) == format.suffix(Some(q), avif_speed),
    ensures
        p == q,
{
    lemma_parts(format, p, avif_speed);
    lemma_parts(format, q, avif_speed);
    lemma_same_middle(
        before(format),
        decimal(p as nat),
        decimal(q as nat),
        behind(format, avif_speed),
    );
    law_decimals_differ(p as nat, q as nat);
}

/// Without a quality the encoder gets the format's own: 78 for JPEG, 83 for WebP, and for AVIF 62 up
/// to speed 6, 66 at speed 7 and 69 above.
pub proof fn law_each_format_has_its_default_quality(avif_speed: u8)
    ensures
        Format::Jpeg.suffix(None, avif_speed) == Format::Jpeg.suffix(Some(78), avif_speed),
        Format::Webp.suffix(None, avif_speed) == Format::Webp.suffix(Some(83), avif_speed),
        avif_speed <= 6 ==> Format::Avif.suffix(None, avif_speed) == Format::Avif.suffix(
            Some(62),
            avif_speed,
        ),
        avif_speed == 7 ==> Format::Avif.suffix(None, avif_speed) == Format::Avif.suffix(
            Some(66),
            avif_speed,
        ),
        avif_speed >= 8 ==> Format::Avif.suffix(None, avif_speed) == Format::Avif.suffix(
            Some(69),
            avif_speed,
        ),
{
}

/// Without a quality PNG stays lossless: nothing but the metadata is dropped. With one, its colours
/// are reduced to a palette.
pub proof fn law_only_a_quality_makes_png_lossy(q: u8, avif_speed: u8)
    ensures
        Format::Png.suffix(None, avif_speed) == seq![
            '.',
            'p',
            'n',
            'g',
            '[',
            'k',
            'e',
            'e',
            'p',
            '=',
            'n',
            'o',
            'n',
            'e',
            ']',
        ],
        starts_with(
            Format::Png.suffix(Some(q), avif_speed),
            seq!['.', 'p', 'n', 'g', '[', 'p', 'a', 'l', 'e', 't', 't', 'e', ',', 'Q', '='],
        ),
{
    reveal_strlit(".png[keep=none]");
    reveal_strlit(".png[palette,Q=");
    assert(Format::Png.suffix(None, avif_speed) =~= seq![
        '.',
        'p',
        'n',
        'g',
        '[',
        'k',
        'e',
        'e',
        'p',
        '=',
        'n',
        'o',
        'n',
        'e',
        ']',
    ]);
    let text = Format::Png.suffix(Some(q), avif_speed);
    assert(text.take(15) =~= ".png[palette,Q="@);
    assert(text.take(15) =~= seq![
        '.',
        'p',
        'n',
        'g',
        '[',
        'p',
        'a',
        'l',
        'e',
        't',
        't',
        'e',
        ',',
        'Q',
        '=',
    ]);
}

/// Every format is written by its own saver.
pub proof fn law_each_format_has_its_saver(quality: Option<u8>, avif_speed: u8)
    ensures
        starts_with(Format::Jpeg.suffix(quality, avif_speed), seq!['.', 'j', 'p', 'g', '[']),
        starts_with(Format::Png.suffix(quality, avif_speed), seq!['.', 'p', 'n', 'g', '[']),
        starts_with(Format::Webp.suffix(quality, avif_speed), seq!['.', 'w', 'e', 'b', 'p', '[']),
        starts_with(Format::Avif.suffix(quality, avif_speed), seq!['.', 'a', 'v', 'i', 'f', '[']),
{
    reveal_strlit(".jpg[Q=");
    reveal_strlit(".webp[Q=");
    reveal_strlit(".avif[Q=");
    reveal_strlit(".png[palette,Q=");
    reveal_strlit(".png[keep=none]");
    assert(Format::Jpeg.suffix(quality, avif_speed).take(5) =~= seq!['.', 'j', 'p', 'g', '[']);
    assert(Format::Png.suffix(quality, avif_speed).take(5) =~= seq!['.', 'p', 'n', 'g', '[']);
    assert(Format::Webp.suffix(quality, avif_speed).take(6) =~= seq![
        '.',
        'w',
        'e',
        'b',
        'p',
        '[',
    ]);
    assert(Format::Avif.suffix(quality, avif_speed).take(6) =~= seq![
        '.',
        'a',
        'v',
        'i',
        'f',
        '[',
    ]);
}

/// The AVIF speed reaches the encoder as an effort that runs the other way round, from 9 down to 0.
/// It makes no difference to other formats.
pub proof fn law_speed_reaches_the_encoder(
    format: Format,
    quality: Option<u8>,
    avif_speed: u8,
    other: u8,
)
    requires
        avif_speed <= 9,
        other <= 9,
    ensures
        holds(
            Format::Avif.suffix(quality, avif_speed),
            seq![',', 'e', 'f', 'f', 'o', 'r', 't', '='] + decimal((9 - avif_speed) as nat)
                + seq![','],
        ),
        format != Format::Avif ==> format.suffix(quality, avif_speed) == format.suffix(
            quality,
            other,
        ),
        quality is Some && Format::Avif.suffix(quality, avif_speed) == Format::Avif.suffix(
            quality,
            other,
        ) ==> avif_speed == other,
{
    reveal_strlit(",effort=");
    reveal_strlit(",keep=none]");
    let d = decimal((9 - avif_speed) as nat);
    let part = seq![',', 'e', 'f', 'f', 'o', 'r', 't', '='] + d + seq![','];
    let text = Format::Avif.suffix(quality, avif_speed);
    let q = quality.unwrap_or(avif_quality(avif_speed));
    let front = ".avif[Q="@ + decimal(q as nat);
    let back = ",keep=none]"@.skip(1);
    assert(text =~= front + part + back);
    lemma_held(front, part, back, text);
    if quality is Some && text == Format::Avif.suffix(quality, other) {
        let e = decimal((9 - other) as nat);
        assert(text =~= (front + ",effort="@) + d + ",keep=none]"@);
        assert(Format::Avif.suffix(quality, other) =~= (front + ",effort="@) + e + ",keep=none]"@);
        lemma_same_middle(front + ",effort="@, d, e, ",keep=none]"@);
        law_decimals_differ((9 - avif_speed) as nat, (9 - other) as nat);
    }
}

/// Behind its quality JPEG gets optimised Huffman coding and quantisation table 3, WebP effort 2;
/// there are no other options besides the stripping of metadata.
pub proof fn law_options_are_complete(q: u8, avif_speed: u8)
    ensures
        ({
            let digits = decimal(q as nat);
            &&& Format::Jpeg.suffix(Some(q), avif_speed).len() == 48 + digits.len()
            &&& holds(
                Format::Jpeg.suffix(Some(q), avif_speed),
                digits + ",optimize_coding,quant_table=3,keep=none]"@,
            )
            &&& Format::Webp.suffix(Some(q), avif_speed).len() == 28 + digits.len()
            &&& holds(Format::Webp.suffix(Some(q), avif_speed), digits + ",effort=2,keep=none]"@)
            &&& avif_speed <= 9 ==> Format::Avif.suffix(Some(q), avif_speed).len() == 28
                + digits.len()
            &&& Format::Png.suffix(Some(q), avif_speed).len() == 26 + digits.len()
        }),
{
    reveal_strlit(".jpg[Q=");
    reveal_strlit(".webp[Q=");
    reveal_strlit(".avif[Q=");
    reveal_strlit(".png[palette,Q=");
    reveal_strlit(",optimize_coding,quant_table=3,keep=none]");
    reveal_strlit(",effort=2,keep=none]");
    reveal_strlit(",effort=");
    reveal_strlit(",keep=none]");
    let d = decimal(q as nat);
    let jpeg = d + ",optimize_coding,quant_table=3,keep=none]"@;
    let webp = d + ",effort=2,keep=none]"@;
    assert(Format::Jpeg.suffix(Some(q), avif_speed) =~= ".jpg[Q="@ + jpeg + Seq::empty());
    lemma_held(".jpg[Q="@, jpeg, Seq::empty(), Format::Jpeg.suffix(Some(q), avif_speed));
    assert(Format::Webp.suffix(Some(q), avif_speed) =~= ".webp[Q="@ + webp + Seq::empty());
    lemma_held(".webp[Q="@, webp, Seq::empty(), Format::Webp.suffix(Some(q), avif_speed));
    if avif_speed <= 9 {
        law_decimals_read_back((9 - avif_speed) as nat);
    }
}

} // verus!
