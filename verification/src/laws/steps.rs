//! Which operations a job goes through.

use crate::crop::frame_of;
use crate::face::group::Face;
use crate::pipeline::end;
use crate::pipeline::fits;
use crate::pipeline::half;
use crate::pipeline::law_job_ends;
use crate::pipeline::state_after;
use crate::pipeline::Job;
use crate::pipeline::Layout;
use crate::pipeline::Op;
use crate::pipeline::Phase;
use crate::pipeline::Progress;
use crate::pipeline::Reply;
use crate::transform::Error;
use crate::transform::Gravity;
use crate::transform::Output;
use crate::vips::Image;
use crate::vips::Size;
use crate::vips::VipsError;
use vstd::prelude::*;

verus! {

/// After these replies the job asks for this operation, and for no other.
pub open spec fn asks(job: Job, replies: Seq<Reply>, op: Op) -> bool {
    state_after(job, replies) matches Some(now) && forall|o: Op| #[trigger]
        now.awaits(o) <==> o == op
}

/// After these replies the job asks for its image to be encoded with these options.
pub open spec fn asks_to_save(job: Job, replies: Seq<Reply>, suffix: Seq<char>) -> bool {
    state_after(job, replies) matches Some(now) && forall|o: Op| #[trigger]
        now.awaits(o) <==> (o matches Op::Save { suffix: s } && s@ == suffix)
}

proof fn lemma_one_more(job: Job, replies: Seq<Reply>, reply: Reply)
    ensures
        state_after(job, replies.push(reply)) == (match state_after(job, replies) {
            Some(now) => match now.after(reply) {
                Ok(Progress::Next(next)) => Some(next),
                _ => None,
            },
            None => None,
        }),
    decreases replies.len(),
{
    let more = replies.push(reply);
    if replies.len() == 0 {
        assert(more.drop_first() =~= Seq::empty());
        reveal_with_fuel(state_after, 2);
    } else {
        assert(more.drop_first() =~= replies.drop_first().push(reply));
        assert(more[0] == replies[0]);
        if let Ok(Progress::Next(next)) = job.after(replies[0]) {
            lemma_one_more(next, replies.drop_first(), reply);
        }
    }
}

/// The input is opened first, and nothing else is done to it before its size is known. One with more
/// pixels than allowed is refused; the limit itself is not.
pub proof fn law_size_is_checked_first(job: Job, image: Image, swapped: bool)
    requires
        job.wf(),
        job.phase == Phase::Header,
        image.width >= 0,
        image.height >= 0,
    ensures
        asks(job, Seq::empty(), Op::Header),
        image.width * image.height > job.config.max_input_pixels <==> job.after(
            Reply::Opened { image, swapped },
        ) == Err::<Progress, Error>(Error::TooLarge(job.config.max_input_pixels)),
        image.width * image.height <= job.config.max_input_pixels <==> job.after(
            Reply::Opened { image, swapped },
        ) is Ok,
{
}

/// Whatever a job is doing, a failure ends it with what libvips says; and once the image has been
/// encoded, the job ends with what was encoded, in its format.
pub proof fn law_ends_are_passed_on(job: Job, error: VipsError, bytes: Vec<u8>)
    ensures
        job.after(Reply::Failed(error)) == Err::<Progress, Error>(Error::Vips(error)),
        job.after(Reply::Saved(bytes)) == Ok::<Progress, Error>(
            Progress::Finished(Output { format: job.format, bytes }),
        ),
{
}

/// A job takes a failure whatever it waits for, any size of the input, any image where it waits for
/// one, no face, any face inside the preview, and any encoded image.
pub proof fn law_outcomes_are_taken(
    job: Job,
    error: VipsError,
    image: Image,
    swapped: bool,
    face: Face,
    bytes: Vec<u8>,
)
    requires
        job.wf(),
        image.width > 0,
        image.height > 0,
    ensures
        job.takes(Reply::Failed(error)),
        job.phase is Header <==> job.takes(Reply::Opened { image, swapped }),
        job.phase is Detect <==> job.takes(Reply::Found(None)),
        job.phase is Save <==> job.takes(Reply::Saved(bytes)),
        !(job.phase is Header) && !(job.phase is Detect) && !(job.phase is Save) <==> job.takes(
            Reply::Made(image),
        ),
        job.phase matches Phase::Detect { preview, .. } && preview.width > 0 && preview.height > 0
            && face.count > 0 && face.x + face.width <= face.count * preview.width && face.y
            + face.height <= face.count * preview.height ==> job.takes(Reply::Found(Some(face))),
{
}

/// A job is done after eight operations at most.
pub proof fn law_eight_operations_are_enough(job: Job, replies: Seq<Reply>)
    requires
        job.wf(),
        fits(job, replies),
        replies.len() >= 8,
    ensures
        end(job, replies) is Some,
{
    law_job_ends(job, replies);
}

/// Without something to fill, and where the middle is kept, a single thumbnail is made, of the size
/// of the box, and encoded in the job's format, quality and speed. It is cropped only to fill.
pub proof fn law_one_thumbnail_makes_the_result(
    job: Job,
    image: Image,
    swapped: bool,
    made: Image,
)
    requires
        job.wf(),
        job.phase == Phase::Header,
        job.layout matches Layout::Fill { gravity, .. } ==> gravity == Gravity::Centre,
        job.layout != Layout::Blur,
        image.area() <= job.config.max_input_pixels,
    ensures
        ({
            let opened = seq![Reply::Opened { image, swapped }];
            &&& asks(
                job,
                opened,
                Op::Thumbnail {
                    width: job.width,
                    height: job.height,
                    size: match job.layout {
                        Layout::Fill { size, .. } => size,
                        _ => Size::Down,
                    },
                    crop: job.layout is Fill,
                },
            )
            &&& asks_to_save(
                job,
                opened.push(Reply::Made(made)),
                job.format.suffix(job.quality, job.config.avif_speed),
            )
        }),
{
    let opened = Reply::Opened { image, swapped };
    let none = Seq::<Reply>::empty();
    assert(none.push(opened) =~= seq![opened]);
    lemma_one_more(job, none, opened);
    lemma_one_more(job, seq![opened], Reply::Made(made));
}

/// A blurred layout shrinks the input into the box and renders it; makes a backdrop an eighth as
/// large of it, but at least one pixel; blurs that by 20/8; brings it to the size of the box; puts
/// the front in its middle; and encodes the result.
pub proof fn law_blur_goes_through_its_steps(
    job: Job,
    image: Image,
    swapped: bool,
    shrunk: Image,
    front: Image,
    backdrop: Image,
    blurred: Image,
    grown: Image,
    pasted: Image,
    small_width: i32,
    small_height: i32,
    x: i32,
    y: i32,
)
    requires
        job.wf(),
        job.phase == Phase::Header,
        job.layout == Layout::Blur,
        image.area() <= job.config.max_input_pixels,
        if job.width < 8 {
            small_width == 1
        } else {
            8 * small_width <= job.width < 8 * small_width + 8
        },
        if job.height < 8 {
            small_height == 1
        } else {
            8 * small_height <= job.height < 8 * small_height + 8
        },
        0 <= front.width <= job.width,
        0 <= front.height <= job.height,
        2 * x <= job.width - front.width <= 2 * x + 1,
        2 * y <= job.height - front.height <= 2 * y + 1,
    ensures
        ({
            let r1 = seq![Reply::Opened { image, swapped }];
            let r2 = r1.push(Reply::Made(shrunk));
            let r3 = r2.push(Reply::Made(front));
            let r4 = r3.push(Reply::Made(backdrop));
            let r5 = r4.push(Reply::Made(blurred));
            let r6 = r5.push(Reply::Made(grown));
            let r7 = r6.push(Reply::Made(pasted));
            &&& asks(
                job,
                r1,
                Op::Thumbnail {
                    width: job.width,
                    height: job.height,
                    size: Size::Down,
                    crop: false,
                },
            )
            &&& asks(job, r2, Op::CopyMemory)
            &&& asks(
                job,
                r3,
                Op::ThumbnailImage {
                    width: small_width,
                    height: small_height,
                    size: Size::Both,
                    crop: true,
                },
            )
            &&& asks(job, r4, Op::Gaussblur { sigma: 20, divisor: 8 })
            &&& asks(
                job,
                r5,
                Op::ThumbnailImage {
                    width: job.width,
                    height: job.height,
                    size: Size::Both,
                    crop: true,
                },
            )
            &&& asks(job, r6, Op::Insert { x, y })
            &&& asks_to_save(job, r7, job.format.suffix(job.quality, job.config.avif_speed))
        }),
{
    let opened = Reply::Opened { image, swapped };
    let none = Seq::<Reply>::empty();
    let r1 = seq![opened];
    let r2 = r1.push(Reply::Made(shrunk));
    let r3 = r2.push(Reply::Made(front));
    let r4 = r3.push(Reply::Made(backdrop));
    let r5 = r4.push(Reply::Made(blurred));
    let r6 = r5.push(Reply::Made(grown));
    assert(none.push(opened) =~= r1);
    lemma_one_more(job, none, opened);
    lemma_one_more(job, r1, Reply::Made(shrunk));
    lemma_one_more(job, r2, Reply::Made(front));
    lemma_one_more(job, r3, Reply::Made(backdrop));
    lemma_one_more(job, r4, Reply::Made(blurred));
    lemma_one_more(job, r5, Reply::Made(grown));
    lemma_one_more(job, r6, Reply::Made(pasted));
    assert(half(job.width - front.width) == x);
    assert(half(job.height - front.height) == y);
}

/// To keep a face in frame, the input is shrunk into 480 by 480 pixels and a face looked for there.
/// If there is one, the input is resized to the box on the axis that then covers the other, without
/// a limit on that; the part around the face is cut out; and the result is encoded. If there is
/// none, the input is cropped to its middle.
pub proof fn law_face_goes_through_its_steps(
    job: Job,
    size: Size,
    image: Image,
    swapped: bool,
    preview: Image,
    face: Face,
    made: Image,
    cut: Image,
    by_width: bool,
)
    requires
        job.wf(),
        job.phase == Phase::Header,
        job.layout == (Layout::Fill { size, gravity: Gravity::Face }),
        image.area() <= job.config.max_input_pixels,
        by_width == (if swapped {
            job.width * image.width >= job.height * image.height
        } else {
            job.width * image.height >= job.height * image.width
        }),
    ensures
        ({
            let r1 = seq![Reply::Opened { image, swapped }];
            let r2 = r1.push(Reply::Made(preview));
            let missed = r2.push(Reply::Found(None));
            let r3 = r2.push(Reply::Found(Some(face)));
            let r4 = r3.push(Reply::Made(made));
            let r5 = r4.push(Reply::Made(cut));
            let suffix = job.format.suffix(job.quality, job.config.avif_speed);
            &&& asks(
                job,
                r1,
                Op::Thumbnail { width: 480, height: 480, size: Size::Down, crop: false },
            )
            &&& asks(job, r2, Op::DetectFace)
            &&& asks(
                job,
                missed,
                Op::Thumbnail { width: job.width, height: job.height, size, crop: true },
            )
            &&& asks_to_save(job, missed.push(Reply::Made(made)), suffix)
            &&& by_width ==> asks(
                job,
                r3,
                Op::Thumbnail { width: job.width, height: 10_000_000, size, crop: false },
            )
            &&& !by_width ==> asks(
                job,
                r3,
                Op::Thumbnail { width: 10_000_000, height: job.height, size, crop: false },
            )
            &&& asks(
                job,
                r4,
                Op::ExtractArea(frame_of(face, preview, made, job.width, job.height)),
            )
            &&& asks_to_save(job, r5, suffix)
        }),
{
    let opened = Reply::Opened { image, swapped };
    let none = Seq::<Reply>::empty();
    let r1 = seq![opened];
    let r2 = r1.push(Reply::Made(preview));
    let missed = r2.push(Reply::Found(None));
    let r3 = r2.push(Reply::Found(Some(face)));
    let r4 = r3.push(Reply::Made(made));
    assert(none.push(opened) =~= r1);
    lemma_one_more(job, none, opened);
    lemma_one_more(job, r1, Reply::Made(preview));
    lemma_one_more(job, r2, Reply::Found(None));
    lemma_one_more(job, missed, Reply::Made(made));
    lemma_one_more(job, r2, Reply::Found(Some(face)));
    lemma_one_more(job, r3, Reply::Made(made));
    lemma_one_more(job, r4, Reply::Made(cut));
}

} // verus!
