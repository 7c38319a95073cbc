//! The size of the result, and what a blurred layout shows, as far as libvips makes of an image
//! what it is asked to.

use crate::crop::frame_of;
use crate::crop::lesser;
use crate::pipeline::fits;
use crate::pipeline::half;
use crate::pipeline::law_blur_pastes_the_front;
use crate::pipeline::state_after;
use crate::pipeline::width_binds;
use crate::pipeline::Job;
use crate::pipeline::Layout;
use crate::pipeline::Op;
use crate::pipeline::Phase;
use crate::pipeline::Progress;
use crate::pipeline::Reply;
use crate::transform::Error;
use crate::transform::UNBOUNDED;
use crate::vips::Image;
use crate::vips::Size;
use vstd::prelude::*;

verus! {

/// The size of an image once its EXIF orientation is applied.
pub open spec fn upright(image: Image, swapped: bool) -> Image {
    if swapped {
        Image { width: image.height, height: image.width }
    } else {
        image
    }
}

/// `x` differs from `n / d` by less than one.
pub open spec fn is_rounded(x: int, n: int, d: int) -> bool {
    (x - 1) * d < n < (x + 1) * d
}

/// `made` is `from` resized, with its aspect ratio, to reach the box on one axis and stay inside it
/// on the other. Where images are only shrunk, one that is inside the box already is kept.
pub open spec fn is_fitted(from: Image, made: Image, width: i32, height: i32, size: Size) -> bool {
    if size == Size::Down && from.width <= width && from.height <= height {
        made == from
    } else if width * from.height <= height * from.width {
        made.width == width && is_rounded(
            made.height as int,
            width * from.height,
            from.width as int,
        )
    } else {
        made.height == height && is_rounded(
            made.width as int,
            height * from.width,
            from.height as int,
        )
    }
}

/// `made` has the size that a thumbnail of `from` is to have. A crop fills the box; where images are
/// only shrunk, an axis that is smaller than the box is kept as it is.
pub open spec fn is_thumbnail(
    from: Image,
    made: Image,
    width: i32,
    height: i32,
    size: Size,
    crop: bool,
) -> bool {
    if !crop {
        is_fitted(from, made, width, height, size)
    } else if size == Size::Both {
        made == Image { width, height }
    } else {
        made == Image { width: lesser(width, from.width), height: lesser(height, from.height) }
    }
}

/// `made` has the size that `op` is to make of the input `from` or of the image `current`.
pub open spec fn is_made_by(op: Op, from: Image, current: Image, made: Image) -> bool {
    match op {
        Op::Thumbnail { width, height, size, crop } => is_thumbnail(
            from,
            made,
            width,
            height,
            size,
            crop,
        ),
        Op::ThumbnailImage { width, height, size, crop } => is_thumbnail(
            current,
            made,
            width,
            height,
            size,
            crop,
        ),
        Op::CopyMemory | Op::Gaussblur { .. } | Op::Insert { .. } => made == current,
        Op::ExtractArea(area) => made == Image { width: area.width, height: area.height },
        _ => true,
    }
}

/// The size of the image after a reply.
pub open spec fn size_after_reply(current: Image, reply: Reply) -> Image {
    match reply {
        Reply::Made(made) => made,
        _ => current,
    }
}

/// The size of the image after these replies.
pub open spec fn size_after(current: Image, replies: Seq<Reply>) -> Image
    decreases replies.len(),
{
    if replies.len() == 0 {
        current
    } else {
        size_after(size_after_reply(current, replies[0]), replies.drop_first())
    }
}

/// A reply tells of an image of the size that the job asked for.
pub open spec fn is_kept(job: Job, from: Image, current: Image, reply: Reply) -> bool {
    reply matches Reply::Made(made) ==> forall|op: Op| #[trigger]
        job.awaits(op) ==> is_made_by(op, from, current, made)
}

/// Every operation makes an image of the size that the job asked for.
pub open spec fn are_kept(job: Job, from: Image, current: Image, replies: Seq<Reply>) -> bool
    decreases replies.len(),
{
    replies.len() > 0 ==> {
        &&& is_kept(job, from, current, replies[0])
        &&& job.after(replies[0]) matches Ok(Progress::Next(next)) ==> are_kept(
            next,
            from,
            size_after_reply(current, replies[0]),
            replies.drop_first(),
        )
    }
}

/// The size that the result is to have: exactly the box for `cover` and `blur`; for `crop` as much
/// of the box on each axis as the input has; for `scale-down` the input shrunk to fit inside.
pub open spec fn is_result(
    layout: Layout,
    from: Image,
    made: Image,
    width: i32,
    height: i32,
) -> bool {
    match layout {
        Layout::ScaleDown => {
            &&& is_fitted(from, made, width, height, Size::Down)
            &&& made.width <= width
            &&& made.height <= height
            &&& made.width <= from.width
            &&& made.height <= from.height
        },
        Layout::Fill { size, .. } => is_thumbnail(from, made, width, height, size, true),
        Layout::Blur => made == Image { width, height },
    }
}

/// Both axes of the input are in libvips' range, and stay in it when the input is enlarged to fill
/// the box.
pub open spec fn stays_in_range(from: Image, width: i32, height: i32) -> bool {
    &&& from.width <= UNBOUNDED
    &&& from.height <= UNBOUNDED
    &&& width * from.height <= UNBOUNDED * from.width
    &&& height * from.width <= UNBOUNDED * from.height
}

/// What is fitted into a box by shrinking is no larger than the box and the input.
proof fn lemma_fitted_inside(from: Image, made: Image, width: i32, height: i32)
    requires
        from.width > 0,
        from.height > 0,
        width > 0,
        height > 0,
        is_fitted(from, made, width, height, Size::Down),
    ensures
        made.width <= width,
        made.height <= height,
        made.width <= from.width,
        made.height <= from.height,
{
    let (a, d, w, h) = (from.width as int, from.height as int, width as int, height as int);
    if a <= w && d <= h {
    } else if w * d <= h * a {
        let x = made.height as int;
        assert(x <= h) by (nonlinear_arith)
            requires
                (x - 1) * a < w * d,
                w * d <= h * a,
                a > 0,
        ;
        assert(w <= a) by (nonlinear_arith)
            requires
                w * d <= h * a,
                w > 0,
                a > 0,
                d > 0,
                h > 0,
                a > w || d > h,
        ;
        assert(x <= d) by (nonlinear_arith)
            requires
                (x - 1) * a < w * d,
                w <= a,
                a > 0,
                d > 0,
        ;
    } else {
        let x = made.width as int;
        assert(x <= w) by (nonlinear_arith)
            requires
                (x - 1) * d < h * a,
                h * a < w * d,
                d > 0,
        ;
        assert(h <= d) by (nonlinear_arith)
            requires
                h * a < w * d,
                a > w || d > h,
                w > 0,
                h > 0,
                d > 0,
        ;
        assert(x <= a) by (nonlinear_arith)
            requires
                (x - 1) * d < h * a,
                h <= d,
                a > 0,
                d > 0,
        ;
    }
}

/// The image that a face is framed on is large enough for the frame.
proof fn lemma_resized_fills(
    from: Image,
    made: Image,
    width: i32,
    height: i32,
    size: Size,
    by_width: bool,
)
    requires
        from.width > 0,
        from.height > 0,
        width > 0,
        height > 0,
        width <= UNBOUNDED,
        height <= UNBOUNDED,
        stays_in_range(from, width, height),
        by_width == width_binds(from, false, width, height),
        by_width ==> is_fitted(from, made, width, UNBOUNDED, size),
        !by_width ==> is_fitted(from, made, UNBOUNDED, height, size),
    ensures
        is_thumbnail(
            from,
            Image { width: lesser(width, made.width), height: lesser(height, made.height) },
            width,
            height,
            size,
            true,
        ),
{
    let (a, d, w, h) = (from.width as int, from.height as int, width as int, height as int);
    let u = UNBOUNDED as int;
    if size == Size::Down && a <= (if by_width {
        w
    } else {
        u
    }) && d <= (if by_width {
        u
    } else {
        h
    }) {
    } else if by_width {
        let x = made.height as int;
        assert(x >= h) by (nonlinear_arith)
            requires
                w * d < (x + 1) * a,
                w * d >= h * a,
                a > 0,
        ;
        if size == Size::Down {
            assert(d >= h) by (nonlinear_arith)
                requires
                    w * d >= h * a,
                    a > w,
                    w > 0,
                    h > 0,
            ;
        }
    } else {
        if u * d <= h * a {
            let x = made.height as int;
            assert(x >= h) by (nonlinear_arith)
                requires
                    u * d < (x + 1) * a,
                    u * d == h * a,
                    a > 0,
            ;
        } else {
            let x = made.width as int;
            assert(x >= w) by (nonlinear_arith)
                requires
                    h * a < (x + 1) * d,
                    w * d < h * a,
                    d > 0,
            ;
        }
        if size == Size::Down {
            assert(a >= w) by (nonlinear_arith)
                requires
                    w * d < h * a,
                    d > h,
                    w > 0,
                    h > 0,
            ;
        }
    }
}

/// What is known of the image and of what is left over when the job is in a phase.
spec fn is_on_track(job: Job, from: Image, current: Image) -> bool {
    let binds = width_binds(from, false, job.width, job.height);
    match job.phase {
        Phase::Preview { by_width } => by_width == binds,
        Phase::Detect { by_width, .. } => by_width == binds,
        Phase::Resize { by_width, .. } => by_width == binds,
        Phase::Frame { area } => is_result(
            job.layout,
            from,
            Image { width: area.width, height: area.height },
            job.width,
            job.height,
        ),
        Phase::Paste { .. } => current == (Image { width: job.width, height: job.height }),
        Phase::Save => is_result(job.layout, from, current, job.width, job.height),
        _ => true,
    }
}

/// A step that makes what it is asked for keeps the job on track.
proof fn lemma_stays_on_track(job: Job, from: Image, current: Image, reply: Reply)
    requires
        job.wf(),
        job.takes(reply),
        from.width > 0,
        from.height > 0,
        reply matches Reply::Opened { image, swapped } ==> from == upright(image, swapped),
        job.wants_face() ==> stays_in_range(from, job.width, job.height),
        is_kept(job, from, current, reply),
        is_on_track(job, from, current),
    ensures
        job.after(reply) matches Ok(Progress::Next(next)) ==> is_on_track(
            next,
            from,
            size_after_reply(current, reply),
        ),
{
    if let Reply::Made(made) = reply {
        match job.phase {
            Phase::Whole => {
                match job.layout {
                    Layout::Fill { size, .. } => {
                        assert(job.awaits(
                            Op::Thumbnail {
                                width: job.width,
                                height: job.height,
                                size,
                                crop: true,
                            },
                        ));
                    },
                    _ => {
                        assert(job.awaits(
                            Op::Thumbnail {
                                width: job.width,
                                height: job.height,
                                size: Size::Down,
                                crop: false,
                            },
                        ));
                        lemma_fitted_inside(from, made, job.width, job.height);
                    },
                }
            },
            Phase::Grow { .. } => {
                assert(job.awaits(
                    Op::ThumbnailImage {
                        width: job.width,
                        height: job.height,
                        size: Size::Both,
                        crop: true,
                    },
                ));
            },
            Phase::Paste { front } => {
                assert(job.awaits(
                    Op::Insert {
                        x: half(job.width - front.width) as i32,
                        y: half(job.height - front.height) as i32,
                    },
                ));
            },
            Phase::Resize { by_width, preview, face } => {
                let size = job.layout->size;
                if by_width {
                    assert(job.awaits(
                        Op::Thumbnail {
                            width: job.width,
                            height: UNBOUNDED,
                            size,
                            crop: false,
                        },
                    ));
                } else {
                    assert(job.awaits(
                        Op::Thumbnail {
                            width: UNBOUNDED,
                            height: job.height,
                            size,
                            crop: false,
                        },
                    ));
                }
                lemma_resized_fills(from, made, job.width, job.height, size, by_width);
                let area = frame_of(face, preview, made, job.width, job.height);
                assert(area.width == lesser(job.width, made.width));
                assert(area.height == lesser(job.height, made.height));
            },
            Phase::Frame { area } => {
                assert(job.awaits(Op::ExtractArea(area)));
            },
            _ => {},
        }
    }
}

/// A job that is on track is so at its end.
proof fn lemma_ends_on_track(job: Job, from: Image, current: Image, replies: Seq<Reply>)
    requires
        job.wf(),
        fits(job, replies),
        from.width > 0,
        from.height > 0,
        job.phase == Phase::Header && replies.len() > 0 ==> (replies[0] matches Reply::Opened {
            image,
            swapped,
        } ==> from == upright(image, swapped)),
        job.wants_face() ==> stays_in_range(from, job.width, job.height),
        are_kept(job, from, current, replies),
        is_on_track(job, from, current),
        state_after(job, replies) is Some,
    ensures
        is_on_track(state_after(job, replies)->0, from, size_after(current, replies)),
        state_after(job, replies)->0.layout == job.layout,
        state_after(job, replies)->0.width == job.width,
        state_after(job, replies)->0.height == job.height,
    decreases replies.len(),
{
    if replies.len() > 0 {
        lemma_stays_on_track(job, from, current, replies[0]);
        if let Ok(Progress::Next(next)) = job.after(replies[0]) {
            assert(next.wf());
            assert(next.phase != Phase::Header);
            lemma_ends_on_track(
                next,
                from,
                size_after_reply(current, replies[0]),
                replies.drop_first(),
            );
        }
    }
}

/// The result has the size that its fit promises, as long as libvips makes images of the size that
/// it is asked for: when a job comes to encode its image, that is exactly as large as the box for
/// `cover` and `blur`, as much of the box as the input has on each axis for `crop`, and the input
/// shrunk to fit inside the box, or kept, for `scale-down`. Gravity makes no difference to it.
/// `nothing` stands for the size before an image is made.
pub proof fn law_result_has_its_size(
    job: Job,
    image: Image,
    swapped: bool,
    nothing: Image,
    replies: Seq<Reply>,
)
    requires
        job.wf(),
        job.phase == Phase::Header,
        fits(job, replies),
        replies.len() > 0,
        replies[0] == (Reply::Opened { image, swapped }),
        image.width > 0,
        image.height > 0,
        job.wants_face() ==> stays_in_range(upright(image, swapped), job.width, job.height),
        are_kept(job, upright(image, swapped), nothing, replies),
        state_after(job, replies) matches Some(last) && last.phase == Phase::Save,
    ensures
        is_result(
            job.layout,
            upright(image, swapped),
            size_after(nothing, replies),
            job.width,
            job.height,
        ),
{
    lemma_ends_on_track(job, upright(image, swapped), nothing, replies);
}

/// A picture: its size, and the bands of each pixel.
pub struct Picture {
    pub size: Image,
    pub pixel: spec_fn(int, int) -> Seq<u8>,
}

/// A place is inside a picture of this size.
pub open spec fn is_inside(x: int, y: int, size: Image) -> bool {
    0 <= x < size.width && 0 <= y < size.height
}

/// `made` is `sub` pasted onto `base` with its top-left corner at (`x`, `y`).
pub open spec fn is_pasted(base: Picture, sub: Picture, x: int, y: int, made: Picture) -> bool {
    &&& made.size == base.size
    &&& forall|i: int, j: int|
        is_inside(i, j, base.size) ==> #[trigger] (made.pixel)(i, j) == (if is_inside(
            i - x,
            j - y,
            sub.size,
        ) {
            (sub.pixel)(i - x, j - y)
        } else {
            (base.pixel)(i, j)
        })
}

/// A blurred layout shows the front image sharp and in the middle of the box, pixel for pixel, as
/// long as libvips makes images of the size that it is asked for and pastes what it is given. Where
/// the front image is as large as the box, nothing else is to be seen.
pub proof fn law_blur_shows_the_front(
    job: Job,
    image: Image,
    swapped: bool,
    nothing: Image,
    replies: Seq<Reply>,
    front: Picture,
    back: Picture,
    op: Op,
    made: Picture,
)
    requires
        job.wf(),
        job.layout == Layout::Blur,
        job.phase == Phase::Header,
        fits(job, replies),
        replies.len() == 6,
        state_after(job, replies) is Some,
        replies[0] == (Reply::Opened { image, swapped }),
        image.width > 0,
        image.height > 0,
        are_kept(job, upright(image, swapped), nothing, replies),
        replies[2] == Reply::Made(front.size),
        replies[5] == Reply::Made(back.size),
        state_after(job, replies)->0.awaits(op),
        op matches Op::Insert { x, y } && is_pasted(back, front, x as int, y as int, made),
    ensures
        is_fitted(upright(image, swapped), front.size, job.width, job.height, Size::Down),
        made.size == (Image { width: job.width, height: job.height }),
        forall|i: int, j: int|
            #![trigger (front.pixel)(i, j)]
            is_inside(i, j, front.size) ==> (made.pixel)(
                i + half(job.width - front.size.width),
                j + half(job.height - front.size.height),
            ) == (front.pixel)(i, j),
        front.size == made.size ==> forall|i: int, j: int|
            is_inside(i, j, made.size) ==> #[trigger] (made.pixel)(i, j) == (front.pixel)(i, j),
{
    let from = upright(image, swapped);
    law_blur_pastes_the_front(job, replies);
    lemma_ends_on_track(job, from, nothing, replies);
    reveal_with_fuel(are_kept, 4);
    reveal_with_fuel(size_after, 7);
    let r1 = replies.drop_first();
    let r2 = r1.drop_first();
    let r3 = r2.drop_first();
    let r4 = r3.drop_first();
    let r5 = r4.drop_first();
    assert(r1[0] == replies[1] && r2[0] == replies[2] && r5[0] == replies[5]);
    assert(size_after(nothing, replies) == back.size);
    let first = Job { phase: Phase::Front, ..job };
    let second = Job { phase: Phase::Hold, ..job };
    assert(job.after(replies[0]) == Ok::<Progress, Error>(Progress::Next(first)))
        by {
        assert(replies.take(1).drop_first() =~= Seq::empty());
        reveal_with_fuel(state_after, 2);
    }
    assert(fits(first, r1));
    assert(first.takes(r1[0]));
    assert(r1[0] is Made) by {
        assert(state_after(first, r1) is Some);
    }
    assert(first.awaits(
        Op::Thumbnail { width: job.width, height: job.height, size: Size::Down, crop: false },
    ));
    assert(second.awaits(Op::CopyMemory));
    lemma_fitted_inside(from, front.size, job.width, job.height);
    let x = half(job.width - front.size.width);
    let y = half(job.height - front.size.height);
    assert forall|i: int, j: int|
        #![trigger (front.pixel)(i, j)]
        is_inside(i, j, front.size) implies (made.pixel)(i + x, j + y) == (front.pixel)(i, j) by {
        if 0 <= front.size.width && 0 <= front.size.height {
            assert(is_inside(i + x, j + y, back.size));
        }
    }
}

} // verus!
