//! What a request is checked for, and what it gets.

use crate::pipeline::fits;
use crate::pipeline::state_after;
use crate::pipeline::Job;
use crate::pipeline::Layout;
use crate::pipeline::Phase;
use crate::pipeline::Reply;
use crate::sizing::are_kept;
use crate::sizing::law_result_has_its_size;
use crate::sizing::size_after;
use crate::sizing::upright;
use crate::transform::is_started;
use crate::transform::job_of;
use crate::transform::sniffed;
use crate::transform::Config;
use crate::transform::Error;
use crate::transform::Fit;
use crate::transform::Format;
use crate::transform::Gravity;
use crate::transform::Params;
use crate::vips::Image;
use crate::vips::Size;
use vstd::prelude::*;

verus! {

/// A quality is from 1 to 100.
pub open spec fn has_good_quality(params: Params) -> bool {
    params.quality is None || 1 <= params.quality->0 <= 100
}

/// Width and height are from 1 to 8192.
pub open spec fn has_good_box(params: Params) -> bool {
    &&& params.width is None || 1 <= params.width->0 <= 8192
    &&& params.height is None || 1 <= params.height->0 <= 8192
}

/// A request is accepted exactly when its format is known and its parameters are in range. The
/// format is looked at first, then the quality, then the box; the client is told which it was.
pub proof fn law_bad_requests_are_refused(
    input: Seq<u8>,
    params: Params,
    config: Config,
    job: Result<Job, Error>,
)
    requires
        is_started(input, params, config, job),
    ensures
        job is Ok <==> sniffed(input) is Some && has_good_quality(params) && has_good_box(params),
        job matches Err(Error::UnsupportedFormat) <==> sniffed(input) is None,
        job matches Err(Error::InvalidParam(_)) <==> sniffed(input) is Some && !(has_good_quality(
            params,
        ) && has_good_box(params)),
        sniffed(input) is Some && !has_good_quality(params) ==> (job matches Err(
            Error::InvalidParam(message),
        ) && message@ == "quality must be 1..=100"@),
        sniffed(input) is Some && has_good_quality(params) && !has_good_box(params) ==> (
        job matches Err(Error::InvalidParam(message)) && message@
            == "width and height must be 1..=8192"@),
{
}

/// The job is the one that was asked for: the box is the requested one, without a limit where none
/// is given; the format is the requested one, or else that of the input; quality and settings are
/// passed on as they are. Only a full box is filled: enlarging for `cover`, without for `crop`,
/// around what gravity says; or blurred.
pub proof fn law_jobs_are_what_was_asked_for(
    input: Seq<u8>,
    params: Params,
    config: Config,
    job: Job,
)
    requires
        is_started(input, params, config, Ok(job)),
    ensures
        job.wf(),
        job.phase == Phase::Header,
        params.width is Some ==> job.width == params.width->0,
        params.width is None ==> job.width == 10_000_000,
        params.height is Some ==> job.height == params.height->0,
        params.height is None ==> job.height == 10_000_000,
        params.format is Some ==> job.format == params.format->0,
        params.format is None ==> Some(job.format) == sniffed(input),
        job.quality == params.quality,
        job.config == config,
        ({
            let full = params.width is Some && params.height is Some;
            &&& job.layout is Blur <==> full && params.fit == Fit::Blur
            &&& job.layout is Fill <==> full && (params.fit == Fit::Cover || params.fit
                == Fit::Crop)
            &&& job.layout matches Layout::Fill { size, gravity } ==> {
                &&& gravity == params.gravity
                &&& size == Size::Both <==> params.fit == Fit::Cover
            }
        }),
{
}

/// `x` is `n / d` rounded to one of the integers next to it.
pub open spec fn is_next_to(x: int, n: int, d: int) -> bool {
    x * d - d < n < x * d + d
}

/// The result of a scale-down into a box: the image as it is where it fits, and else the largest of
/// its aspect ratio, to within a pixel, that does.
pub open spec fn is_scaled_down(a: int, d: int, w: int, h: int, made: Image) -> bool {
    &&& made.width <= w
    &&& made.height <= h
    &&& made.width <= a
    &&& made.height <= d
    &&& a <= w && d <= h ==> made.width == a && made.height == d
    &&& !(a <= w && d <= h) ==> {
        ||| made.width == w && is_next_to(made.height as int, w * d, a)
        ||| made.height == h && is_next_to(made.width as int, h * a, d)
    }
}

/// From the request to the result: as long as libvips makes images of the size that it is asked for,
/// the image that is encoded is, in terms of the request's own width and height, exactly the box for
/// `cover` and `blur`; as much of the box as the input has on each axis for `crop`; and else, or
/// where the box is not complete, the input scaled down into it.
pub proof fn law_requests_get_the_size_they_ask_for(
    input: Seq<u8>,
    params: Params,
    config: Config,
    job: Job,
    image: Image,
    swapped: bool,
    nothing: Image,
    replies: Seq<Reply>,
    w: int,
    h: int,
)
    requires
        is_started(input, params, config, Ok(job)),
        params.width is Some ==> w == params.width->0,
        params.width is None ==> w == 10_000_000,
        params.height is Some ==> h == params.height->0,
        params.height is None ==> h == 10_000_000,
        fits(job, replies),
        replies.len() > 0,
        replies[0] == (Reply::Opened { image, swapped }),
        image.width > 0,
        image.height > 0,
        params.gravity == Gravity::Face ==> {
            let (a, d) = if swapped {
                (image.height as int, image.width as int)
            } else {
                (image.width as int, image.height as int)
            };
            a <= 10_000_000 && d <= 10_000_000 && w * d <= 10_000_000 * a && h * a <= 10_000_000
                * d
        },
        are_kept(job, upright(image, swapped), nothing, replies),
        state_after(job, replies) is Some,
        state_after(job, replies)->0.phase == Phase::Save,
    ensures
        ({
            let (a, d) = if swapped {
                (image.height as int, image.width as int)
            } else {
                (image.width as int, image.height as int)
            };
            let made = size_after(nothing, replies);
            let full = params.width is Some && params.height is Some;
            if full && (params.fit == Fit::Cover || params.fit == Fit::Blur) {
                made.width == w && made.height == h
            } else if full && params.fit == Fit::Crop {
                &&& made.width == w && w <= a || made.width == a && a <= w
                &&& made.height == h && h <= d || made.height == d && d <= h
            } else {
                is_scaled_down(a, d, w, h, made)
            }
        }),
{
    law_result_has_its_size(job, image, swapped, nothing, replies);
    let from = upright(image, swapped);
    let made = size_after(nothing, replies);
    let (a, d) = (from.width as int, from.height as int);
    let (x, y) = (made.width as int, made.height as int);
    assert((y - 1) * a == y * a - a && (y + 1) * a == y * a + a) by (nonlinear_arith);
    assert((x - 1) * d == x * d - d && (x + 1) * d == x * d + d) by (nonlinear_arith);
}

/// Without a box and a format an image keeps its size and its format, whatever else is asked for.
pub proof fn law_omitted_parameters_change_nothing(input: Format, params: Params, config: Config)
    requires
        params.width is None,
        params.height is None,
        params.format is None,
    ensures
        job_of(input, params, config).layout is ScaleDown,
        job_of(input, params, config).width == 10_000_000,
        job_of(input, params, config).height == 10_000_000,
        job_of(input, params, config).format == input,
{
}

} // verus!
