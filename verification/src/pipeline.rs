//! The steps of a resize/encode job. Each step is one libvips operation; its outcome decides the
//! next one.

use crate::crop::fits_on;
use crate::crop::found_on;
use crate::crop::frame;
use crate::crop::frame_of;
use crate::crop::Area;
use crate::face::group::Face;
use crate::transform::Config;
use crate::transform::Error;
use crate::transform::Format;
use crate::transform::Gravity;
use crate::transform::Output;
use crate::transform::MAX_AVIF_SPEED;
use crate::transform::MAX_DIMENSION;
use crate::transform::UNBOUNDED;
use crate::vips::Image;
use crate::vips::Size;
use crate::vips::VipsError;
use vstd::arithmetic::div_mod::*;
use vstd::arithmetic::mul::*;
use vstd::prelude::*;

verus! {

/// Blur of the backdrop at full size.
pub const BLUR_SIGMA: i32 = 20;

/// The blur backdrop is computed at 1/`BLUR_DOWNSCALE` size, then scaled back up.
pub const BLUR_DOWNSCALE: i32 = 8;

/// Long edge of the image on which faces are looked for. A detection window is 5% of it.
pub const PREVIEW_SIZE: i32 = 480;

/// How an image is laid out in its box.
#[derive(Debug, Clone, Copy, PartialEq, Eq, Structural)]
pub enum Layout {
    /// Shrunk to fit inside.
    ScaleDown,
    /// Resized to fill it, with the overflow cut off.
    Fill { size: Size, gravity: Gravity },
    /// Shrunk to fit inside, on a blurred copy that fills it.
    Blur,
}

/// An operation that libvips is to perform.
#[derive(Debug)]
pub enum Op {
    /// Open the input, reading only its header.
    Header,
    /// Decode the input straight to fit a box. `crop` fills the box and centre-crops the overflow.
    Thumbnail { width: i32, height: i32, size: Size, crop: bool },
    /// Render the image into RAM, and hold on to it.
    CopyMemory,
    /// Fit the image into a box.
    ThumbnailImage { width: i32, height: i32, size: Size, crop: bool },
    /// Blur the image by `sigma` / `divisor`.
    Gaussblur { sigma: i32, divisor: i32 },
    /// Paste the image that is held onto the image, with its top-left corner at (`x`, `y`).
    Insert { x: i32, y: i32 },
    /// Look for a face on the image: greyscale, histogram-equalised, alpha dropped.
    DetectFace,
    /// Cut a part out of the image.
    ExtractArea(Area),
    /// Encode the image.
    Save { suffix: String },
}

/// How an operation came out.
#[derive(Debug)]
pub enum Reply {
    /// The size of the input, and whether its EXIF orientation swaps width and height.
    Opened { image: Image, swapped: bool },
    /// The size of the image that was made.
    Made(Image),
    /// The face that was found.
    Found(Option<Face>),
    /// The encoded image.
    Saved(Vec<u8>),
    Failed(VipsError),
}

/// The operation that a job waits for, with what is left over from earlier ones.
#[derive(Debug, Clone, Copy, PartialEq, Eq, Structural)]
pub enum Phase {
    /// The header is opened.
    Header,
    /// The whole result is made by a single thumbnail.
    Whole,
    /// Blur: the image that goes in front is made.
    Front,
    /// Blur: the front image is rendered.
    Hold,
    /// Blur: a small backdrop is made of the front image.
    Shrink { front: Image },
    /// Blur: the small backdrop is blurred.
    Soften { front: Image },
    /// Blur: the backdrop is brought to its size.
    Grow { front: Image },
    /// Blur: the front image is put on the backdrop.
    Paste { front: Image },
    /// Face: the image on which faces are looked for is made.
    Preview { by_width: bool },
    /// Face: a face is looked for.
    Detect { by_width: bool, preview: Image },
    /// Face: the image is resized so that it fills the box.
    Resize { by_width: bool, preview: Image, face: Face },
    /// Face: the part around the face is cut out.
    Frame { area: Area },
    /// The result is encoded.
    Save,
}

/// A resize/encode job.
#[derive(Debug)]
pub struct Job {
    pub layout: Layout,
    pub width: i32,
    pub height: i32,
    pub format: Format,
    pub quality: Option<u8>,
    pub config: Config,
    pub phase: Phase,
}

/// What a job does after an operation has succeeded.
#[derive(Debug)]
pub enum Progress {
    Next(Job),
    Finished(Output),
}

/// Half of `n`, rounded towards zero.
pub open spec fn half(n: int) -> int {
    if n >= 0 {
        n / 2
    } else {
        -(-n / 2)
    }
}

/// Size of the small backdrop on an axis.
pub open spec fn backdrop_size(n: i32) -> i32 {
    if n / BLUR_DOWNSCALE >= 1 {
        (n / BLUR_DOWNSCALE) as i32
    } else {
        1
    }
}

/// An image of this size has to be as wide as the box to fill it, rather than as high.
pub open spec fn width_binds(image: Image, swapped: bool, width: i32, height: i32) -> bool {
    if swapped {
        width * image.width >= height * image.height
    } else {
        width * image.height >= height * image.width
    }
}

/// The thumbnail that makes the whole result.
pub open spec fn whole_op(layout: Layout, width: i32, height: i32) -> Op {
    match layout {
        Layout::Fill { size, .. } => Op::Thumbnail { width, height, size, crop: true },
        _ => Op::Thumbnail { width, height, size: Size::Down, crop: false },
    }
}

impl Job {
    /// The box is at most [`MAX_DIMENSION`] on each axis, or without a limit where nothing has to
    /// be filled. Phases of a layout only occur in it, and the encoder's speed is in range where
    /// it matters.
    pub open spec fn wf(&self) -> bool {
        &&& 1 <= self.width <= MAX_DIMENSION || self.width == UNBOUNDED
        &&& 1 <= self.height <= MAX_DIMENSION || self.height == UNBOUNDED
        &&& self.layout != Layout::ScaleDown ==> self.width <= MAX_DIMENSION && self.height
            <= MAX_DIMENSION
        &&& self.format == Format::Avif ==> self.config.avif_speed <= MAX_AVIF_SPEED
        &&& match self.phase {
            Phase::Header | Phase::Save => true,
            Phase::Whole => self.layout != Layout::Blur,
            Phase::Front | Phase::Hold => self.layout == Layout::Blur,
            Phase::Shrink { front } | Phase::Soften { front } | Phase::Grow { front }
            | Phase::Paste { front } => {
                &&& self.layout == Layout::Blur
                &&& self.width - front.width <= i32::MAX
                &&& self.height - front.height <= i32::MAX
            },
            Phase::Preview { .. } | Phase::Detect { .. } | Phase::Frame { .. } => self.wants_face(),
            Phase::Resize { preview, face, .. } => self.wants_face() && found_on(face, preview),
        }
    }

    /// The image is cut around a face.
    pub open spec fn wants_face(&self) -> bool {
        self.layout matches Layout::Fill { gravity, .. } && gravity == Gravity::Face
    }

    /// The operation that is to be performed next is `op`.
    pub open spec fn awaits(&self, op: Op) -> bool {
        match self.phase {
            Phase::Header => op == Op::Header,
            Phase::Whole => op == whole_op(self.layout, self.width, self.height),
            Phase::Front => op == (Op::Thumbnail {
                width: self.width,
                height: self.height,
                size: Size::Down,
                crop: false,
            }),
            Phase::Hold => op == Op::CopyMemory,
            Phase::Shrink { .. } => op == (Op::ThumbnailImage {
                width: backdrop_size(self.width),
                height: backdrop_size(self.height),
                size: Size::Both,
                crop: true,
            }),
            Phase::Soften { .. } => op == (Op::Gaussblur {
                sigma: BLUR_SIGMA,
                divisor: BLUR_DOWNSCALE,
            }),
            Phase::Grow { .. } => op == (Op::ThumbnailImage {
                width: self.width,
                height: self.height,
                size: Size::Both,
                crop: true,
            }),
            Phase::Paste { front } => op == (Op::Insert {
                x: half(self.width - front.width) as i32,
                y: half(self.height - front.height) as i32,
            }),
            Phase::Preview { .. } => op == (Op::Thumbnail {
                width: PREVIEW_SIZE,
                height: PREVIEW_SIZE,
                size: Size::Down,
                crop: false,
            }),
            Phase::Detect { .. } => op == Op::DetectFace,
            Phase::Resize { by_width, .. } => op == (Op::Thumbnail {
                width: if by_width {
                    self.width
                } else {
                    UNBOUNDED
                },
                height: if by_width {
                    UNBOUNDED
                } else {
                    self.height
                },
                size: self.layout->size,
                crop: false,
            }),
            Phase::Frame { area } => op == Op::ExtractArea(area),
            Phase::Save => op matches Op::Save { suffix } && suffix@ == self.format.suffix(
                self.quality,
                self.config.avif_speed,
            ),
        }
    }

    /// The operation that is to be performed next.
    pub fn op(&self) -> (op: Op)
        requires
            self.wf(),
        ensures
            self.awaits(op),
    {
        match self.phase {
            Phase::Header => Op::Header,
            Phase::Whole => match self.layout {
                Layout::Fill { size, .. } => Op::Thumbnail {
                    width: self.width,
                    height: self.height,
                    size,
                    crop: true,
                },
                _ => Op::Thumbnail {
                    width: self.width,
                    height: self.height,
                    size: Size::Down,
                    crop: false,
                },
            },
            Phase::Front => Op::Thumbnail {
                width: self.width,
                height: self.height,
                size: Size::Down,
                crop: false,
            },
            Phase::Hold => Op::CopyMemory,
            Phase::Shrink { .. } => Op::ThumbnailImage {
                width: small_backdrop(self.width),
                height: small_backdrop(self.height),
                size: Size::Both,
                crop: true,
            },
            Phase::Soften { .. } => Op::Gaussblur { sigma: BLUR_SIGMA, divisor: BLUR_DOWNSCALE },
            Phase::Grow { .. } => Op::ThumbnailImage {
                width: self.width,
                height: self.height,
                size: Size::Both,
                crop: true,
            },
            Phase::Paste { front } => Op::Insert {
                x: halve(self.width - front.width),
                y: halve(self.height - front.height),
            },
            Phase::Preview { .. } => Op::Thumbnail {
                width: PREVIEW_SIZE,
                height: PREVIEW_SIZE,
                size: Size::Down,
                crop: false,
            },
            Phase::Detect { .. } => Op::DetectFace,
            Phase::Resize { by_width, .. } => {
                let size: Size = match self.layout {
                    Layout::Fill { size, .. } => size,
                    _ => Size::Down,
                };
                if by_width {
                    Op::Thumbnail { width: self.width, height: UNBOUNDED, size, crop: false }
                } else {
                    Op::Thumbnail { width: UNBOUNDED, height: self.height, size, crop: false }
                }
            },
            Phase::Frame { area } => Op::ExtractArea(area),
            Phase::Save => Op::Save {
                suffix: self.format.save_suffix(self.quality, self.config.avif_speed),
            },
        }
    }
}

impl Job {
    /// `reply` is an outcome of the operation that the job waits for: a failure, or the image,
    /// face or file that the operation makes.
    pub open spec fn takes(&self, reply: Reply) -> bool {
        match (self.phase, reply) {
            (_, Reply::Failed(_)) => true,
            (Phase::Header, Reply::Opened { .. }) => true,
            (Phase::Hold, Reply::Made(front)) => {
                &&& self.width - front.width <= i32::MAX
                &&& self.height - front.height <= i32::MAX
            },
            (Phase::Detect { preview, .. }, Reply::Found(face)) => face matches Some(face)
                ==> found_on(face, preview),
            (Phase::Resize { .. }, Reply::Made(made)) => made.width > 0 && made.height > 0,
            (Phase::Header | Phase::Detect { .. } | Phase::Save, Reply::Made(_)) => false,
            (_, Reply::Made(_)) => true,
            (Phase::Save, Reply::Saved(_)) => true,
            _ => false,
        }
    }

    /// Whether a reply is an outcome of the operation that the job waits for.
    pub fn can_take(&self, reply: &Reply) -> (r: bool)
        requires
            self.wf(),
        ensures
            r == self.takes(*reply),
    {
        match (self.phase, reply) {
            (_, Reply::Failed(_)) => true,
            (Phase::Header, Reply::Opened { .. }) => true,
            (Phase::Hold, Reply::Made(front)) => self.width as i64 - front.width as i64
                <= i32::MAX as i64 && self.height as i64 - front.height as i64 <= i32::MAX as i64,
            (Phase::Detect { preview, .. }, Reply::Found(face)) => match face {
                Some(face) => fits_on(face, &preview),
                None => true,
            },
            (Phase::Resize { .. }, Reply::Made(made)) => made.width > 0 && made.height > 0,
            (Phase::Header | Phase::Detect { .. } | Phase::Save, Reply::Made(_)) => false,
            (_, Reply::Made(_)) => true,
            (Phase::Save, Reply::Saved(_)) => true,
            _ => false,
        }
    }

    /// The phase that follows once the header has been accepted.
    pub open spec fn first_phase(&self, image: Image, swapped: bool) -> Phase {
        match self.layout {
            Layout::ScaleDown => Phase::Whole,
            Layout::Fill { gravity, .. } => if gravity == Gravity::Face {
                Phase::Preview { by_width: width_binds(image, swapped, self.width, self.height) }
            } else {
                Phase::Whole
            },
            Layout::Blur => Phase::Front,
        }
    }

    /// The phase that follows on a successful reply.
    pub open spec fn next_phase(&self, reply: Reply) -> Phase {
        match (self.phase, reply) {
            (Phase::Header, Reply::Opened { image, swapped }) => self.first_phase(image, swapped),
            (Phase::Front, _) => Phase::Hold,
            (Phase::Hold, Reply::Made(front)) => Phase::Shrink { front },
            (Phase::Shrink { front }, _) => Phase::Soften { front },
            (Phase::Soften { front }, _) => Phase::Grow { front },
            (Phase::Grow { front }, _) => Phase::Paste { front },
            (Phase::Preview { by_width }, Reply::Made(preview)) => Phase::Detect {
                by_width,
                preview,
            },
            (Phase::Detect { by_width, preview }, Reply::Found(Some(face))) => Phase::Resize {
                by_width,
                preview,
                face,
            },
            (Phase::Detect { .. }, _) => Phase::Whole,
            (Phase::Resize { preview, face, .. }, Reply::Made(made)) => Phase::Frame {
                area: frame_of(face, preview, made, self.width, self.height),
            },
            _ => Phase::Save,
        }
    }

    /// How many operations the job can still need.
    pub open spec fn remaining(&self) -> nat {
        match self.phase {
            Phase::Header => 8,
            Phase::Front => 7,
            Phase::Hold => 6,
            Phase::Shrink { .. } => 5,
            Phase::Soften { .. } => 4,
            Phase::Grow { .. } => 3,
            Phase::Paste { .. } => 2,
            Phase::Preview { .. } => 5,
            Phase::Detect { .. } => 4,
            Phase::Resize { .. } => 3,
            Phase::Frame { .. } => 2,
            Phase::Whole => 2,
            Phase::Save => 1,
        }
    }

    /// What becomes of the job. An input with too many pixels is rejected before any of them are
    /// decoded.
    pub open spec fn after(self, reply: Reply) -> Result<Progress, Error> {
        match reply {
            Reply::Failed(error) => Err(Error::Vips(error)),
            Reply::Opened { image, .. } if image.area() > self.config.max_input_pixels => Err(
                Error::TooLarge(self.config.max_input_pixels),
            ),
            Reply::Saved(bytes) => Ok(Progress::Finished(Output { format: self.format, bytes })),
            _ => Ok(Progress::Next(Job { phase: self.next_phase(reply), ..self })),
        }
    }

    /// Goes on with the outcome of the operation that the job waited for.
    pub fn resume(self, reply: Reply) -> (progress: Result<Progress, Error>)
        requires
            self.wf(),
            self.takes(reply),
        ensures
            progress == self.after(reply),
            progress matches Ok(Progress::Next(job)) ==> job.wf() && job.remaining()
                < self.remaining(),
    {
        let phase: Phase = match (self.phase, reply) {
            (_, Reply::Failed(error)) => return Err(Error::Vips(error)),
            (Phase::Header, Reply::Opened { image, swapped }) => {
                if image.pixel_count() > self.config.max_input_pixels {
                    return Err(Error::TooLarge(self.config.max_input_pixels));
                }
                match self.layout {
                    Layout::ScaleDown => Phase::Whole,
                    Layout::Fill { gravity: Gravity::Centre, .. } => Phase::Whole,
                    Layout::Fill { gravity: Gravity::Face, .. } => Phase::Preview {
                        by_width: does_width_bind(&image, swapped, self.width, self.height),
                    },
                    Layout::Blur => Phase::Front,
                }
            },
            (Phase::Front, _) => Phase::Hold,
            (Phase::Hold, Reply::Made(front)) => Phase::Shrink { front },
            (Phase::Shrink { front }, _) => Phase::Soften { front },
            (Phase::Soften { front }, _) => Phase::Grow { front },
            (Phase::Grow { front }, _) => Phase::Paste { front },
            (Phase::Preview { by_width }, Reply::Made(preview)) => Phase::Detect {
                by_width,
                preview,
            },
            (Phase::Detect { by_width, preview }, Reply::Found(Some(face))) => Phase::Resize {
                by_width,
                preview,
                face,
            },
            (Phase::Detect { .. }, _) => Phase::Whole,
            (Phase::Resize { preview, face, .. }, Reply::Made(made)) => Phase::Frame {
                area: frame(&face, &preview, &made, self.width, self.height),
            },
            (_, Reply::Saved(bytes)) => {
                return Ok(Progress::Finished(Output { format: self.format, bytes }));
            },
            _ => Phase::Save,
        };
        Ok(
            Progress::Next(
                Job {
                    layout: self.layout,
                    width: self.width,
                    height: self.height,
                    format: self.format,
                    quality: self.quality,
                    config: self.config,
                    phase,
                },
            ),
        )
    }
}

fn does_width_bind(image: &Image, swapped: bool, width: i32, height: i32) -> (r: bool)
    requires
        1 <= width <= MAX_DIMENSION,
        1 <= height <= MAX_DIMENSION,
    ensures
        r == width_binds(*image, swapped, width, height),
{
    let (across, down): (i64, i64) = if swapped {
        (image.height as i64, image.width as i64)
    } else {
        (image.width as i64, image.height as i64)
    };
    proof {
        assert(-0x8000_0000 * 8192 <= width * down <= 0x8000_0000 * 8192) by (nonlinear_arith)
            requires
                1 <= width <= 8192,
                -0x8000_0000 <= down <= 0x7fff_ffff,
        ;
        assert(-0x8000_0000 * 8192 <= height * across <= 0x8000_0000 * 8192) by (nonlinear_arith)
            requires
                1 <= height <= 8192,
                -0x8000_0000 <= across <= 0x7fff_ffff,
        ;
    }
    width as i64 * down >= height as i64 * across
}

fn small_backdrop(n: i32) -> (size: i32)
    requires
        n >= 1,
    ensures
        size == backdrop_size(n),
{
    if n / BLUR_DOWNSCALE >= 1 {
        n / BLUR_DOWNSCALE
    } else {
        1
    }
}

fn halve(n: i32) -> (r: i32)
    ensures
        r == half(n as int),
{
    if n >= 0 {
        n / 2
    } else if n == i32::MIN {
        -0x4000_0000
    } else {
        -(-n / 2)
    }
}

/// The replies are, one after the other, outcomes of the operations that the job waits for.
pub open spec fn fits(job: Job, replies: Seq<Reply>) -> bool
    decreases replies.len(),
{
    replies.len() > 0 ==> {
        &&& job.takes(replies[0])
        &&& job.after(replies[0]) matches Ok(Progress::Next(next)) ==> fits(
            next,
            replies.drop_first(),
        )
    }
}

/// How the job ends on these replies, if they bring it to its end.
pub open spec fn end(job: Job, replies: Seq<Reply>) -> Option<Result<Output, Error>>
    decreases replies.len(),
{
    if replies.len() == 0 {
        None
    } else {
        match job.after(replies[0]) {
            Ok(Progress::Next(next)) => end(next, replies.drop_first()),
            Ok(Progress::Finished(output)) => Some(Ok(output)),
            Err(error) => Some(Err(error)),
        }
    }
}

/// What the job waits for after these replies, if they do not bring it to its end.
pub open spec fn state_after(job: Job, replies: Seq<Reply>) -> Option<Job>
    decreases replies.len(),
{
    if replies.len() == 0 {
        Some(job)
    } else {
        match job.after(replies[0]) {
            Ok(Progress::Next(next)) => state_after(next, replies.drop_first()),
            _ => None,
        }
    }
}

/// A step keeps the job's invariant and brings it nearer to its end.
proof fn lemma_step(job: Job, reply: Reply)
    requires
        job.wf(),
        job.takes(reply),
    ensures
        job.after(reply) matches Ok(Progress::Next(next)) ==> {
            &&& next.wf()
            &&& next.remaining() < job.remaining()
            &&& next.format == job.format
            &&& next.layout == job.layout
        },
{
}

/// Every job comes to an end, within as many operations as it says it can need.
pub proof fn law_job_ends(job: Job, replies: Seq<Reply>)
    requires
        job.wf(),
        fits(job, replies),
        replies.len() >= job.remaining(),
    ensures
        end(job, replies) is Some,
    decreases replies.len(),
{
    lemma_step(job, replies[0]);
    if let Ok(Progress::Next(next)) = job.after(replies[0]) {
        law_job_ends(next, replies.drop_first());
    }
}

/// What a job makes is in the job's format, and is what the last operation, the encoder, wrote.
pub proof fn law_output_is_what_was_saved(job: Job, replies: Seq<Reply>)
    requires
        job.wf(),
        fits(job, replies),
        end(job, replies) matches Some(Ok(_)),
    ensures
        end(job, replies) matches Some(Ok(output)) && output.format == job.format && exists|k: int|
            0 <= k < replies.len() && #[trigger] replies[k] == Reply::Saved(output.bytes),
    decreases replies.len(),
{
    lemma_step(job, replies[0]);
    if let Ok(Progress::Next(next)) = job.after(replies[0]) {
        let rest = replies.drop_first();
        law_output_is_what_was_saved(next, rest);
        let output = end(job, replies)->0->Ok_0;
        let k = choose|k: int|
            0 <= k < rest.len() && #[trigger] rest[k] == Reply::Saved(output.bytes);
        assert(replies[k + 1] == rest[k]);
    } else {
        let output = end(job, replies)->0->Ok_0;
        assert(replies[0] == Reply::Saved(output.bytes));
    }
}

/// A job ends in an error only if its input has too many pixels or an operation failed, and the
/// error says which.
pub proof fn law_errors_are_accounted_for(job: Job, replies: Seq<Reply>)
    requires
        job.wf(),
        fits(job, replies),
        end(job, replies) matches Some(Err(_)),
    ensures
        match end(job, replies) {
            Some(Err(Error::TooLarge(limit))) => {
                &&& limit == job.config.max_input_pixels
                &&& replies[0] matches Reply::Opened { image, .. } && image.area() > limit
            },
            Some(Err(Error::Vips(error))) => exists|k: int|
                0 <= k < replies.len() && #[trigger] replies[k] == Reply::Failed(error),
            _ => false,
        },
    decreases replies.len(),
{
    lemma_step(job, replies[0]);
    if let Ok(Progress::Next(next)) = job.after(replies[0]) {
        let rest = replies.drop_first();
        law_errors_are_accounted_for(next, rest);
        if let Some(Err(Error::Vips(error))) = end(job, replies) {
            let k = choose|k: int| 0 <= k < rest.len() && #[trigger] rest[k] == Reply::Failed(error);
            assert(replies[k + 1] == rest[k]);
        } else {
            // Only the first operation opens the input.
            assert(fits(next, rest) && end(next, rest) is Some);
            assert(next.takes(rest[0]));
        }
    } else if let Reply::Failed(error) = replies[0] {
        assert(end(job, replies) == Some(Err::<Output, Error>(Error::Vips(error))));
    }
}

/// An input with too many pixels is rejected before any of them are decoded: only its header is
/// opened, and the job ends there.
pub proof fn law_large_input_is_not_decoded(job: Job, replies: Seq<Reply>, op: Op)
    requires
        job.wf(),
        job.phase == Phase::Header,
        replies.len() > 0,
        replies[0] matches Reply::Opened { image, .. } && image.area()
            > job.config.max_input_pixels,
        job.awaits(op),
    ensures
        op == Op::Header,
        job.after(replies[0]) == Err::<Progress, Error>(
            Error::TooLarge(job.config.max_input_pixels),
        ),
        end(job, replies) == Some(
            Err::<Output, Error>(Error::TooLarge(job.config.max_input_pixels)),
        ),
{
}

/// Success is owed: if no operation fails and the input is not too large, the job ends with an
/// image in its format.
pub proof fn law_job_succeeds(job: Job, replies: Seq<Reply>)
    requires
        job.wf(),
        fits(job, replies),
        replies.len() >= job.remaining(),
        forall|k: int|
            0 <= k < replies.len() ==> !(#[trigger] replies[k] matches Reply::Failed(_)),
        replies[0] matches Reply::Opened { image, .. } ==> image.area()
            <= job.config.max_input_pixels,
    ensures
        end(job, replies) matches Some(Ok(output)) && output.format == job.format,
{
    law_job_ends(job, replies);
    match end(job, replies) {
        Some(Ok(_)) => law_output_is_what_was_saved(job, replies),
        Some(Err(_)) => law_errors_are_accounted_for(job, replies),
        None => {},
    }
}

/// Only a layout that may enlarge has the input enlarged: every other one only ever shrinks it.
pub proof fn law_only_filling_enlarges(job: Job, op: Op)
    requires
        job.wf(),
        job.awaits(op),
        op matches Op::Thumbnail { size, .. } && size == Size::Both,
    ensures
        job.layout matches Layout::Fill { size, .. } && size == Size::Both,
{
}

/// The front image of a blurred layout stands in the middle of its box: the margins on both sides
/// of it differ by at most one pixel.
pub proof fn law_front_is_centred(size: int, front: int)
    requires
        0 <= front <= size,
    ensures
        ({
            let before = half(size - front);
            let behind = size - front - before;
            0 <= before <= behind <= before + 1
        }),
{
}

/// A blurred layout decodes the input once, for the front image, and makes its backdrop of that.
/// The front image is put on the backdrop as it was rendered, wholly inside the box, in its middle.
/// One that is as large as the box covers it.
pub proof fn law_blur_pastes_the_front(job: Job, replies: Seq<Reply>)
    requires
        job.wf(),
        job.layout == Layout::Blur,
        job.phase == Phase::Header,
        fits(job, replies),
        replies.len() == 6,
        state_after(job, replies) is Some,
    ensures
        state_after(job, replies.take(1)) == Some(Job { phase: Phase::Front, ..job }),
        state_after(job, replies.take(2)) == Some(Job { phase: Phase::Hold, ..job }),
        replies[2] matches Reply::Made(front) && {
            let x = half(job.width - front.width);
            let y = half(job.height - front.height);
            let last = Job { phase: Phase::Paste { front }, ..job };
            &&& state_after(job, replies.take(3)) == Some(
                Job { phase: Phase::Shrink { front }, ..job },
            )
            &&& state_after(job, replies.take(4)) == Some(
                Job { phase: Phase::Soften { front }, ..job },
            )
            &&& state_after(job, replies.take(5)) == Some(
                Job { phase: Phase::Grow { front }, ..job },
            )
            &&& state_after(job, replies) == Some(last)
            &&& forall|op: Op| #[trigger]
                last.awaits(op) ==> op == (Op::Insert { x: x as i32, y: y as i32 })
            &&& 0 <= front.width <= job.width ==> 0 <= x && x + front.width <= job.width
            &&& 0 <= front.height <= job.height ==> 0 <= y && y + front.height <= job.height
            &&& front.width == job.width ==> x == 0
            &&& front.height == job.height ==> y == 0
        },
{
    reveal_with_fuel(state_after, 7);
    reveal_with_fuel(fits, 7);
    let r1 = replies.drop_first();
    let r2 = r1.drop_first();
    let r3 = r2.drop_first();
    let r4 = r3.drop_first();
    let r5 = r4.drop_first();
    assert(r1[0] == replies[1] && r2[0] == replies[2] && r3[0] == replies[3] && r4[0] == replies[4]
        && r5[0] == replies[5]);
    assert(replies.take(1).drop_first() =~= Seq::empty());
    assert(replies.take(2).drop_first() =~= r1.take(1));
    assert(replies.take(3).drop_first() =~= r1.take(2));
    assert(replies.take(4).drop_first() =~= r1.take(3));
    assert(replies.take(5).drop_first() =~= r1.take(4));
    assert(r1.take(1).drop_first() =~= Seq::empty());
    assert(r1.take(2).drop_first() =~= r2.take(1));
    assert(r1.take(3).drop_first() =~= r2.take(2));
    assert(r1.take(4).drop_first() =~= r2.take(3));
    assert(r2.take(1).drop_first() =~= Seq::empty());
    assert(r2.take(2).drop_first() =~= r3.take(1));
    assert(r2.take(3).drop_first() =~= r3.take(2));
    assert(r3.take(1).drop_first() =~= Seq::empty());
    assert(r3.take(2).drop_first() =~= r4.take(1));
    assert(r4.take(1).drop_first() =~= Seq::empty());
}

/// Where no face is found, the result is made by the very thumbnail that makes it when the middle
/// of the image is to be kept.
pub proof fn law_no_face_keeps_the_middle(job: Job, size: Size, image: Image, swapped: bool, op: Op)
    requires
        job.wf(),
        job.phase matches Phase::Detect { .. },
        job.layout == (Layout::Fill { size, gravity: Gravity::Face }),
    ensures
        ({
            let middle = Job {
                layout: Layout::Fill { size, gravity: Gravity::Centre },
                phase: Phase::Header,
                ..job
            };
            let fallen_back = Job { phase: job.next_phase(Reply::Found(None)), ..job };
            let direct = Job { phase: middle.first_phase(image, swapped), ..middle };
            fallen_back.awaits(op) <==> direct.awaits(op)
        }),
{
}

/// An image that is as wide as the box where its width binds, or as high as the box where it does
/// not, covers the box on the other axis too.
pub proof fn law_bound_axis_covers(image: Image, swapped: bool, width: i32, height: i32)
    requires
        image.width > 0,
        image.height > 0,
        width > 0,
        height > 0,
    ensures
        ({
            let (across, down) = if swapped {
                (image.height as int, image.width as int)
            } else {
                (image.width as int, image.height as int)
            };
            if width_binds(image, swapped, width, height) {
                down * width / across >= height
            } else {
                across * height / down >= width
            }
        }),
{
    let (across, down) = if swapped {
        (image.height as int, image.width as int)
    } else {
        (image.width as int, image.height as int)
    };
    let (w, h) = (width as int, height as int);
    if width_binds(image, swapped, width, height) {
        lemma_mul_is_commutative(w, down);
        lemma_div_is_ordered(h * across, down * w, across);
        lemma_div_multiples_vanish(h, across);
        lemma_mul_is_commutative(h, across);
    } else {
        lemma_mul_is_commutative(h, across);
        lemma_div_is_ordered(w * down, across * h, down);
        lemma_div_multiples_vanish(w, down);
        lemma_mul_is_commutative(w, down);
    }
}

} // verus!
