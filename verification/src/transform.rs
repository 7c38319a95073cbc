//! Request parameters, and what a request for a transformed image is checked for.

use crate::pipeline::end;
use crate::pipeline::fits;
use crate::pipeline::law_output_is_what_was_saved;
use crate::pipeline::Job;
use crate::pipeline::Layout;
use crate::pipeline::Phase;
use crate::pipeline::Reply;
use crate::text::append_decimal;
use crate::text::decimal;
use crate::vips::Size;
use crate::vips::VipsError;
use vstd::prelude::*;
use vstd::string::*;

verus! {

pub const MAX_DIMENSION: u32 = 8192;

/// ~0.9 GiB peak for an AVIF input, the most memory-hungry decoder (~9 MiB per megapixel).
pub const DEFAULT_MAX_INPUT_PIXELS: u64 = 100_000_000;

/// AVIF encoder speed, libaom-style: 0 slowest/smallest .. 9 fastest. On a Neoverse-N1 core, 9
/// costs ~40% bytes over 6 for ~80% less CPU, and still beats WebP on size.
pub const DEFAULT_AVIF_SPEED: u8 = 9;

pub const MAX_AVIF_SPEED: u8 = 9;

/// Stands in for "no limit" on an axis; below `VIPS_MAX_COORD` on every libvips version.
pub const UNBOUNDED: i32 = 10_000_000;

#[derive(Debug, Clone, Copy, PartialEq, Eq, Structural)]
pub enum Format {
    Jpeg,
    Png,
    Webp,
    Avif,
}

/// `b` starts with `magic` at `at`.
pub open spec fn has_bytes(b: Seq<u8>, at: int, magic: Seq<u8>) -> bool {
    &&& 0 <= at
    &&& at + magic.len() <= b.len()
    &&& b.subrange(at, at + magic.len()) == magic
}

/// The number that the first four bytes are in big-endian order.
pub open spec fn box_size(b: Seq<u8>) -> nat {
    (b[0] * 0x100_0000 + b[1] * 0x1_0000 + b[2] * 0x100 + b[3]) as nat
}

/// An AVIF brand stands at `at`.
pub open spec fn is_avif_brand(b: Seq<u8>, at: int) -> bool {
    has_bytes(b, at, seq![0x61u8, 0x76, 0x69, 0x66]) || has_bytes(
        b,
        at,
        seq![0x61u8, 0x76, 0x69, 0x73],
    )
}

/// An ISO-BMFF `ftyp` box (major brand, minor version, then compatible brands) in which one of
/// the four-byte groups behind its header is an AVIF brand. A box that is cut short counts as far
/// as it goes.
pub open spec fn is_avif(b: Seq<u8>) -> bool {
    &&& has_bytes(b, 4, seq![0x66u8, 0x74, 0x79, 0x70])
    &&& exists|k: nat|
        8 + 4 * k + 4 <= box_size(b) && 8 + 4 * k + 4 <= b.len() && #[trigger] is_avif_brand(
            b,
            (8 + 4 * k) as int,
        )
}

/// The format that the magic bytes of `b` stand for.
pub open spec fn sniffed(b: Seq<u8>) -> Option<Format> {
    if has_bytes(b, 0, seq![0xFFu8, 0xD8, 0xFF]) {
        Some(Format::Jpeg)
    } else if has_bytes(b, 0, seq![0x89u8, 0x50, 0x4E, 0x47]) {
        Some(Format::Png)
    } else if has_bytes(b, 0, seq![0x52u8, 0x49, 0x46, 0x46]) && has_bytes(
        b,
        8,
        seq![0x57u8, 0x45, 0x42, 0x50],
    ) {
        Some(Format::Webp)
    } else if is_avif(b) {
        Some(Format::Avif)
    } else {
        None
    }
}

/// Whether four given bytes stand at `at`.
fn four_at(b: &[u8], at: usize, m0: u8, m1: u8, m2: u8, m3: u8) -> (r: bool)
    requires
        at <= usize::MAX - 4,
    ensures
        r == has_bytes(b@, at as int, seq![m0, m1, m2, m3]),
{
    if b.len() < at + 4 {
        return false;
    }
    let r: bool = b[at] == m0 && b[at + 1] == m1 && b[at + 2] == m2 && b[at + 3] == m3;
    proof {
        let group = b@.subrange(at as int, at + 4);
        let magic = seq![m0, m1, m2, m3];
        if r {
            assert(group =~= magic);
        } else if group == magic {
            assert(group[0] == magic[0] && group[1] == magic[1] && group[2] == magic[2] && group[3]
                == magic[3]);
        }
    }
    r
}

impl Format {
    /// Identifies the input by magic bytes, so only these four decoders are ever reachable.
    pub fn sniff(b: &[u8]) -> (format: Option<Self>)
        ensures
            format == sniffed(b@),
    {
        if b.len() >= 3 && b[0] == 0xFF && b[1] == 0xD8 && b[2] == 0xFF {
            assert(b@.subrange(0, 3) =~= seq![0xFFu8, 0xD8, 0xFF]);
            return Some(Format::Jpeg);
        }
        proof {
            let magic = seq![0xFFu8, 0xD8, 0xFF];
            if has_bytes(b@, 0, magic) {
                let start = b@.subrange(0, 3);
                assert(start[0] == magic[0] && start[1] == magic[1] && start[2] == magic[2]);
            }
        }
        if four_at(b, 0, 0x89, 0x50, 0x4E, 0x47) {
            return Some(Format::Png);
        }
        if four_at(b, 0, 0x52, 0x49, 0x46, 0x46) && four_at(b, 8, 0x57, 0x45, 0x42, 0x50) {
            return Some(Format::Webp);
        }
        if !four_at(b, 4, 0x66, 0x74, 0x79, 0x70) {
            return None;
        }
        let size: u32 = b[0] as u32 * 0x100_0000 + b[1] as u32 * 0x1_0000 + b[2] as u32 * 0x100
            + b[3] as u32;
        let end: usize = if (size as usize) < b.len() {
            size as usize
        } else {
            b.len()
        };
        let mut at: usize = 8;
        let ghost mut k = 0nat;
        while at <= end && end - at >= 4
            invariant
                size == box_size(b@),
                end == size && end < b@.len() || end == b@.len() && end <= size,
                at == 8 + 4 * k,
                has_bytes(b@, 4, seq![0x66u8, 0x74, 0x79, 0x70]),
                !has_bytes(b@, 0, seq![0xFFu8, 0xD8, 0xFF]),
                !has_bytes(b@, 0, seq![0x89u8, 0x50, 0x4E, 0x47]),
                !(has_bytes(b@, 0, seq![0x52u8, 0x49, 0x46, 0x46]) && has_bytes(
                    b@,
                    8,
                    seq![0x57u8, 0x45, 0x42, 0x50],
                )),
                forall|j: nat| j < k ==> !#[trigger] is_avif_brand(b@, (8 + 4 * j) as int),
            decreases end + 4 - at,
        {
            assert(b.len() == b@.len());
            if four_at(b, at, 0x61, 0x76, 0x69, 0x66) || four_at(b, at, 0x61, 0x76, 0x69, 0x73) {
                assert(is_avif_brand(b@, (8 + 4 * k) as int));
                return Some(Format::Avif);
            }
            assert(!is_avif_brand(b@, (8 + 4 * k) as int));
            if end - at < 8 {
                assert forall|j: nat|
                    8 + 4 * j + 4 <= box_size(b@) && 8 + 4 * j + 4
                        <= b@.len() implies !#[trigger] is_avif_brand(b@, (8 + 4 * j) as int) by {
                    assert(j <= k);
                }
                return None;
            }
            at = at + 4;
            proof {
                k = k + 1;
            }
        }
        assert forall|j: nat|
            8 + 4 * j + 4 <= box_size(b@) && 8 + 4 * j + 4
                <= b@.len() implies !#[trigger] is_avif_brand(b@, (8 + 4 * j) as int) by {
            assert(j < k);
        }
        None
    }

    /// The name of the format.
    pub open spec fn named(self) -> Seq<char> {
        match self {
            Format::Jpeg => "jpeg"@,
            Format::Png => "png"@,
            Format::Webp => "webp"@,
            Format::Avif => "avif"@,
        }
    }

    pub fn name(self) -> (name: &'static str)
        ensures
            name@ == self.named(),
    {
        match self {
            Self::Jpeg => "jpeg",
            Self::Png => "png",
            Self::Webp => "webp",
            Self::Avif => "avif",
        }
    }

    pub fn mime(self) -> (mime: &'static str)
        ensures
            mime@ == "image/"@ + self.named(),
    {
        proof {
            reveal_strlit("image/");
            reveal_strlit("jpeg");
            reveal_strlit("png");
            reveal_strlit("webp");
            reveal_strlit("avif");
            reveal_strlit("image/jpeg");
            reveal_strlit("image/png");
            reveal_strlit("image/webp");
            reveal_strlit("image/avif");
        }
        match self {
            Self::Jpeg => "image/jpeg",
            Self::Png => "image/png",
            Self::Webp => "image/webp",
            Self::Avif => "image/avif",
        }
    }

    /// The libvips save options for a quality and an AVIF speed.
    pub open spec fn suffix(self, quality: Option<u8>, avif_speed: u8) -> Seq<char> {
        match self {
            Format::Jpeg => ".jpg[Q="@ + decimal(quality.unwrap_or(78) as nat)
                + ",optimize_coding,quant_table=3,keep=none]"@,
            Format::Webp => ".webp[Q="@ + decimal(quality.unwrap_or(83) as nat)
                + ",effort=2,keep=none]"@,
            Format::Avif => ".avif[Q="@ + decimal(
                quality.unwrap_or(avif_quality(avif_speed)) as nat,
            ) + ",effort="@ + decimal((MAX_AVIF_SPEED - avif_speed) as nat) + ",keep=none]"@,
            Format::Png => match quality {
                None => ".png[keep=none]"@,
                Some(q) => ".png[palette,Q="@ + decimal(q as nat) + ",keep=none]"@,
            },
        }
    }

    /// libvips save suffix. Metadata is always stripped; thumbnailing already converted to sRGB.
    ///
    /// Default qualities differ per format because each encoder's Q scale does: they are
    /// calibrated to the same SSIMULACRA2 score (~73, mozjpeg Q80).
    pub fn save_suffix(self, quality: Option<u8>, avif_speed: u8) -> (suffix: String)
        requires
            self == Format::Avif ==> avif_speed <= MAX_AVIF_SPEED,
        ensures
            suffix@ == self.suffix(quality, avif_speed),
    {
        let mut suffix: String = String::new();
        match self {
            // Table 3 (ImageMagick's) beats the libjpeg default on both size and SSIMULACRA2.
            Self::Jpeg => {
                suffix.append(".jpg[Q=");
                append_decimal(&mut suffix, quality.unwrap_or(78) as u64);
                suffix.append(",optimize_coding,quant_table=3,keep=none]");
            },
            // effort 2 (default 4): ~36% less CPU per request for ~3% more bytes.
            Self::Webp => {
                suffix.append(".webp[Q=");
                append_decimal(&mut suffix, quality.unwrap_or(83) as u64);
                suffix.append(",effort=2,keep=none]");
            },
            // libvips calls it effort and runs it the other way round (0 fastest .. 9 slowest).
            Self::Avif => {
                suffix.append(".avif[Q=");
                let q: u8 = quality.unwrap_or(default_avif_quality(avif_speed));
                append_decimal(&mut suffix, q as u64);
                suffix.append(",effort=");
                append_decimal(&mut suffix, (MAX_AVIF_SPEED - avif_speed) as u64);
                suffix.append(",keep=none]");
            },
            Self::Png => match quality {
                None => suffix.append(".png[keep=none]"),
                // An explicit quality makes PNG lossy: quantise to a palette.
                Some(q) => {
                    suffix.append(".png[palette,Q=");
                    append_decimal(&mut suffix, q as u64);
                    suffix.append(",keep=none]");
                },
            },
        }
        suffix
    }
}

/// Server-wide settings, fixed at startup.
#[derive(Debug, Clone, Copy)]
pub struct Config {
    /// `0..=MAX_AVIF_SPEED`.
    pub avif_speed: u8,
    /// Larger inputs are rejected before any pixels are decoded.
    pub max_input_pixels: u64,
}

impl Default for Config {
    fn default() -> (config: Self)
        ensures
            config.avif_speed == DEFAULT_AVIF_SPEED,
            config.max_input_pixels == DEFAULT_MAX_INPUT_PIXELS,
            config.avif_speed == 9,
            config.max_input_pixels == 100_000_000,
    {
        Self { avif_speed: DEFAULT_AVIF_SPEED, max_input_pixels: DEFAULT_MAX_INPUT_PIXELS }
    }
}

/// The default AVIF quality at a speed.
pub open spec fn avif_quality(speed: u8) -> u8 {
    if speed <= 6 {
        62
    } else if speed == 7 {
        66
    } else {
        69
    }
}

/// libaom loses quality per Q as it speeds up, so the default Q rises with speed to stay at the
/// shared SSIMULACRA2 target (measured at speeds 6, 7 and 9).
pub fn default_avif_quality(speed: u8) -> (quality: u8)
    ensures
        quality == avif_quality(speed),
{
    match speed {
        0..=6 => 62,
        7 => 66,
        _ => 69,
    }
}

#[derive(Debug, Clone, Copy, PartialEq, Eq, Structural)]
pub enum Fit {
    /// Shrink to fit inside the box, keeping aspect ratio. Never enlarges.
    ScaleDown,
    /// Resize (up or down) to fill the box exactly, cropping the overflow.
    Cover,
    /// Like `cover`, but never enlarges: an axis smaller than the box is kept as is.
    Crop,
    /// Fit inside the box without enlarging, on a blurred copy of the image filling the box.
    Blur,
}

impl Default for Fit {
    fn default() -> (fit: Self)
        ensures
            fit == Fit::ScaleDown,
    {
        Fit::ScaleDown
    }
}

/// What `cover` and `crop` keep in frame.
#[derive(Debug, Clone, Copy, PartialEq, Eq, Structural)]
pub enum Gravity {
    /// The middle of the image.
    Centre,
    /// The strongest face, as far as the edges allow; the middle where there is none.
    Face,
}

impl Default for Gravity {
    fn default() -> (gravity: Self)
        ensures
            gravity == Gravity::Centre,
    {
        Gravity::Centre
    }
}

#[derive(Debug, Clone, Copy)]
pub struct Params {
    pub width: Option<u32>,
    pub height: Option<u32>,
    pub fit: Fit,
    pub gravity: Gravity,
    pub quality: Option<u8>,
    /// Defaults to the input format.
    pub format: Option<Format>,
}

impl Default for Params {
    fn default() -> (params: Self)
        ensures
            params == (Params {
                width: None,
                height: None,
                fit: Fit::ScaleDown,
                gravity: Gravity::Centre,
                quality: None,
                format: None,
            }),
    {
        Params {
            width: None,
            height: None,
            fit: Fit::ScaleDown,
            gravity: Gravity::Centre,
            quality: None,
            format: None,
        }
    }
}

#[derive(Debug)]
pub enum Error {
    UnsupportedFormat,
    InvalidParam(&'static str),
    TooLarge(u64),
    Vips(VipsError),
}

impl Error {
    /// The text of the message.
    pub open spec fn text(&self) -> Seq<char> {
        match self {
            Error::UnsupportedFormat =>
                "unsupported input format; expected JPEG, PNG, WebP or AVIF"@,
            Error::InvalidParam(message) => message@,
            Error::TooLarge(limit) => "input exceeds "@ + decimal(*limit as nat) + " pixels"@,
            Error::Vips(error) => "failed to process image: "@ + error.0@,
        }
    }

    /// What the client is told.
    pub fn message(&self) -> (message: String)
        ensures
            message@ == self.text(),
    {
        let mut message: String = String::new();
        match self {
            Error::UnsupportedFormat => message.append(
                "unsupported input format; expected JPEG, PNG, WebP or AVIF",
            ),
            Error::InvalidParam(text) => message.append(text),
            Error::TooLarge(limit) => {
                message.append("input exceeds ");
                append_decimal(&mut message, *limit);
                message.append(" pixels");
            },
            Error::Vips(error) => {
                message.append("failed to process image: ");
                message.append(error.0.as_str());
            },
        }
        message
    }
}

#[derive(Debug)]
pub struct Output {
    pub format: Format,
    pub bytes: Vec<u8>,
}

pub open spec fn valid_quality(quality: Option<u8>) -> bool {
    quality matches Some(q) ==> 1 <= q <= 100
}

pub open spec fn valid_axis(axis: Option<u32>) -> bool {
    axis matches Some(v) ==> 1 <= v <= MAX_DIMENSION
}

/// Every parameter is in its range.
pub open spec fn is_valid(params: Params) -> bool {
    valid_quality(params.quality) && valid_axis(params.width) && valid_axis(params.height)
}

/// The size of the box on an axis.
pub open spec fn axis_size(axis: Option<u32>) -> i32 {
    match axis {
        Some(v) => v as i32,
        None => UNBOUNDED,
    }
}

/// How the image is laid out. Without a full box there is nothing to fill, so every fit degrades
/// to scale-down.
pub open spec fn layout_of(params: Params) -> Layout {
    if params.width is None || params.height is None {
        Layout::ScaleDown
    } else {
        match params.fit {
            Fit::ScaleDown => Layout::ScaleDown,
            Fit::Cover => Layout::Fill { size: Size::Both, gravity: params.gravity },
            Fit::Crop => Layout::Fill { size: Size::Down, gravity: params.gravity },
            Fit::Blur => Layout::Blur,
        }
    }
}

/// The format that is written: the one asked for, or else that of the input.
pub open spec fn output_format(input: Format, params: Params) -> Format {
    params.format.unwrap_or(input)
}

/// The work that a valid request asks for, before any of it is done.
pub open spec fn job_of(input: Format, params: Params, config: Config) -> Job {
    Job {
        layout: layout_of(params),
        width: axis_size(params.width),
        height: axis_size(params.height),
        format: output_format(input, params),
        quality: params.quality,
        config,
        phase: Phase::Header,
    }
}

/// `job` is what comes of a request: the first error that is found in it, or else the work that it
/// asks for.
pub open spec fn is_started(
    input: Seq<u8>,
    params: Params,
    config: Config,
    job: Result<Job, Error>,
) -> bool {
    match sniffed(input) {
        None => job matches Err(Error::UnsupportedFormat),
        Some(source) => {
            if !valid_quality(params.quality) {
                job matches Err(Error::InvalidParam(message)) && message@
                    == "quality must be 1..=100"@
            } else if !valid_axis(params.width) || !valid_axis(params.height) {
                job matches Err(Error::InvalidParam(message)) && message@
                    == "width and height must be 1..=8192"@
            } else {
                job == Ok::<Job, Error>(job_of(source, params, config)) && job->Ok_0.wf()
            }
        },
    }
}

fn axis(v: Option<u32>) -> (size: Option<i32>)
    ensures
        size == (if valid_axis(v) {
            Some(axis_size(v))
        } else {
            None
        }),
{
    match v {
        None => Some(UNBOUNDED),
        Some(v) if 1 <= v && v <= MAX_DIMENSION => Some(v as i32),
        Some(_) => None,
    }
}

/// Checks a request and starts its job. Nothing of the input is decoded here.
pub fn transform(input: &[u8], params: &Params, config: Config) -> (job: Result<Job, Error>)
    requires
        sniffed(input@) matches Some(source) ==> is_valid(*params) && output_format(source, *params)
            == Format::Avif ==> config.avif_speed <= MAX_AVIF_SPEED,
    ensures
        is_started(input@, *params, config, job),
{
    let source: Format = match Format::sniff(input) {
        Some(source) => source,
        None => return Err(Error::UnsupportedFormat),
    };
    if let Some(q) = params.quality {
        if q < 1 || q > 100 {
            return Err(Error::InvalidParam("quality must be 1..=100"));
        }
    }
    let (width, height): (i32, i32) = match (axis(params.width), axis(params.height)) {
        (Some(width), Some(height)) => (width, height),
        _ => return Err(Error::InvalidParam("width and height must be 1..=8192")),
    };
    let layout: Layout = if params.width.is_none() || params.height.is_none() {
        Layout::ScaleDown
    } else {
        match params.fit {
            Fit::ScaleDown => Layout::ScaleDown,
            Fit::Cover => Layout::Fill { size: Size::Both, gravity: params.gravity },
            Fit::Crop => Layout::Fill { size: Size::Down, gravity: params.gravity },
            Fit::Blur => Layout::Blur,
        }
    };
    Ok(
        Job {
            layout,
            width,
            height,
            format: params.format.unwrap_or(source),
            quality: params.quality,
            config,
            phase: Phase::Header,
        },
    )
}

/// With only one side of the box given, every fit behaves like scale-down, whatever its gravity.
pub proof fn law_incomplete_box_scales_down(input: Format, params: Params, config: Config)
    requires
        params.width is None || params.height is None,
    ensures
        job_of(input, params, config) == job_of(
            input,
            Params { fit: Fit::ScaleDown, ..params },
            config,
        ),
        job_of(input, params, config) == job_of(
            input,
            Params { gravity: Gravity::Centre, ..params },
            config,
        ),
{
}

/// Gravity makes no difference to `scale-down` and `blur`.
pub proof fn law_gravity_is_for_filling(input: Format, params: Params, config: Config)
    requires
        params.fit == Fit::ScaleDown || params.fit == Fit::Blur,
    ensures
        job_of(input, params, config) == job_of(
            input,
            Params { gravity: Gravity::Centre, ..params },
            config,
        ),
{
}

/// Only `cover` with a full box has the input enlarged.
pub proof fn law_only_cover_enlarges(params: Params)
    ensures
        layout_of(params) matches Layout::Fill { size, .. } && size == Size::Both <==> params.fit
            == Fit::Cover && params.width is Some && params.height is Some,
{
}

/// The default quality rises with the speed, from 62 to 69.
pub proof fn law_default_quality_rises(slower: u8, faster: u8)
    requires
        slower <= faster,
    ensures
        62 <= avif_quality(slower) <= avif_quality(faster) <= 69,
{
}

/// `tail` ends a text whose last part ends with it.
proof fn lemma_ends_with(front: Seq<char>, last: Seq<char>, tail: Seq<char>)
    requires
        tail.len() <= last.len(),
        last.skip(last.len() - tail.len()) == tail,
    ensures
        tail.len() <= (front + last).len(),
        (front + last).skip((front + last).len() - tail.len()) == tail,
{
    assert((front + last).skip((front + last).len() - tail.len()) =~= last.skip(
        last.len() - tail.len(),
    ));
}

/// Whatever is saved, its metadata is stripped.
pub proof fn law_metadata_is_stripped(format: Format, quality: Option<u8>, avif_speed: u8)
    ensures
        ({
            let suffix = format.suffix(quality, avif_speed);
            let tail = "keep=none]"@;
            tail.len() <= suffix.len() && suffix.skip(suffix.len() - tail.len()) == tail
        }),
{
    reveal_strlit("keep=none]");
    let tail = "keep=none]"@;
    match format {
        Format::Jpeg => {
            reveal_strlit(",optimize_coding,quant_table=3,keep=none]");
            let last = ",optimize_coding,quant_table=3,keep=none]"@;
            assert(last.skip(last.len() - tail.len()) =~= tail);
            lemma_ends_with(
                ".jpg[Q="@ + decimal(quality.unwrap_or(78) as nat),
                last,
                tail,
            );
        },
        Format::Webp => {
            reveal_strlit(",effort=2,keep=none]");
            let last = ",effort=2,keep=none]"@;
            assert(last.skip(last.len() - tail.len()) =~= tail);
            lemma_ends_with(
                ".webp[Q="@ + decimal(quality.unwrap_or(83) as nat),
                last,
                tail,
            );
        },
        Format::Avif => {
            reveal_strlit(",keep=none]");
            let last = ",keep=none]"@;
            assert(last.skip(last.len() - tail.len()) =~= tail);
            lemma_ends_with(
                ".avif[Q="@ + decimal(quality.unwrap_or(avif_quality(avif_speed)) as nat)
                    + ",effort="@ + decimal((MAX_AVIF_SPEED - avif_speed) as nat),
                last,
                tail,
            );
        },
        Format::Png => match quality {
            None => {
                reveal_strlit(".png[keep=none]");
                assert(".png[keep=none]"@.skip(".png[keep=none]"@.len() - tail.len()) =~= tail);
            },
            Some(q) => {
                reveal_strlit(",keep=none]");
                let last = ",keep=none]"@;
                assert(last.skip(last.len() - tail.len()) =~= tail);
                lemma_ends_with(".png[palette,Q="@ + decimal(q as nat), last, tail);
            },
        },
    }
}

/// No character of `text` is a NUL.
pub open spec fn without_nul(text: Seq<char>) -> bool {
    forall|k: int| 0 <= k < text.len() ==> #[trigger] text[k] != '\0'
}

proof fn lemma_decimal_without_nul(n: nat)
    ensures
        without_nul(decimal(n)),
    decreases n,
{
    if n >= 10 {
        lemma_decimal_without_nul(n / 10);
    }
}

/// Save options never hold a NUL, so they can be handed over as a C string.
pub proof fn law_suffix_has_no_nul(format: Format, quality: Option<u8>, avif_speed: u8)
    requires
        format == Format::Avif ==> avif_speed <= MAX_AVIF_SPEED,
    ensures
        without_nul(format.suffix(quality, avif_speed)),
{
    reveal_strlit(".jpg[Q=");
    reveal_strlit(",optimize_coding,quant_table=3,keep=none]");
    reveal_strlit(".webp[Q=");
    reveal_strlit(",effort=2,keep=none]");
    reveal_strlit(".avif[Q=");
    reveal_strlit(",effort=");
    reveal_strlit(",keep=none]");
    reveal_strlit(".png[keep=none]");
    reveal_strlit(".png[palette,Q=");
    lemma_decimal_without_nul(quality.unwrap_or(78) as nat);
    lemma_decimal_without_nul(quality.unwrap_or(83) as nat);
    lemma_decimal_without_nul(quality.unwrap_or(avif_quality(avif_speed)) as nat);
    lemma_decimal_without_nul((MAX_AVIF_SPEED - avif_speed) as nat);
    if let Some(q) = quality {
        lemma_decimal_without_nul(q as nat);
    }
}

proof fn lemma_bytes_stay(b: Seq<u8>, more: Seq<u8>, at: int, magic: Seq<u8>)
    ensures
        has_bytes(b, at, magic) ==> has_bytes(b + more, at, magic),
        0 <= at && at + magic.len() <= b.len() ==> (has_bytes(b + more, at, magic) <==> has_bytes(
            b,
            at,
            magic,
        )),
{
    if 0 <= at && at + magic.len() <= b.len() {
        assert((b + more).subrange(at, at + magic.len()) =~= b.subrange(at, at + magic.len()));
    }
}

/// A format that is recognised stays recognised when more of the input arrives.
pub proof fn law_sniff_needs_no_more(b: Seq<u8>, more: Seq<u8>)
    requires
        sniffed(b) is Some,
    ensures
        sniffed(b + more) == sniffed(b),
{
    lemma_bytes_stay(b, more, 0, seq![0xFFu8, 0xD8, 0xFF]);
    lemma_bytes_stay(b, more, 0, seq![0x89u8, 0x50, 0x4E, 0x47]);
    lemma_bytes_stay(b, more, 0, seq![0x52u8, 0x49, 0x46, 0x46]);
    lemma_bytes_stay(b, more, 8, seq![0x57u8, 0x45, 0x42, 0x50]);
    lemma_bytes_stay(b, more, 4, seq![0x66u8, 0x74, 0x79, 0x70]);
    if sniffed(b) == Some(Format::Png) {
        assert(b.subrange(0, 4)[0] == 0x89u8);
        assert((b + more)[0] == b[0]);
        if has_bytes(b + more, 0, seq![0xFFu8, 0xD8, 0xFF]) {
            assert((b + more).subrange(0, 3)[0] == 0xFFu8);
        }
    }
    if sniffed(b) == Some(Format::Avif) {
        let k = choose|k: nat|
            8 + 4 * k + 4 <= box_size(b) && 8 + 4 * k + 4 <= b.len() && #[trigger] is_avif_brand(
                b,
                (8 + 4 * k) as int,
            );
        lemma_bytes_stay(b, more, (8 + 4 * k) as int, seq![0x61u8, 0x76, 0x69, 0x66]);
        lemma_bytes_stay(b, more, (8 + 4 * k) as int, seq![0x61u8, 0x76, 0x69, 0x73]);
        assert(box_size(b + more) == box_size(b));
        assert(is_avif_brand(b + more, (8 + 4 * k) as int));
    }
}

/// The output is in the format that was asked for, or else in that of the input. If the encoder
/// writes the magic bytes of the format that it is asked for, the output is recognised again as an
/// input in that format.
pub proof fn law_output_can_be_an_input(
    input: Seq<u8>,
    params: Params,
    config: Config,
    replies: Seq<Reply>,
)
    requires
        sniffed(input) is Some,
        is_valid(params),
        output_format(sniffed(input)->0, params) == Format::Avif ==> config.avif_speed
            <= MAX_AVIF_SPEED,
        fits(job_of(sniffed(input)->0, params, config), replies),
        end(job_of(sniffed(input)->0, params, config), replies) matches Some(Ok(_)),
    ensures
        end(job_of(sniffed(input)->0, params, config), replies) matches Some(Ok(output)) && {
            &&& output.format == params.format.unwrap_or(sniffed(input)->0)
            &&& (forall|k: int|
                0 <= k < replies.len() ==> (#[trigger] replies[k] matches Reply::Saved(bytes)
                    ==> sniffed(bytes@) == Some(output.format))) ==> sniffed(output.bytes@) == Some(
                output.format,
            )
        },
{
    law_output_is_what_was_saved(job_of(sniffed(input)->0, params, config), replies);
}

} // verus!
