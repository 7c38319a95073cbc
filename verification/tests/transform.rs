//! Requests from the first check to the encoded image, with an in-memory stand-in for libvips that
//! knows nothing but sizes.

use citlali::crop::{frame, Area};
use citlali::face::group::Face;
use citlali::pipeline::{Job, Op, Phase, Progress, Reply};
use citlali::transform::{
    default_avif_quality, transform, Config, Error, Fit, Format, Gravity, Output, Params,
    DEFAULT_AVIF_SPEED, DEFAULT_MAX_INPUT_PIXELS, MAX_AVIF_SPEED, MAX_DIMENSION,
};
use citlali::vips::{Image, Size, VipsError};

/// An "encoded" image: magic bytes, then the size.
fn encode(suffix: &str, size: (i32, i32)) -> Vec<u8> {
    let mut bytes: Vec<u8> = if suffix.starts_with(".jpg") {
        vec![0xFF, 0xD8, 0xFF, 0xE0]
    } else if suffix.starts_with(".png") {
        vec![0x89, b'P', b'N', b'G']
    } else if suffix.starts_with(".webp") {
        b"RIFF\x00\x00\x00\x00WEBP".to_vec()
    } else if suffix.starts_with(".avif") {
        b"\x00\x00\x00\x14ftypavif\x00\x00\x00\x00mif1".to_vec()
    } else {
        panic!("unknown saver {suffix}")
    };
    bytes.extend(size.0.to_be_bytes());
    bytes.extend(size.1.to_be_bytes());
    bytes
}

fn png(width: i32, height: i32) -> Vec<u8> {
    encode(".png", (width, height))
}

fn decode_size(bytes: &[u8]) -> (i32, i32) {
    let n = bytes.len();
    let number = |at: usize| i32::from_be_bytes([bytes[at], bytes[at + 1], bytes[at + 2], bytes[at + 3]]);
    (number(n - 8), number(n - 4))
}

/// The size that libvips gives a thumbnail.
fn thumbnail(from: (i32, i32), width: i32, height: i32, size: Size, crop: bool) -> (i32, i32) {
    let across = f64::from(from.0) / f64::from(width);
    let down = f64::from(from.1) / f64::from(height);
    let mut shrink = if crop { across.min(down) } else { across.max(down) };
    if size == Size::Down {
        shrink = shrink.max(1.0);
    }
    // An image is never empty.
    let resized = |n: i32| ((f64::from(n) / shrink).round() as i32).max(1);
    let made = (resized(from.0), resized(from.1));
    if crop {
        (made.0.min(width), made.1.min(height))
    } else {
        made
    }
}

struct Vips {
    input: (i32, i32),
    swapped: bool,
    face: Option<Face>,
    image: (i32, i32),
    held: (i32, i32),
    ops: Vec<Op>,
}

impl Vips {
    fn new(input: &[u8]) -> Vips {
        Vips {
            input: decode_size(input),
            swapped: false,
            face: None,
            image: (0, 0),
            held: (0, 0),
            ops: Vec::new(),
        }
    }

    fn upright(&self) -> (i32, i32) {
        if self.swapped {
            (self.input.1, self.input.0)
        } else {
            self.input
        }
    }

    fn perform(&mut self, op: &Op) -> Reply {
        self.image = match op {
            Op::Header => {
                let image = Image { width: self.input.0, height: self.input.1 };
                return Reply::Opened { image, swapped: self.swapped };
            }
            Op::Thumbnail { width, height, size, crop } => {
                thumbnail(self.upright(), *width, *height, *size, *crop)
            }
            Op::CopyMemory => {
                self.held = self.image;
                self.image
            }
            Op::ThumbnailImage { width, height, size, crop } => {
                thumbnail(self.image, *width, *height, *size, *crop)
            }
            Op::Gaussblur { .. } => self.image,
            Op::Insert { x, y } => {
                assert!(*x >= 0 && x + self.held.0 <= self.image.0);
                assert!(*y >= 0 && y + self.held.1 <= self.image.1);
                self.image
            }
            Op::DetectFace => return Reply::Found(self.face),
            Op::ExtractArea(area) => {
                assert!(area.left >= 0 && area.left + area.width <= self.image.0);
                assert!(area.top >= 0 && area.top + area.height <= self.image.1);
                (area.width, area.height)
            }
            Op::Save { suffix } => return Reply::Saved(encode(suffix, self.image)),
        };
        Reply::Made(Image { width: self.image.0, height: self.image.1 })
    }

    fn run(&mut self, input: &[u8], params: &Params, config: Config) -> Result<Output, Error> {
        let mut job: Job = transform(input, params, config)?;
        loop {
            let op = job.op();
            let reply = self.perform(&op);
            self.ops.push(op);
            assert!(job.can_take(&reply));
            match job.resume(reply)? {
                Progress::Next(next) => job = next,
                Progress::Finished(output) => return Ok(output),
            }
        }
    }
}

fn run(input: &[u8], params: &Params, config: Config) -> Result<Output, Error> {
    Vips::new(input).run(input, params, config)
}

fn params(fit: Fit, width: Option<u32>, height: Option<u32>) -> Params {
    Params { width, height, fit, ..Params::default() }
}

fn fastest_avif() -> Config {
    Config { avif_speed: MAX_AVIF_SPEED, ..Config::default() }
}

fn output_size(input: &[u8], params: &Params) -> (i32, i32) {
    let out = run(input, params, Config::default()).unwrap();
    decode_size(&out.bytes)
}

#[test]
fn scale_down_keeps_aspect_ratio_when_only_width_given() {
    assert_eq!(output_size(&png(400, 200), &params(Fit::ScaleDown, Some(100), None)), (100, 50));
}

#[test]
fn scale_down_never_enlarges() {
    assert_eq!(output_size(&png(400, 200), &params(Fit::ScaleDown, Some(800), Some(800))), (400, 200));
}

#[test]
fn cover_fills_box_exactly() {
    assert_eq!(output_size(&png(400, 200), &params(Fit::Cover, Some(100), Some(100))), (100, 100));
}

#[test]
fn cover_enlarges_small_input() {
    assert_eq!(output_size(&png(40, 20), &params(Fit::Cover, Some(100), Some(100))), (100, 100));
}

#[test]
fn crop_keeps_axis_smaller_than_box() {
    assert_eq!(output_size(&png(400, 200), &params(Fit::Crop, Some(300), Some(300))), (300, 200));
}

#[test]
fn blur_fills_box_exactly() {
    assert_eq!(output_size(&png(400, 200), &params(Fit::Blur, Some(100), Some(100))), (100, 100));
}

#[test]
fn cover_without_height_degrades_to_scale_down() {
    assert_eq!(output_size(&png(400, 200), &params(Fit::Cover, Some(800), None)), (400, 200));
}

#[test]
fn every_input_format_converts_to_every_output_format() {
    let base = png(64, 48);
    for from in [Format::Jpeg, Format::Png, Format::Webp, Format::Avif] {
        let input = run(&base, &Params { format: Some(from), ..Params::default() }, fastest_avif())
            .unwrap()
            .bytes;
        for to in [Format::Jpeg, Format::Png, Format::Webp, Format::Avif] {
            let params = Params { format: Some(to), quality: Some(50), ..Params::default() };
            let out = run(&input, &params, fastest_avif());
            assert_eq!(Format::sniff(&out.unwrap().bytes), Some(to), "{from:?} -> {to:?}");
        }
    }
}

#[test]
fn avif_fastest_speed_maps_to_lowest_vips_effort() {
    assert!(Format::Avif.save_suffix(None, MAX_AVIF_SPEED).contains("effort=0"));
}

#[test]
fn avif_default_quality_rises_with_speed() {
    assert!(Format::Avif.save_suffix(None, MAX_AVIF_SPEED).contains("Q=69"));
}

#[test]
fn sniff_rejects_gif() {
    assert_eq!(Format::sniff(b"GIF89a\x01\x00\x01\x00"), None);
}

#[test]
fn sniff_rejects_heic() {
    assert_eq!(Format::sniff(b"\x00\x00\x00\x18ftypheic\x00\x00\x00\x00mif1heic"), None);
}

#[test]
fn transform_rejects_input_above_pixel_limit() {
    let config = Config { max_input_pixels: 100, ..Config::default() };
    let err = run(&png(20, 20), &Params::default(), config);
    assert!(matches!(err, Err(Error::TooLarge(100))));
}

#[test]
fn transform_rejects_quality_zero() {
    let err = transform(&png(8, 8), &Params { quality: Some(0), ..Params::default() }, Config::default());
    assert!(matches!(err, Err(Error::InvalidParam(_))));
}

#[test]
fn transform_rejects_width_above_limit() {
    let err = transform(&png(8, 8), &params(Fit::ScaleDown, Some(MAX_DIMENSION + 1), None), Config::default());
    assert!(matches!(err, Err(Error::InvalidParam(_))));
}

#[test]
fn bounds_of_parameters_are_accepted() {
    for quality in [1, 100] {
        let params = Params { quality: Some(quality), ..Params::default() };
        assert!(transform(&png(8, 8), &params, Config::default()).is_ok());
    }
    let over = Params { quality: Some(101), ..Params::default() };
    let error = transform(&png(8, 8), &over, Config::default()).unwrap_err();
    assert_eq!(error.message(), "quality must be 1..=100");
    for side in [1, MAX_DIMENSION] {
        assert!(transform(&png(8, 8), &params(Fit::Cover, Some(side), Some(side)), Config::default()).is_ok());
    }
    let none = params(Fit::ScaleDown, None, Some(0));
    let error = transform(&png(8, 8), &none, Config::default()).unwrap_err();
    assert_eq!(error.message(), "width and height must be 1..=8192");
}

#[test]
fn unknown_input_is_rejected_before_its_parameters() {
    let error = transform(b"GIF89a", &Params { quality: Some(0), ..Params::default() }, Config::default());
    assert!(matches!(error, Err(Error::UnsupportedFormat)));
}

#[test]
fn limit_itself_is_no_excess() {
    let config = Config { max_input_pixels: 400, ..Config::default() };
    assert!(run(&png(20, 20), &Params::default(), config).is_ok());
    let job = transform(&png(1, 1), &Params::default(), config).unwrap();
    let image = Image { width: -21, height: 20 };
    assert_eq!(image.pixel_count(), 420);
    assert_eq!((image.width(), image.height()), (-21, 20));
    assert!(matches!(job.resume(Reply::Opened { image, swapped: false }), Err(Error::TooLarge(400))));
}

#[test]
fn rejected_input_is_not_decoded() {
    let input = png(20, 20);
    let mut vips = Vips::new(&input);
    let config = Config { max_input_pixels: 399, ..Config::default() };
    assert!(vips.run(&input, &Params::default(), config).is_err());
    assert_eq!(vips.ops.len(), 1);
    assert!(matches!(vips.ops[0], Op::Header));
}

#[test]
fn defaults_are_as_documented() {
    let config = Config::default();
    assert_eq!((config.avif_speed, config.max_input_pixels), (9, 100_000_000));
    assert_eq!((DEFAULT_AVIF_SPEED, DEFAULT_MAX_INPUT_PIXELS), (9, 100_000_000));
    let params = Params::default();
    assert_eq!((params.fit, params.gravity), (Fit::ScaleDown, Gravity::Centre));
    assert_eq!((Fit::default(), Gravity::default()), (Fit::ScaleDown, Gravity::Centre));
    assert_eq!((params.width, params.height, params.quality, params.format), (None, None, None, None));
}

#[test]
fn sniff_knows_the_four_formats() {
    assert_eq!(Format::sniff(b"\xFF\xD8\xFF"), Some(Format::Jpeg));
    assert_eq!(Format::sniff(b"\xFF\xD8"), None);
    assert_eq!(Format::sniff(b"\x89PNG"), Some(Format::Png));
    assert_eq!(Format::sniff(b"RIFF\x01\x02\x03\x04WEBP"), Some(Format::Webp));
    assert_eq!(Format::sniff(b"RIFF\x01\x02\x03\x04WAVE"), None);
    assert_eq!(Format::sniff(b"\x00\x00\x00\x10ftypavis\x00\x00\x00\x00"), Some(Format::Avif));
    assert_eq!(Format::sniff(b""), None);
}

#[test]
fn sniff_reads_brands_only_inside_the_box() {
    assert_eq!(Format::sniff(b"\x00\x00\x00\x18ftypmif1\x00\x00\x00\x00mif1avif"), Some(Format::Avif));
    // The box ends before the AVIF brand.
    assert_eq!(Format::sniff(b"\x00\x00\x00\x14ftypmif1\x00\x00\x00\x00mif1avif"), None);
    // Brands stand at multiples of four.
    assert_eq!(Format::sniff(b"\x00\x00\x00\x18ftypmif1\x00\x00\x00\x00miavif11"), None);
    // A box that is cut short counts as far as it goes.
    assert_eq!(Format::sniff(b"\xFF\xFF\xFF\xFFftypavif"), Some(Format::Avif));
    // A box smaller than its header holds no brands.
    assert_eq!(Format::sniff(b"\x00\x00\x00\x04ftypavif"), None);
}

#[test]
fn sniff_is_not_changed_by_more_input() {
    let full = b"\x00\x00\x00\x18ftypavif\x00\x00\x00\x00mif1heic".to_vec();
    assert_eq!(Format::sniff(&full[..12]), Some(Format::Avif));
    assert_eq!(Format::sniff(&full), Some(Format::Avif));
}

#[test]
fn formats_have_names() {
    let names: Vec<(&str, &str)> = [Format::Jpeg, Format::Png, Format::Webp, Format::Avif]
        .into_iter()
        .map(|f| (f.name(), f.mime()))
        .collect();
    assert_eq!(
        names,
        vec![("jpeg", "image/jpeg"), ("png", "image/png"), ("webp", "image/webp"), ("avif", "image/avif")]
    );
}

#[test]
fn suffixes_are_exact() {
    assert_eq!(Format::Jpeg.save_suffix(None, 9), ".jpg[Q=78,optimize_coding,quant_table=3,keep=none]");
    assert_eq!(Format::Jpeg.save_suffix(Some(5), 200), ".jpg[Q=5,optimize_coding,quant_table=3,keep=none]");
    assert_eq!(Format::Webp.save_suffix(None, 0), ".webp[Q=83,effort=2,keep=none]");
    assert_eq!(Format::Webp.save_suffix(Some(100), 0), ".webp[Q=100,effort=2,keep=none]");
    assert_eq!(Format::Avif.save_suffix(None, 0), ".avif[Q=62,effort=9,keep=none]");
    assert_eq!(Format::Avif.save_suffix(None, 7), ".avif[Q=66,effort=2,keep=none]");
    assert_eq!(Format::Avif.save_suffix(Some(40), 9), ".avif[Q=40,effort=0,keep=none]");
    assert_eq!(Format::Png.save_suffix(None, 9), ".png[keep=none]");
    assert_eq!(Format::Png.save_suffix(Some(60), 9), ".png[palette,Q=60,keep=none]");
}

#[test]
fn every_suffix_strips_metadata_and_is_a_c_string() {
    for format in [Format::Jpeg, Format::Png, Format::Webp, Format::Avif] {
        for quality in [None, Some(1), Some(100)] {
            let suffix = format.save_suffix(quality, 3);
            assert!(suffix.ends_with("keep=none]"));
            assert!(!suffix.contains('\0'));
        }
    }
}

#[test]
fn default_avif_quality_by_speed() {
    let qualities: Vec<u8> = (0..=9).map(default_avif_quality).collect();
    assert_eq!(qualities, vec![62, 62, 62, 62, 62, 62, 62, 66, 69, 69]);
}

#[test]
fn output_defaults_to_the_input_format() {
    for format in [Format::Jpeg, Format::Png, Format::Webp, Format::Avif] {
        let input = encode(&format.save_suffix(None, 9), (10, 10));
        assert_eq!(run(&input, &Params::default(), Config::default()).unwrap().format, format);
    }
}

#[test]
fn messages_name_the_problem() {
    assert_eq!(
        Error::UnsupportedFormat.message(),
        "unsupported input format; expected JPEG, PNG, WebP or AVIF"
    );
    assert_eq!(Error::InvalidParam("no").message(), "no");
    assert_eq!(Error::TooLarge(100_000_000).message(), "input exceeds 100000000 pixels");
    assert_eq!(Error::TooLarge(u64::MAX).message(), "input exceeds 18446744073709551615 pixels");
    let error = Error::Vips(VipsError("bad seek".to_string()));
    assert_eq!(error.message(), "failed to process image: bad seek");
}

#[test]
fn failed_operation_ends_the_job() {
    let job = transform(&png(8, 8), &Params::default(), Config::default()).unwrap();
    let failed = job.resume(Reply::Failed(VipsError("unable to load".to_string())));
    match failed {
        Err(Error::Vips(error)) => assert_eq!(error.0, "unable to load"),
        other => panic!("{other:?}"),
    }
}

#[test]
fn blur_makes_a_small_backdrop_and_centres_the_front() {
    let input = png(400, 200);
    let mut vips = Vips::new(&input);
    let out = vips.run(&input, &params(Fit::Blur, Some(101), Some(99)), Config::default()).unwrap();
    assert_eq!(decode_size(&out.bytes), (101, 99));
    assert_eq!(vips.ops.len(), 8);
    assert!(matches!(vips.ops[0], Op::Header));
    assert!(matches!(vips.ops[1], Op::Thumbnail { width: 101, height: 99, size: Size::Down, crop: false }));
    assert!(matches!(vips.ops[2], Op::CopyMemory));
    assert!(matches!(vips.ops[3], Op::ThumbnailImage { width: 12, height: 12, size: Size::Both, crop: true }));
    assert!(matches!(vips.ops[4], Op::Gaussblur { sigma: 20, divisor: 8 }));
    assert!(matches!(vips.ops[5], Op::ThumbnailImage { width: 101, height: 99, size: Size::Both, crop: true }));
    // The front is 101x51: 48 pixels stay free, half of them above it.
    assert!(matches!(vips.ops[6], Op::Insert { x: 0, y: 24 }));
    assert!(matches!(vips.ops[7], Op::Save { .. }));
}

#[test]
fn tiny_blur_box_still_has_a_backdrop() {
    let input = png(400, 200);
    let mut vips = Vips::new(&input);
    vips.run(&input, &params(Fit::Blur, Some(3), Some(7)), Config::default()).unwrap();
    assert!(matches!(vips.ops[3], Op::ThumbnailImage { width: 1, height: 1, .. }));
}

#[test]
fn front_larger_than_its_box_is_pulled_out_evenly() {
    let mut job = transform(&png(8, 8), &params(Fit::Blur, Some(10), Some(10)), Config::default()).unwrap();
    job.phase = Phase::Paste { front: Image { width: 15, height: 10 } };
    assert!(matches!(job.op(), Op::Insert { x: -2, y: 0 }));
}

fn face_params(fit: Fit, width: u32, height: u32) -> Params {
    Params { gravity: Gravity::Face, ..params(fit, Some(width), Some(height)) }
}

/// Four hits of the same box.
fn face_at(x: u128, y: u128, side: u128) -> Option<Face> {
    Some(Face { count: 4, x: 4 * x, y: 4 * y, width: 4 * side, height: 4 * side })
}

fn extracted(vips: &Vips) -> Option<Area> {
    vips.ops.iter().find_map(|op| match op {
        Op::ExtractArea(area) => Some(*area),
        _ => None,
    })
}

#[test]
fn face_is_centred_in_the_crop() {
    let input = png(960, 480);
    let mut vips = Vips::new(&input);
    // The preview is 480x240; the middle of the face is (300, 120) on it.
    vips.face = face_at(276, 96, 48);
    let out = vips.run(&input, &face_params(Fit::Cover, 200, 200), Config::default()).unwrap();
    assert_eq!(decode_size(&out.bytes), (200, 200));
    assert!(matches!(vips.ops[1], Op::Thumbnail { width: 480, height: 480, size: Size::Down, crop: false }));
    assert!(matches!(vips.ops[2], Op::DetectFace));
    assert!(matches!(vips.ops[3], Op::Thumbnail { width: 10_000_000, height: 200, size: Size::Both, crop: false }));
    // The image is 400x200 then, and the middle of the face (250, 100).
    assert_eq!(extracted(&vips), Some(Area { left: 150, top: 0, width: 200, height: 200 }));
}

#[test]
fn face_at_the_edge_is_followed_as_far_as_the_edge_allows() {
    let input = png(960, 480);
    for (x, left) in [(0, 0), (456, 200)] {
        let mut vips = Vips::new(&input);
        vips.face = face_at(x, 100, 24);
        vips.run(&input, &face_params(Fit::Cover, 200, 200), Config::default()).unwrap();
        assert_eq!(extracted(&vips), Some(Area { left, top: 0, width: 200, height: 200 }));
    }
}

#[test]
fn crop_around_a_face_does_not_enlarge() {
    let input = png(400, 200);
    let mut vips = Vips::new(&input);
    vips.face = face_at(300, 50, 40);
    let out = vips.run(&input, &face_params(Fit::Crop, 300, 300), Config::default()).unwrap();
    assert_eq!(decode_size(&out.bytes), (300, 200));
    assert_eq!(extracted(&vips), Some(Area { left: 100, top: 0, width: 300, height: 200 }));
}

#[test]
fn orientation_is_taken_into_account() {
    let input = png(480, 960);
    let mut vips = Vips::new(&input);
    vips.swapped = true;
    vips.face = face_at(276, 96, 48);
    let out = vips.run(&input, &face_params(Fit::Cover, 200, 200), Config::default()).unwrap();
    assert_eq!(decode_size(&out.bytes), (200, 200));
    assert_eq!(extracted(&vips), Some(Area { left: 150, top: 0, width: 200, height: 200 }));
}

#[test]
fn without_a_face_the_middle_is_kept() {
    let input = png(960, 480);
    let mut vips = Vips::new(&input);
    let out = vips.run(&input, &face_params(Fit::Cover, 200, 200), Config::default()).unwrap();
    assert_eq!(decode_size(&out.bytes), (200, 200));
    assert!(matches!(vips.ops[3], Op::Thumbnail { width: 200, height: 200, size: Size::Both, crop: true }));
    assert!(matches!(vips.ops[4], Op::Save { .. }));
}

#[test]
fn gravity_needs_something_to_fill() {
    let input = png(960, 480);
    for params in [
        Params { gravity: Gravity::Face, ..params(Fit::Cover, Some(200), None) },
        face_params(Fit::ScaleDown, 200, 200),
        face_params(Fit::Blur, 200, 200),
    ] {
        let mut vips = Vips::new(&input);
        vips.run(&input, &params, Config::default()).unwrap();
        assert!(!vips.ops.iter().any(|op| matches!(op, Op::DetectFace)));
    }
}

#[test]
fn only_cover_enlarges_the_input() {
    for fit in [Fit::ScaleDown, Fit::Cover, Fit::Crop, Fit::Blur] {
        for gravity in [Gravity::Centre, Gravity::Face] {
            let input = png(40, 20);
            let mut vips = Vips::new(&input);
            vips.face = face_at(4, 4, 8);
            let params = Params { gravity, ..params(fit, Some(100), Some(100)) };
            vips.run(&input, &params, Config::default()).unwrap();
            let enlarges = vips.ops.iter().any(|op| matches!(op, Op::Thumbnail { size: Size::Both, .. }));
            assert_eq!(enlarges, fit == Fit::Cover);
        }
    }
}

#[test]
fn replies_of_another_operation_are_not_taken() {
    let job = transform(&png(8, 8), &Params::default(), Config::default()).unwrap();
    assert!(!job.can_take(&Reply::Made(Image { width: 1, height: 1 })));
    assert!(!job.can_take(&Reply::Saved(vec![1])));
    assert!(!job.can_take(&Reply::Found(None)));
    assert!(job.can_take(&Reply::Failed(VipsError("no".to_string()))));
}

#[test]
fn face_outside_the_preview_is_not_taken() {
    let input = png(480, 480);
    let mut job = transform(&input, &face_params(Fit::Cover, 100, 100), Config::default()).unwrap();
    job.phase = Phase::Detect { by_width: true, preview: Image { width: 100, height: 100 } };
    assert!(job.can_take(&Reply::Found(face_at(76, 0, 24))));
    assert!(!job.can_take(&Reply::Found(face_at(77, 0, 24))));
    assert!(!job.can_take(&Reply::Found(Some(Face { count: 0, x: 0, y: 0, width: 0, height: 0 }))));
}

#[test]
fn box_is_filled_whichever_side_binds() {
    for (input, (width, height)) in [((480, 960), (200, 100)), ((480, 960), (50, 300)), ((961, 479), (333, 77))] {
        let bytes = png(input.0, input.1);
        let mut vips = Vips::new(&bytes);
        vips.face = face_at(100, 100, 30);
        let out = vips.run(&bytes, &face_params(Fit::Cover, width, height), Config::default()).unwrap();
        assert_eq!(decode_size(&out.bytes), (width as i32, height as i32));
    }
}

#[test]
fn cut_starts_at_the_nearest_pixel() {
    let preview = Image { width: 100, height: 100 };
    let made = Image { width: 250, height: 250 };
    // The middle is at 41.5 of 100 pixels, 103.75 of 250; 50 pixels around it start at 78.75.
    let face = Face { count: 2, x: 62, y: 63, width: 42, height: 42 };
    assert_eq!(frame(&face, &preview, &made, 50, 50), Area { left: 79, top: 80, width: 50, height: 50 });
}

#[test]
fn front_as_large_as_the_box_covers_it() {
    let input = png(400, 200);
    let mut vips = Vips::new(&input);
    vips.run(&input, &params(Fit::Blur, Some(100), Some(50)), Config::default()).unwrap();
    assert!(matches!(vips.ops[6], Op::Insert { x: 0, y: 0 }));
}

#[test]
fn output_can_be_an_input() {
    let input = encode(".jpg", (30, 20));
    let params = Params { format: Some(Format::Avif), ..Params::default() };
    let out = run(&input, &params, Config::default()).unwrap();
    assert_eq!(Format::sniff(&out.bytes), Some(Format::Avif));
    let again = run(&out.bytes, &Params::default(), Config::default()).unwrap();
    assert_eq!((again.format, decode_size(&again.bytes)), (Format::Avif, (30, 20)));
}

#[test]
fn result_has_the_size_that_its_fit_promises() {
    for (across, down) in [(400, 200), (200, 400), (40, 20), (301, 77), (1, 1000)] {
        for (width, height) in [(100, 100), (300, 300), (37, 500), (500, 9)] {
            for gravity in [Gravity::Centre, Gravity::Face] {
                let size = |fit: Fit| {
                    let input = png(across, down);
                    let mut vips = Vips::new(&input);
                    vips.face = face_at(0, 0, 1);
                    let params = Params { gravity, ..params(fit, Some(width), Some(height)) };
                    decode_size(&vips.run(&input, &params, Config::default()).unwrap().bytes)
                };
                let (width, height) = (width as i32, height as i32);
                assert_eq!(size(Fit::Cover), (width, height));
                assert_eq!(size(Fit::Crop), (width.min(across), height.min(down)));
                let (w, h) = size(Fit::ScaleDown);
                assert!(w <= width.min(across) && h <= height.min(down));
            }
        }
    }
}

#[test]
fn blurred_result_is_as_large_as_its_box() {
    for (width, height) in [(100, 100), (7, 300), (8192, 1)] {
        let size = output_size(&png(400, 200), &params(Fit::Blur, Some(width), Some(height)));
        assert_eq!(size, (width as i32, height as i32));
    }
}
