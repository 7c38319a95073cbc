use citlali::server::{answer, check_avif_speed, gauge_value, status_of, Answer, Body, Outcome};
use citlali::transform::{Error, Format, Output};
use citlali::vips::{wrap, Size, VipsError};

fn text(answer: &Answer) -> &str {
    match &answer.body {
        Body::Text(text) => text,
        other => panic!("{other:?}"),
    }
}

#[test]
fn each_error_has_its_status() {
    assert_eq!(status_of(&Error::InvalidParam("quality must be 1..=100")), 400);
    assert_eq!(status_of(&Error::TooLarge(1)), 413);
    assert_eq!(status_of(&Error::UnsupportedFormat), 415);
    assert_eq!(status_of(&Error::Vips(VipsError("truncated".to_string()))), 422);
}

#[test]
fn success_is_answered_with_the_image_and_counted() {
    let output = Output { format: Format::Webp, bytes: vec![1, 2, 3] };
    let answer = answer(Outcome::Done(Ok(output)), 50);
    assert_eq!(answer.status, 200);
    match answer.body {
        Body::Image { mime, bytes } => assert_eq!((mime, bytes), ("image/webp", vec![1, 2, 3])),
        other => panic!("{other:?}"),
    }
    let tally = answer.tally.unwrap();
    assert_eq!((tally.format, tally.input_bytes, tally.output_bytes), ("webp", 50, 3));
}

#[test]
fn errors_are_answered_with_their_message() {
    let answer = answer(Outcome::Done(Err(Error::TooLarge(7))), 50);
    assert_eq!(answer.status, 413);
    assert_eq!(text(&answer), "input exceeds 7 pixels");
    assert!(answer.tally.is_none());
}

#[test]
fn full_queue_is_answered_busy() {
    let answer = answer(Outcome::Busy, 50);
    assert_eq!(answer.status, 503);
    assert_eq!(text(&answer), "server busy");
    assert!(answer.tally.is_none());
}

#[test]
fn broken_task_is_an_internal_error() {
    let answer = answer(Outcome::Broken, 50);
    assert_eq!(answer.status, 500);
    assert!(matches!(answer.body, Body::Empty));
    assert!(answer.tally.is_none());
}

#[test]
fn gauge_shows_what_it_can() {
    assert_eq!(gauge_value(0), 0);
    assert_eq!(gauge_value(4096), 4096);
    assert_eq!(gauge_value(usize::MAX), i64::MAX);
}

#[test]
fn speeds_up_to_nine_are_allowed() {
    assert_eq!(check_avif_speed(0), Ok(0));
    assert_eq!(check_avif_speed(9), Ok(9));
    assert_eq!(check_avif_speed(10), Err("CITLALI_AVIF_SPEED: must be 0..=9".to_string()));
}

#[test]
fn error_buffer_is_trimmed() {
    assert_eq!(VipsError::last("  \n VipsJpeg: bad marker \u{3000}\n").0, "VipsJpeg: bad marker");
    assert_eq!(VipsError::last("plain").0, "plain");
    assert_eq!(VipsError::last(" \t\n").0, "");
    assert_eq!(VipsError::last("").0, "");
    assert_eq!(VipsError::last("\u{a0}überall ").0, "überall");
}

#[test]
fn failed_call_makes_nothing() {
    assert_eq!(wrap(0, Some(3)), Some(3));
    assert_eq!(wrap(-1, Some(3)), None);
    assert_eq!(wrap::<i32>(0, None), None);
}

#[test]
fn resize_modes_have_libvips_numbers() {
    assert_eq!((Size::Both.code(), Size::Down.code()), (0, 2));
}
