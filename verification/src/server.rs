//! How requests are answered and counted, and which settings the server starts with.

use crate::text::append_decimal;
use crate::text::decimal;
use crate::transform::Error;
use crate::transform::Output;
use crate::transform::MAX_AVIF_SPEED;
use vstd::prelude::*;
use vstd::string::*;

verus! {

/// The HTTP status for an error.
pub open spec fn error_status(error: Error) -> u16 {
    match error {
        Error::UnsupportedFormat => 415,
        Error::InvalidParam(_) => 400,
        Error::TooLarge(_) => 413,
        // Almost always an undecodable input.
        Error::Vips(_) => 422,
    }
}

/// The HTTP status for an error.
pub fn status_of(error: &Error) -> (status: u16)
    ensures
        status == error_status(*error),
{
    match error {
        Error::UnsupportedFormat => 415,
        Error::InvalidParam(_) => 400,
        Error::TooLarge(_) => 413,
        Error::Vips(_) => 422,
    }
}

/// How a request ended.
#[derive(Debug)]
pub enum Outcome {
    /// No permit came free in time.
    Busy,
    /// The job ran to its end.
    Done(Result<Output, Error>),
    /// The job's task broke off.
    Broken,
}

/// The body of a response.
#[derive(Debug)]
pub enum Body {
    Empty,
    Text(String),
    Image { mime: &'static str, bytes: Vec<u8> },
}

/// What a successful transform adds to the metrics.
#[derive(Debug)]
pub struct Tally {
    pub format: &'static str,
    pub input_bytes: u64,
    pub output_bytes: u64,
}

/// A response, and what is counted for it besides its status.
#[derive(Debug)]
pub struct Answer {
    pub status: u16,
    pub body: Body,
    pub tally: Option<Tally>,
}

/// `answer` is how a request of `input_len` bytes that ended like this is answered.
pub open spec fn is_answer(outcome: Outcome, input_len: u64, answer: Answer) -> bool {
    match outcome {
        Outcome::Busy => {
            &&& answer.status == 503
            &&& answer.body matches Body::Text(text) && text@ == "server busy"@
            &&& answer.tally is None
        },
        Outcome::Done(Ok(output)) => {
            &&& answer.status == 200
            &&& answer.body matches Body::Image { mime, bytes } && mime@ == "image/"@
                + output.format.named() && bytes == output.bytes
            &&& answer.tally matches Some(tally) && tally.format@ == output.format.named()
                && tally.input_bytes == input_len && tally.output_bytes == output.bytes@.len()
        },
        Outcome::Done(Err(error)) => {
            &&& answer.status == error_status(error)
            &&& answer.body matches Body::Text(text) && text@ == error.text()
            &&& answer.tally is None
        },
        Outcome::Broken => {
            &&& answer.status == 500
            &&& answer.body == Body::Empty
            &&& answer.tally is None
        },
    }
}

/// Answers a request of `input_len` bytes.
pub fn answer(outcome: Outcome, input_len: u64) -> (answer: Answer)
    ensures
        is_answer(outcome, input_len, answer),
{
    match outcome {
        Outcome::Busy => Answer {
            status: 503,
            body: Body::Text("server busy".to_owned()),
            tally: None,
        },
        Outcome::Done(Ok(output)) => {
            let tally: Tally = Tally {
                format: output.format.name(),
                input_bytes: input_len,
                output_bytes: output.bytes.len() as u64,
            };
            let mime: &'static str = output.format.mime();
            Answer {
                status: 200,
                body: Body::Image { mime, bytes: output.bytes },
                tally: Some(tally),
            }
        },
        Outcome::Done(Err(error)) => Answer {
            status: status_of(&error),
            body: Body::Text(error.message()),
            tally: None,
        },
        Outcome::Broken => Answer { status: 500, body: Body::Empty, tally: None },
    }
}

/// What a gauge shows for a number of bytes: as many as it can.
pub open spec fn gauge_of(bytes: usize) -> i64 {
    if bytes <= i64::MAX {
        bytes as i64
    } else {
        i64::MAX
    }
}

/// The value of a gauge for a number of bytes.
pub fn gauge_value(bytes: usize) -> (value: i64)
    ensures
        value == gauge_of(bytes),
{
    if bytes as u128 <= i64::MAX as u128 {
        bytes as i64
    } else {
        i64::MAX
    }
}

/// `checked` is the speed, if it is in range, and else says what the range is.
pub open spec fn is_checked(speed: u8, checked: Result<u8, String>) -> bool {
    match checked {
        Ok(checked) => speed <= MAX_AVIF_SPEED && checked == speed,
        Err(message) => speed > MAX_AVIF_SPEED && message@ == "CITLALI_AVIF_SPEED: must be 0..="@
            + decimal(MAX_AVIF_SPEED as nat),
    }
}

/// Checks the AVIF speed that the server is started with.
pub fn check_avif_speed(speed: u8) -> (checked: Result<u8, String>)
    ensures
        is_checked(speed, checked),
{
    if speed > MAX_AVIF_SPEED {
        let mut message: String = String::new();
        message.append("CITLALI_AVIF_SPEED: must be 0..=");
        append_decimal(&mut message, MAX_AVIF_SPEED as u64);
        return Err(message);
    }
    Ok(speed)
}

} // verus!
