//! What the server knows of libvips: sizes of images, resize modes and error messages.

use crate::text::is_white;
use crate::text::white;
use vstd::prelude::*;
use vstd::string::*;

verus! {

/// What libvips says went wrong.
#[derive(Debug)]
pub struct VipsError(pub String);

/// `trimmed` is `text` without the white space at its ends.
pub open spec fn is_trimmed(text: Seq<char>, trimmed: Seq<char>) -> bool {
    exists|a: int, b: int|
        {
            &&& 0 <= a <= b <= text.len()
            &&& trimmed == #[trigger] text.subrange(a, b)
            &&& forall|k: int| 0 <= k < a ==> is_white(#[trigger] text[k])
            &&& forall|k: int| b <= k < text.len() ==> is_white(#[trigger] text[k])
            &&& a < b ==> !is_white(text[a]) && !is_white(text[b - 1])
        }
}

impl VipsError {
    /// Takes over the contents of libvips' error buffer.
    pub fn last(buffer: &str) -> (error: VipsError)
        ensures
            is_trimmed(buffer@, error.0@),
    {
        let mut start: usize = 0;
        let mut end: usize = 0;
        let mut at: usize = 0;
        let mut leading: bool = true;
        let length: usize = buffer.unicode_len();
        for c in it: buffer.chars()
            invariant
                it.seq() == buffer@,
                length == buffer@.len(),
                at == it.index(),
                start <= end <= at <= length,
                leading ==> start == 0 && end == 0,
                leading ==> forall|k: int| 0 <= k < at ==> is_white(#[trigger] buffer@[k]),
                !leading ==> start < end && !is_white(buffer@[start as int]) && !is_white(
                    buffer@[end - 1],
                ),
                !leading ==> forall|k: int| 0 <= k < start ==> is_white(#[trigger] buffer@[k]),
                !leading ==> forall|k: int| end <= k < at ==> is_white(#[trigger] buffer@[k]),
        {
            if !white(c) {
                if leading {
                    start = at;
                    leading = false;
                }
                end = at + 1;
            }
            at = at + 1;
        }
        let message: &str = buffer.substring_char(start, end);
        assert(message@ == buffer@.subrange(start as int, end as int));
        VipsError(message.to_owned())
    }
}

/// How far a thumbnail may change an image's size.
#[derive(Debug, Clone, Copy, PartialEq, Eq, Structural)]
pub enum Size {
    /// Enlarge or shrink.
    Both,
    /// Only shrink.
    Down,
}

impl Size {
    /// The libvips number of the mode.
    pub fn code(self) -> (n: i32)
        ensures
            n == (match self {
                Size::Both => 0i32,
                Size::Down => 2i32,
            }),
    {
        match self {
            Size::Both => 0,
            Size::Down => 2,
        }
    }
}

/// The size of an image that libvips holds.
#[derive(Debug, Clone, Copy, PartialEq, Eq, Structural)]
pub struct Image {
    pub width: i32,
    pub height: i32,
}

/// The absolute value of `n`.
pub open spec fn magnitude(n: i32) -> nat {
    if n < 0 {
        -n as nat
    } else {
        n as nat
    }
}

impl Image {
    pub fn width(&self) -> (width: i32)
        ensures
            width == self.width,
    {
        self.width
    }

    pub fn height(&self) -> (height: i32)
        ensures
            height == self.height,
    {
        self.height
    }

    /// Pixels of the image.
    pub open spec fn area(&self) -> nat {
        magnitude(self.width) * magnitude(self.height)
    }

    /// Counts the pixels of the image.
    pub fn pixel_count(&self) -> (n: u64)
        ensures
            n == self.area(),
    {
        let width: u64 = if self.width < 0 {
            (-(self.width as i64)) as u64
        } else {
            self.width as u64
        };
        let height: u64 = if self.height < 0 {
            (-(self.height as i64)) as u64
        } else {
            self.height as u64
        };
        assert(width * height <= 0x8000_0000 * 0x8000_0000) by (nonlinear_arith)
            requires
                0 <= width <= 0x8000_0000,
                0 <= height <= 0x8000_0000,
        ;
        width * height
    }
}

/// What counts of what a libvips call made: all of it, if the call reported success, and else
/// nothing.
pub open spec fn counted<T>(status: i32, out: Option<T>) -> Option<T> {
    if status == 0 {
        out
    } else {
        None
    }
}

/// What a libvips call made: it counts only if the call reported success.
pub fn wrap<T>(status: i32, out: Option<T>) -> (made: Option<T>)
    ensures
        made == counted(status, out),
{
    match out {
        Some(image) if status == 0 => Some(image),
        _ => None,
    }
}

} // verus!
