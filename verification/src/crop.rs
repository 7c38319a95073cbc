//! Where a crop is cut out so that a face stands in its middle.

use crate::face::group::Face;
use crate::face::box_inside;
use crate::vips::Image;
use vstd::arithmetic::div_mod::*;
use vstd::arithmetic::mul::*;
use vstd::prelude::*;

verus! {

/// `n` brought into the range from 0 to `room`.
pub open spec fn clamped(n: int, room: int) -> int {
    if n < 0 {
        0
    } else if n > room {
        room
    } else {
        n
    }
}

/// `n / d` rounded to the nearest integer, halves up, for an even `d`.
pub open spec fn nearest(n: int, d: int) -> int {
    (n + d / 2) / d
}

/// Where a stretch of `cut` pixels ideally starts on an axis of `made` pixels, as parts of
/// [`step_parts`] to the pixel: `middle / (2 * count)` of `preview` pixels is to be its middle.
pub open spec fn ideal_parts(middle: nat, count: nat, preview: nat, made: nat, cut: nat) -> int {
    middle * made - cut * (count * preview)
}

/// Parts to a pixel in [`ideal_parts`].
pub open spec fn step_parts(count: nat, preview: nat) -> nat {
    2 * (count * preview)
}

/// The place nearest to the ideal one at which `cut` pixels fit into `made` pixels.
pub open spec fn start_of_cut(middle: nat, count: nat, preview: nat, made: nat, cut: nat) -> int {
    clamped(
        nearest(
            ideal_parts(middle, count, preview, made, cut),
            step_parts(count, preview) as int,
        ),
        made - cut,
    )
}

/// Finds the place for a cut on one axis.
fn cut_start(middle: u128, count: u128, preview: u128, made: u128, cut: u128) -> (start: u128)
    requires
        0 < count <= u64::MAX,
        0 < preview <= i32::MAX,
        0 < cut <= made <= i32::MAX,
        middle <= 2 * (count * preview),
    ensures
        start == start_of_cut(
            middle as nat,
            count as nat,
            preview as nat,
            made as nat,
            cut as nat,
        ),
        start + cut <= made,
{
    let ghost half = count * preview;
    proof {
        assert(0 < count * preview <= u64::MAX * i32::MAX) by (nonlinear_arith)
            requires
                0 < count <= u64::MAX,
                0 < preview <= i32::MAX,
        ;
        assert(middle * made <= 2 * (u64::MAX * i32::MAX) * i32::MAX) by (nonlinear_arith)
            requires
                0 <= middle <= 2 * (u64::MAX * i32::MAX),
                0 <= made <= i32::MAX,
        ;
        assert(0 <= (cut - 1) * half <= i32::MAX * (u64::MAX * i32::MAX)) by (nonlinear_arith)
            requires
                0 <= cut - 1 <= i32::MAX,
                0 < half <= u64::MAX * i32::MAX,
        ;
        assert(cut * half == (cut - 1) * half + half) by (nonlinear_arith);
    }
    let pixel: u128 = 2 * (count * preview);
    let right: u128 = middle * made;
    let left: u128 = (cut - 1) * (count * preview);
    let ghost n = ideal_parts(middle as nat, count as nat, preview as nat, made as nat, cut as nat);
    assert(n + pixel / 2 == right - left);
    if right < left {
        assert(nearest(n, pixel as int) < 0) by {
            lemma_div_is_ordered(right - left, -1, pixel as int);
            lemma_div_of_minus_one(pixel as int);
        }
        return 0;
    }
    let start: u128 = (right - left) / pixel;
    if start > made - cut {
        made - cut
    } else {
        start
    }
}

proof fn lemma_div_of_minus_one(d: int)
    requires
        d > 0,
    ensures
        -1int / d == -1,
{
    lemma_fundamental_div_mod_converse(-1, d, -1, d - 1);
}

/// How far apart two places are.
pub open spec fn distance(a: int, b: int) -> int {
    if a >= b {
        a - b
    } else {
        b - a
    }
}

/// A cut lies inside the image, and no other place inside it brings the middle of the cut nearer
/// to the face.
pub proof fn law_cut_is_nearest(
    middle: nat,
    count: nat,
    preview: nat,
    made: nat,
    cut: nat,
    other: int,
)
    requires
        count > 0,
        preview > 0,
        cut <= made,
        0 <= other <= made - cut,
    ensures
        ({
            let ideal = ideal_parts(middle, count, preview, made, cut);
            let pixel = step_parts(count, preview);
            let start = start_of_cut(middle, count, preview, made, cut);
            &&& 0 <= start <= made - cut
            &&& distance(start * pixel, ideal) <= distance(other * pixel, ideal)
        }),
{
    let n = ideal_parts(middle, count, preview, made, cut);
    let half = (count * preview) as int;
    assert(half > 0) by (nonlinear_arith)
        requires
            count > 0,
            preview > 0,
            half == count * preview,
    ;
    let d = 2 * half;
    let t = nearest(n, d);
    lemma_fundamental_div_mod(n + half, d);
    assert(d * t <= n + half < d * t + d);
    let start = clamped(t, made - cut);
    lemma_mul_is_commutative(d, t);
    assert(t * d <= n + half < t * d + d);
    if other < start {
        assert(other * d + d <= start * d) by (nonlinear_arith)
            requires
                other + 1 <= start,
                d > 0,
        ;
        assert(start * d <= t * d) by (nonlinear_arith)
            requires
                start <= t,
                d > 0,
        ;
    } else if other > start {
        assert(start * d + d <= other * d) by (nonlinear_arith)
            requires
                start + 1 <= other,
                d > 0,
        ;
        assert(start * d >= t * d) by (nonlinear_arith)
            requires
                start >= t,
                d > 0,
        ;
    }
}

/// A part of an image.
#[derive(Debug, Clone, Copy, PartialEq, Eq, Structural)]
pub struct Area {
    pub left: i32,
    pub top: i32,
    pub width: i32,
    pub height: i32,
}

pub open spec fn lesser(a: i32, b: i32) -> i32 {
    if a <= b {
        a
    } else {
        b
    }
}

/// The part of `made` that a `width`x`height` box keeps: as much of each axis as there is, with
/// the face that was found on `preview` in its middle, as far as the edges allow.
pub open spec fn frame_of(
    face: Face,
    preview: Image,
    made: Image,
    width: i32,
    height: i32,
) -> Area {
    let across = lesser(width, made.width);
    let down = lesser(height, made.height);
    Area {
        left: start_of_cut(
            (2 * face.x + face.width) as nat,
            face.count as nat,
            preview.width as nat,
            made.width as nat,
            across as nat,
        ) as i32,
        top: start_of_cut(
            (2 * face.y + face.height) as nat,
            face.count as nat,
            preview.height as nat,
            made.height as nat,
            down as nat,
        ) as i32,
        width: across,
        height: down,
    }
}

/// The box is filled exactly where the image covers it; an axis that is smaller than the box is
/// kept as it is.
pub proof fn law_frame_fills_the_box(
    face: Face,
    preview: Image,
    made: Image,
    width: i32,
    height: i32,
)
    requires
        found_on(face, preview),
        made.width > 0,
        made.height > 0,
        width > 0,
        height > 0,
    ensures
        ({
            let area = frame_of(face, preview, made, width, height);
            &&& made.width >= width ==> area.width == width
            &&& made.width < width ==> area.width == made.width && area.left == 0
            &&& made.height >= height ==> area.height == height
            &&& made.height < height ==> area.height == made.height && area.top == 0
        }),
{
}

/// The face was found on an image of this size.
pub open spec fn found_on(face: Face, preview: Image) -> bool {
    &&& preview.width > 0
    &&& preview.height > 0
    &&& box_inside(face@, preview.width as nat, preview.height as nat)
}

/// Whether the face can have been found on an image of this size.
pub fn fits_on(face: &Face, preview: &Image) -> (r: bool)
    ensures
        r == found_on(*face, *preview),
{
    if preview.width <= 0 || preview.height <= 0 || face.count == 0 {
        return false;
    }
    assert(face.count * preview.width <= u64::MAX * i32::MAX && face.count * preview.height
        <= u64::MAX * i32::MAX) by (nonlinear_arith)
        requires
            0 <= face.count <= u64::MAX,
            0 <= preview.width <= i32::MAX,
            0 <= preview.height <= i32::MAX,
    ;
    let across: u128 = face.count as u128 * preview.width as u128;
    let down: u128 = face.count as u128 * preview.height as u128;
    face.width <= across && face.x <= across - face.width && face.height <= down && face.y <= down
        - face.height
}

/// Frames the face.
pub fn frame(face: &Face, preview: &Image, made: &Image, width: i32, height: i32) -> (area: Area)
    requires
        found_on(*face, *preview),
        made.width > 0,
        made.height > 0,
        width > 0,
        height > 0,
    ensures
        area == frame_of(*face, *preview, *made, width, height),
        0 <= area.left,
        0 <= area.top,
        0 < area.width,
        0 < area.height,
        area.left + area.width <= made.width,
        area.top + area.height <= made.height,
{
    assert(face.count * preview.width <= u64::MAX * i32::MAX && face.count * preview.height
        <= u64::MAX * i32::MAX) by (nonlinear_arith)
        requires
            0 <= face.count <= u64::MAX,
            0 <= preview.width <= i32::MAX,
            0 <= preview.height <= i32::MAX,
    ;
    let across: i32 = if width <= made.width {
        width
    } else {
        made.width
    };
    let down: i32 = if height <= made.height {
        height
    } else {
        made.height
    };
    let left: u128 = cut_start(
        2 * face.x + face.width,
        face.count as u128,
        preview.width as u128,
        made.width as u128,
        across as u128,
    );
    let top: u128 = cut_start(
        2 * face.y + face.height,
        face.count as u128,
        preview.height as u128,
        made.height as u128,
        down as u128,
    );
    Area { left: left as i32, top: top as i32, width: across, height: down }
}

} // verus!
