//! Where the crop around a face is cut out.

use crate::crop::frame_of;
use crate::crop::found_on;
use crate::crop::ideal_parts;
use crate::crop::law_cut_is_nearest;
use crate::crop::start_of_cut;
use crate::crop::step_parts;
use crate::face::group::Face;
use crate::vips::Image;
use vstd::prelude::*;

verus! {

/// How far the middle of a stretch of `length` pixels from `start` on, out of `made`, is from the
/// middle of the face: `count` boxes on `preview` pixels, whose corners add up to `corner` and whose
/// sizes to `size`. In parts of which `2 * count * preview` are a pixel.
pub open spec fn off_centre(
    start: int,
    length: int,
    made: int,
    corner: int,
    size: int,
    count: int,
    preview: int,
) -> int {
    let apart = (2 * start + length) * (count * preview) - (2 * corner + size) * made;
    if apart >= 0 {
        apart
    } else {
        -apart
    }
}

/// A face can have been found on a preview exactly when its mean box lies inside it.
pub proof fn law_found_faces_lie_inside(face: Face, preview: Image)
    ensures
        found_on(face, preview) <==> {
            &&& preview.width > 0
            &&& preview.height > 0
            &&& face.count > 0
            &&& face.x + face.width <= face.count * preview.width
            &&& face.y + face.height <= face.count * preview.height
        },
{
}

proof fn lemma_axis(
    corner: nat,
    size: nat,
    count: nat,
    preview: nat,
    made: nat,
    length: nat,
    other: int,
)
    requires
        count > 0,
        preview > 0,
        length <= made,
        0 <= other <= made - length,
    ensures
        ({
            let start = start_of_cut(2 * corner + size, count, preview, made, length);
            &&& 0 <= start <= made - length
            &&& off_centre(
                start,
                length as int,
                made as int,
                corner as int,
                size as int,
                count as int,
                preview as int,
            ) <= off_centre(
                other,
                length as int,
                made as int,
                corner as int,
                size as int,
                count as int,
                preview as int,
            )
        }),
{
    let middle = 2 * corner + size;
    law_cut_is_nearest(middle, count, preview, made, length, other);
    let start = start_of_cut(middle, count, preview, made, length);
    let unit = (count * preview) as int;
    let ideal = ideal_parts(middle, count, preview, made, length);
    let pixel = step_parts(count, preview) as int;
    assert(pixel == 2 * unit);
    assert(ideal == middle * made - length * unit);
    assert(start * pixel - ideal == (2 * start + length) * unit - middle * made)
        by (nonlinear_arith)
        requires
            pixel == 2 * unit,
            ideal == middle * made - length * unit,
    ;
    assert(other * pixel - ideal == (2 * other + length) * unit - middle * made)
        by (nonlinear_arith)
        requires
            pixel == 2 * unit,
            ideal == middle * made - length * unit,
    ;
}

/// The crop is as large as the box, or as the image where that is smaller, and lies inside the
/// image. The middle of the face is in its middle as far as the edges allow: no other place brings
/// the two nearer to each other, across or down.
pub proof fn law_crop_is_centred_on_the_face(
    face: Face,
    preview: Image,
    made: Image,
    width: i32,
    height: i32,
    other_left: int,
    other_top: int,
)
    requires
        preview.width > 0,
        preview.height > 0,
        face.count > 0,
        face.x + face.width <= face.count * preview.width,
        face.y + face.height <= face.count * preview.height,
        made.width > 0,
        made.height > 0,
        width > 0,
        height > 0,
        0 <= other_left,
        0 <= other_top,
        other_left + width <= made.width || other_left == 0,
        other_top + height <= made.height || other_top == 0,
    ensures
        ({
            let area = frame_of(face, preview, made, width, height);
            &&& area.width == width || (area.width == made.width && made.width < width)
            &&& area.height == height || (area.height == made.height && made.height < height)
            &&& area.width <= made.width
            &&& area.height <= made.height
            &&& 0 <= area.left <= made.width - area.width
            &&& 0 <= area.top <= made.height - area.height
            &&& off_centre(
                area.left as int,
                area.width as int,
                made.width as int,
                face.x as int,
                face.width as int,
                face.count as int,
                preview.width as int,
            ) <= off_centre(
                other_left,
                area.width as int,
                made.width as int,
                face.x as int,
                face.width as int,
                face.count as int,
                preview.width as int,
            )
            &&& off_centre(
                area.top as int,
                area.height as int,
                made.height as int,
                face.y as int,
                face.height as int,
                face.count as int,
                preview.height as int,
            ) <= off_centre(
                other_top,
                area.height as int,
                made.height as int,
                face.y as int,
                face.height as int,
                face.count as int,
                preview.height as int,
            )
        }),
{
    let area = frame_of(face, preview, made, width, height);
    lemma_axis(
        face.x as nat,
        face.width as nat,
        face.count as nat,
        preview.width as nat,
        made.width as nat,
        area.width as nat,
        other_left,
    );
    lemma_axis(
        face.y as nat,
        face.height as nat,
        face.count as nat,
        preview.height as nat,
        made.height as nat,
        area.height as nat,
        other_top,
    );
}

} // verus!
