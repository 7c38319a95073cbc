//! What of an image the search depends on, and how large an image has to be.

use crate::face::all_hits;
use crate::face::cascade::Cascade;
use crate::face::cascade::Stump;
use crate::face::group::group;
use crate::face::group::groups;
use crate::face::group::is_largest;
use crate::face::group::is_strongest;
use crate::face::group::totals;
use crate::face::group::Face;
use crate::face::group::Hit;
use crate::face::integral::area_sum;
use crate::face::integral::cell_sum;
use crate::face::integral::lbp_code;
use crate::face::integral::row_sum;
use crate::face::is_face;
use crate::face::law_scaled_grid_stays_inside;
use crate::face::law_small_faces_are_missed;
use crate::face::leaf;
use crate::face::leaves;
use crate::face::level_hits;
use crate::face::order::law_few_hits_are_no_face;
use crate::face::row_hits;
use crate::face::scaled;
use crate::face::step;
use crate::face::window;
use crate::face::Scale;
use crate::face::WINDOW;
use crate::pipeline::PREVIEW_SIZE;
use vstd::arithmetic::div_mod::*;
use vstd::prelude::*;

verus! {

/// Sums of pixels that are there do not change when more pixels follow.
proof fn lemma_row_sum_of_front(
    pixels: Seq<u8>,
    extra: Seq<u8>,
    width: nat,
    x: nat,
    y: nat,
    n: nat,
)
    requires
        y * width + x + n <= pixels.len(),
    ensures
        row_sum(pixels + extra, width, x, y, n) == row_sum(pixels, width, x, y, n),
    decreases n,
{
    if n > 0 {
        lemma_row_sum_of_front(pixels, extra, width, x, y, (n - 1) as nat);
    }
}

proof fn lemma_area_sum_of_front(
    pixels: Seq<u8>,
    extra: Seq<u8>,
    width: nat,
    x: nat,
    y: nat,
    w: nat,
    h: nat,
)
    requires
        width > 0,
        x + w <= width,
        y + h <= pixels.len() / width,
    ensures
        area_sum(pixels + extra, width, x, y, w, h) == area_sum(pixels, width, x, y, w, h),
    decreases h,
{
    if h > 0 {
        lemma_area_sum_of_front(pixels, extra, width, x, y, w, (h - 1) as nat);
        let last = y + h - 1;
        let rows = pixels.len() / width;
        lemma_fundamental_div_mod(pixels.len() as int, width as int);
        assert(last * width + width <= width * rows) by (nonlinear_arith)
            requires
                last + 1 <= rows,
                width > 0,
        ;
        lemma_row_sum_of_front(pixels, extra, width, x, last as nat, w);
    }
}

proof fn lemma_code_of_front(
    pixels: Seq<u8>,
    extra: Seq<u8>,
    width: nat,
    x: nat,
    y: nat,
    w: nat,
    h: nat,
)
    requires
        width > 0,
        x + 3 * w <= width,
        y + 3 * h <= pixels.len() / width,
    ensures
        lbp_code(pixels + extra, width, x, y, w, h) == lbp_code(pixels, width, x, y, w, h),
{
    assert forall|i: nat| i < 9 implies #[trigger] cell_sum(
        pixels + extra,
        width,
        x,
        y,
        w,
        h,
        i,
    ) == cell_sum(pixels, width, x, y, w, h, i) by {
        assert(i % 3 * w <= 2 * w && i / 3 * h <= 2 * h) by (nonlinear_arith)
            requires
                i < 9,
        ;
        lemma_area_sum_of_front(pixels, extra, width, x + i % 3 * w, y + i / 3 * h, w, h);
    }
}

proof fn lemma_leaf_of_front(
    cascade: Cascade,
    stump: Stump,
    scale: Scale,
    pixels: Seq<u8>,
    extra: Seq<u8>,
    width: nat,
    x: nat,
    y: nat,
)
    requires
        cascade.is_sound(),
        stump.feature < cascade.features@.len(),
        scale.unit > 0,
        width > 0,
        x + window(scale) <= width,
        y + window(scale) <= pixels.len() / width,
    ensures
        leaf(cascade, stump, scale, pixels + extra, width, x, y) == leaf(
            cascade,
            stump,
            scale,
            pixels,
            width,
            x,
            y,
        ),
{
    let f = cascade.features@[stump.feature as int]@;
    law_scaled_grid_stays_inside(f[0] as nat, f[2] as nat, WINDOW as nat, scale);
    law_scaled_grid_stays_inside(f[1] as nat, f[3] as nat, WINDOW as nat, scale);
    lemma_code_of_front(
        pixels,
        extra,
        width,
        x + scaled(f[0] as nat, scale),
        y + scaled(f[1] as nat, scale),
        scaled(f[2] as nat, scale),
        scaled(f[3] as nat, scale),
    );
}

proof fn lemma_is_face_of_front(
    passes: spec_fn(int, Seq<usize>) -> bool,
    cascade: Cascade,
    scale: Scale,
    pixels: Seq<u8>,
    extra: Seq<u8>,
    width: nat,
    x: nat,
    y: nat,
)
    requires
        cascade.is_sound(),
        scale.unit > 0,
        width > 0,
        x + window(scale) <= width,
        y + window(scale) <= pixels.len() / width,
    ensures
        is_face(passes, cascade, scale, pixels + extra, width, x, y) == is_face(
            passes,
            cascade,
            scale,
            pixels,
            width,
            x,
            y,
        ),
{
    let more = pixels + extra;
    assert forall|s: int| 0 <= s < cascade.stages@.len() implies #[trigger] leaves(
        cascade,
        s,
        scale,
        more,
        width,
        x,
        y,
    ) == leaves(cascade, s, scale, pixels, width, x, y) by {
        let stumps = cascade.stages@[s].stumps@;
        assert forall|k: int| 0 <= k < stumps.len() implies leaf(
            cascade,
            #[trigger] stumps[k],
            scale,
            more,
            width,
            x,
            y,
        ) == leaf(cascade, stumps[k], scale, pixels, width, x, y) by {
            assert(cascade.stages@[s].stumps@[k].feature < cascade.features@.len());
            lemma_leaf_of_front(cascade, stumps[k], scale, pixels, extra, width, x, y);
        }
        assert(leaves(cascade, s, scale, more, width, x, y) =~= leaves(
            cascade,
            s,
            scale,
            pixels,
            width,
            x,
            y,
        ));
    }
    if is_face(passes, cascade, scale, pixels, width, x, y) {
        assert forall|s: int| 0 <= s < cascade.stages@.len() implies passes(
            s,
            #[trigger] leaves(cascade, s, scale, more, width, x, y),
        ) by {
            assert(passes(s, leaves(cascade, s, scale, pixels, width, x, y)));
        }
    }
    if is_face(passes, cascade, scale, more, width, x, y) {
        assert forall|s: int| 0 <= s < cascade.stages@.len() implies passes(
            s,
            #[trigger] leaves(cascade, s, scale, pixels, width, x, y),
        ) by {
            assert(passes(s, leaves(cascade, s, scale, more, width, x, y)));
        }
    }
}

proof fn lemma_row_hits_of_front(
    passes: spec_fn(int, Seq<usize>) -> bool,
    cascade: Cascade,
    scale: Scale,
    pixels: Seq<u8>,
    extra: Seq<u8>,
    width: nat,
    x: nat,
    y: nat,
)
    requires
        cascade.is_sound(),
        scale.unit > 0,
        width > 0,
        y + window(scale) <= pixels.len() / width,
    ensures
        row_hits(passes, cascade, scale, pixels + extra, width, x, y) == row_hits(
            passes,
            cascade,
            scale,
            pixels,
            width,
            x,
            y,
        ),
    decreases width + step(scale) - x,
{
    if x + window(scale) <= width {
        lemma_is_face_of_front(passes, cascade, scale, pixels, extra, width, x, y);
        lemma_row_hits_of_front(
            passes,
            cascade,
            scale,
            pixels,
            extra,
            width,
            x + step(scale),
            y,
        );
    }
}

proof fn lemma_level_hits_of_front(
    passes: spec_fn(int, Seq<usize>) -> bool,
    cascade: Cascade,
    scale: Scale,
    pixels: Seq<u8>,
    extra: Seq<u8>,
    width: nat,
    y: nat,
)
    requires
        cascade.is_sound(),
        scale.unit > 0,
        width > 0,
        (pixels + extra).len() / width == pixels.len() / width,
    ensures
        level_hits(passes, cascade, scale, pixels + extra, width, y) == level_hits(
            passes,
            cascade,
            scale,
            pixels,
            width,
            y,
        ),
    decreases pixels.len() / width + step(scale) - y,
{
    if y + window(scale) <= pixels.len() / width {
        lemma_row_hits_of_front(passes, cascade, scale, pixels, extra, width, 0, y);
        lemma_level_hits_of_front(passes, cascade, scale, pixels, extra, width, y + step(scale));
    }
}

proof fn lemma_all_hits_of_front(
    passes: spec_fn(int, Seq<usize>) -> bool,
    cascade: Cascade,
    scales: Seq<Scale>,
    pixels: Seq<u8>,
    extra: Seq<u8>,
    width: nat,
    k: nat,
)
    requires
        cascade.is_sound(),
        forall|m: int| 0 <= m < scales.len() ==> (#[trigger] scales[m]).unit > 0,
        width > 0,
        (pixels + extra).len() / width == pixels.len() / width,
    ensures
        all_hits(passes, cascade, scales, pixels + extra, width, k) == all_hits(
            passes,
            cascade,
            scales,
            pixels,
            width,
            k,
        ),
    decreases scales.len() - k,
{
    if k < scales.len() {
        lemma_level_hits_of_front(passes, cascade, scales[k as int], pixels, extra, width, 0);
        lemma_all_hits_of_front(passes, cascade, scales, pixels, extra, width, k + 1);
    }
}

/// A last row that is not full has no influence: the hits, and so the strongest face, are those of
/// the full rows.
pub proof fn law_partial_row_has_no_influence(
    passes: spec_fn(int, Seq<usize>) -> bool,
    cascade: Cascade,
    scales: Seq<Scale>,
    pixels: Seq<u8>,
    extra: Seq<u8>,
    width: nat,
    face: Option<Face>,
)
    requires
        cascade.is_sound(),
        forall|m: int| 0 <= m < scales.len() ==> (#[trigger] scales[m]).unit > 0,
        width > 0,
        pixels.len() % width == 0,
        extra.len() < width,
    ensures
        all_hits(passes, cascade, scales, pixels + extra, width, 0) == all_hits(
            passes,
            cascade,
            scales,
            pixels,
            width,
            0,
        ),
        is_strongest(all_hits(passes, cascade, scales, pixels + extra, width, 0), face)
            <==> is_strongest(all_hits(passes, cascade, scales, pixels, width, 0), face),
{
    let (n, e, w) = (pixels.len() as int, extra.len() as int, width as int);
    lemma_fundamental_div_mod(n, w);
    assert(n + e == (n / w) * w + e) by (nonlinear_arith)
        requires
            n == w * (n / w),
    ;
    lemma_fundamental_div_mod_converse(n + e, w, n / w, e);
    assert((pixels + extra).len() == n + e);
    lemma_all_hits_of_front(passes, cascade, scales, pixels, extra, width, 0);
}

/// An image of 24 or 25 pixels a side has no face: a single window fits, at the first scale only,
/// and one hit is too few.
pub proof fn law_tiny_images_have_no_face(
    passes: spec_fn(int, Seq<usize>) -> bool,
    cascade: Cascade,
    scales: Seq<Scale>,
    pixels: Seq<u8>,
    width: nat,
    face: Option<Face>,
)
    requires
        WINDOW <= width <= WINDOW + 1,
        WINDOW <= pixels.len() / width <= WINDOW + 1,
        scales.len() > 0 ==> scales[0].parts == scales[0].unit && scales[0].unit > 0,
        scales.len() > 1 ==> window(scales[1]) > WINDOW + 1,
        is_strongest(all_hits(passes, cascade, scales, pixels, width, 0), face),
    ensures
        all_hits(passes, cascade, scales, pixels, width, 0).len() <= 1,
        face is None,
{
    if scales.len() > 0 {
        let scale = scales[0];
        let u = scale.unit as int;
        lemma_div_multiples_vanish(WINDOW as int, u);
        lemma_div_multiples_vanish(2, u);
        assert(window(scale) == WINDOW);
        assert(step(scale) == 2);
        assert(row_hits(passes, cascade, scale, pixels, width, 2, 0).len() == 0);
        assert(level_hits(passes, cascade, scale, pixels, width, 2).len() == 0);
        assert(row_hits(passes, cascade, scale, pixels, width, 0, 0).len() <= 1);
        assert(level_hits(passes, cascade, scale, pixels, width, 0).len() <= 1);
        assert(all_hits(passes, cascade, scales, pixels, width, 1).len() == 0);
    }
    law_few_hits_are_no_face(all_hits(passes, cascade, scales, pixels, width, 0), face);
}

proof fn lemma_totals_large(hits: Seq<Hit>, labels: Seq<int>, g: int, n: nat)
    requires
        n <= hits.len(),
        forall|k: int|
            0 <= k < hits.len() ==> (#[trigger] hits[k]).width >= WINDOW && hits[k].height
                >= WINDOW,
    ensures
        totals(hits, labels, g, n).width >= WINDOW * totals(hits, labels, g, n).count,
        totals(hits, labels, g, n).height >= WINDOW * totals(hits, labels, g, n).count,
    decreases n,
{
    if n > 0 {
        lemma_totals_large(hits, labels, g, (n - 1) as nat);
        assert(hits[n - 1].width >= WINDOW && hits[n - 1].height >= WINDOW);
    }
}

/// Faces smaller than 5% of an image's long edge are missed: on a preview, every hit is at least a
/// twentieth of each edge wide and high, and so is the mean box of the strongest face.
pub proof fn law_faces_below_a_twentieth_are_missed(
    passes: spec_fn(int, Seq<usize>) -> bool,
    cascade: Cascade,
    scales: Seq<Scale>,
    pixels: Seq<u8>,
    width: nat,
    face: Option<Face>,
)
    requires
        0 < width <= PREVIEW_SIZE,
        pixels.len() / width <= PREVIEW_SIZE,
        forall|m: int|
            0 <= m < scales.len() ==> 0 < (#[trigger] scales[m]).unit <= scales[m].parts,
        is_strongest(all_hits(passes, cascade, scales, pixels, width, 0), face),
    ensures
        ({
            let hits = all_hits(passes, cascade, scales, pixels, width, 0);
            let height = pixels.len() / width;
            &&& forall|i: int|
                0 <= i < hits.len() ==> {
                    &&& 20 * (#[trigger] hits[i]).width >= width
                    &&& 20 * hits[i].width >= height
                    &&& 20 * hits[i].height >= width
                    &&& 20 * hits[i].height >= height
                }
            &&& face matches Some(face) ==> {
                &&& 20 * face.width >= face.count * width
                &&& 20 * face.width >= face.count * height
                &&& 20 * face.height >= face.count * width
                &&& 20 * face.height >= face.count * height
            }
        }),
{
    let hits = all_hits(passes, cascade, scales, pixels, width, 0);
    let height = pixels.len() / width;
    assert forall|i: int| 0 <= i < hits.len() implies (#[trigger] hits[i]).width >= WINDOW
        && hits[i].height >= WINDOW by {
        law_small_faces_are_missed(passes, cascade, scales, pixels, width, 0, i);
    }
    if let Some(f) = face {
        let g = choose|g: int| #[trigger] is_largest(hits, g) && f@ == group(hits, g);
        lemma_totals_large(hits, groups(hits), g, hits.len());
        assert(f.count * width <= 480 * f.count && f.count * height <= 480 * f.count)
            by (nonlinear_arith)
            requires
                0 <= width <= 480,
                0 <= height <= 480,
                f.count >= 0,
        ;
    }
}

} // verus!
