//! The search for faces: which windows are looked at, and what is seen in them.

use crate::face::all_hits;
use crate::face::cascade::Cascade;
use crate::face::group::is_strongest;
use crate::face::group::Face;
use crate::face::group::Hit;
use crate::face::has_bit;
use crate::face::integral::area_sum;
use crate::face::integral::cell_bit;
use crate::face::integral::lbp_code;
use crate::face::integral::row_sum;
use crate::face::is_detected;
use crate::face::is_face;
use crate::face::leaf;
use crate::face::leaves;
use crate::face::level_hits;
use crate::face::row_hits;
use crate::face::scaled;
use crate::face::step;
use crate::face::window;
use crate::face::Scale;
use vstd::arithmetic::div_mod::*;
use vstd::arithmetic::power2::*;
use vstd::bits::*;
use vstd::prelude::*;

verus! {

/// `n` is `v` times the scale, truncated.
pub open spec fn is_truncated(n: nat, v: nat, scale: Scale) -> bool {
    n * scale.unit <= v * scale.parts < (n + 1) * scale.unit
}

/// Windows stand `n` pixels apart: 2 pixels of the downscaled image, 1 once the scale passes 2, and
/// at least one pixel of the image itself.
pub open spec fn is_stride(n: nat, scale: Scale) -> bool {
    if scale.parts > 2 * scale.unit {
        n * scale.unit <= scale.parts < (n + 1) * scale.unit
    } else if 2 * scale.parts >= scale.unit {
        n * scale.unit <= 2 * scale.parts < (n + 1) * scale.unit
    } else {
        n == 1
    }
}

/// A window of 24 scaled pixels is no larger than the image.
pub open spec fn is_within(scale: Scale, width: nat, height: nat) -> bool {
    24 * scale.parts < (width + 1) * scale.unit && 24 * scale.parts < (height + 1) * scale.unit
}

proof fn lemma_truncated(n: nat, v: nat, scale: Scale)
    requires
        scale.unit > 0,
    ensures
        is_truncated(n, v, scale) <==> n == scaled(v, scale),
{
    let (p, u) = ((v * scale.parts) as int, scale.unit as int);
    lemma_fundamental_div_mod(p, u);
    let q = p / u;
    assert(u * q == q * u && (q + 1) * u == q * u + u) by (nonlinear_arith);
    if is_truncated(n, v, scale) {
        assert(n == q) by (nonlinear_arith)
            requires
                n * u <= p < (n + 1) * u,
                q * u <= p < q * u + u,
                u > 0,
        ;
    }
}

/// Scaled values are truncated.
pub proof fn law_scaling_truncates(v: nat, scale: Scale)
    requires
        scale.unit > 0,
    ensures
        is_truncated(scaled(v, scale), v, scale),
        is_truncated(window(scale), 24, scale),
{
    lemma_truncated(scaled(v, scale), v, scale);
    lemma_truncated(window(scale), 24, scale);
}

/// Windows stand close at every scale: next to each other, or no more than two scaled pixels apart,
/// and no more than one above scale 2.
pub proof fn law_windows_stand_close(scale: Scale)
    requires
        scale.unit > 0,
    ensures
        is_stride(step(scale), scale),
        step(scale) >= 1,
        step(scale) == 1 || step(scale) * scale.unit <= 2 * scale.parts,
{
    lemma_truncated(scaled(1, scale), 1, scale);
    lemma_truncated(scaled(2, scale), 2, scale);
    lemma_truncated(window(scale), 24, scale);
    let (p, u) = (scale.parts as int, scale.unit as int);
    let (one, two) = (scaled(1, scale) as int, scaled(2, scale) as int);
    if p > 2 * u {
        assert(one >= 1) by (nonlinear_arith)
            requires
                p < (one + 1) * u,
                p > 2 * u,
                u > 0,
        ;
    } else if 2 * p >= u {
        assert(two >= 1) by (nonlinear_arith)
            requires
                2 * p < (two + 1) * u,
                2 * p >= u,
                u > 0,
        ;
    } else {
        assert(two < 1) by (nonlinear_arith)
            requires
                two * u <= 2 * p,
                2 * p < u,
                u > 0,
        ;
    }
}

proof fn lemma_stride(n: nat, scale: Scale)
    requires
        scale.unit > 0,
        is_stride(n, scale),
    ensures
        n == step(scale),
{
    law_windows_stand_close(scale);
    let (s, u, m) = (step(scale) as int, scale.unit as int, n as int);
    let t = if scale.parts > 2 * scale.unit {
        scale.parts as int
    } else {
        2 * scale.parts
    };
    if 2 * scale.parts >= scale.unit {
        assert(m == s) by (nonlinear_arith)
            requires
                m * u <= t < (m + 1) * u,
                s * u <= t < (s + 1) * u,
                u > 0,
        ;
    }
}

proof fn lemma_within(scale: Scale, width: nat, height: nat)
    requires
        scale.unit > 0,
    ensures
        is_within(scale, width, height) <==> window(scale) <= width && window(scale) <= height,
{
    lemma_truncated(window(scale), 24, scale);
    let (n, p, u) = (window(scale) as int, 24 * scale.parts, scale.unit as int);
    assert forall|m: nat| #![trigger (m + 1) * u] p < (m + 1) * u <==> n <= m by {
        if n <= m {
            assert((n + 1) * u <= (m + 1) * u) by (nonlinear_arith)
                requires
                    n <= m,
                    u > 0,
            ;
        } else {
            assert((m + 1) * u <= n * u) by (nonlinear_arith)
                requires
                    m + 1 <= n,
                    u > 0,
            ;
        }
    }
    assert((width + 1) * u == (width + 1) * scale.unit);
    assert((height + 1) * u == (height + 1) * scale.unit);
}

proof fn lemma_row_is_dense(
    passes: spec_fn(int, Seq<usize>) -> bool,
    cascade: Cascade,
    scale: Scale,
    pixels: Seq<u8>,
    width: nat,
    from: nat,
    y: nat,
    i: nat,
)
    requires
        from + i * step(scale) + window(scale) <= width,
        is_face(passes, cascade, scale, pixels, width, from + i * step(scale), y),
    ensures
        row_hits(passes, cascade, scale, pixels, width, from, y).contains(
            Hit {
                x: (from + i * step(scale)) as usize,
                y: y as usize,
                width: window(scale) as usize,
                height: window(scale) as usize,
            },
        ),
    decreases i,
{
    let all = row_hits(passes, cascade, scale, pixels, width, from, y);
    let hit = Hit {
        x: (from + i * step(scale)) as usize,
        y: y as usize,
        width: window(scale) as usize,
        height: window(scale) as usize,
    };
    let rest = row_hits(passes, cascade, scale, pixels, width, from + step(scale), y);
    if i == 0 {
        assert(0 * step(scale) == 0);
        assert(all[0] == hit);
    } else {
        let s = step(scale);
        assert(i * s == (i - 1) * s + s && (i - 1) * s >= 0) by (nonlinear_arith)
            requires
                i >= 1,
        ;
        lemma_row_is_dense(
            passes,
            cascade,
            scale,
            pixels,
            width,
            from + s,
            y,
            (i - 1) as nat,
        );
        let k = rest.index_of(hit);
        assert(rest[k] == hit);
        let shift = all.len() - rest.len();
        assert(all[k + shift] == hit);
    }
}

proof fn lemma_level_is_dense(
    passes: spec_fn(int, Seq<usize>) -> bool,
    cascade: Cascade,
    scale: Scale,
    pixels: Seq<u8>,
    width: nat,
    from: nat,
    i: nat,
    j: nat,
)
    requires
        i * step(scale) + window(scale) <= width,
        from + j * step(scale) + window(scale) <= pixels.len() / width,
        is_face(
            passes,
            cascade,
            scale,
            pixels,
            width,
            i * step(scale),
            from + j * step(scale),
        ),
    ensures
        level_hits(passes, cascade, scale, pixels, width, from).contains(
            Hit {
                x: (i * step(scale)) as usize,
                y: (from + j * step(scale)) as usize,
                width: window(scale) as usize,
                height: window(scale) as usize,
            },
        ),
    decreases j,
{
    let all = level_hits(passes, cascade, scale, pixels, width, from);
    let s = step(scale);
    let hit = Hit {
        x: (i * s) as usize,
        y: (from + j * s) as usize,
        width: window(scale) as usize,
        height: window(scale) as usize,
    };
    let row = row_hits(passes, cascade, scale, pixels, width, 0, from);
    let rest = level_hits(passes, cascade, scale, pixels, width, from + s);
    if j == 0 {
        assert(0 * s == 0);
        lemma_row_is_dense(passes, cascade, scale, pixels, width, 0, from, i);
        let k = row.index_of(hit);
        assert(row[k] == hit);
        assert(all[k] == hit);
    } else {
        assert(j * s == (j - 1) * s + s && (j - 1) * s >= 0) by (nonlinear_arith)
            requires
                j >= 1,
        ;
        lemma_level_is_dense(
            passes,
            cascade,
            scale,
            pixels,
            width,
            from + s,
            i,
            (j - 1) as nat,
        );
        let k = rest.index_of(hit);
        assert(rest[k] == hit);
        assert(all[row.len() + k] == hit);
    }
}

proof fn lemma_search_is_dense(
    passes: spec_fn(int, Seq<usize>) -> bool,
    cascade: Cascade,
    scales: Seq<Scale>,
    pixels: Seq<u8>,
    width: nat,
    from: nat,
    k: nat,
    hit: Hit,
)
    requires
        from <= k < scales.len(),
        forall|m: int|
            from <= m <= k ==> window(#[trigger] scales[m]) <= width && window(scales[m])
                <= pixels.len() / width,
        level_hits(passes, cascade, scales[k as int], pixels, width, 0).contains(hit),
    ensures
        all_hits(passes, cascade, scales, pixels, width, from).contains(hit),
    decreases k - from,
{
    let all = all_hits(passes, cascade, scales, pixels, width, from);
    assert(window(scales[from as int]) <= width);
    let own = level_hits(passes, cascade, scales[from as int], pixels, width, 0);
    if from == k {
        let i = own.index_of(hit);
        assert(own[i] == hit);
        assert(all[i] == hit);
    } else {
        lemma_search_is_dense(passes, cascade, scales, pixels, width, from + 1, k, hit);
        let rest = all_hits(passes, cascade, scales, pixels, width, from + 1);
        let i = rest.index_of(hit);
        assert(rest[i] == hit);
        assert(all[own.len() + i] == hit);
    }
}

/// The search is dense at every scale: every window that stands on the grid of its scale, lies
/// inside the image and passes every stage is among the hits, unless a scale before it is too large
/// for the image.
pub proof fn law_search_is_dense(
    passes: spec_fn(int, Seq<usize>) -> bool,
    cascade: Cascade,
    scales: Seq<Scale>,
    pixels: Seq<u8>,
    width: nat,
    k: nat,
    side: nat,
    stride: nat,
    x: nat,
    y: nat,
)
    requires
        width > 0,
        k < scales.len(),
        forall|m: int|
            0 <= m <= k ==> (#[trigger] scales[m]).unit > 0 && is_within(
                scales[m],
                width,
                pixels.len() / width,
            ),
        is_truncated(side, 24, scales[k as int]),
        is_stride(stride, scales[k as int]),
        x % stride == 0,
        y % stride == 0,
        x + side <= width,
        y + side <= pixels.len() / width,
        is_face(passes, cascade, scales[k as int], pixels, width, x, y),
    ensures
        all_hits(passes, cascade, scales, pixels, width, 0).contains(
            Hit { x: x as usize, y: y as usize, width: side as usize, height: side as usize },
        ),
{
    let scale = scales[k as int];
    lemma_truncated(side, 24, scale);
    lemma_stride(stride, scale);
    law_windows_stand_close(scale);
    let (i, j) = (x / stride, y / stride);
    lemma_fundamental_div_mod(x as int, stride as int);
    lemma_fundamental_div_mod(y as int, stride as int);
    assert(i * stride == x && j * stride == y) by (nonlinear_arith)
        requires
            x == stride * i + 0,
            y == stride * j + 0,
    ;
    lemma_level_is_dense(passes, cascade, scale, pixels, width, 0, i, j);
    assert forall|m: int| 0 <= m <= k implies window(#[trigger] scales[m]) <= width && window(
        scales[m],
    ) <= pixels.len() / width by {
        lemma_within(scales[m], width, pixels.len() / width);
    }
    let hit = Hit { x: x as usize, y: y as usize, width: side as usize, height: side as usize };
    lemma_search_is_dense(passes, cascade, scales, pixels, width, 0, k, hit);
}

/// A hit is a window on the grid of a scale that passes every stage.
pub open spec fn is_grid_hit(
    passes: spec_fn(int, Seq<usize>) -> bool,
    cascade: Cascade,
    scale: Scale,
    pixels: Seq<u8>,
    width: nat,
    stride: nat,
    hit: Hit,
) -> bool {
    &&& is_truncated(hit.width as nat, 24, scale)
    &&& hit.height == hit.width
    &&& is_stride(stride, scale)
    &&& hit.x as nat % stride == 0
    &&& hit.y as nat % stride == 0
    &&& hit.x + hit.width <= width
    &&& hit.y + hit.height <= pixels.len() / width
    &&& is_face(passes, cascade, scale, pixels, width, hit.x as nat, hit.y as nat)
}

/// The hit is a window on the grid of one of the scales that passes every stage, and no scale up to
/// that one is too large for the image.
pub open spec fn is_window_with_face(
    passes: spec_fn(int, Seq<usize>) -> bool,
    cascade: Cascade,
    scales: Seq<Scale>,
    pixels: Seq<u8>,
    width: nat,
    hit: Hit,
) -> bool {
    exists|k: int, stride: nat|
        0 <= k < scales.len() && #[trigger] is_grid_hit(
            passes,
            cascade,
            scales[k],
            pixels,
            width,
            stride,
            hit,
        ) && forall|m: int|
            0 <= m <= k ==> is_within(#[trigger] scales[m], width, pixels.len() / width)
}

/// One hit stands before another: higher up, or in the same row further left.
pub open spec fn stands_before(a: Hit, b: Hit) -> bool {
    a.y < b.y || (a.y == b.y && a.x < b.x)
}

proof fn lemma_row_on_grid(
    passes: spec_fn(int, Seq<usize>) -> bool,
    cascade: Cascade,
    scale: Scale,
    pixels: Seq<u8>,
    width: nat,
    x: nat,
    y: nat,
)
    requires
        scale.unit > 0,
        0 < width <= usize::MAX,
        pixels.len() / width <= usize::MAX,
        x % step(scale) == 0,
        y % step(scale) == 0,
        y + window(scale) <= pixels.len() / width,
    ensures
        ({
            let all = row_hits(passes, cascade, scale, pixels, width, x, y);
            &&& forall|i: int|
                0 <= i < all.len() ==> {
                    &&& is_grid_hit(
                        passes,
                        cascade,
                        scale,
                        pixels,
                        width,
                        step(scale),
                        #[trigger] all[i],
                    )
                    &&& all[i].y == y
                    &&& all[i].x >= x
                }
            &&& forall|i: int, j: int|
                0 <= i < j < all.len() ==> stands_before(#[trigger] all[i], #[trigger] all[j])
        }),
    decreases width + step(scale) - x,
{
    law_scaling_truncates(24, scale);
    law_windows_stand_close(scale);
    if x + window(scale) <= width {
        let s = step(scale);
        let all = row_hits(passes, cascade, scale, pixels, width, x, y);
        let rest = row_hits(passes, cascade, scale, pixels, width, x + s, y);
        lemma_mod_add_multiples_vanish(x as int, s as int);
        assert((x + s) as int % s as int == (s + x) as int % s as int);
        lemma_row_on_grid(passes, cascade, scale, pixels, width, x + s, y);
        let shift = all.len() - rest.len();
        assert forall|i: int| 0 <= i < all.len() implies {
            &&& is_grid_hit(passes, cascade, scale, pixels, width, s, #[trigger] all[i])
            &&& all[i].y == y
            &&& all[i].x >= x
        } by {
            if i >= shift {
                assert(all[i] == rest[i - shift]);
            }
        }
        assert forall|i: int, j: int| 0 <= i < j < all.len() implies stands_before(
            #[trigger] all[i],
            #[trigger] all[j],
        ) by {
            assert(all[j] == rest[j - shift]);
            if i >= shift {
                assert(all[i] == rest[i - shift]);
            }
        }
    }
}

proof fn lemma_level_on_grid(
    passes: spec_fn(int, Seq<usize>) -> bool,
    cascade: Cascade,
    scale: Scale,
    pixels: Seq<u8>,
    width: nat,
    y: nat,
)
    requires
        scale.unit > 0,
        0 < width <= usize::MAX,
        pixels.len() / width <= usize::MAX,
        y % step(scale) == 0,
    ensures
        ({
            let all = level_hits(passes, cascade, scale, pixels, width, y);
            &&& forall|i: int|
                0 <= i < all.len() ==> is_grid_hit(
                    passes,
                    cascade,
                    scale,
                    pixels,
                    width,
                    step(scale),
                    #[trigger] all[i],
                ) && all[i].y >= y
            &&& forall|i: int, j: int|
                0 <= i < j < all.len() ==> stands_before(#[trigger] all[i], #[trigger] all[j])
        }),
    decreases pixels.len() / width + step(scale) - y,
{
    law_windows_stand_close(scale);
    if y + window(scale) <= pixels.len() / width {
        let s = step(scale);
        let all = level_hits(passes, cascade, scale, pixels, width, y);
        let row = row_hits(passes, cascade, scale, pixels, width, 0, y);
        let rest = level_hits(passes, cascade, scale, pixels, width, y + s);
        lemma_small_mod(0, s);
        lemma_row_on_grid(passes, cascade, scale, pixels, width, 0, y);
        lemma_mod_add_multiples_vanish(y as int, s as int);
        assert((y + s) as int % s as int == (s + y) as int % s as int);
        lemma_level_on_grid(passes, cascade, scale, pixels, width, y + s);
        let n = row.len() as int;
        assert forall|i: int| 0 <= i < all.len() implies is_grid_hit(
            passes,
            cascade,
            scale,
            pixels,
            width,
            s,
            #[trigger] all[i],
        ) && all[i].y >= y by {
            if i < n {
                assert(all[i] == row[i]);
            } else {
                assert(all[i] == rest[i - n]);
            }
        }
        assert forall|i: int, j: int| 0 <= i < j < all.len() implies stands_before(
            #[trigger] all[i],
            #[trigger] all[j],
        ) by {
            if i < n {
                assert(all[i] == row[i]);
                assert(row[i].y == y);
            } else {
                assert(all[i] == rest[i - n]);
            }
            if j < n {
                assert(all[j] == row[j]);
            } else {
                assert(all[j] == rest[j - n]);
                assert(rest[j - n].y >= y + s);
            }
        }
    }
}

/// Nothing else is a hit: each stands on the grid of one of the scales, inside the image, and
/// passes every stage; and every scale up to that one is small enough for the image.
pub proof fn law_hits_stand_on_the_grid(
    passes: spec_fn(int, Seq<usize>) -> bool,
    cascade: Cascade,
    scales: Seq<Scale>,
    pixels: Seq<u8>,
    width: nat,
    from: nat,
    i: int,
) -> (found: (int, nat))
    requires
        0 < width <= usize::MAX,
        pixels.len() / width <= usize::MAX,
        forall|m: int| 0 <= m < scales.len() ==> (#[trigger] scales[m]).unit > 0,
        0 <= i < all_hits(passes, cascade, scales, pixels, width, from).len(),
    ensures
        from <= found.0 < scales.len(),
        is_grid_hit(
            passes,
            cascade,
            scales[found.0],
            pixels,
            width,
            found.1,
            all_hits(passes, cascade, scales, pixels, width, from)[i],
        ),
        forall|m: int|
            from <= m <= found.0 ==> is_within(
                #[trigger] scales[m],
                width,
                pixels.len() / width,
            ),
    decreases scales.len() - from,
{
    let all = all_hits(passes, cascade, scales, pixels, width, from);
    assert(from < scales.len());
    let scale = scales[from as int];
    let own = level_hits(passes, cascade, scale, pixels, width, 0);
    lemma_within(scale, width, pixels.len() / width);
    law_windows_stand_close(scale);
    lemma_small_mod(0, step(scale));
    lemma_level_on_grid(passes, cascade, scale, pixels, width, 0);
    if i < own.len() {
        assert(all[i] == own[i]);
        (from as int, step(scale))
    } else {
        let rest = all_hits(passes, cascade, scales, pixels, width, from + 1);
        assert(all[i] == rest[i - own.len()]);
        law_hits_stand_on_the_grid(
            passes,
            cascade,
            scales,
            pixels,
            width,
            from + 1,
            i - own.len(),
        )
    }
}

/// No window is counted twice, as long as the windows grow from scale to scale; at one scale the
/// hits come row by row, from left to right.
pub proof fn law_no_window_counts_twice(
    passes: spec_fn(int, Seq<usize>) -> bool,
    cascade: Cascade,
    scales: Seq<Scale>,
    pixels: Seq<u8>,
    width: nat,
    from: nat,
    i: int,
    j: int,
)
    requires
        0 < width <= usize::MAX,
        pixels.len() / width <= usize::MAX,
        forall|m: int| 0 <= m < scales.len() ==> (#[trigger] scales[m]).unit > 0,
        forall|a: int, b: int, m: nat, n: nat|
            0 <= a < b < scales.len() && #[trigger] is_truncated(m, 24, scales[a])
                && #[trigger] is_truncated(n, 24, scales[b]) ==> m < n,
        0 <= i < j < all_hits(passes, cascade, scales, pixels, width, from).len(),
    ensures
        ({
            let all = all_hits(passes, cascade, scales, pixels, width, from);
            &&& all[i] != all[j]
            &&& all[i].width <= all[j].width
            &&& all[i].width == all[j].width ==> stands_before(all[i], all[j])
        }),
    decreases scales.len() - from,
{
    let all = all_hits(passes, cascade, scales, pixels, width, from);
    assert(from < scales.len());
    let scale = scales[from as int];
    let own = level_hits(passes, cascade, scale, pixels, width, 0);
    let rest = all_hits(passes, cascade, scales, pixels, width, from + 1);
    law_windows_stand_close(scale);
    lemma_small_mod(0, step(scale));
    lemma_level_on_grid(passes, cascade, scale, pixels, width, 0);
    let n = own.len() as int;
    if j < n {
        assert(all[i] == own[i] && all[j] == own[j]);
        assert(is_truncated(own[i].width as nat, 24, scale));
        assert(is_truncated(own[j].width as nat, 24, scale));
        lemma_truncated(own[i].width as nat, 24, scale);
        lemma_truncated(own[j].width as nat, 24, scale);
    } else {
        assert(all[j] == rest[j - n]);
        if i < n {
            assert(all[i] == own[i]);
            assert(is_truncated(own[i].width as nat, 24, scale));
            let found = law_hits_stand_on_the_grid(
                passes,
                cascade,
                scales,
                pixels,
                width,
                from + 1,
                j - n,
            );
            assert(is_truncated(rest[j - n].width as nat, 24, scales[found.0]));
        } else {
            assert(all[i] == rest[i - n]);
            law_no_window_counts_twice(
                passes,
                cascade,
                scales,
                pixels,
                width,
                from + 1,
                i - n,
                j - n,
            );
        }
    }
}

proof fn lemma_row_splits(pixels: Seq<u8>, width: nat, x: nat, y: nat, m: nat, n: nat)
    ensures
        row_sum(pixels, width, x, y, m + n) == row_sum(pixels, width, x, y, m) + row_sum(
            pixels,
            width,
            x + m,
            y,
            n,
        ),
    decreases n,
{
    if n > 0 {
        lemma_row_splits(pixels, width, x, y, m, (n - 1) as nat);
        assert((m + n - 1) as nat == m + (n - 1) as nat);
    }
}

/// The sum of a single pixel is that pixel, and a rectangle that is cut in two, across or down, is
/// the sum of its parts.
pub proof fn law_sums_add_up(
    pixels: Seq<u8>,
    width: nat,
    x: nat,
    y: nat,
    w: nat,
    more_w: nat,
    h: nat,
    more_h: nat,
)
    ensures
        area_sum(pixels, width, x, y, 1, 1) == pixels[(y * width + x) as int],
        area_sum(pixels, width, x, y, 0, h) == 0,
        area_sum(pixels, width, x, y, w, 0) == 0,
        area_sum(pixels, width, x, y, w + more_w, h) == area_sum(pixels, width, x, y, w, h)
            + area_sum(pixels, width, x + w, y, more_w, h),
        area_sum(pixels, width, x, y, w, h + more_h) == area_sum(pixels, width, x, y, w, h)
            + area_sum(pixels, width, x, y + h, w, more_h),
    decreases h + more_h,
{
    reveal_with_fuel(area_sum, 2);
    reveal_with_fuel(row_sum, 2);
    if more_h > 0 {
        law_sums_add_up(pixels, width, x, y, w, more_w, h, (more_h - 1) as nat);
        assert((h + more_h - 1) as nat == h + (more_h - 1) as nat);
    } else if h > 0 {
        law_sums_add_up(pixels, width, x, y, w, more_w, (h - 1) as nat, 0);
        lemma_row_splits(pixels, width, x, (y + h - 1) as nat, w, more_w);
    }
}

/// The cell in this column and row of the 3x3 grid is at least as bright as the middle one.
pub open spec fn is_bright(
    pixels: Seq<u8>,
    width: nat,
    x: nat,
    y: nat,
    w: nat,
    h: nat,
    column: nat,
    row: nat,
) -> bool {
    area_sum(pixels, width, x + column * w, y + row * h, w, h) >= area_sum(
        pixels,
        width,
        x + w,
        y + h,
        w,
        h,
    )
}

proof fn lemma_cell(
    pixels: Seq<u8>,
    width: nat,
    x: nat,
    y: nat,
    w: nat,
    h: nat,
    column: nat,
    row: nat,
)
    requires
        column < 3,
        row < 3,
    ensures
        cell_bit(pixels, width, x, y, w, h, 3 * row + column) <= 1,
        cell_bit(pixels, width, x, y, w, h, 3 * row + column) == 1 <==> is_bright(
            pixels,
            width,
            x,
            y,
            w,
            h,
            column,
            row,
        ),
{
    let i = 3 * row + column;
    assert(i % 3 == column && i / 3 == row);
    assert(4nat % 3 == 1 && 4nat / 3 == 1);
    assert(1 * w == w && 1 * h == h);
}

proof fn lemma_bits(a: nat, b: nat, c: nat, d: nat, e: nat, f: nat, g: nat, h: nat)
    requires
        a <= 1,
        b <= 1,
        c <= 1,
        d <= 1,
        e <= 1,
        f <= 1,
        g <= 1,
        h <= 1,
    ensures
        ({
            let code = 128 * a + 64 * b + 32 * c + 16 * d + 8 * e + 4 * f + 2 * g + h;
            &&& code < 256
            &&& code / 128 % 2 == a
            &&& code / 64 % 2 == b
            &&& code / 32 % 2 == c
            &&& code / 16 % 2 == d
            &&& code / 8 % 2 == e
            &&& code / 4 % 2 == f
            &&& code / 2 % 2 == g
            &&& code % 2 == h
        }),
{
    let code = 128 * a + 64 * b + 32 * c + 16 * d + 8 * e + 4 * f + 2 * g + h;
    assert(code / 128 == a);
    assert(code / 64 == 2 * a + b);
    assert(code / 32 == 4 * a + 2 * b + c);
    assert(code / 16 == 8 * a + 4 * b + 2 * c + d);
    assert(code / 8 == 16 * a + 8 * b + 4 * c + 2 * d + e);
    assert(code / 4 == 32 * a + 16 * b + 8 * c + 4 * d + 2 * e + f);
    assert(code / 2 == 64 * a + 32 * b + 16 * c + 8 * d + 4 * e + 2 * f + g);
}

/// A pattern has one bit for each outer cell, set where the cell is at least as bright as the
/// middle, clockwise from the top-left cell as the high bit.
pub proof fn law_pattern_goes_clockwise(
    pixels: Seq<u8>,
    width: nat,
    x: nat,
    y: nat,
    w: nat,
    h: nat,
)
    ensures
        ({
            let code = lbp_code(pixels, width, x, y, w, h);
            &&& code < 256
            &&& code / 128 % 2 == 1 <==> is_bright(pixels, width, x, y, w, h, 0, 0)
            &&& code / 64 % 2 == 1 <==> is_bright(pixels, width, x, y, w, h, 1, 0)
            &&& code / 32 % 2 == 1 <==> is_bright(pixels, width, x, y, w, h, 2, 0)
            &&& code / 16 % 2 == 1 <==> is_bright(pixels, width, x, y, w, h, 2, 1)
            &&& code / 8 % 2 == 1 <==> is_bright(pixels, width, x, y, w, h, 2, 2)
            &&& code / 4 % 2 == 1 <==> is_bright(pixels, width, x, y, w, h, 1, 2)
            &&& code / 2 % 2 == 1 <==> is_bright(pixels, width, x, y, w, h, 0, 2)
            &&& code % 2 == 1 <==> is_bright(pixels, width, x, y, w, h, 0, 1)
        }),
{
    lemma_cell(pixels, width, x, y, w, h, 0, 0);
    lemma_cell(pixels, width, x, y, w, h, 1, 0);
    lemma_cell(pixels, width, x, y, w, h, 2, 0);
    lemma_cell(pixels, width, x, y, w, h, 2, 1);
    lemma_cell(pixels, width, x, y, w, h, 2, 2);
    lemma_cell(pixels, width, x, y, w, h, 1, 2);
    lemma_cell(pixels, width, x, y, w, h, 0, 2);
    lemma_cell(pixels, width, x, y, w, h, 0, 1);
    lemma_bits(
        cell_bit(pixels, width, x, y, w, h, 0),
        cell_bit(pixels, width, x, y, w, h, 1),
        cell_bit(pixels, width, x, y, w, h, 2),
        cell_bit(pixels, width, x, y, w, h, 5),
        cell_bit(pixels, width, x, y, w, h, 8),
        cell_bit(pixels, width, x, y, w, h, 7),
        cell_bit(pixels, width, x, y, w, h, 6),
        cell_bit(pixels, width, x, y, w, h, 3),
    );
}

/// A subset holds a code where the bit of that number is set, counted through its eight words.
pub proof fn law_subset_is_a_bitset(subset: [u32; 8], code: nat)
    requires
        code < 256,
    ensures
        has_bit(subset, code) <==> (subset@[(code / 32) as int] as nat / pow2(code % 32)) % 2 == 1,
{
    let word = subset@[(code / 32) as int];
    let b = (code % 32) as u32;
    lemma_u32_shr_is_div(word, b);
    assert(word & (1u32 << b) != 0 <==> (word >> b) % 2 == 1) by (bit_vector)
        requires
            b < 32,
    ;
    assert(1u32 << (code % 32) == 1u32 << b);
}

/// A window shows a face exactly when the leaves that its stumps choose pass every stage. A stump
/// chooses the first leaf where its subset holds the pattern of its feature, which is scaled and
/// moved into the window, and else the second.
pub proof fn law_faces_pass_every_stage(
    passes: spec_fn(int, Seq<usize>) -> bool,
    cascade: Cascade,
    scale: Scale,
    pixels: Seq<u8>,
    width: nat,
    x: nat,
    y: nat,
    chosen: Seq<Seq<usize>>,
)
    requires
        scale.unit > 0,
        chosen.len() == cascade.stages@.len(),
        forall|s: int|
            0 <= s < chosen.len() ==> (#[trigger] chosen[s]).len()
                == cascade.stages@[s].stumps@.len(),
        forall|s: int, k: int, fx: nat, fy: nat, fw: nat, fh: nat|
            #![trigger chosen[s][k], lbp_code(pixels, width, x + fx, y + fy, fw, fh)]
            0 <= s < chosen.len() && 0 <= k < chosen[s].len() ==> {
                let stump = cascade.stages@[s].stumps@[k];
                let feature = cascade.features@[stump.feature as int]@;
                is_truncated(fx, feature[0] as nat, scale) && is_truncated(
                    fy,
                    feature[1] as nat,
                    scale,
                ) && is_truncated(fw, feature[2] as nat, scale) && is_truncated(
                    fh,
                    feature[3] as nat,
                    scale,
                ) ==> chosen[s][k] == (if has_bit(
                    stump.subset,
                    lbp_code(pixels, width, x + fx, y + fy, fw, fh),
                ) {
                    0usize
                } else {
                    1usize
                })
            },
    ensures
        is_face(passes, cascade, scale, pixels, width, x, y) <==> forall|s: int|
            0 <= s < chosen.len() ==> passes(s, #[trigger] chosen[s]),
{
    assert forall|s: int| 0 <= s < chosen.len() implies leaves(
        cascade,
        s,
        scale,
        pixels,
        width,
        x,
        y,
    ) == #[trigger] chosen[s] by {
        let list = leaves(cascade, s, scale, pixels, width, x, y);
        assert(list.len() == chosen[s].len());
        assert forall|k: int| 0 <= k < list.len() implies list[k] == chosen[s][k] by {
            let stump = cascade.stages@[s].stumps@[k];
            let f = cascade.features@[stump.feature as int]@;
            law_scaling_truncates(f[0] as nat, scale);
            law_scaling_truncates(f[1] as nat, scale);
            law_scaling_truncates(f[2] as nat, scale);
            law_scaling_truncates(f[3] as nat, scale);
            let (fx, fy) = (scaled(f[0] as nat, scale), scaled(f[1] as nat, scale));
            let (fw, fh) = (scaled(f[2] as nat, scale), scaled(f[3] as nat, scale));
            assert(lbp_code(pixels, width, x + fx, y + fy, fw, fh) >= 0);
            assert(list[k] == leaf(cascade, stump, scale, pixels, width, x, y));
        }
        assert(list =~= chosen[s]);
    }
    if is_face(passes, cascade, scale, pixels, width, x, y) {
        assert forall|s: int| 0 <= s < chosen.len() implies passes(s, #[trigger] chosen[s]) by {
            assert(leaves(cascade, s, scale, pixels, width, x, y) == chosen[s]);
        }
    }
    if forall|s: int| 0 <= s < chosen.len() ==> passes(s, #[trigger] chosen[s]) {
        assert forall|s: int| 0 <= s < cascade.stages@.len() implies passes(
            s,
            #[trigger] leaves(cascade, s, scale, pixels, width, x, y),
        ) by {
            assert(passes(s, chosen[s]));
        }
    }
}

/// A cascade is sound exactly when every feature's grid of three by three cells ends inside the
/// window of 24 pixels, and every stump has a feature.
pub proof fn law_sound_cascades_stay_in_the_window(cascade: Cascade)
    ensures
        cascade.is_sound() <==> {
            &&& forall|k: int|
                #![trigger cascade.features@[k]]
                0 <= k < cascade.features@.len() ==> cascade.features@[k]@[0] + 3
                    * cascade.features@[k]@[2] <= 24 && cascade.features@[k]@[1] + 3
                    * cascade.features@[k]@[3] <= 24
            &&& forall|s: int, k: int|
                #![trigger cascade.stages@[s].stumps@[k]]
                0 <= s < cascade.stages@.len() && 0 <= k < cascade.stages@[s].stumps@.len()
                    ==> cascade.stages@[s].stumps@[k].feature < cascade.features@.len()
        },
{
}

/// What is found is the strongest face of hits among which is every window on the grids of the
/// scales that passes every stage, up to the first scale that is too large for the image, and
/// nothing else.
pub proof fn law_detection_weighs_every_window(
    passes: spec_fn(int, Seq<usize>) -> bool,
    cascade: Cascade,
    scales: Seq<Scale>,
    pixels: Seq<u8>,
    width: nat,
    face: Option<Face>,
) -> (hits: Seq<Hit>)
    requires
        0 < width <= usize::MAX,
        pixels.len() / width <= usize::MAX,
        forall|m: int| 0 <= m < scales.len() ==> (#[trigger] scales[m]).unit > 0,
        is_detected(passes, cascade, scales, pixels, width, face),
    ensures
        is_strongest(hits, face),
        forall|hit: Hit|
            hits.contains(hit) <==> #[trigger] is_window_with_face(
                passes,
                cascade,
                scales,
                pixels,
                width,
                hit,
            ),
{
    let hits = all_hits(passes, cascade, scales, pixels, width, 0);
    let height = pixels.len() / width;
    assert forall|hit: Hit|
        hits.contains(hit) <==> #[trigger] is_window_with_face(
            passes,
            cascade,
            scales,
            pixels,
            width,
            hit,
        ) by {
        if hits.contains(hit) {
            let i = hits.index_of(hit);
            let found = law_hits_stand_on_the_grid(
                passes,
                cascade,
                scales,
                pixels,
                width,
                0,
                i,
            );
            assert(is_grid_hit(
                passes,
                cascade,
                scales[found.0],
                pixels,
                width,
                found.1,
                hit,
            ));
        }
        if is_window_with_face(passes, cascade, scales, pixels, width, hit) {
            let (k, stride) = choose|k: int, stride: nat|
                0 <= k < scales.len() && #[trigger] is_grid_hit(
                    passes,
                    cascade,
                    scales[k],
                    pixels,
                    width,
                    stride,
                    hit,
                ) && forall|m: int|
                    0 <= m <= k ==> is_within(#[trigger] scales[m], width, pixels.len() / width);
            law_search_is_dense(
                passes,
                cascade,
                scales,
                pixels,
                width,
                k as nat,
                hit.width as nat,
                stride,
                hit.x as nat,
                hit.y as nat,
            );
        }
    }
    hits
}

} // verus!
