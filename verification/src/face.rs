//! Anime-style face detection: an evaluator for LBP cascades that follows OpenCV's
//! `detectMultiScale`.

pub mod cascade;
pub mod extent;
pub mod group;
pub mod integral;
pub mod markup;
pub mod order;

use crate::face::cascade::Cascade;
use crate::face::cascade::Stage;
use crate::face::cascade::Stump;
use crate::face::group::group;
use crate::face::group::groups;
use crate::face::group::is_largest;
use crate::face::group::is_strongest;
use crate::face::group::strongest;
use crate::face::group::totals;
use crate::face::group::Face;
use crate::face::group::Hit;
use crate::face::group::Totals;
use crate::face::integral::area_sum;
use crate::face::integral::law_sum_is_bounded;
use crate::face::integral::lbp;
use crate::face::integral::lbp_code;
use crate::face::integral::Integral;
use vstd::arithmetic::div_mod::*;
use vstd::prelude::*;

verus! {

/// The cascade's detection window, in pixels.
pub const WINDOW: usize = 24;

/// How much larger than in the cascade windows and features are: `parts` / `unit`.
#[derive(Debug, Clone, Copy, PartialEq, Eq, Structural)]
pub struct Scale {
    pub parts: u64,
    pub unit: u64,
}

/// `v` scaled and truncated.
pub open spec fn scaled(v: nat, scale: Scale) -> nat {
    v * scale.parts as nat / scale.unit as nat
}

/// Side of the scaled detection window.
pub open spec fn window(scale: Scale) -> nat {
    scaled(WINDOW as nat, scale)
}

/// Distance between windows: 2 pixels of the downscaled image, 1 once the scale passes 2.
pub open spec fn step(scale: Scale) -> nat {
    let wide = if scale.parts > 2 * scale.unit {
        scaled(1, scale)
    } else {
        scaled(2, scale)
    };
    if wide >= 1 {
        wide
    } else {
        1
    }
}

impl Cascade {
    /// Every feature's grid lies inside the window, and every stump has its feature.
    pub open spec fn is_sound(&self) -> bool {
        &&& forall|k: int|
            0 <= k < self.features@.len() ==> {
                &&& (#[trigger] self.features@[k])@[0] + 3 * self.features@[k]@[2] <= WINDOW
                &&& self.features@[k]@[1] + 3 * self.features@[k]@[3] <= WINDOW
            }
        &&& forall|s: int, k: int|
            0 <= s < self.stages@.len() && 0 <= k < self.stages@[s].stumps@.len() ==> (
            #[trigger] self.stages@[s].stumps@[k]).feature < self.features@.len()
    }

    /// Whether the cascade can be evaluated.
    pub fn check(&self) -> (r: bool)
        ensures
            r == self.is_sound(),
    {
        let mut k: usize = 0;
        while k < self.features.len()
            invariant
                k <= self.features@.len(),
                forall|m: int|
                    0 <= m < k ==> {
                        &&& (#[trigger] self.features@[m])@[0] + 3 * self.features@[m]@[2]
                            <= WINDOW
                        &&& self.features@[m]@[1] + 3 * self.features@[m]@[3] <= WINDOW
                    },
            decreases self.features@.len() - k,
        {
            let f: [usize; 4] = self.features[k];
            let across: u128 = f[0] as u128 + 3 * f[2] as u128;
            let down: u128 = f[1] as u128 + 3 * f[3] as u128;
            if across > WINDOW as u128 || down > WINDOW as u128 {
                assert(f == self.features@[k as int]);
                return false;
            }
            k = k + 1;
        }
        let mut s: usize = 0;
        while s < self.stages.len()
            invariant
                s <= self.stages@.len(),
                forall|t: int, m: int|
                    0 <= t < s && 0 <= m < self.stages@[t].stumps@.len() ==> (
                    #[trigger] self.stages@[t].stumps@[m]).feature < self.features@.len(),
            decreases self.stages@.len() - s,
        {
            let stage: &Stage = &self.stages[s];
            let mut k: usize = 0;
            while k < stage.stumps.len()
                invariant
                    s < self.stages@.len(),
                    *stage == self.stages@[s as int],
                    k <= stage.stumps@.len(),
                    forall|m: int|
                        0 <= m < k ==> (#[trigger] stage.stumps@[m]).feature
                            < self.features@.len(),
                decreases stage.stumps@.len() - k,
            {
                if stage.stumps[k].feature >= self.features.len() {
                    assert(self.stages@[s as int].stumps@[k as int].feature
                        >= self.features@.len());
                    return false;
                }
                k = k + 1;
            }
            s = s + 1;
        }
        true
    }
}

/// Truncation keeps every scaled 3x3 grid inside the scaled window: a grid of three cells of
/// `cell` pixels at `at` that ends inside a window of `whole` pixels does so at every scale.
pub proof fn law_scaled_grid_stays_inside(at: nat, cell: nat, whole: nat, scale: Scale)
    requires
        scale.unit > 0,
        at + 3 * cell <= whole,
    ensures
        scaled(at, scale) + 3 * scaled(cell, scale) <= scaled(whole, scale),
{
    let (p, u) = (scale.parts as int, scale.unit as int);
    let (a, c, w) = (at as int, cell as int, whole as int);
    lemma_fundamental_div_mod(a * p, u);
    lemma_fundamental_div_mod(c * p, u);
    let (qa, qc) = (a * p / u, c * p / u);
    assert(u * (qa + 3 * qc) == u * qa + 3 * (u * qc)) by (nonlinear_arith);
    assert(a * p + 3 * (c * p) <= w * p) by (nonlinear_arith)
        requires
            a + 3 * c <= w,
            p >= 0,
    ;
    assert(u * (qa + 3 * qc) <= w * p);
    lemma_div_is_ordered(u * (qa + 3 * qc), w * p, u);
    lemma_div_multiples_vanish(qa + 3 * qc, u);
}

/// A smaller value stays smaller when it is scaled.
proof fn lemma_scaled_ordered(a: nat, b: nat, scale: Scale)
    requires
        scale.unit > 0,
        a <= b,
    ensures
        scaled(a, scale) <= scaled(b, scale),
{
    assert(a * scale.parts <= b * scale.parts) by (nonlinear_arith)
        requires
            a <= b,
    ;
    lemma_div_is_ordered(a * scale.parts, b * scale.parts, scale.unit as int);
}

/// Scales `v`, up to the largest value.
fn scale_up(v: usize, scale: Scale) -> (r: usize)
    requires
        scale.unit > 0,
    ensures
        r == (if scaled(v as nat, scale) <= usize::MAX {
            scaled(v as nat, scale)
        } else {
            usize::MAX as nat
        }),
{
    proof {
        assert(v * scale.parts <= u64::MAX * u64::MAX) by (nonlinear_arith)
            requires
                0 <= v <= u64::MAX,
                0 <= scale.parts <= u64::MAX,
        ;
    }
    let r: u128 = v as u128 * scale.parts as u128 / scale.unit as u128;
    if r <= usize::MAX as u128 {
        r as usize
    } else {
        usize::MAX
    }
}

/// One size at which an image is searched: the features are scaled instead of the image.
struct Level {
    scale: Scale,
    window: usize,
    step: usize,
    features: Vec<[usize; 4]>,
}

impl Level {
    spec fn is_of(&self, cascade: &Cascade) -> bool {
        let scale = self.scale;
        &&& scale.unit > 0
        &&& self.window == window(scale)
        &&& self.step == step(scale)
        &&& self.features@.len() == cascade.features@.len()
        &&& forall|k: int, i: int|
            0 <= k < self.features@.len() && 0 <= i < 4 ==> #[trigger] self.features@[k]@[i]
                == scaled(cascade.features@[k]@[i] as nat, scale)
    }

    /// Scales the cascade's window and features, if the window is at most `limit` pixels wide.
    fn new(cascade: &Cascade, scale: Scale, limit: usize) -> (level: Option<Self>)
        requires
            cascade.is_sound(),
            scale.unit > 0,
        ensures
            level is Some <==> window(scale) <= limit,
            level matches Some(level) ==> level.is_of(cascade) && level.scale == scale,
    {
        let side: usize = scale_up(WINDOW, scale);
        let too_large: bool = side > limit || (WINDOW as u128 * scale.parts as u128
            / scale.unit as u128) > usize::MAX as u128;
        if too_large {
            return None;
        }
        proof {
            lemma_scaled_ordered(1, WINDOW as nat, scale);
            lemma_scaled_ordered(2, WINDOW as nat, scale);
        }
        let past_two: bool = scale.parts as u128 > 2 * scale.unit as u128;
        let wide: usize = if past_two {
            scale_up(1, scale)
        } else {
            scale_up(2, scale)
        };
        let step: usize = if wide >= 1 {
            wide
        } else {
            1
        };
        let mut features: Vec<[usize; 4]> = Vec::new();
        let mut k: usize = 0;
        while k < cascade.features.len()
            invariant
                cascade.is_sound(),
                scale.unit > 0,
                window(scale) <= usize::MAX,
                k <= cascade.features@.len(),
                features@.len() == k,
                forall|m: int, i: int|
                    0 <= m < k && 0 <= i < 4 ==> #[trigger] features@[m]@[i] == scaled(
                        cascade.features@[m]@[i] as nat,
                        scale,
                    ),
            decreases cascade.features@.len() - k,
        {
            let f: [usize; 4] = cascade.features[k];
            proof {
                assert(f == cascade.features@[k as int]);
                lemma_scaled_ordered(f@[0] as nat, WINDOW as nat, scale);
                lemma_scaled_ordered(f@[1] as nat, WINDOW as nat, scale);
                lemma_scaled_ordered(f@[2] as nat, WINDOW as nat, scale);
                lemma_scaled_ordered(f@[3] as nat, WINDOW as nat, scale);
            }
            let grown: [usize; 4] = [
                scale_up(f[0], scale),
                scale_up(f[1], scale),
                scale_up(f[2], scale),
                scale_up(f[3], scale),
            ];
            features.push(grown);
            k = k + 1;
        }
        Some(Level { scale, window: side, step, features })
    }
}

/// Bit `code` of a stump's subset is set.
pub open spec fn has_bit(subset: [u32; 8], code: nat) -> bool {
    subset@[(code / 32) as int] & (1u32 << (code % 32)) != 0
}

/// The leaf that a stump chooses for the window at (`x`, `y`): 0 where the subset holds the
/// pattern of the stump's feature, else 1.
pub open spec fn leaf(
    cascade: Cascade,
    stump: Stump,
    scale: Scale,
    pixels: Seq<u8>,
    width: nat,
    x: nat,
    y: nat,
) -> usize {
    let f = cascade.features@[stump.feature as int]@;
    let code = lbp_code(
        pixels,
        width,
        x + scaled(f[0] as nat, scale),
        y + scaled(f[1] as nat, scale),
        scaled(f[2] as nat, scale),
        scaled(f[3] as nat, scale),
    );
    if has_bit(stump.subset, code) {
        0
    } else {
        1
    }
}

/// The leaves that the stumps of stage `s` choose.
pub open spec fn leaves(
    cascade: Cascade,
    s: int,
    scale: Scale,
    pixels: Seq<u8>,
    width: nat,
    x: nat,
    y: nat,
) -> Seq<usize> {
    Seq::new(
        cascade.stages@[s].stumps@.len(),
        |k: int| leaf(cascade, cascade.stages@[s].stumps@[k], scale, pixels, width, x, y),
    )
}

/// The window at (`x`, `y`) passes every stage.
pub open spec fn is_face(
    passes: spec_fn(int, Seq<usize>) -> bool,
    cascade: Cascade,
    scale: Scale,
    pixels: Seq<u8>,
    width: nat,
    x: nat,
    y: nat,
) -> bool {
    forall|s: int|
        0 <= s < cascade.stages@.len() ==> passes(
            s,
            #[trigger] leaves(cascade, s, scale, pixels, width, x, y),
        )
}

/// The hits of the windows of row `y` from column `x` on.
pub open spec fn row_hits(
    passes: spec_fn(int, Seq<usize>) -> bool,
    cascade: Cascade,
    scale: Scale,
    pixels: Seq<u8>,
    width: nat,
    x: nat,
    y: nat,
) -> Seq<Hit>
    decreases width + step(scale) - x,
{
    if x + window(scale) > width {
        Seq::empty()
    } else {
        let rest = row_hits(passes, cascade, scale, pixels, width, x + step(scale), y);
        if is_face(passes, cascade, scale, pixels, width, x, y) {
            seq![
                Hit {
                    x: x as usize,
                    y: y as usize,
                    width: window(scale) as usize,
                    height: window(scale) as usize,
                },
            ] + rest
        } else {
            rest
        }
    }
}

/// The hits at one scale from row `y` on.
pub open spec fn level_hits(
    passes: spec_fn(int, Seq<usize>) -> bool,
    cascade: Cascade,
    scale: Scale,
    pixels: Seq<u8>,
    width: nat,
    y: nat,
) -> Seq<Hit>
    decreases pixels.len() / width + step(scale) - y,
{
    if y + window(scale) > pixels.len() / width {
        Seq::empty()
    } else {
        row_hits(passes, cascade, scale, pixels, width, 0, y) + level_hits(
            passes,
            cascade,
            scale,
            pixels,
            width,
            y + step(scale),
        )
    }
}

/// The hits at the scales from number `k` on, up to the first whose window is larger than the
/// image.
pub open spec fn all_hits(
    passes: spec_fn(int, Seq<usize>) -> bool,
    cascade: Cascade,
    scales: Seq<Scale>,
    pixels: Seq<u8>,
    width: nat,
    k: nat,
) -> Seq<Hit>
    decreases scales.len() - k,
{
    if k >= scales.len() || window(scales[k as int]) > width || window(scales[k as int])
        > pixels.len() / width {
        Seq::empty()
    } else {
        level_hits(passes, cascade, scales[k as int], pixels, width, 0) + all_hits(
            passes,
            cascade,
            scales,
            pixels,
            width,
            k + 1,
        )
    }
}

/// `judge` decides for a stage and its leaves what `passes` says.
pub open spec fn judges<F: Fn(usize, &Vec<usize>) -> bool>(
    judge: F,
    passes: spec_fn(int, Seq<usize>) -> bool,
) -> bool {
    forall|s: usize, list: &Vec<usize>, r: bool| #[trigger]
        judge.ensures((s, list), r) ==> r == passes(s as int, list@)
}

/// The leaves that the stumps of a stage choose.
fn choose_leaves(
    cascade: &Cascade,
    s: usize,
    level: &Level,
    ii: &Integral,
    x: usize,
    y: usize,
) -> (list: Vec<usize>)
    requires
        ii.wf(),
        cascade.is_sound(),
        level.is_of(cascade),
        s < cascade.stages@.len(),
        x + level.window <= ii.width(),
        y + level.window <= ii.rows(),
        ii.width() <= usize::MAX,
        ii.rows() <= usize::MAX,
    ensures
        list@ == leaves(
            *cascade,
            s as int,
            level.scale,
            ii.pixels(),
            ii.width(),
            x as nat,
            y as nat,
        ),
{
    let stage: &Stage = &cascade.stages[s];
    let ghost wanted = leaves(
        *cascade,
        s as int,
        level.scale,
        ii.pixels(),
        ii.width(),
        x as nat,
        y as nat,
    );
    let mut list: Vec<usize> = Vec::new();
    let mut k: usize = 0;
    while k < stage.stumps.len()
        invariant
            ii.wf(),
            cascade.is_sound(),
            level.is_of(cascade),
            s < cascade.stages@.len(),
            *stage == cascade.stages@[s as int],
            x + level.window <= ii.width(),
            y + level.window <= ii.rows(),
            ii.width() <= usize::MAX,
            ii.rows() <= usize::MAX,
            wanted == leaves(
                *cascade,
                s as int,
                level.scale,
                ii.pixels(),
                ii.width(),
                x as nat,
                y as nat,
            ),
            k <= stage.stumps@.len(),
            list@ == wanted.take(k as int),
        decreases stage.stumps@.len() - k,
    {
        let stump: &Stump = &stage.stumps[k];
        assert(cascade.stages@[s as int].stumps@[k as int].feature < level.features@.len());
        let f: [usize; 4] = level.features[stump.feature];
        proof {
            let base = cascade.features@[stump.feature as int]@;
            law_scaled_grid_stays_inside(
                base[0] as nat,
                base[2] as nat,
                WINDOW as nat,
                level.scale,
            );
            law_scaled_grid_stays_inside(
                base[1] as nat,
                base[3] as nat,
                WINDOW as nat,
                level.scale,
            );
            assert(f@[0] == scaled(base[0] as nat, level.scale));
            assert(f@[1] == scaled(base[1] as nat, level.scale));
            assert(f@[2] == scaled(base[2] as nat, level.scale));
            assert(f@[3] == scaled(base[3] as nat, level.scale));
        }
        let code: usize = lbp(ii, x + f[0], y + f[1], f[2], f[3]);
        let word: u32 = stump.subset[code / 32];
        let bit: u32 = 1u32 << (code % 32);
        if word & bit != 0 {
            list.push(0);
        } else {
            list.push(1);
        }
        k = k + 1;
    }
    assert(wanted.take(k as int) =~= wanted);
    list
}

/// Whether the window at (`x`, `y`) passes every stage.
fn shows_face<F: Fn(usize, &Vec<usize>) -> bool>(
    cascade: &Cascade,
    level: &Level,
    ii: &Integral,
    x: usize,
    y: usize,
    judge: &F,
) -> (r: bool)
    requires
        ii.wf(),
        cascade.is_sound(),
        level.is_of(cascade),
        x + level.window <= ii.width(),
        y + level.window <= ii.rows(),
        ii.width() <= usize::MAX,
        ii.rows() <= usize::MAX,
        forall|s: usize, list: &Vec<usize>| judge.requires((s, list)),
    ensures
        forall|passes: spec_fn(int, Seq<usize>) -> bool| #[trigger]
            judges(*judge, passes) ==> r == is_face(
                passes,
                *cascade,
                level.scale,
                ii.pixels(),
                ii.width(),
                x as nat,
                y as nat,
            ),
{
    let mut s: usize = 0;
    while s < cascade.stages.len()
        invariant
            ii.wf(),
            cascade.is_sound(),
            level.is_of(cascade),
            x + level.window <= ii.width(),
            y + level.window <= ii.rows(),
            ii.width() <= usize::MAX,
            ii.rows() <= usize::MAX,
            forall|s: usize, list: &Vec<usize>| judge.requires((s, list)),
            s <= cascade.stages@.len(),
            forall|passes: spec_fn(int, Seq<usize>) -> bool, t: int|
                #![trigger judges(*judge, passes), leaves(*cascade, t, level.scale, ii.pixels(), ii.width(), x as nat, y as nat)]
                judges(*judge, passes) && 0 <= t < s ==> passes(
                    t,
                    leaves(
                        *cascade,
                        t,
                        level.scale,
                        ii.pixels(),
                        ii.width(),
                        x as nat,
                        y as nat,
                    ),
                ),
        decreases cascade.stages@.len() - s,
    {
        let list: Vec<usize> = choose_leaves(cascade, s, level, ii, x, y);
        let passed: bool = judge(s, &list);
        assert(judge.ensures((s, &list), passed));
        if !passed {
            return false;
        }
        s = s + 1;
    }
    true
}

/// A hit lies inside the image.
pub open spec fn hit_inside(hit: Hit, width: nat, height: nat) -> bool {
    &&& hit.x + hit.width <= width
    &&& hit.y + hit.height <= height
}

/// The hits of a row lie inside the image and are as large as its windows.
proof fn lemma_row_hits(
    passes: spec_fn(int, Seq<usize>) -> bool,
    cascade: Cascade,
    scale: Scale,
    pixels: Seq<u8>,
    width: nat,
    x: nat,
    y: nat,
)
    requires
        width <= usize::MAX,
        pixels.len() / width <= usize::MAX,
        y + window(scale) <= pixels.len() / width,
    ensures
        forall|i: int|
            0 <= i < row_hits(passes, cascade, scale, pixels, width, x, y).len() ==> {
                let hit = #[trigger] row_hits(passes, cascade, scale, pixels, width, x, y)[i];
                &&& hit_inside(hit, width, pixels.len() / width)
                &&& hit.width == window(scale)
                &&& hit.height == window(scale)
            },
    decreases width + step(scale) - x,
{
    if x + window(scale) <= width {
        lemma_row_hits(passes, cascade, scale, pixels, width, x + step(scale), y);
        let rest = row_hits(passes, cascade, scale, pixels, width, x + step(scale), y);
        let all = row_hits(passes, cascade, scale, pixels, width, x, y);
        assert forall|i: int| 0 <= i < all.len() implies {
            &&& hit_inside(#[trigger] all[i], width, pixels.len() / width)
            &&& all[i].width == window(scale)
            &&& all[i].height == window(scale)
        } by {
            let k = i - (all.len() - rest.len());
            if k >= 0 {
                assert(all[i] == rest[k]);
            }
        }
    }
}

/// The hits at a scale lie inside the image and are as large as its windows.
proof fn lemma_level_hits(
    passes: spec_fn(int, Seq<usize>) -> bool,
    cascade: Cascade,
    scale: Scale,
    pixels: Seq<u8>,
    width: nat,
    y: nat,
)
    requires
        width <= usize::MAX,
        pixels.len() / width <= usize::MAX,
    ensures
        forall|i: int|
            0 <= i < level_hits(passes, cascade, scale, pixels, width, y).len() ==> {
                let hit = #[trigger] level_hits(passes, cascade, scale, pixels, width, y)[i];
                &&& hit_inside(hit, width, pixels.len() / width)
                &&& hit.width == window(scale)
                &&& hit.height == window(scale)
            },
    decreases pixels.len() / width + step(scale) - y,
{
    if y + window(scale) <= pixels.len() / width {
        lemma_row_hits(passes, cascade, scale, pixels, width, 0, y);
        lemma_level_hits(passes, cascade, scale, pixels, width, y + step(scale));
        let row = row_hits(passes, cascade, scale, pixels, width, 0, y);
        let rest = level_hits(passes, cascade, scale, pixels, width, y + step(scale));
        let all = level_hits(passes, cascade, scale, pixels, width, y);
        assert forall|i: int| 0 <= i < all.len() implies {
            &&& hit_inside(#[trigger] all[i], width, pixels.len() / width)
            &&& all[i].width == window(scale)
            &&& all[i].height == window(scale)
        } by {
            if i < row.len() {
                assert(all[i] == row[i]);
            } else {
                assert(all[i] == rest[i - row.len()]);
            }
        }
    }
}

/// Every hit lies inside the image. None is smaller than the cascade's window, unless a scale
/// shrinks it: smaller faces are missed.
pub proof fn law_small_faces_are_missed(
    passes: spec_fn(int, Seq<usize>) -> bool,
    cascade: Cascade,
    scales: Seq<Scale>,
    pixels: Seq<u8>,
    width: nat,
    k: nat,
    i: int,
)
    requires
        width <= usize::MAX,
        pixels.len() / width <= usize::MAX,
        forall|m: int|
            0 <= m < scales.len() ==> 0 < (#[trigger] scales[m]).unit <= scales[m].parts,
        0 <= i < all_hits(passes, cascade, scales, pixels, width, k).len(),
    ensures
        ({
            let hit = all_hits(passes, cascade, scales, pixels, width, k)[i];
            &&& hit_inside(hit, width, pixels.len() / width)
            &&& hit.width >= WINDOW
            &&& hit.height >= WINDOW
        }),
    decreases scales.len() - k,
{
    let scale = scales[k as int];
    let own = level_hits(passes, cascade, scale, pixels, width, 0);
    lemma_level_hits(passes, cascade, scale, pixels, width, 0);
    assert(window(scale) >= WINDOW) by {
        let (p, u) = (scale.parts as int, scale.unit as int);
        assert(WINDOW * u <= WINDOW * p) by (nonlinear_arith)
            requires
                u <= p,
        ;
        lemma_div_is_ordered(WINDOW * u, WINDOW * p, u);
        lemma_div_multiples_vanish(WINDOW as int, u);
    }
    if i >= own.len() {
        law_small_faces_are_missed(
            passes,
            cascade,
            scales,
            pixels,
            width,
            k + 1,
            i - own.len(),
        );
    }
}

/// The mean box of a group lies inside an image.
pub open spec fn box_inside(face: Totals, width: nat, height: nat) -> bool {
    &&& face.count > 0
    &&& face.x + face.width <= face.count * width
    &&& face.y + face.height <= face.count * height
}

proof fn lemma_totals_inside(
    hits: Seq<Hit>,
    labels: Seq<int>,
    g: int,
    n: nat,
    width: nat,
    height: nat,
)
    requires
        n <= hits.len(),
        forall|k: int| 0 <= k < hits.len() ==> hit_inside(#[trigger] hits[k], width, height),
    ensures
        ({
            let t = totals(hits, labels, g, n);
            &&& t.x + t.width <= t.count * width
            &&& t.y + t.height <= t.count * height
        }),
    decreases n,
{
    if n > 0 {
        lemma_totals_inside(hits, labels, g, (n - 1) as nat, width, height);
        assert(hit_inside(hits[n - 1], width, height));
        let c = totals(hits, labels, g, (n - 1) as nat).count;
        assert((c + 1) * width == c * width + width) by (nonlinear_arith);
        assert((c + 1) * height == c * height + height) by (nonlinear_arith);
    }
}

/// The strongest of hits inside an image lies inside it.
proof fn lemma_strongest_inside(hits: Seq<Hit>, face: Option<Face>, width: nat, height: nat)
    requires
        is_strongest(hits, face),
        forall|k: int| 0 <= k < hits.len() ==> hit_inside(#[trigger] hits[k], width, height),
    ensures
        face matches Some(face) ==> box_inside(face@, width, height),
{
    if let Some(face) = face {
        let g = choose|g: int| #[trigger] is_largest(hits, g) && face@ == group(hits, g);
        lemma_totals_inside(hits, groups(hits), g, hits.len(), width, height);
    }
}

/// An image of up to 16 megapixels is small enough to be searched, whatever it shows.
pub proof fn law_small_images_can_be_searched(pixels: Seq<u8>, width: nat)
    requires
        0 < width <= pixels.len(),
        u8::MAX * pixels.len() <= u32::MAX,
    ensures
        (width + 1) * (pixels.len() / width + 1) <= usize::MAX,
        area_sum(pixels, width, 0, 0, width, pixels.len() / width) <= u32::MAX,
{
    let (n, w) = (pixels.len() as int, width as int);
    let h = n / w;
    lemma_fundamental_div_mod(n, w);
    law_sum_is_bounded(pixels, width, 0, 0, width, h as nat);
    assert(h <= n) by (nonlinear_arith)
        requires
            w >= 1,
            h >= 0,
            w * h <= n,
    ;
    assert((w + 1) * (h + 1) == w * h + w + h + 1) by (nonlinear_arith);
}

/// `face` is the strongest face that a search at these scales finds.
pub open spec fn is_detected(
    passes: spec_fn(int, Seq<usize>) -> bool,
    cascade: Cascade,
    scales: Seq<Scale>,
    pixels: Seq<u8>,
    width: nat,
    face: Option<Face>,
) -> bool {
    is_strongest(all_hits(passes, cascade, scales, pixels, width, 0), face)
}

/// Finds the strongest face in an 8-bit greyscale image `width` pixels wide.
///
/// Expects histogram-equalised input, like the cascade was trained on. `judge` decides whether
/// the leaves that a stage's stumps choose reach the stage's threshold.
pub fn detect<F: Fn(usize, &Vec<usize>) -> bool>(
    cascade: &Cascade,
    scales: &[Scale],
    pixels: &[u8],
    width: usize,
    judge: &F,
) -> (face: Option<Face>)
    requires
        width > 0,
        (width + 1) * (pixels@.len() / width as nat + 1) <= usize::MAX,
        area_sum(pixels@, width as nat, 0, 0, width as nat, pixels@.len() / width as nat)
            <= u32::MAX,
        cascade.is_sound(),
        forall|k: int| 0 <= k < scales@.len() ==> (#[trigger] scales@[k]).unit > 0,
        forall|s: usize, list: &Vec<usize>| judge.requires((s, list)),
    ensures
        forall|passes: spec_fn(int, Seq<usize>) -> bool| #[trigger]
            judges(*judge, passes) ==> is_detected(
                passes,
                *cascade,
                scales@,
                pixels@,
                width as nat,
                face,
            ),
        face matches Some(face) ==> box_inside(
            face@,
            width as nat,
            pixels@.len() / width as nat,
        ),
{
    let height: usize = pixels.len() / width;
    let ii: Integral = Integral::new(pixels, width);
    let ghost wide = width as nat;
    let mut hits: Vec<Hit> = Vec::new();
    let mut k: usize = 0;
    assert forall|passes: spec_fn(int, Seq<usize>) -> bool| #[trigger]
        judges(*judge, passes) implies hits@ + all_hits(passes, *cascade, scales@, pixels@, wide, 0)
        == all_hits(passes, *cascade, scales@, pixels@, wide, 0) by {
        assert(hits@ + all_hits(passes, *cascade, scales@, pixels@, wide, 0) =~= all_hits(
            passes,
            *cascade,
            scales@,
            pixels@,
            wide,
            0,
        ));
    }
    let limit: usize = if width <= height {
        width
    } else {
        height
    };
    let mut more: bool = true;
    while more && k < scales.len()
        invariant
            ii.wf(),
            ii.pixels() == pixels@,
            ii.width() == width,
            wide == width,
            width > 0,
            height == pixels@.len() / wide,
            cascade.is_sound(),
            forall|k: int| 0 <= k < scales@.len() ==> (#[trigger] scales@[k]).unit > 0,
            forall|s: usize, list: &Vec<usize>| judge.requires((s, list)),
            limit == width || limit == height,
            limit <= width,
            limit <= height,
            k <= scales@.len(),
            more || (k < scales@.len() && window(scales@[k as int]) > limit),
            forall|m: int|
                0 <= m < hits@.len() ==> hit_inside(#[trigger] hits@[m], wide, height as nat),
            forall|passes: spec_fn(int, Seq<usize>) -> bool| #[trigger]
                judges(*judge, passes) ==> hits@ + all_hits(
                    passes,
                    *cascade,
                    scales@,
                    pixels@,
                    wide,
                    k as nat,
                ) == all_hits(passes, *cascade, scales@, pixels@, wide, 0),
        decreases scales@.len() - k + (if more {
            1int
        } else {
            0int
        }),
    {
        match Level::new(cascade, scales[k], limit) {
            None => {
                more = false;
            },
            Some(level) => {
                let ghost earlier = hits@;
                search(cascade, &level, &ii, width, height, judge, &mut hits);
                proof {
                    assert forall|passes: spec_fn(int, Seq<usize>) -> bool| #[trigger]
                        judges(*judge, passes) implies hits@ + all_hits(
                        passes,
                        *cascade,
                        scales@,
                        pixels@,
                        wide,
                        (k + 1) as nat,
                    ) == all_hits(passes, *cascade, scales@, pixels@, wide, 0) by {
                        let own = level_hits(passes, *cascade, level.scale, pixels@, wide, 0);
                        let rest = all_hits(passes, *cascade, scales@, pixels@, wide, (k + 1) as nat);
                        assert(hits@ == earlier + own);
                        assert(earlier + (own + rest) =~= hits@ + rest);
                    }
                }
                k = k + 1;
            },
        }
    }
    let face: Option<Face> = strongest(hits.as_slice());
    proof {
        lemma_strongest_inside(hits@, face, wide, height as nat);
        assert forall|passes: spec_fn(int, Seq<usize>) -> bool| #[trigger]
            judges(*judge, passes) implies is_strongest(
            all_hits(passes, *cascade, scales@, pixels@, wide, 0),
            face,
        ) by {
            assert(hits@ + all_hits(passes, *cascade, scales@, pixels@, wide, k as nat) =~= hits@);
        }
    }
    face
}

/// Searches one level and adds its hits.
fn search<F: Fn(usize, &Vec<usize>) -> bool>(
    cascade: &Cascade,
    level: &Level,
    ii: &Integral,
    width: usize,
    height: usize,
    judge: &F,
    hits: &mut Vec<Hit>,
)
    requires
        ii.wf(),
        ii.width() == width,
        ii.rows() == height,
        width > 0,
        cascade.is_sound(),
        level.is_of(cascade),
        level.window <= width,
        level.window <= height,
        forall|s: usize, list: &Vec<usize>| judge.requires((s, list)),
        forall|m: int|
            0 <= m < old(hits)@.len() ==> hit_inside(
                #[trigger] old(hits)@[m],
                width as nat,
                height as nat,
            ),
    ensures
        forall|m: int|
            0 <= m < final(hits)@.len() ==> hit_inside(
                #[trigger] final(hits)@[m],
                width as nat,
                height as nat,
            ),
        forall|passes: spec_fn(int, Seq<usize>) -> bool| #[trigger]
            judges(*judge, passes) ==> final(hits)@ == old(hits)@ + level_hits(
                passes,
                *cascade,
                level.scale,
                ii.pixels(),
                width as nat,
                0,
            ),
{
    let ghost start = hits@;
    let ghost wide = width as nat;
    let ghost pixels = ii.pixels();
    let last: usize = height - level.window;
    let mut y: usize = 0;
    let mut more: bool = true;
    while more
        invariant
            ii.wf(),
            ii.pixels() == pixels,
            ii.width() == width,
            ii.rows() == height,
            height == pixels.len() / wide,
            wide == width,
            width > 0,
            cascade.is_sound(),
            level.is_of(cascade),
            level.window <= width,
            last + level.window == height,
            forall|s: usize, list: &Vec<usize>| judge.requires((s, list)),
            more ==> y <= last,
            forall|m: int|
                0 <= m < hits@.len() ==> hit_inside(#[trigger] hits@[m], wide, height as nat),
            forall|passes: spec_fn(int, Seq<usize>) -> bool| #[trigger]
                judges(*judge, passes) ==> start + level_hits(
                    passes,
                    *cascade,
                    level.scale,
                    pixels,
                    wide,
                    0,
                ) == (if more {
                    hits@ + level_hits(passes, *cascade, level.scale, pixels, wide, y as nat)
                } else {
                    hits@
                }),
        decreases
            (if more {
                last - y + 1
            } else {
                0
            }),
    {
        let ghost earlier = hits@;
        search_row(cascade, level, ii, width, y, judge, hits);
        let ghost row = y;
        if last - y >= level.step {
            y = y + level.step;
        } else {
            more = false;
        }
        proof {
            assert forall|passes: spec_fn(int, Seq<usize>) -> bool| #[trigger]
                judges(*judge, passes) implies start + level_hits(
                passes,
                *cascade,
                level.scale,
                pixels,
                wide,
                0,
            ) == (if more {
                hits@ + level_hits(passes, *cascade, level.scale, pixels, wide, y as nat)
            } else {
                hits@
            }) by {
                let own = row_hits(passes, *cascade, level.scale, pixels, wide, 0, row as nat);
                let rest = level_hits(
                    passes,
                    *cascade,
                    level.scale,
                    pixels,
                    wide,
                    (row + level.step) as nat,
                );
                assert(hits@ == earlier + own);
                assert(earlier + (own + rest) =~= hits@ + rest);
                assert(!more ==> hits@ + rest =~= hits@);
            }
        }
    }
}

/// Searches the windows of row `y` and adds their hits.
fn search_row<F: Fn(usize, &Vec<usize>) -> bool>(
    cascade: &Cascade,
    level: &Level,
    ii: &Integral,
    width: usize,
    y: usize,
    judge: &F,
    hits: &mut Vec<Hit>,
)
    requires
        ii.wf(),
        ii.width() == width,
        ii.rows() <= usize::MAX,
        width > 0,
        cascade.is_sound(),
        level.is_of(cascade),
        level.window <= width,
        y + level.window <= ii.rows(),
        forall|s: usize, list: &Vec<usize>| judge.requires((s, list)),
        forall|m: int|
            0 <= m < old(hits)@.len() ==> hit_inside(
                #[trigger] old(hits)@[m],
                width as nat,
                ii.rows(),
            ),
    ensures
        forall|m: int|
            0 <= m < final(hits)@.len() ==> hit_inside(
                #[trigger] final(hits)@[m],
                width as nat,
                ii.rows(),
            ),
        forall|passes: spec_fn(int, Seq<usize>) -> bool| #[trigger]
            judges(*judge, passes) ==> final(hits)@ == old(hits)@ + row_hits(
                passes,
                *cascade,
                level.scale,
                ii.pixels(),
                width as nat,
                0,
                y as nat,
            ),
{
    let ghost start = hits@;
    let ghost wide = width as nat;
    let ghost pixels = ii.pixels();
    let last: usize = width - level.window;
    let mut x: usize = 0;
    let mut more: bool = true;
    while more
        invariant
            ii.wf(),
            ii.pixels() == pixels,
            ii.width() == width,
            ii.rows() <= usize::MAX,
            wide == width,
            width > 0,
            cascade.is_sound(),
            level.is_of(cascade),
            y + level.window <= ii.rows(),
            last + level.window == width,
            forall|s: usize, list: &Vec<usize>| judge.requires((s, list)),
            more ==> x <= last,
            forall|m: int| 0 <= m < hits@.len() ==> hit_inside(#[trigger] hits@[m], wide, ii.rows()),
            forall|passes: spec_fn(int, Seq<usize>) -> bool| #[trigger]
                judges(*judge, passes) ==> start + row_hits(
                    passes,
                    *cascade,
                    level.scale,
                    pixels,
                    wide,
                    0,
                    y as nat,
                ) == (if more {
                    hits@ + row_hits(passes, *cascade, level.scale, pixels, wide, x as nat, y as nat)
                } else {
                    hits@
                }),
        decreases
            (if more {
                last - x + 1
            } else {
                0
            }),
    {
        let ghost earlier = hits@;
        let ghost column = x;
        let hit: Hit = Hit { x, y, width: level.window, height: level.window };
        let shown: bool = shows_face(cascade, level, ii, x, y, judge);
        if shown {
            hits.push(hit);
        }
        if last - x >= level.step {
            x = x + level.step;
        } else {
            more = false;
        }
        proof {
            assert forall|passes: spec_fn(int, Seq<usize>) -> bool| #[trigger]
                judges(*judge, passes) implies start + row_hits(
                passes,
                *cascade,
                level.scale,
                pixels,
                wide,
                0,
                y as nat,
            ) == (if more {
                hits@ + row_hits(passes, *cascade, level.scale, pixels, wide, x as nat, y as nat)
            } else {
                hits@
            }) by {
                let rest = row_hits(
                    passes,
                    *cascade,
                    level.scale,
                    pixels,
                    wide,
                    (column + level.step) as nat,
                    y as nat,
                );
                if shown {
                    assert(earlier + (seq![hit] + rest) =~= hits@ + rest);
                }
                assert(!more ==> hits@ + rest =~= hits@);
            }
        }
    }
}

} // verus!
