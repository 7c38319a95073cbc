//! Summed-area tables and local binary patterns over them.

use vstd::arithmetic::div_mod::*;
use vstd::arithmetic::mul::*;
use vstd::prelude::*;

verus! {

/// Sum of the `n` pixels of row `y` that start at column `x`.
pub open spec fn row_sum(pixels: Seq<u8>, width: nat, x: nat, y: nat, n: nat) -> nat
    decreases n,
{
    if n == 0 {
        0
    } else {
        row_sum(pixels, width, x, y, (n - 1) as nat) + pixels[(y * width + x + n - 1) as int] as nat
    }
}

/// Sum of the pixels of the `w`x`h` rectangle with its top-left corner at (`x`, `y`).
pub open spec fn area_sum(pixels: Seq<u8>, width: nat, x: nat, y: nat, w: nat, h: nat) -> nat
    decreases h,
{
    if h == 0 {
        0
    } else {
        area_sum(pixels, width, x, y, w, (h - 1) as nat) + row_sum(
            pixels,
            width,
            x,
            (y + h - 1) as nat,
            w,
        )
    }
}

proof fn lemma_row_bound(pixels: Seq<u8>, width: nat, x: nat, y: nat, n: nat)
    ensures
        row_sum(pixels, width, x, y, n) <= u8::MAX * n,
    decreases n,
{
    if n > 0 {
        lemma_row_bound(pixels, width, x, y, (n - 1) as nat);
    }
}

/// A sum is at most the number of its pixels times the brightest pixel.
pub proof fn law_sum_is_bounded(pixels: Seq<u8>, width: nat, x: nat, y: nat, w: nat, h: nat)
    ensures
        area_sum(pixels, width, x, y, w, h) <= u8::MAX * (w * h),
    decreases h,
{
    if h > 0 {
        law_sum_is_bounded(pixels, width, x, y, w, (h - 1) as nat);
        lemma_row_bound(pixels, width, x, (y + h - 1) as nat, w);
        assert(w * h == w * (h - 1) + w) by (nonlinear_arith);
    }
}

proof fn lemma_row_split(pixels: Seq<u8>, width: nat, x: nat, y: nat, m: nat, n: nat)
    ensures
        row_sum(pixels, width, x, y, m + n) == row_sum(pixels, width, x, y, m) + row_sum(
            pixels,
            width,
            x + m,
            y,
            n,
        ),
    decreases n,
{
    if n > 0 {
        lemma_row_split(pixels, width, x, y, m, (n - 1) as nat);
        assert((m + n - 1) as nat == m + (n - 1) as nat);
    }
}

/// A rectangle is the sum of its left and right parts.
proof fn lemma_columns_split(
    pixels: Seq<u8>,
    width: nat,
    x: nat,
    y: nat,
    m: nat,
    n: nat,
    h: nat,
)
    ensures
        area_sum(pixels, width, x, y, m + n, h) == area_sum(pixels, width, x, y, m, h) + area_sum(
            pixels,
            width,
            x + m,
            y,
            n,
            h,
        ),
    decreases h,
{
    if h > 0 {
        lemma_columns_split(pixels, width, x, y, m, n, (h - 1) as nat);
        lemma_row_split(pixels, width, x, (y + h - 1) as nat, m, n);
    }
}

/// A rectangle is the sum of its upper and lower parts.
proof fn lemma_rows_split(pixels: Seq<u8>, width: nat, x: nat, y: nat, w: nat, g: nat, h: nat)
    ensures
        area_sum(pixels, width, x, y, w, g + h) == area_sum(pixels, width, x, y, w, g) + area_sum(
            pixels,
            width,
            x,
            y + g,
            w,
            h,
        ),
    decreases h,
{
    if h > 0 {
        lemma_rows_split(pixels, width, x, y, w, g, (h - 1) as nat);
        assert((g + h - 1) as nat == g + (h - 1) as nat);
    }
}

/// A part of the image sums to no more than the whole.
proof fn lemma_part_at_most_whole(
    pixels: Seq<u8>,
    width: nat,
    x: nat,
    y: nat,
    w: nat,
    h: nat,
    rows: nat,
)
    requires
        x + w <= width,
        y + h <= rows,
    ensures
        area_sum(pixels, width, x, y, w, h) <= area_sum(pixels, width, 0, 0, width, rows),
{
    lemma_rows_split(pixels, width, 0, 0, width, y, (rows - y) as nat);
    lemma_rows_split(pixels, width, 0, y, width, h, (rows - y - h) as nat);
    lemma_columns_split(pixels, width, 0, y, x, (width - x) as nat, h);
    lemma_columns_split(pixels, width, x, y, w, (width - x - w) as nat, h);
}

/// Place of the entry for column `x` and row `y` lies inside a table of `rows` rows.
proof fn lemma_entry_inside(stride: nat, rows: nat, x: nat, y: nat)
    requires
        x < stride,
        y < rows,
    ensures
        y * stride + x < stride * rows,
        y * stride <= stride * rows,
{
    assert(y * stride + stride <= stride * rows) by (nonlinear_arith)
        requires
            y + 1 <= rows,
    ;
}

/// The table's entry for the rectangle of `x` columns and `y` rows in the top-left corner.
spec fn entry(sums: Seq<u32>, stride: nat, x: nat, y: nat) -> nat {
    sums[(y * stride + x) as int] as nat
}

/// Summed-area table with a zero row and column in front.
pub struct Integral {
    stride: usize,
    sums: Vec<u32>,
    pixels: Ghost<Seq<u8>>,
}

impl Integral {
    /// The pixels that were summed.
    pub closed spec fn pixels(&self) -> Seq<u8> {
        self.pixels@
    }

    /// Pixels in a row.
    pub closed spec fn width(&self) -> nat {
        (self.stride - 1) as nat
    }

    /// Full rows.
    pub open spec fn rows(&self) -> nat {
        self.pixels().len() / self.width()
    }

    /// Every entry holds the sum of the pixels above and to the left of it.
    pub closed spec fn wf(&self) -> bool {
        &&& self.stride > 1
        &&& self.sums@.len() == self.stride * (self.rows() + 1)
        &&& forall|x: nat, y: nat|
            x < self.stride && y <= self.rows() ==> #[trigger] entry(
                self.sums@,
                self.stride as nat,
                x,
                y,
            ) == area_sum(self.pixels@, self.width(), 0, 0, x, y)
    }

    /// Sums up an 8-bit greyscale image `width` pixels wide. A last row that is not full is left
    /// out.
    pub fn new(pixels: &[u8], width: usize) -> (table: Self)
        requires
            width > 0,
            (width + 1) * (pixels@.len() / width as nat + 1) <= usize::MAX,
            area_sum(pixels@, width as nat, 0, 0, width as nat, pixels@.len() / width as nat)
                <= u32::MAX,
        ensures
            table.wf(),
            table.pixels() == pixels@,
            table.width() == width,
    {
        let ghost p = pixels@;
        let ghost wide = width as nat;
        let rows: usize = pixels.len() / width;
        proof {
            lemma_fundamental_div_mod(p.len() as int, width as int);
            lemma_mul_is_commutative(rows as int, width as int);
            assert((width + 1) * (rows + 1) >= width + 1) by (nonlinear_arith)
                requires
                    width >= 0,
                    rows >= 0,
            ;
        }
        let stride: usize = width + 1;
        let ghost deep = stride as nat;
        let mut sums: Vec<u32> = vec![0u32; stride];
        let mut y: usize = 0;
        while y < rows
            invariant
                p == pixels@,
                wide == width,
                width > 0,
                stride == width + 1,
                deep == stride,
                rows * width <= p.len(),
                stride * (rows + 1) <= usize::MAX,
                y <= rows,
                sums@.len() == stride * (y + 1),
                area_sum(p, wide, 0, 0, wide, rows as nat) <= u32::MAX,
                forall|u: nat, v: nat|
                    u < stride && v <= y ==> #[trigger] entry(sums@, deep, u, v) == area_sum(
                        p,
                        wide,
                        0,
                        0,
                        u,
                        v,
                    ),
            decreases rows - y,
        {
            let ghost done = sums@;
            let mut acc: u32 = 0;
            let mut x: usize = 0;
            sums.push(0);
            proof {
                lemma_mul_is_distributive_add(deep as int, (y + 1) as int, 1);
                lemma_mul_is_commutative(deep as int, (y + 1) as int);
                lemma_empty_columns(p, wide, 0, 0, (y + 1) as nat);
            }
            while x < width
                invariant
                    p == pixels@,
                    wide == width,
                    width > 0,
                    stride == width + 1,
                    deep == stride,
                    rows * width <= p.len(),
                    stride * (rows + 1) <= usize::MAX,
                    y < rows,
                    x <= width,
                    done.len() == stride * (y + 1),
                    done.len() == (y + 1) * stride,
                    sums@.len() == done.len() + x + 1,
                    done == sums@.take(done.len() as int),
                    area_sum(p, wide, 0, 0, wide, rows as nat) <= u32::MAX,
                    acc == row_sum(p, wide, 0, y as nat, x as nat),
                    forall|u: nat, v: nat|
                        u < stride && v <= y ==> #[trigger] entry(done, deep, u, v) == area_sum(
                            p,
                            wide,
                            0,
                            0,
                            u,
                            v,
                        ),
                    forall|u: nat|
                        u <= x ==> #[trigger] entry(sums@, deep, u, (y + 1) as nat) == area_sum(
                            p,
                            wide,
                            0,
                            0,
                            u,
                            (y + 1) as nat,
                        ),
                decreases width - x,
            {
                proof {
                    assert(pixels.len() == p.len());
                    lemma_entry_inside(wide, rows as nat, x as nat, y as nat);
                    lemma_mul_is_commutative(width as int, rows as int);
                    lemma_entry_inside(deep, (y + 1) as nat, (x + 1) as nat, y as nat);
                    lemma_mul_inequality((y + 2) as int, (rows + 1) as int, deep as int);
                    lemma_mul_is_commutative(deep as int, (rows + 1) as int);
                    lemma_mul_is_distributive_add(deep as int, (y + 1) as int, 1);
                    lemma_mul_is_commutative(deep as int, (y + 2) as int);
                    lemma_part_at_most_whole(
                        p,
                        wide,
                        0,
                        0,
                        (x + 1) as nat,
                        (y + 1) as nat,
                        rows as nat,
                    );
                    assert(area_sum(p, wide, 0, 0, (x + 1) as nat, (y + 1) as nat) == area_sum(
                        p,
                        wide,
                        0,
                        0,
                        (x + 1) as nat,
                        y as nat,
                    ) + row_sum(p, wide, 0, y as nat, (x + 1) as nat));
                    assert(entry(done, deep, (x + 1) as nat, y as nat) == area_sum(
                        p,
                        wide,
                        0,
                        0,
                        (x + 1) as nat,
                        y as nat,
                    ));
                    assert(done[y * deep + x + 1] == sums@[y * deep + x + 1]);
                }
                let ghost before = sums@;
                acc = acc + pixels[y * width + x] as u32;
                let above: u32 = sums[y * stride + x + 1];
                sums.push(above + acc);
                x = x + 1;
                proof {
                    assert forall|u: nat| u <= x implies #[trigger] entry(
                        sums@,
                        deep,
                        u,
                        (y + 1) as nat,
                    ) == area_sum(p, wide, 0, 0, u, (y + 1) as nat) by {
                        if u < x {
                            assert(entry(before, deep, u, (y + 1) as nat) == area_sum(
                                p,
                                wide,
                                0,
                                0,
                                u,
                                (y + 1) as nat,
                            ));
                        }
                    }
                }
            }
            proof {
                assert forall|u: nat, v: nat| u < stride && v <= y + 1 implies #[trigger] entry(
                    sums@,
                    deep,
                    u,
                    v,
                ) == area_sum(p, wide, 0, 0, u, v) by {
                    if v <= y {
                        lemma_entry_inside(deep, (y + 1) as nat, u, v);
                        assert(entry(done, deep, u, v) == area_sum(p, wide, 0, 0, u, v));
                        assert(done[(v * deep + u) as int] == sums@[(v * deep + u) as int]);
                    }
                }
            }
            y = y + 1;
        }
        Integral { stride, sums, pixels: Ghost(pixels@) }
    }

    /// Columns and rows can be counted in a `usize`.
    proof fn lemma_size_fits(&self)
        requires
            self.wf(),
        ensures
            self.width() < usize::MAX,
            self.rows() < usize::MAX,
    {
        let below = (self.rows() + 1) as nat;
        assert(below <= self.stride * below) by (nonlinear_arith)
            requires
                self.stride > 1,
        ;
        assert(self.sums.len() <= usize::MAX);
    }

    /// Sum of the pixels of the `w`x`h` rectangle with its top-left corner at (`x`, `y`).
    pub fn sum(&self, x: usize, y: usize, w: usize, h: usize) -> (sum: u32)
        requires
            self.wf(),
            x + w <= self.width(),
            y + h <= self.rows(),
        ensures
            sum == area_sum(self.pixels(), self.width(), x as nat, y as nat, w as nat, h as nat),
    {
        let ghost deep = self.stride as nat;
        proof {
            let below = (self.rows() + 1) as nat;
            lemma_entry_inside(deep, below, x as nat, y as nat);
            lemma_entry_inside(deep, below, (x + w) as nat, y as nat);
            lemma_entry_inside(deep, below, x as nat, (y + h) as nat);
            lemma_entry_inside(deep, below, (x + w) as nat, (y + h) as nat);
            self.lemma_size_fits();
            assert(self.sums.len() <= usize::MAX);
            assert(entry(self.sums@, deep, x as nat, y as nat) >= 0);
            assert(entry(self.sums@, deep, (x + w) as nat, y as nat) >= 0);
            assert(entry(self.sums@, deep, x as nat, (y + h) as nat) >= 0);
            assert(entry(self.sums@, deep, (x + w) as nat, (y + h) as nat) >= 0);
            let p = self.pixels@;
            lemma_columns_split(p, self.width(), 0, 0, x as nat, w as nat, y as nat);
            lemma_columns_split(p, self.width(), 0, 0, x as nat, w as nat, (y + h) as nat);
            lemma_rows_split(p, self.width(), x as nat, 0, w as nat, y as nat, h as nat);
        }
        let top: usize = y * self.stride;
        let bottom: usize = (y + h) * self.stride;
        let right: u32 = self.sums[bottom + x + w] - self.sums[bottom + x];
        let above: u32 = self.sums[top + x + w] - self.sums[top + x];
        right - above
    }
}

/// A rectangle without columns sums to nothing.
proof fn lemma_empty_columns(pixels: Seq<u8>, width: nat, x: nat, y: nat, h: nat)
    ensures
        area_sum(pixels, width, x, y, 0, h) == 0,
    decreases h,
{
    if h > 0 {
        lemma_empty_columns(pixels, width, x, y, (h - 1) as nat);
    }
}

/// Sum of cell `i`, counted row by row, of the 3x3 grid of `w`x`h` cells at (`x`, `y`).
pub open spec fn cell_sum(pixels: Seq<u8>, width: nat, x: nat, y: nat, w: nat, h: nat, i: nat) -> nat {
    area_sum(pixels, width, x + i % 3 * w, y + i / 3 * h, w, h)
}

/// 1 when cell `i` is at least as bright as the centre cell, else 0.
pub open spec fn cell_bit(pixels: Seq<u8>, width: nat, x: nat, y: nat, w: nat, h: nat, i: nat) -> nat {
    if cell_sum(pixels, width, x, y, w, h, i) >= cell_sum(pixels, width, x, y, w, h, 4) {
        1
    } else {
        0
    }
}

/// The bits of the outer cells, clockwise from the top-left cell as the high bit.
pub open spec fn lbp_code(pixels: Seq<u8>, width: nat, x: nat, y: nat, w: nat, h: nat) -> nat {
    128 * cell_bit(pixels, width, x, y, w, h, 0) + 64 * cell_bit(pixels, width, x, y, w, h, 1) + 32
        * cell_bit(pixels, width, x, y, w, h, 2) + 16 * cell_bit(pixels, width, x, y, w, h, 5) + 8
        * cell_bit(pixels, width, x, y, w, h, 8) + 4 * cell_bit(pixels, width, x, y, w, h, 7) + 2
        * cell_bit(pixels, width, x, y, w, h, 6) + cell_bit(pixels, width, x, y, w, h, 3)
}

/// Sum of one cell of a 3x3 grid.
fn cell(ii: &Integral, x: usize, y: usize, w: usize, h: usize, i: usize) -> (sum: u32)
    requires
        ii.wf(),
        i < 9,
        x + 3 * w <= ii.width(),
        y + 3 * h <= ii.rows(),
        ii.width() <= usize::MAX,
        ii.rows() <= usize::MAX,
    ensures
        sum == cell_sum(
            ii.pixels(),
            ii.width(),
            x as nat,
            y as nat,
            w as nat,
            h as nat,
            i as nat,
        ),
{
    proof {
        assert(i % 3 * w + w <= 3 * w) by (nonlinear_arith)
            requires
                i % 3 <= 2,
        ;
        assert(i / 3 * h + h <= 3 * h) by (nonlinear_arith)
            requires
                i / 3 <= 2,
        ;
    }
    ii.sum(x + i % 3 * w, y + i / 3 * h, w, h)
}

/// Local binary pattern of a 3x3 grid of `w`x`h` cells: one bit per outer cell, set when its sum
/// is at least the centre's, clockwise from the top-left cell as the high bit.
pub fn lbp(ii: &Integral, x: usize, y: usize, w: usize, h: usize) -> (code: usize)
    requires
        ii.wf(),
        x + 3 * w <= ii.width(),
        y + 3 * h <= ii.rows(),
    ensures
        code == lbp_code(ii.pixels(), ii.width(), x as nat, y as nat, w as nat, h as nat),
        code < 256,
{
    proof {
        ii.lemma_size_fits();
    }
    let centre: u32 = cell(ii, x, y, w, h, 4);
    let mut code: usize = 0;
    if cell(ii, x, y, w, h, 0) >= centre {
        code = code + 128;
    }
    if cell(ii, x, y, w, h, 1) >= centre {
        code = code + 64;
    }
    if cell(ii, x, y, w, h, 2) >= centre {
        code = code + 32;
    }
    if cell(ii, x, y, w, h, 5) >= centre {
        code = code + 16;
    }
    if cell(ii, x, y, w, h, 8) >= centre {
        code = code + 8;
    }
    if cell(ii, x, y, w, h, 7) >= centre {
        code = code + 4;
    }
    if cell(ii, x, y, w, h, 6) >= centre {
        code = code + 2;
    }
    if cell(ii, x, y, w, h, 3) >= centre {
        code = code + 1;
    }
    code
}

} // verus!
