//! Cutting the rows of a raster into bands, one for each worker.
//!
//! Every band but the last has the same number of rows: the row count divided
//! by the number of workers, rounded up. The bands follow one another from row
//! zero, so each row of the raster lies in exactly one of them.

use vstd::prelude::*;
use vstd::arithmetic::div_mod::lemma_fundamental_div_mod;

verus! {

/// A run of consecutive rows: `rows` of them, the first being row `top`.
#[derive(Clone, Copy, Debug, PartialEq, Eq)]
pub struct Band {
    pub top: usize,
    pub rows: usize,
}

impl Band {
    /// The band's place in a buffer that holds rows of `width` pixels one
    /// after the other: where its bytes start, and how many they are.
    pub fn span(&self, width: usize) -> (res: (usize, usize))
        requires
            (self.top + self.rows) * width <= usize::MAX,
        ensures
            res.0 == self.top * width,
            res.1 == self.rows * width,
    {
        proof {
            assert((self.top + self.rows) * width == self.top * width + self.rows * width)
                by (nonlinear_arith);
            assert(self.top * width >= 0 && self.rows * width >= 0) by (nonlinear_arith);
        }
        (self.top * width, self.rows * width)
    }

    /// The pixels at two opposite corners of the band, each as column and
    /// row in the raster: the first pixel of its first row, and the pixel
    /// just past the end of its last row, one row further down.
    pub fn corners(&self, width: usize) -> (res: ((usize, usize), (usize, usize)))
        requires
            self.top + self.rows <= usize::MAX,
        ensures
            res.0 == (0usize, self.top),
            res.1 == (width, (self.top + self.rows) as usize),
    {
        ((0, self.top), (width, self.top + self.rows))
    }
}

/// `a / b` rounded up; zero where `b` is zero.
pub open spec fn ceil_div(a: nat, b: nat) -> nat {
    if b == 0 {
        0
    } else if a % b == 0 {
        a / b
    } else {
        a / b + 1
    }
}

/// The rows given to each band but the last.
pub open spec fn band_height(height: nat, workers: nat) -> nat {
    ceil_div(height, workers)
}

/// How many bands a raster of `height` rows is cut into.
pub open spec fn band_count(height: nat, workers: nat) -> nat {
    ceil_div(height, band_height(height, workers))
}

/// The first row of band `i`.
pub open spec fn band_top(height: nat, workers: nat, i: nat) -> nat {
    i * band_height(height, workers)
}

/// The number of rows of band `i`: a full band, or what is left of the raster.
pub open spec fn band_rows(height: nat, workers: nat, i: nat) -> nat {
    let per = band_height(height, workers);
    let top = band_top(height, workers, i);
    if top + per <= height {
        per
    } else if top <= height {
        (height - top) as nat
    } else {
        0
    }
}

/// Row `row` lies in band `i`.
pub open spec fn band_holds(height: nat, workers: nat, i: nat, row: nat) -> bool {
    band_top(height, workers, i) <= row < band_top(height, workers, i) + band_rows(
        height,
        workers,
        i,
    )
}

/// `plan` holds the bands of a raster of `height` rows cut for `workers`
/// workers, in order.
pub open spec fn is_band_plan(plan: Seq<Band>, height: nat, workers: nat) -> bool {
    &&& plan.len() == band_count(height, workers)
    &&& forall|i: int|
        0 <= i < plan.len() ==> (#[trigger] plan[i]).top == band_top(height, workers, i as nat)
            && plan[i].rows == band_rows(height, workers, i as nat)
}

/// The band in which row `row` lies.
pub open spec fn band_of(height: nat, workers: nat, row: nat) -> nat {
    row / band_height(height, workers)
}

/// `ceil_div(a, b)` is the least `k` with `k * b >= a`.
pub proof fn lemma_ceil_div_bounds(a: nat, b: nat)
    requires
        b > 0,
    ensures
        ceil_div(a, b) * b >= a,
        a > 0 ==> ceil_div(a, b) >= 1 && (ceil_div(a, b) - 1) * b < a,
        a == 0 ==> ceil_div(a, b) == 0,
{
    let q = (a / b) as int;
    let r = (a % b) as int;
    lemma_fundamental_div_mod(a as int, b as int);
    assert(a as int == (b as int) * q + r);
    assert((q + 1) * (b as int) == (b as int) * q + b) by (nonlinear_arith);
    assert((q - 1) * (b as int) == (b as int) * q - b) by (nonlinear_arith);
    assert(q * (b as int) == (b as int) * q) by (nonlinear_arith);
    if a > 0 && r == 0 {
        assert(q >= 1) by (nonlinear_arith)
            requires
                a as int == (b as int) * q,
                a > 0,
                b > 0,
        ;
    }
}

/// The `k` with `(k - 1) * b < a <= k * b` is `ceil_div(a, b)`.
pub proof fn lemma_ceil_div_unique(a: nat, b: nat, k: nat)
    requires
        b > 0,
        k * b >= a,
        k > 0 ==> (k - 1) * b < a,
    ensures
        ceil_div(a, b) == k,
{
    lemma_ceil_div_bounds(a, b);
    let c = ceil_div(a, b);
    assert(c == k) by (nonlinear_arith)
        requires
            b > 0,
            k * b >= a,
            k > 0 ==> (k - 1) * b < a,
            c * b >= a,
            a > 0 ==> c >= 1 && (c - 1) * b < a,
            a == 0 ==> c == 0,
    ;
}

/// No more bands are cut than there are workers.
pub proof fn lemma_band_count_within_workers(height: nat, workers: nat)
    requires
        workers >= 1,
    ensures
        band_count(height, workers) <= workers,
{
    let per = band_height(height, workers);
    lemma_ceil_div_bounds(height, workers);
    if per > 0 {
        lemma_ceil_div_bounds(height, per);
        let n = band_count(height, workers);
        assert(n <= workers) by (nonlinear_arith)
            requires
                per > 0,
                per * workers >= height,
                height > 0 ==> n >= 1 && (n - 1) * per < height,
                height == 0 ==> n == 0,
        ;
    }
}

/// Each band that is cut starts inside the raster and holds at least one row;
/// each starts where the one before it ends, and the last ends at the last row.
pub proof fn lemma_bands_are_consecutive(height: nat, workers: nat, i: nat)
    requires
        workers >= 1,
        i < band_count(height, workers),
    ensures
        band_top(height, workers, i) < height,
        band_rows(height, workers, i) >= 1,
        band_top(height, workers, i) + band_rows(height, workers, i) <= height,
        i + 1 < band_count(height, workers) ==> band_top(height, workers, i + 1) == band_top(
            height,
            workers,
            i,
        ) + band_rows(height, workers, i),
        i + 1 == band_count(height, workers) ==> band_top(height, workers, i) + band_rows(
            height,
            workers,
            i,
        ) == height,
{
    let per = band_height(height, workers);
    let n = band_count(height, workers);
    lemma_ceil_div_bounds(height, workers);
    assert(per > 0);
    lemma_ceil_div_bounds(height, per);
    assert(i * per < height) by (nonlinear_arith)
        requires
            i < n,
            (n - 1) * per < height,
            per > 0,
    ;
    assert((i + 1) * per == i * per + per) by (nonlinear_arith);
    if i + 1 < n {
        assert((i + 1) * per < height) by (nonlinear_arith)
            requires
                i + 1 < n,
                (n - 1) * per < height,
                per > 0,
        ;
    } else {
        assert((i + 1) * per >= height) by (nonlinear_arith)
            requires
                i + 1 == n,
                n * per >= height,
        ;
    }
}

/// In a buffer that holds rows of `width` pixels, the bytes of the bands
/// follow one another without a gap and without overlap, from the first byte
/// of the buffer to its last.
pub proof fn lemma_spans_tile_the_buffer(height: nat, workers: nat, width: nat, i: nat)
    requires
        workers >= 1,
        i < band_count(height, workers),
    ensures
        i == 0 ==> band_top(height, workers, i) * width == 0,
        (band_top(height, workers, i) + band_rows(height, workers, i)) * width == band_top(
            height,
            workers,
            i,
        ) * width + band_rows(height, workers, i) * width,
        (band_top(height, workers, i) + band_rows(height, workers, i)) * width <= height * width,
        i + 1 < band_count(height, workers) ==> band_top(height, workers, i + 1) * width
            == band_top(height, workers, i) * width + band_rows(height, workers, i) * width,
        i + 1 == band_count(height, workers) ==> band_top(height, workers, i) * width + band_rows(
            height,
            workers,
            i,
        ) * width == height * width,
{
    lemma_bands_are_consecutive(height, workers, i);
    let top = band_top(height, workers, i);
    let rows = band_rows(height, workers, i);
    assert((top + rows) * width == top * width + rows * width) by (nonlinear_arith);
    assert((top + rows) * width <= height * width) by (nonlinear_arith)
        requires
            top + rows <= height,
    ;
    if i == 0 {
        assert(top == 0) by (nonlinear_arith)
            requires
                top == i * band_height(height, workers),
                i == 0,
        ;
    }
}

/// The bands partition the rows. Every row of the raster lies in the band
/// that `band_of` names; no band reaches outside the raster; and no row lies
/// in two bands.
pub proof fn lemma_bands_partition(height: nat, workers: nat)
    requires
        workers >= 1,
    ensures
        forall|row: nat|
            row < height ==> #[trigger] band_of(height, workers, row) < band_count(height, workers)
                && band_holds(height, workers, band_of(height, workers, row), row),
        forall|i: nat, row: nat|
            i < band_count(height, workers) && #[trigger] band_holds(height, workers, i, row)
                ==> row < height,
        forall|i: nat, j: nat, row: nat|
            i < band_count(height, workers) && j < band_count(height, workers)
                && #[trigger] band_holds(height, workers, i, row) && #[trigger] band_holds(
                height,
                workers,
                j,
                row,
            ) ==> i == j,
{
    let per = band_height(height, workers);
    let n = band_count(height, workers);
    lemma_ceil_div_bounds(height, workers);
    assert forall|row: nat| row < height implies #[trigger] band_of(height, workers, row) < n
        && band_holds(height, workers, band_of(height, workers, row), row) by {
        lemma_ceil_div_bounds(height, per);
        let i = band_of(height, workers, row);
        lemma_fundamental_div_mod(row as int, per as int);
        assert(i * per == per * i) by (nonlinear_arith);
        assert(i < n) by (nonlinear_arith)
            requires
                i * per <= row,
                row < height,
                n * per >= height,
                per > 0,
        ;
        lemma_bands_are_consecutive(height, workers, i);
        assert(band_holds(height, workers, i, row));
    }
    assert forall|i: nat, row: nat| i < n && #[trigger] band_holds(
        height,
        workers,
        i,
        row,
    ) implies row < height by {
        lemma_bands_are_consecutive(height, workers, i);
    }
    assert forall|i: nat, j: nat, row: nat|
        i < n && j < n && #[trigger] band_holds(height, workers, i, row) && #[trigger] band_holds(
            height,
            workers,
            j,
            row,
        ) implies i == j by {
        assert(i == j) by (nonlinear_arith)
            requires
                i * per <= row,
                row < i * per + per,
                j * per <= row,
                row < j * per + per,
                per > 0,
        ;
    }
}

/// The rows given to each band but the last: `height / workers`, rounded up.
pub fn rows_per_band(height: usize, workers: usize) -> (per: usize)
    requires
        workers >= 1,
    ensures
        per == band_height(height as nat, workers as nat),
{
    if height % workers == 0 {
        height / workers
    } else {
        proof {
            let q = (height / workers) as int;
            lemma_fundamental_div_mod(height as int, workers as int);
            assert(q < height) by (nonlinear_arith)
                requires
                    height as int == (workers as int) * q + (height % workers) as int,
                    height % workers > 0,
                    workers >= 1,
                    q >= 0,
            ;
        }
        height / workers + 1
    }
}

/// Cuts `height` rows into bands for `workers` workers, in order from row zero.
pub fn bands(height: usize, workers: usize) -> (plan: Vec<Band>)
    requires
        workers >= 1,
    ensures
        is_band_plan(plan@, height as nat, workers as nat),
        plan@.len() <= workers,
{
    let per = rows_per_band(height, workers);
    let mut plan: Vec<Band> = Vec::new();
    let mut top: usize = 0;
    proof {
        lemma_ceil_div_bounds(height as nat, workers as nat);
    }
    while top < height
        invariant
            workers >= 1,
            per == band_height(height as nat, workers as nat),
            height > 0 ==> per > 0,
            top <= height,
            top < height ==> top == plan@.len() * per,
            top == height ==> plan@.len() * per >= height,
            plan@.len() > 0 ==> (plan@.len() - 1) * per < height,
            forall|i: int|
                0 <= i < plan@.len() ==> (#[trigger] plan@[i]).top == band_top(
                    height as nat,
                    workers as nat,
                    i as nat,
                ) && plan@[i].rows == band_rows(height as nat, workers as nat, i as nat),
        decreases height - top,
    {
        let left: usize = height - top;
        let rows: usize = if per < left {
            per
        } else {
            left
        };
        proof {
            let n = plan@.len();
            assert((n + 1) * per == n * per + per) by (nonlinear_arith);
        }
        plan.push(Band { top, rows });
        top = top + rows;
    }
    proof {
        if height > 0 {
            lemma_ceil_div_unique(height as nat, per as nat, plan@.len());
        }
        lemma_band_count_within_workers(height as nat, workers as nat);
    }
    plan
}

} // verus!
