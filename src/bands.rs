//! Split of an image into horizontal bands of whole rows, each a contiguous
//! run of the row-major pixel buffer that one worker fills on its own.

use vstd::prelude::*;
use vstd::arithmetic::div_mod::{lemma_fundamental_div_mod, lemma_fundamental_div_mod_converse};
use vstd::arithmetic::mul::lemma_mul_inequality;

verus! {

/// A band of the image: rows `top .. top + height`, which are the bytes
/// `start .. start + len` of the row-major pixel buffer.
#[derive(Clone, Copy, Debug, PartialEq, Eq, Structural)]
pub struct Band {
    pub top: usize,
    pub height: usize,
    pub start: usize,
    pub len: usize,
}

/// `a / b` rounded up.
pub open spec fn ceil_div(a: int, b: int) -> int {
    if a % b == 0 {
        a / b
    } else {
        a / b + 1
    }
}

/// Number of bands of `rows` rows (the last one may be shorter) that an
/// image `height` rows high is cut into.
pub open spec fn band_count(height: int, rows: int) -> int {
    ceil_div(height, rows)
}

/// First row of band `i`.
pub open spec fn band_top(rows: int, i: int) -> int {
    i * rows
}

/// Row just past band `i`.
pub open spec fn band_bottom(height: int, rows: int, i: int) -> int {
    if (i + 1) * rows < height {
        (i + 1) * rows
    } else {
        height
    }
}

/// `b` is band `i` of an image `width` pixels wide and `height` rows high,
/// cut into bands of `rows` rows.
pub open spec fn is_band(b: Band, width: int, height: int, rows: int, i: int) -> bool {
    &&& b.top == band_top(rows, i)
    &&& b.top + b.height == band_bottom(height, rows, i)
    &&& b.start == band_start(width, rows, i)
    &&& b.start + b.len == band_end(width, height, rows, i)
    &&& b.len == b.height * width
}

/// First byte of band `i` in the pixel buffer.
pub open spec fn band_start(width: int, rows: int, i: int) -> int {
    band_top(rows, i) * width
}

/// Byte just past band `i` in the pixel buffer.
pub open spec fn band_end(width: int, height: int, rows: int, i: int) -> int {
    band_bottom(height, rows, i) * width
}

/// The band that holds byte `p` of the pixel buffer.
pub open spec fn band_of_pixel(width: int, rows: int, p: int) -> int {
    (p / width) / rows
}

proof fn lemma_ceil_div_unique(a: int, b: int, n: int)
    requires
        b >= 1,
        n >= 1,
        (n - 1) * b < a <= n * b,
    ensures
        n == ceil_div(a, b),
{
    lemma_fundamental_div_mod(a, b);
    let q = a / b;
    let r = a % b;
    assert(a == b * q + r);
    if r == 0 {
        assert((n - 1) * b < q * b <= n * b) by (nonlinear_arith)
            requires
                (n - 1) * b < a <= n * b,
                a == b * q + r,
                r == 0,
        ;
        assert(n - 1 < q <= n) by (nonlinear_arith)
            requires
                (n - 1) * b < q * b <= n * b,
                b >= 1,
        ;
    } else {
        assert(q * b < a < (q + 1) * b) by (nonlinear_arith)
            requires
                a == b * q + r,
                0 < r < b,
        ;
        assert((n - 1) * b < (q + 1) * b && q * b < n * b);
        assert(n - 1 < q + 1 && q < n) by (nonlinear_arith)
            requires
                (n - 1) * b < (q + 1) * b,
                q * b < n * b,
                b >= 1,
        ;
    }
}

/// Rows given to each band but the last when an image `height` rows high is
/// shared among `workers` workers: `height / workers` rounded up, so that
/// no row is left out when the division is not exact.
pub fn rows_per_band(height: usize, workers: usize) -> (r: usize)
    requires
        workers >= 1,
    ensures
        r == ceil_div(height as int, workers as int),
        r * workers >= height,
        height >= 1 ==> 1 <= r <= height,
{
    let q = height / workers;
    proof {
        lemma_fundamental_div_mod(height as int, workers as int);
    }
    if height % workers == 0 {
        assert(q * workers == height) by (nonlinear_arith)
            requires
                height == workers * q + height % workers,
                height % workers == 0,
        ;
        assert(height >= 1 ==> q >= 1) by (nonlinear_arith)
            requires
                q * workers == height,
                q >= 0,
        ;
        assert(q <= height) by (nonlinear_arith)
            requires
                q * workers == height,
                workers >= 1,
                q >= 0,
        ;
        q
    } else {
        assert(q + 1 <= height && (q + 1) * workers >= height) by (nonlinear_arith)
            requires
                height == workers * q + height % workers,
                0 < height % workers < workers,
                q >= 0,
        ;
        q + 1
    }
}

/// The bands that an image `width` by `height` is cut into for `workers`
/// workers: band `i` starts at row `i * rows_per_band(height, workers)`,
/// every band but the last has that many rows, and there are at most
/// `workers` of them.
pub fn plan_bands(width: usize, height: usize, workers: usize) -> (bands: Vec<Band>)
    requires
        width >= 1,
        height >= 1,
        workers >= 1,
        width * height <= usize::MAX,
    ensures
        ({
            let rows = ceil_div(height as int, workers as int);
            &&& bands@.len() == band_count(height as int, rows)
            &&& 1 <= bands@.len() <= workers
            &&& forall|i: int|
                0 <= i < bands@.len() ==> is_band(
                    #[trigger] bands@[i],
                    width as int,
                    height as int,
                    rows,
                    i,
                )
        }),
        bands@[0].top == 0 && bands@[0].start == 0,
        forall|i: int|
            0 <= i < bands@.len() - 1 ==> #[trigger] bands@[i + 1].top == bands@[i].top
                + bands@[i].height && bands@[i + 1].start == bands@[i].start + bands@[i].len,
        bands@.last().top + bands@.last().height == height,
        bands@.last().start + bands@.last().len == width * height,
{
    let rows = rows_per_band(height, workers);
    let mut bands: Vec<Band> = Vec::new();
    let mut top: usize = 0;
    assert(bands@.len() * rows == 0) by (nonlinear_arith)
        requires
            bands@.len() == 0,
    ;
    while top < height
        invariant
            1 <= rows <= height,
            rows == ceil_div(height as int, workers as int),
            rows * workers >= height,
            width * height <= usize::MAX,
            top == (if bands@.len() * rows < height {
                bands@.len() * rows
            } else {
                height as int
            }),
            bands@.len() == 0 || (bands@.len() - 1) * rows < height,
            bands@.len() > 0 ==> bands@[0].top == 0 && bands@[0].start == 0,
            bands@.len() > 0 ==> bands@.last().top + bands@.last().height == top
                && bands@.last().start + bands@.last().len == top * width,
            forall|i: int|
                0 <= i < bands@.len() - 1 ==> #[trigger] bands@[i + 1].top == bands@[i].top
                    + bands@[i].height && bands@[i + 1].start == bands@[i].start + bands@[i].len,
            forall|i: int|
                0 <= i < bands@.len() ==> is_band(
                    #[trigger] bands@[i],
                    width as int,
                    height as int,
                    rows as int,
                    i,
                ),
        decreases height - top,
    {
        let bottom: usize = if height - top > rows {
            top + rows
        } else {
            height
        };
        proof {
            lemma_mul_inequality(top as int, height as int, width as int);
            lemma_mul_inequality((bottom - top) as int, height as int, width as int);
            assert(height * width == width * height) by (nonlinear_arith);
        }
        let band = Band { top, height: bottom - top, start: top * width, len: (bottom - top) * width };
        proof {
            let n = bands@.len() as int;
            assert(top == n * rows);
            assert((n + 1) * rows == n * rows + rows) by (nonlinear_arith);
        }
        bands.push(band);
        top = bottom;
        proof {
            let n = bands@.len() as int;
            assert(band.start + band.len == bottom * width) by (nonlinear_arith)
                requires
                    band.start == band.top * width,
                    band.len == (bottom - band.top) * width,
            ;
            assert(n * rows == (n - 1) * rows + rows) by (nonlinear_arith);
        }
    }
    proof {
        let n = bands@.len() as int;
        if n == 0 {
            assert(n * rows == 0);
        }
        assert(n >= 1);
        lemma_ceil_div_unique(height as int, rows as int, n);
        assert(n * rows >= height);
        assert(height * width == width * height) by (nonlinear_arith);
        assert(n == band_count(height as int, rows as int));
        if n > workers {
            lemma_mul_inequality(workers as int, n - 1, rows as int);
            assert(workers * rows == rows * workers) by (nonlinear_arith);
        }
    }
    bands
}

/// Every byte of the pixel buffer of a `width` by `height` image lies in
/// exactly one of the bands cut for `workers` workers: band
/// `band_of_pixel`, and no other. The bands thus cover the buffer with no
/// gap and no overlap, whether or not `workers` divides `height`.
pub proof fn lemma_pixel_in_one_band(width: int, height: int, workers: int, p: int)
    requires
        width >= 1,
        height >= 1,
        workers >= 1,
        0 <= p < width * height,
    ensures
        ({
            let rows = ceil_div(height, workers);
            let i = band_of_pixel(width, rows, p);
            &&& 0 <= i < band_count(height, rows)
            &&& band_start(width, rows, i) <= p < band_end(width, height, rows, i)
            &&& forall|j: int|
                0 <= j < band_count(height, rows) && #[trigger] band_start(width, rows, j) <= p
                    < band_end(width, height, rows, j) ==> j == i
        }),
{
    let rows = ceil_div(height, workers);
    lemma_rows_positive(height, workers);
    let row = p / width;
    let col = p % width;
    lemma_fundamental_div_mod(p, width);
    assert(p == row * width + col) by (nonlinear_arith)
        requires
            p == width * row + col,
    ;
    assert(0 <= row < height) by (nonlinear_arith)
        requires
            p == row * width + col,
            0 <= col < width,
            0 <= p < width * height,
    ;
    let i = row / rows;
    lemma_fundamental_div_mod(row, rows);
    assert(i * rows <= row < (i + 1) * rows && i >= 0) by (nonlinear_arith)
        requires
            row == rows * i + row % rows,
            0 <= row % rows < rows,
            row >= 0,
            rows >= 1,
    ;
    let n = band_count(height, rows);
    lemma_band_count_bounds(height, rows);
    if i >= n {
        lemma_mul_inequality(n, i, rows);
    }
    assert(row + 1 <= band_bottom(height, rows, i));
    lemma_mul_inequality(i * rows, row, width);
    lemma_mul_inequality(row + 1, band_bottom(height, rows, i), width);
    assert((row + 1) * width == row * width + width) by (nonlinear_arith);
    assert forall|j: int|
        0 <= j < n && #[trigger] band_start(width, rows, j) <= p < band_end(width, height, rows, j)
            implies j == i by {
        let b = band_bottom(height, rows, j);
        assert(b <= (j + 1) * rows);
        lemma_mul_inequality(b, (j + 1) * rows, width);
        if j * rows > row {
            lemma_mul_inequality(row + 1, j * rows, width);
        }
        if (j + 1) * rows <= row {
            lemma_mul_inequality((j + 1) * rows, row, width);
        }
        assert(j * rows <= row < j * rows + rows) by (nonlinear_arith)
            requires
                j * rows <= row < (j + 1) * rows,
        ;
        lemma_fundamental_div_mod_converse(row, rows, j, row - j * rows);
    }
}

proof fn lemma_rows_positive(height: int, workers: int)
    requires
        height >= 1,
        workers >= 1,
    ensures
        1 <= ceil_div(height, workers) <= height,
{
    lemma_fundamental_div_mod(height, workers);
    let q = height / workers;
    let r = height % workers;
    assert(q >= 0 && (r == 0 ==> q >= 1) && q + 1 <= height + (if r == 0 { 1int } else { 0 })
        && q <= height) by (nonlinear_arith)
        requires
            height == workers * q + r,
            0 <= r < workers,
            height >= 1,
            workers >= 1,
    ;
}

proof fn lemma_band_count_bounds(height: int, rows: int)
    requires
        height >= 1,
        rows >= 1,
    ensures
        (band_count(height, rows) - 1) * rows < height <= band_count(height, rows) * rows,
        band_count(height, rows) >= 1,
{
    lemma_fundamental_div_mod(height, rows);
    let q = height / rows;
    let r = height % rows;
    assert(q >= 0) by (nonlinear_arith)
        requires
            height == rows * q + r,
            0 <= r < rows,
            height >= 1,
    ;
    if r == 0 {
        assert((q - 1) * rows < height <= q * rows && q >= 1) by (nonlinear_arith)
            requires
                height == rows * q,
                rows >= 1,
                height >= 1,
        ;
    } else {
        assert(q * rows < height <= (q + 1) * rows) by (nonlinear_arith)
            requires
                height == rows * q + r,
                0 < r < rows,
        ;
    }
}

} // verus!
