//! Small arithmetic facts about row-major pixel layouts.
use vstd::arithmetic::div_mod::{
    lemma_div_pos_is_pos, lemma_fundamental_div_mod, lemma_fundamental_div_mod_converse,
    lemma_mod_pos_bound,
};
use vstd::prelude::*;

verus! {

/// A pixel `(x, y)` of a `w`-wide image has row-major index `y * w + x`,
/// which stays below `w * h` when `y < h`.
pub proof fn lemma_index_in_bounds(x: int, y: int, w: int, h: int)
    requires
        0 <= x < w,
        0 <= y < h,
    ensures
        0 <= y * w + x < w * h,
        0 <= y * w,
        (y * w + x) * 4 + 3 < w * h * 4,
{
    assert(0 <= y * w) by (nonlinear_arith)
        requires
            0 <= y,
            0 <= w,
    ;
    assert(y * w + x < w * h) by (nonlinear_arith)
        requires
            0 <= x < w,
            0 <= y < h,
    ;
}

/// Row-major order: an earlier pixel has a smaller index.
pub proof fn lemma_index_order(x1: int, y1: int, x2: int, y2: int, w: int)
    requires
        0 <= x1 < w,
        0 <= x2 < w,
        0 <= y1,
        0 <= y2,
        y1 < y2 || (y1 == y2 && x1 < x2),
    ensures
        y1 * w + x1 < y2 * w + x2,
{
    if y1 < y2 {
        assert(y1 * w + w <= y2 * w) by (nonlinear_arith)
            requires
                y1 < y2,
                0 <= w,
        ;
    }
}

/// The next row starts right after the last pixel of the previous one.
pub proof fn lemma_next_row(y: int, w: int)
    ensures
        y * w + w == (y + 1) * w,
{
    assert(y * w + w == (y + 1) * w) by (nonlinear_arith);
}

/// A product of two sizes is at least each of them when the other is positive.
pub proof fn lemma_product_bounds(a: int, b: int)
    requires
        0 <= a,
        0 <= b,
    ensures
        0 <= a * b,
        b > 0 ==> a <= a * b,
        a * b * 4 == 4 * (a * b),
{
    assert(0 <= a * b) by (nonlinear_arith)
        requires
            0 <= a,
            0 <= b,
    ;
    assert(b > 0 ==> a <= a * b) by (nonlinear_arith)
        requires
            0 <= a,
            0 <= b,
    ;
}

/// Every position of a `w`-wide, `h`-high RGBA buffer is channel `c` of some pixel `(x, y)`.
pub proof fn lemma_index_decompose(i: int, w: int, h: int) -> (r: (int, int, int))
    requires
        0 < w,
        0 <= h,
        0 <= i < w * h * 4,
    ensures
        0 <= r.0 < w,
        0 <= r.1 < h,
        0 <= r.2 < 4,
        i == (r.1 * w + r.0) * 4 + r.2,
{
    let p = i / 4;
    let c = i % 4;
    assert(0 <= p < w * h);
    lemma_fundamental_div_mod(p, w);
    lemma_mod_pos_bound(p, w);
    lemma_div_pos_is_pos(p, w);
    let y = p / w;
    let x = p % w;
    assert(p == w * y + x);
    assert(y < h) by (nonlinear_arith)
        requires
            p == w * y + x,
            0 <= x,
            p < w * h,
            0 < w,
    ;
    assert(y * w == w * y) by (nonlinear_arith);
    (x, y, c)
}

/// Channel `c` of pixel `(x, y)` sits at `(y * w + x) * 4 + c`, from which
/// the pixel and channel are recovered by division.
pub proof fn lemma_index_compose(x: int, y: int, c: int, w: int)
    requires
        0 <= x < w,
        0 <= y,
        0 <= c < 4,
    ensures
        ((y * w + x) * 4 + c) / 4 == y * w + x,
        ((y * w + x) * 4 + c) % 4 == c,
        (y * w + x) / w == y,
        (y * w + x) % w == x,
{
    let p = y * w + x;
    lemma_fundamental_div_mod_converse(p * 4 + c, 4, p, c);
    lemma_fundamental_div_mod_converse(p, w, y, x);
}

} // verus!
