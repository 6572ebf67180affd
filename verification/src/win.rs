//! Runs on a rank-2 board, and their detection by convolution.
//!
//! A winning run of length `k` for mark `m` is `k` consecutive cells equal
//! to `m` along one of four directions. Win detection convolves a binary
//! occupancy mask with four fixed kernels; the lemmas here show that an
//! output cell of a convolution reaches `k` exactly where a run starts.

use vstd::prelude::*;

use crate::ndarray::NDArray;

verus! {

/// A run of `k` cells equal to `m` along the second axis, starting at
/// `(x, y)`.
pub open spec fn run_axis1(b: NDArray<2>, m: usize, k: int, x: int, y: int) -> bool {
    &&& 0 <= x < b.rows()
    &&& 0 <= y && y + k <= b.cols()
    &&& forall|c: int| y <= c < y + k ==> b.at2(x, c) == m
}

/// A run of `k` cells equal to `m` along the first axis, starting at
/// `(x, y)`.
pub open spec fn run_axis0(b: NDArray<2>, m: usize, k: int, x: int, y: int) -> bool {
    &&& 0 <= x && x + k <= b.rows()
    &&& 0 <= y < b.cols()
    &&& forall|r: int| x <= r < x + k ==> b.at2(r, y) == m
}

/// A run of `k` cells equal to `m` along the main diagonal (both indices
/// increasing), starting at `(x, y)`.
pub open spec fn run_diag(b: NDArray<2>, m: usize, k: int, x: int, y: int) -> bool {
    &&& 0 <= x && x + k <= b.rows()
    &&& 0 <= y && y + k <= b.cols()
    &&& forall|r: int, c: int| x <= r < x + k && c - y == r - x ==> b.at2(r, c) == m
}

/// A run of `k` cells equal to `m` along the anti-diagonal (first index
/// increasing, second decreasing), whose window starts at `(x, y)`.
pub open spec fn run_anti(b: NDArray<2>, m: usize, k: int, x: int, y: int) -> bool {
    &&& 0 <= x && x + k <= b.rows()
    &&& 0 <= y && y + k <= b.cols()
    &&& forall|r: int, c: int| x <= r < x + k && (r - x) + (c - y) == k - 1 ==> b.at2(r, c) == m
}

/// Some run of length `k` for mark `m` exists somewhere on the board, in any
/// of the four directions.
pub open spec fn has_run(b: NDArray<2>, m: usize, k: int) -> bool {
    ||| exists|x: int, y: int| run_axis1(b, m, k, x, y)
    ||| exists|x: int, y: int| run_axis0(b, m, k, x, y)
    ||| exists|x: int, y: int| run_diag(b, m, k, x, y)
    ||| exists|x: int, y: int| run_anti(b, m, k, x, y)
}

/// `mask` is the binary occupancy mask of `b` for mark `m`: same shape, 1
/// where the board holds `m`, 0 elsewhere.
pub open spec fn masks(b: NDArray<2>, mask: NDArray<2>, m: usize) -> bool {
    &&& mask.wf()
    &&& mask.spec_shape() == b.spec_shape()
    &&& forall|x: int, y: int|
        b.valid2(x, y) ==> mask.at2(x, y) == (if b.at2(x, y) == m {
            1usize
        } else {
            0usize
        })
}

/// `kern` is an all-ones kernel of shape `[r, c]`.
pub open spec fn ones_kernel(kern: NDArray<2>, r: int, c: int) -> bool {
    &&& kern.wf()
    &&& kern.rows() == r && kern.cols() == c
    &&& forall|p: int, q: int| kern.valid2(p, q) ==> kern.at2(p, q) == 1usize
}

/// `kern` is the `k x k` identity kernel.
pub open spec fn diag_kernel(kern: NDArray<2>, k: int) -> bool {
    &&& kern.wf()
    &&& kern.rows() == k && kern.cols() == k
    &&& forall|p: int, q: int|
        kern.valid2(p, q) ==> kern.at2(p, q) == (if p == q {
            1usize
        } else {
            0usize
        })
}

/// `kern` is the `k x k` horizontally flipped identity kernel.
pub open spec fn anti_kernel(kern: NDArray<2>, k: int) -> bool {
    &&& kern.wf()
    &&& kern.rows() == k && kern.cols() == k
    &&& forall|p: int, q: int|
        kern.valid2(p, q) ==> kern.at2(p, q) == (if p + q == k - 1 {
            1usize
        } else {
            0usize
        })
}

/// Against an all-ones single-row kernel, the row dot product over the first
/// `q` columns counts the mask's ones and reaches `q` exactly when the board
/// holds `m` in those `q` window cells.
proof fn lemma_sum_axis1(
    b: NDArray<2>,
    mask: NDArray<2>,
    kern: NDArray<2>,
    m: usize,
    k: int,
    i: int,
    j: int,
    q: int,
)
    requires
        b.wf(),
        masks(b, mask, m),
        ones_kernel(kern, 1, k),
        0 <= i < b.rows(),
        0 <= j,
        j + k <= b.cols(),
        0 <= q <= k,
    ensures
        0 <= mask.conv_row(kern, i, j, 0, q) <= q,
        mask.conv_row(kern, i, j, 0, q) == q <==> (forall|c: int|
            j <= c < j + q ==> b.at2(i, c) == m),
    decreases q,
{
    if q > 0 {
        lemma_sum_axis1(b, mask, kern, m, k, i, j, q - 1);
        let s_prev = mask.conv_row(kern, i, j, 0, q - 1);
        assert(kern.valid2(0, q - 1));
        assert(b.valid2(i, j + q - 1));
        let t = mask.at2(i, j + q - 1) as int;
        assert(mask.conv_row(kern, i, j, 0, q) == s_prev + 1 * t);
        if s_prev + t == q {
            assert(s_prev == q - 1 && t == 1);
            assert forall|c: int| j <= c < j + q implies b.at2(i, c) == m by {
                if c == j + q - 1 {
                    assert(mask.at2(i, j + q - 1) == 1);
                }
            }
        }
        if forall|c: int| j <= c < j + q ==> b.at2(i, c) == m {
            assert(b.at2(i, j + q - 1) == m);
            assert(t == 1);
            assert(forall|c: int| j <= c < j + q - 1 ==> b.at2(i, c) == m);
            assert(s_prev == q - 1);
        }
    }
}

/// An output cell of the all-ones row kernel reaches `k` exactly where a
/// second-axis run starts.
pub proof fn lemma_cell_axis1(
    b: NDArray<2>,
    mask: NDArray<2>,
    kern: NDArray<2>,
    m: usize,
    k: int,
    i: int,
    j: int,
)
    requires
        b.wf(),
        masks(b, mask, m),
        ones_kernel(kern, 1, k),
        k >= 1,
        0 <= i < b.rows(),
        0 <= j,
        j + k <= b.cols(),
    ensures
        0 <= mask.conv_value(kern, i, j) <= k,
        mask.conv_value(kern, i, j) >= k <==> run_axis1(b, m, k, i, j),
{
    lemma_sum_axis1(b, mask, kern, m, k, i, j, k);
    assert(mask.conv_partial(kern, i, j, 0) == 0);
    assert(mask.conv_partial(kern, i, j, 1) == 0 + mask.conv_row(kern, i, j, 0, k));
    assert(mask.conv_value(kern, i, j) == mask.conv_partial(kern, i, j, 1));
}

/// Against an all-ones single-column kernel, the partial window sum over the
/// first `p` rows counts the mask's ones and reaches `p` exactly when the
/// board holds `m` in those `p` window cells.
proof fn lemma_sum_axis0(
    b: NDArray<2>,
    mask: NDArray<2>,
    kern: NDArray<2>,
    m: usize,
    k: int,
    i: int,
    j: int,
    p: int,
)
    requires
        b.wf(),
        masks(b, mask, m),
        ones_kernel(kern, k, 1),
        0 <= i,
        i + k <= b.rows(),
        0 <= j < b.cols(),
        0 <= p <= k,
    ensures
        0 <= mask.conv_partial(kern, i, j, p) <= p,
        mask.conv_partial(kern, i, j, p) == p <==> (forall|r: int|
            i <= r < i + p ==> b.at2(r, j) == m),
    decreases p,
{
    if p > 0 {
        lemma_sum_axis0(b, mask, kern, m, k, i, j, p - 1);
        let s_prev = mask.conv_partial(kern, i, j, p - 1);
        assert(kern.valid2(p - 1, 0));
        assert(b.valid2(i + p - 1, j));
        let t = mask.at2(i + p - 1, j) as int;
        assert(mask.conv_row(kern, i, j, p - 1, 0) == 0);
        assert(mask.conv_row(kern, i, j, p - 1, 1) == 0 + kern.at2(p - 1, 0) * mask.at2(
            i + p - 1,
            j + 1 - 1,
        ));
        assert(mask.conv_partial(kern, i, j, p) == s_prev + mask.conv_row(kern, i, j, p - 1, 1));
        assert(mask.conv_partial(kern, i, j, p) == s_prev + t);
        if s_prev + t == p {
            assert(s_prev == p - 1 && t == 1);
            assert forall|r: int| i <= r < i + p implies b.at2(r, j) == m by {
                if r == i + p - 1 {
                    assert(mask.at2(i + p - 1, j) == 1);
                }
            }
        }
        if forall|r: int| i <= r < i + p ==> b.at2(r, j) == m {
            assert(b.at2(i + p - 1, j) == m);
            assert(t == 1);
            assert(forall|r: int| i <= r < i + p - 1 ==> b.at2(r, j) == m);
            assert(s_prev == p - 1);
        }
    }
}

/// An output cell of the all-ones column kernel reaches `k` exactly where a
/// first-axis run starts.
pub proof fn lemma_cell_axis0(
    b: NDArray<2>,
    mask: NDArray<2>,
    kern: NDArray<2>,
    m: usize,
    k: int,
    i: int,
    j: int,
)
    requires
        b.wf(),
        masks(b, mask, m),
        ones_kernel(kern, k, 1),
        k >= 1,
        0 <= i,
        i + k <= b.rows(),
        0 <= j < b.cols(),
    ensures
        0 <= mask.conv_value(kern, i, j) <= k,
        mask.conv_value(kern, i, j) >= k <==> run_axis0(b, m, k, i, j),
{
    lemma_sum_axis0(b, mask, kern, m, k, i, j, k);
}

/// Against the identity kernel, the row dot product for kernel row `p`
/// collapses to the single diagonal mask cell once `q` passes `p`.
proof fn lemma_row_diag(
    b: NDArray<2>,
    mask: NDArray<2>,
    kern: NDArray<2>,
    m: usize,
    k: int,
    i: int,
    j: int,
    p: int,
    q: int,
)
    requires
        b.wf(),
        masks(b, mask, m),
        diag_kernel(kern, k),
        0 <= i,
        i + k <= b.rows(),
        0 <= j,
        j + k <= b.cols(),
        0 <= p < k,
        0 <= q <= k,
    ensures
        mask.conv_row(kern, i, j, p, q) == if p < q {
            mask.at2(i + p, j + p) as int
        } else {
            0int
        },
    decreases q,
{
    if q > 0 {
        lemma_row_diag(b, mask, kern, m, k, i, j, p, q - 1);
        assert(kern.valid2(p, q - 1));
        assert(mask.conv_row(kern, i, j, p, q) == mask.conv_row(kern, i, j, p, q - 1) + kern.at2(
            p,
            q - 1,
        ) * mask.at2(i + p, j + q - 1));
        if p == q - 1 {
            assert(kern.at2(p, q - 1) == 1);
            assert(mask.conv_row(kern, i, j, p, q - 1) == 0);
            assert(mask.at2(i + p, j + q - 1) == mask.at2(i + p, j + p));
            assert(mask.conv_row(kern, i, j, p, q) == 1 * (mask.at2(i + p, j + p) as int));
        } else {
            assert(kern.at2(p, q - 1) == 0);
            assert(kern.at2(p, q - 1) * mask.at2(i + p, j + q - 1) == 0) by (nonlinear_arith)
                requires
                    kern.at2(p, q - 1) == 0;
            assert(mask.conv_row(kern, i, j, p, q) == mask.conv_row(kern, i, j, p, q - 1));
        }
    }
}

/// Against the identity kernel, the partial window sum over the first `p`
/// rows counts diagonal mask cells and reaches `p` exactly when the board
/// holds `m` in those `p` diagonal window cells.
proof fn lemma_sum_diag(
    b: NDArray<2>,
    mask: NDArray<2>,
    kern: NDArray<2>,
    m: usize,
    k: int,
    i: int,
    j: int,
    p: int,
)
    requires
        b.wf(),
        masks(b, mask, m),
        diag_kernel(kern, k),
        0 <= i,
        i + k <= b.rows(),
        0 <= j,
        j + k <= b.cols(),
        0 <= p <= k,
    ensures
        0 <= mask.conv_partial(kern, i, j, p) <= p,
        mask.conv_partial(kern, i, j, p) == p <==> (forall|r: int, c: int|
            i <= r < i + p && c - j == r - i ==> b.at2(r, c) == m),
    decreases p,
{
    if p > 0 {
        lemma_sum_diag(b, mask, kern, m, k, i, j, p - 1);
        lemma_row_diag(b, mask, kern, m, k, i, j, p - 1, k);
        let s_prev = mask.conv_partial(kern, i, j, p - 1);
        assert(b.valid2(i + p - 1, j + p - 1));
        let t = mask.at2(i + p - 1, j + p - 1) as int;
        assert(mask.conv_partial(kern, i, j, p) == s_prev + mask.conv_row(kern, i, j, p - 1, k));
        assert(mask.conv_partial(kern, i, j, p) == s_prev + t);
        if s_prev + t == p {
            assert(s_prev == p - 1 && t == 1);
            assert forall|r: int, c: int|
                i <= r < i + p && c - j == r - i implies b.at2(r, c) == m by {
                if r == i + p - 1 {
                    assert(c == j + p - 1);
                    assert(mask.at2(i + p - 1, j + p - 1) == 1);
                }
            }
        }
        if forall|r: int, c: int| i <= r < i + p && c - j == r - i ==> b.at2(r, c) == m {
            assert(b.at2(i + p - 1, j + p - 1) == m);
            assert(t == 1);
            assert(forall|r: int, c: int|
                i <= r < i + p - 1 && c - j == r - i ==> b.at2(r, c) == m);
            assert(s_prev == p - 1);
        }
    }
}

/// An output cell of the identity kernel reaches `k` exactly where a main
/// diagonal run starts.
pub proof fn lemma_cell_diag(
    b: NDArray<2>,
    mask: NDArray<2>,
    kern: NDArray<2>,
    m: usize,
    k: int,
    i: int,
    j: int,
)
    requires
        b.wf(),
        masks(b, mask, m),
        diag_kernel(kern, k),
        k >= 1,
        0 <= i,
        i + k <= b.rows(),
        0 <= j,
        j + k <= b.cols(),
    ensures
        0 <= mask.conv_value(kern, i, j) <= k,
        mask.conv_value(kern, i, j) >= k <==> run_diag(b, m, k, i, j),
{
    lemma_sum_diag(b, mask, kern, m, k, i, j, k);
}

/// Against the flipped identity kernel, the row dot product for kernel row
/// `p` collapses to the single anti-diagonal mask cell once `q` passes the
/// kernel row's one.
proof fn lemma_row_anti(
    b: NDArray<2>,
    mask: NDArray<2>,
    kern: NDArray<2>,
    m: usize,
    k: int,
    i: int,
    j: int,
    p: int,
    q: int,
)
    requires
        b.wf(),
        masks(b, mask, m),
        anti_kernel(kern, k),
        0 <= i,
        i + k <= b.rows(),
        0 <= j,
        j + k <= b.cols(),
        0 <= p < k,
        0 <= q <= k,
    ensures
        mask.conv_row(kern, i, j, p, q) == if k - 1 - p < q {
            mask.at2(i + p, j + k - 1 - p) as int
        } else {
            0int
        },
    decreases q,
{
    if q > 0 {
        lemma_row_anti(b, mask, kern, m, k, i, j, p, q - 1);
        assert(kern.valid2(p, q - 1));
        assert(mask.conv_row(kern, i, j, p, q) == mask.conv_row(kern, i, j, p, q - 1) + kern.at2(
            p,
            q - 1,
        ) * mask.at2(i + p, j + q - 1));
        if p + q - 1 == k - 1 {
            assert(kern.at2(p, q - 1) == 1);
            assert(j + q - 1 == j + k - 1 - p);
        } else {
            assert(kern.at2(p, q - 1) == 0);
        }
    }
}

/// Against the flipped identity kernel, the partial window sum over the
/// first `p` rows counts anti-diagonal mask cells and reaches `p` exactly
/// when the board holds `m` in those `p` anti-diagonal window cells.
proof fn lemma_sum_anti(
    b: NDArray<2>,
    mask: NDArray<2>,
    kern: NDArray<2>,
    m: usize,
    k: int,
    i: int,
    j: int,
    p: int,
)
    requires
        b.wf(),
        masks(b, mask, m),
        anti_kernel(kern, k),
        0 <= i,
        i + k <= b.rows(),
        0 <= j,
        j + k <= b.cols(),
        0 <= p <= k,
    ensures
        0 <= mask.conv_partial(kern, i, j, p) <= p,
        mask.conv_partial(kern, i, j, p) == p <==> (forall|r: int, c: int|
            i <= r < i + p && (r - i) + (c - j) == k - 1 ==> b.at2(r, c) == m),
    decreases p,
{
    if p > 0 {
        lemma_sum_anti(b, mask, kern, m, k, i, j, p - 1);
        lemma_row_anti(b, mask, kern, m, k, i, j, p - 1, k);
        let s_prev = mask.conv_partial(kern, i, j, p - 1);
        assert(b.valid2(i + p - 1, j + k - p));
        let t = mask.at2(i + p - 1, j + k - p) as int;
        assert(k - 1 - (p - 1) < k);
        assert(j + k - 1 - (p - 1) == j + k - p);
        assert(mask.conv_partial(kern, i, j, p) == s_prev + mask.conv_row(kern, i, j, p - 1, k));
        assert(mask.conv_row(kern, i, j, p - 1, k) == t);
        if s_prev + t == p {
            assert(s_prev == p - 1 && t == 1);
            assert forall|r: int, c: int|
                i <= r < i + p && (r - i) + (c - j) == k - 1 implies b.at2(r, c) == m by {
                if r == i + p - 1 {
                    assert(c == j + k - p);
                    assert(mask.at2(i + p - 1, j + k - p) == 1);
                }
            }
        }
        if forall|r: int, c: int|
            i <= r < i + p && (r - i) + (c - j) == k - 1 ==> b.at2(r, c) == m {
            assert(b.at2(i + p - 1, j + k - p) == m);
            assert(t == 1);
            assert(forall|r: int, c: int|
                i <= r < i + p - 1 && (r - i) + (c - j) == k - 1 ==> b.at2(r, c) == m);
            assert(s_prev == p - 1);
        }
    }
}

/// An output cell of the flipped identity kernel reaches `k` exactly where
/// an anti-diagonal run's window starts.
pub proof fn lemma_cell_anti(
    b: NDArray<2>,
    mask: NDArray<2>,
    kern: NDArray<2>,
    m: usize,
    k: int,
    i: int,
    j: int,
)
    requires
        b.wf(),
        masks(b, mask, m),
        anti_kernel(kern, k),
        k >= 1,
        0 <= i,
        i + k <= b.rows(),
        0 <= j,
        j + k <= b.cols(),
    ensures
        0 <= mask.conv_value(kern, i, j) <= k,
        mask.conv_value(kern, i, j) >= k <==> run_anti(b, m, k, i, j),
{
    lemma_sum_anti(b, mask, kern, m, k, i, j, k);
}

} // verus!
