//! Operations valid only for rank-2 arrays: identity construction,
//! transposition, horizontal flip, and two-dimensional valid convolution.

use vstd::prelude::*;

use crate::ndarray::{flat_index, size_of_shape, NDArray, ShapeError};

verus! {

impl NDArray<2> {
    /// Size of the first axis.
    pub open spec fn rows(&self) -> int {
        self.spec_shape()[0] as int
    }

    /// Size of the second axis.
    pub open spec fn cols(&self) -> int {
        self.spec_shape()[1] as int
    }

    /// The element at row `x`, column `y`.
    pub open spec fn at2(&self, x: int, y: int) -> usize {
        self.spec_data()[x * self.cols() + y]
    }

    /// `(x, y)` lies on the array.
    pub open spec fn valid2(&self, x: int, y: int) -> bool {
        0 <= x < self.rows() && 0 <= y < self.cols()
    }
}

/// A two-axis shape holds `rows * cols` elements.
pub proof fn lemma_size2(s0: usize, s1: usize)
    ensures
        size_of_shape(seq![s0, s1]) == s0 * s1,
{
    let s = seq![s0, s1];
    assert(s.drop_last() =~= seq![s0]);
    assert(seq![s0].drop_last() =~= Seq::<usize>::empty());
    assert(size_of_shape(Seq::<usize>::empty()) == 1);
    assert(seq![s0].last() == s0);
    assert(size_of_shape(seq![s0]) == 1 * (s0 as nat));
    assert(s.last() == s1);
    assert(size_of_shape(s) == size_of_shape(seq![s0]) * (s1 as nat));
    assert((s0 as nat) * (s1 as nat) == (s0 * s1) as nat) by (nonlinear_arith);
}

/// In rank 2 the row-major flat offset reduces to `x * cols + y`.
pub proof fn lemma_flat2(x: usize, y: usize, s0: usize, s1: usize)
    ensures
        flat_index(seq![x, y], seq![s0, s1]) == x * s1 + y,
{
    let c = seq![x, y];
    let s = seq![s0, s1];
    assert(c.drop_last() =~= seq![x]);
    assert(s.drop_last() =~= seq![s0]);
    assert(seq![x].drop_last() =~= Seq::<usize>::empty());
    assert(seq![s0].drop_last() =~= Seq::<usize>::empty());
    assert(flat_index(Seq::<usize>::empty(), Seq::<usize>::empty()) == 0);
    assert(seq![x].last() == x && seq![s0].last() == s0);
    assert(flat_index(seq![x], seq![s0]) == 0 * s0 + x);
    assert(c.last() == y && s.last() == s1);
    assert(flat_index(c, s) == flat_index(seq![x], seq![s0]) * s1 + y);
}

/// On-array rank-2 coordinates flatten below `rows * cols`.
pub proof fn lemma_flat2_bound(x: int, y: int, r: int, c: int)
    requires
        0 <= x < r,
        0 <= y < c,
    ensures
        0 <= x * c + y < r * c,
{
    assert(0 <= x * c + y < r * c) by (nonlinear_arith)
        requires
            0 <= x < r,
            0 <= y < c;
}

/// Distinct on-array rank-2 coordinates have distinct flat offsets.
pub proof fn lemma_flat2_injective(x1: int, y1: int, x2: int, y2: int, c: int)
    requires
        0 <= y1 < c,
        0 <= y2 < c,
        !(x1 == x2 && y1 == y2),
    ensures
        x1 * c + y1 != x2 * c + y2,
{
    assert(x1 * c + y1 != x2 * c + y2) by (nonlinear_arith)
        requires
            0 <= y1 < c,
            0 <= y2 < c,
            !(x1 == x2 && y1 == y2);
}

impl NDArray<2> {
    /// The element at row `x`, column `y`.
    pub fn get2(&self, x: usize, y: usize) -> (r: usize)
        requires
            self.wf(),
            self.valid2(x as int, y as int),
        ensures
            r == self.at2(x as int, y as int),
    {
        let idx = [x, y];
        proof {
            let s = self.spec_shape();
            assert(idx@ =~= seq![x, y]);
            assert(s =~= seq![s[0], s[1]]);
            assert forall|i: int| 0 <= i < 2 implies idx@[i] < s[i] by {
                if i == 0 {
                } else {
                    assert(i == 1);
                }
            }
            lemma_flat2(x, y, s[0], s[1]);
        }
        self.get(&idx)
    }

    /// Writes `v` at row `x`, column `y`, leaving every other element in
    /// place.
    pub fn set2(&mut self, x: usize, y: usize, v: usize)
        requires
            old(self).wf(),
            old(self).valid2(x as int, y as int),
        ensures
            final(self).wf(),
            final(self).spec_shape() == old(self).spec_shape(),
            final(self).spec_data() == old(self).spec_data().update(
                x as int * old(self).cols() + y as int,
                v,
            ),
            final(self).at2(x as int, y as int) == v,
            forall|i: int, j: int|
                old(self).valid2(i, j) && !(i == x as int && j == y as int) ==> final(self).at2(
                    i,
                    j,
                ) == old(self).at2(i, j),
    {
        let idx = [x, y];
        proof {
            let s = old(self).spec_shape();
            assert(idx@ =~= seq![x, y]);
            assert(s =~= seq![s[0], s[1]]);
            assert forall|i: int| 0 <= i < 2 implies idx@[i] < s[i] by {
                if i == 0 {
                } else {
                    assert(i == 1);
                }
            }
            lemma_flat2(x, y, s[0], s[1]);
        }
        self.set(&idx, v);
        proof {
            let r = old(self).rows();
            let c = old(self).cols();
            lemma_size2(old(self).spec_shape()[0], old(self).spec_shape()[1]);
            lemma_flat2_bound(x as int, y as int, r, c);
            assert(old(self).spec_data().len() == r * c);
            assert(self.spec_data() == old(self).spec_data().update(x as int * c + y as int, v));
            assert forall|i: int, j: int|
                old(self).valid2(i, j) && !(i == x as int && j == y as int) implies self.at2(i, j)
                == old(self).at2(i, j) by {
                lemma_flat2_injective(i, j, x as int, y as int, c);
                lemma_flat2_bound(i, j, r, c);
                assert(self.spec_data()[i * c + j] == old(self).spec_data()[i * c + j]);
            }
        }
    }

    /// A rectangular identity: 1 where the row index equals the column
    /// index, 0 elsewhere, in a `cols x rows` array.
    pub fn eye(cols: usize, rows: usize) -> (r: Self)
        requires
            cols * rows <= usize::MAX,
        ensures
            r.wf(),
            r.spec_shape() == seq![cols, rows],
            forall|i: int, j: int|
                r.valid2(i, j) ==> r.at2(i, j) == if i == j {
                    1usize
                } else {
                    0usize
                },
    {
        let shape = [cols, rows];
        proof {
            assert(shape@ =~= seq![cols, rows]);
            lemma_size2(cols, rows);
        }
        let mut r = Self::zeros(&shape);
        proof {
            assert forall|i: int, j: int| r.valid2(i, j) implies r.at2(i, j) == 0usize by {
                lemma_flat2_bound(i, j, r.rows(), r.cols());
            }
        }
        let d = if rows < cols {
            rows
        } else {
            cols
        };
        let mut i: usize = 0;
        while i < d
            invariant
                r.wf(),
                r.spec_shape() == seq![cols, rows],
                d <= cols && d <= rows,
                0 <= i <= d,
                forall|x: int, y: int|
                    r.valid2(x, y) ==> r.at2(x, y) == if x == y && x < i {
                        1usize
                    } else {
                        0usize
                    },
            decreases d - i,
        {
            r.set2(i, i, 1);
            i += 1;
        }
        r
    }

    /// The element count of a live rank-2 array equals `rows * cols`, and it
    /// fits in `usize`.
    pub proof fn lemma_area(&self)
        requires
            self.wf(),
        ensures
            self.spec_data().len() == self.rows() * self.cols(),
            self.rows() * self.cols() <= usize::MAX,
            self.cols() * self.rows() <= usize::MAX,
    {
        let s = self.spec_shape();
        assert(s =~= seq![s[0], s[1]]);
        lemma_size2(s[0], s[1]);
        self.lemma_len_fits();
        assert(self.cols() * self.rows() == self.rows() * self.cols()) by (nonlinear_arith);
    }

    /// A new array with the axes swapped: element `(i, j)` of the input
    /// becomes element `(j, i)` of the result.
    pub fn transpose(&self) -> (r: Self)
        requires
            self.wf(),
        ensures
            r.wf(),
            r.spec_shape() == seq![self.spec_shape()[1], self.spec_shape()[0]],
            forall|i: int, j: int| self.valid2(i, j) ==> r.at2(j, i) == self.at2(i, j),
    {
        proof {
            self.lemma_area();
            lemma_size2(self.spec_shape()[1], self.spec_shape()[0]);
        }
        let shape = *self.shape();
        let s0 = shape[0];
        let s1 = shape[1];
        let out_shape = [s1, s0];
        proof {
            assert(out_shape@ =~= seq![s1, s0]);
        }
        let mut r = Self::zeros(&out_shape);
        proof {
            assert forall|a: int, b: int| r.valid2(a, b) implies r.at2(a, b) == 0usize by {
                lemma_flat2_bound(a, b, r.rows(), r.cols());
            }
        }
        let mut i: usize = 0;
        while i < s0
            invariant
                self.wf(),
                r.wf(),
                s0 == self.rows() && s1 == self.cols(),
                r.spec_shape() == seq![s1, s0],
                0 <= i <= s0,
                forall|a: int, b: int|
                    0 <= a < i && 0 <= b < s1 ==> r.at2(b, a) == self.at2(a, b),
            decreases s0 - i,
        {
            let mut j: usize = 0;
            while j < s1
                invariant
                    self.wf(),
                    r.wf(),
                    s0 == self.rows() && s1 == self.cols(),
                    r.spec_shape() == seq![s1, s0],
                    0 <= i < s0,
                    0 <= j <= s1,
                    forall|a: int, b: int|
                        0 <= a < i && 0 <= b < s1 ==> r.at2(b, a) == self.at2(a, b),
                    forall|b: int| 0 <= b < j ==> r.at2(b, i as int) == self.at2(i as int, b),
                decreases s1 - j,
            {
                let v = self.get2(i, j);
                r.set2(j, i, v);
                j += 1;
            }
            i += 1;
        }
        r
    }

    /// A new array with each row reversed: element `(i, j)` of the input
    /// becomes element `(i, cols - 1 - j)` of the result.
    pub fn fliplr(&self) -> (r: Self)
        requires
            self.wf(),
        ensures
            r.wf(),
            r.spec_shape() == self.spec_shape(),
            forall|i: int, j: int|
                self.valid2(i, j) ==> r.at2(i, j) == self.at2(i, self.cols() - 1 - j),
    {
        proof {
            self.lemma_area();
            assert(self.spec_shape() =~= seq![self.spec_shape()[0], self.spec_shape()[1]]);
        }
        let shape = *self.shape();
        let s0 = shape[0];
        let s1 = shape[1];
        let mut r = Self::zeros(&shape);
        let mut i: usize = 0;
        while i < s0
            invariant
                self.wf(),
                r.wf(),
                s0 == self.rows() && s1 == self.cols(),
                r.spec_shape() == self.spec_shape(),
                0 <= i <= s0,
                forall|a: int, b: int|
                    0 <= a < i && 0 <= b < s1 ==> r.at2(a, b) == self.at2(a, s1 - 1 - b),
            decreases s0 - i,
        {
            let mut j: usize = 0;
            while j < s1
                invariant
                    self.wf(),
                    r.wf(),
                    s0 == self.rows() && s1 == self.cols(),
                    r.spec_shape() == self.spec_shape(),
                    0 <= i < s0,
                    0 <= j <= s1,
                    forall|a: int, b: int|
                        0 <= a < i && 0 <= b < s1 ==> r.at2(a, b) == self.at2(a, s1 - 1 - b),
                    forall|b: int|
                        0 <= b < j ==> r.at2(i as int, b) == self.at2(i as int, s1 - 1 - b),
                decreases s1 - j,
            {
                let v = self.get2(i, s1 - 1 - j);
                r.set2(i, j, v);
                j += 1;
            }
            i += 1;
        }
        r
    }

    /// Dot product of the first `q` columns of kernel row `p` against the
    /// input window anchored at `(i, j)`.
    pub open spec fn conv_row(&self, kern: Self, i: int, j: int, p: int, q: int) -> int
        decreases q,
    {
        if q <= 0 {
            0
        } else {
            self.conv_row(kern, i, j, p, q - 1) + kern.at2(p, q - 1) * self.at2(i + p, j + q - 1)
        }
    }

    /// Sum of the dot products of the first `p` kernel rows against the
    /// input window anchored at `(i, j)`.
    pub open spec fn conv_partial(&self, kern: Self, i: int, j: int, p: int) -> int
        decreases p,
    {
        if p <= 0 {
            0
        } else {
            self.conv_partial(kern, i, j, p - 1) + self.conv_row(kern, i, j, p - 1, kern.cols())
        }
    }

    /// The valid-mode cross-correlation value at output cell `(i, j)`: the
    /// sum over the kernel window of `kern[p, q] * self[i + p, j + q]`.
    pub open spec fn conv_value(&self, kern: Self, i: int, j: int) -> int {
        self.conv_partial(kern, i, j, kern.rows())
    }
}

/// Row dot products are non-negative and grow with the column count.
pub proof fn lemma_conv_row_mono(a: NDArray<2>, kern: NDArray<2>, i: int, j: int, p: int, q1: int, q2: int)
    requires
        q1 <= q2,
    ensures
        0 <= a.conv_row(kern, i, j, p, q1) || q1 > 0,
        a.conv_row(kern, i, j, p, q1) <= a.conv_row(kern, i, j, p, q2),
        q1 <= 0 ==> 0 <= a.conv_row(kern, i, j, p, q2),
    decreases q2 - q1,
{
    if q1 < q2 {
        let x = kern.at2(p, q2 - 1);
        let y = a.at2(i + p, j + q2 - 1);
        assert(x * y >= 0) by (nonlinear_arith)
            requires
                x >= 0,
                y >= 0;
        lemma_conv_row_mono(a, kern, i, j, p, q1, q2 - 1);
    }
}

/// Every row dot product is non-negative.
pub proof fn lemma_conv_row_nonneg(a: NDArray<2>, kern: NDArray<2>, i: int, j: int, p: int, q: int)
    ensures
        0 <= a.conv_row(kern, i, j, p, q),
{
    if q <= 0 {
        assert(a.conv_row(kern, i, j, p, q) == 0);
    } else {
        lemma_conv_row_mono(a, kern, i, j, p, 0, q);
    }
}

/// Partial window sums are non-negative and grow with the row count.
pub proof fn lemma_conv_partial_mono(a: NDArray<2>, kern: NDArray<2>, i: int, j: int, p1: int, p2: int)
    requires
        p1 <= p2,
    ensures
        a.conv_partial(kern, i, j, p1) <= a.conv_partial(kern, i, j, p2),
        p1 <= 0 ==> 0 <= a.conv_partial(kern, i, j, p2),
    decreases p2 - p1,
{
    if p1 < p2 {
        lemma_conv_row_nonneg(a, kern, i, j, p2 - 1, kern.cols());
        lemma_conv_partial_mono(a, kern, i, j, p1, p2 - 1);
    }
}

/// Every partial window sum is non-negative.
pub proof fn lemma_conv_partial_nonneg(a: NDArray<2>, kern: NDArray<2>, i: int, j: int, p: int)
    ensures
        0 <= a.conv_partial(kern, i, j, p),
{
    if p <= 0 {
        assert(a.conv_partial(kern, i, j, p) == 0);
    } else {
        lemma_conv_partial_mono(a, kern, i, j, 0, p);
    }
}

impl NDArray<2> {
    /// Valid-mode (no padding) two-dimensional cross-correlation with
    /// stride 1. Fails exactly when the kernel is empty on some axis or
    /// exceeds the input on some axis; otherwise the output has shape
    /// `[rows - kRows + 1, cols - kCols + 1]` and each output cell holds the
    /// window sum `conv_value`.
    pub fn conv2d(&self, kernel: &Self) -> (res: Result<Self, ShapeError>)
        requires
            self.wf(),
            kernel.wf(),
            forall|i: int, j: int|
                0 <= i <= self.rows() - kernel.rows() && 0 <= j <= self.cols() - kernel.cols()
                    ==> self.conv_value(*kernel, i, j) <= usize::MAX,
        ensures
            res is Ok <==> (1 <= kernel.rows() <= self.rows() && 1 <= kernel.cols()
                <= self.cols()),
            res matches Ok(out) ==> {
                &&& out.wf()
                &&& out.rows() == self.rows() - kernel.rows() + 1
                &&& out.cols() == self.cols() - kernel.cols() + 1
                &&& forall|i: int, j: int|
                    out.valid2(i, j) ==> out.at2(i, j) == self.conv_value(*kernel, i, j)
            },
    {
        let shape = *self.shape();
        let ks = *kernel.shape();
        let s0 = shape[0];
        let s1 = shape[1];
        let k0 = ks[0];
        let k1 = ks[1];
        if k0 < 1 || k0 > s0 || k1 < 1 || k1 > s1 {
            return Err(ShapeError);
        }
        let or = s0 - k0 + 1;
        let oc = s1 - k1 + 1;
        let out_shape = [or, oc];
        proof {
            self.lemma_area();
            assert(out_shape@ =~= seq![or, oc]);
            lemma_size2(or, oc);
            assert((or as int) * (oc as int) <= (s0 as int) * (s1 as int)) by (nonlinear_arith)
                requires
                    0 <= or <= s0,
                    0 <= oc <= s1;
        }
        let mut out = Self::zeros(&out_shape);
        let ghost a = *self;
        let ghost k = *kernel;
        let mut i: usize = 0;
        while i < or
            invariant
                a.wf() && a == *self && k.wf() && k == *kernel,
                k.rows() == k0 && k.cols() == k1,
                1 <= k0 && or == a.rows() - k0 + 1,
                1 <= k1 && oc == a.cols() - k1 + 1,
                forall|x: int, y: int|
                    0 <= x <= a.rows() - k.rows() && 0 <= y <= a.cols() - k.cols()
                        ==> a.conv_value(k, x, y) <= usize::MAX,
                out.wf(),
                out.spec_shape() == seq![or, oc],
                0 <= i <= or,
                forall|x: int, y: int|
                    0 <= x < i && 0 <= y < oc ==> out.at2(x, y) == a.conv_value(k, x, y),
            decreases or - i,
        {
            let mut j: usize = 0;
            while j < oc
                invariant
                    a.wf() && a == *self && k.wf() && k == *kernel,
                    k.rows() == k0 && k.cols() == k1,
                    1 <= k0 && or == a.rows() - k0 + 1,
                    1 <= k1 && oc == a.cols() - k1 + 1,
                    forall|x: int, y: int|
                        0 <= x <= a.rows() - k.rows() && 0 <= y <= a.cols() - k.cols()
                            ==> a.conv_value(k, x, y) <= usize::MAX,
                    out.wf(),
                    out.spec_shape() == seq![or, oc],
                    0 <= i < or,
                    0 <= j <= oc,
                    forall|x: int, y: int|
                        0 <= x < i && 0 <= y < oc ==> out.at2(x, y) == a.conv_value(k, x, y),
                    forall|y: int| 0 <= y < j ==> out.at2(i as int, y) == a.conv_value(k, i as int, y),
                decreases oc - j,
            {
                let ii = i;
                let jj = j;
                let mut acc: usize = 0;
                let mut p: usize = 0;
                while p < k0
                    invariant
                        a.wf() && a == *self && k.wf() && k == *kernel,
                        k.rows() == k0 && k.cols() == k1,
                        1 <= k0 && 0 <= ii as int <= a.rows() - k0,
                        1 <= k1 && 0 <= jj as int <= a.cols() - k1,
                        a.conv_value(k, ii as int, jj as int) <= usize::MAX,
                        0 <= p <= k0,
                        acc == a.conv_partial(k, ii as int, jj as int, p as int),
                    decreases k0 - p,
                {
                    let mut q: usize = 0;
                    while q < k1
                        invariant
                            a.wf() && a == *self && k.wf() && k == *kernel,
                            k.rows() == k0 && k.cols() == k1,
                            1 <= k0 && 0 <= ii as int <= a.rows() - k0,
                            1 <= k1 && 0 <= jj as int <= a.cols() - k1,
                            a.conv_value(k, ii as int, jj as int) <= usize::MAX,
                            0 <= p < k0,
                            0 <= q <= k1,
                            acc == a.conv_partial(k, ii as int, jj as int, p as int)
                                + a.conv_row(k, ii as int, jj as int, p as int, q as int),
                        decreases k1 - q,
                    {
                        proof {
                            let pi = p as int;
                            let qi = q as int;
                            let xi = ii as int;
                            let yi = jj as int;
                            assert(a.conv_row(k, xi, yi, pi, qi + 1) == a.conv_row(
                                k,
                                xi,
                                yi,
                                pi,
                                qi,
                            ) + k.at2(pi, qi) * a.at2(xi + pi, yi + qi));
                            lemma_conv_row_nonneg(a, k, xi, yi, pi, qi);
                            lemma_conv_row_mono(a, k, xi, yi, pi, qi + 1, k1 as int);
                            assert(a.conv_partial(k, xi, yi, pi + 1) == a.conv_partial(
                                k,
                                xi,
                                yi,
                                pi,
                            ) + a.conv_row(k, xi, yi, pi, k1 as int));
                            lemma_conv_partial_mono(a, k, xi, yi, pi + 1, k0 as int);
                            lemma_conv_partial_nonneg(a, k, xi, yi, pi);
                            assert(a.conv_value(k, xi, yi) == a.conv_partial(k, xi, yi, k0 as int));
                        }
                        let t = kernel.get2(p, q) * self.get2(ii + p, jj + q);
                        acc = acc + t;
                        q += 1;
                    }
                    proof {
                        let pi = p as int;
                        assert(a.conv_partial(k, ii as int, jj as int, pi + 1) == a.conv_partial(
                            k,
                            ii as int,
                            jj as int,
                            pi,
                        ) + a.conv_row(k, ii as int, jj as int, pi, k1 as int));
                    }
                    p += 1;
                }
                out.set2(ii, jj, acc);
                j += 1;
            }
            i += 1;
        }
        Ok(out)
    }

    /// The square identity: 1 on the main diagonal, 0 elsewhere.
    pub fn identity(rows: usize) -> (r: Self)
        requires
            rows * rows <= usize::MAX,
        ensures
            r.wf(),
            r.spec_shape() == seq![rows, rows],
            forall|i: int, j: int|
                r.valid2(i, j) ==> r.at2(i, j) == if i == j {
                    1usize
                } else {
                    0usize
                },
    {
        Self::eye(rows, rows)
    }
}

} // verus!
