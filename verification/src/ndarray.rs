//! A fixed-rank, dynamically shaped, row-major multi-dimensional array.
//!
//! The rank `N` is a compile-time constant; the per-axis sizes are chosen at
//! construction. Elements are stored contiguously in row-major order (last
//! axis fastest): the flat offset of a coordinate is obtained by the Horner
//! scheme `((c_0 * s_1 + c_1) * s_2 + c_2) ...`.

use vstd::prelude::*;

verus! {

/// Raised when the supplied data length does not match the element count
/// that the declared shape calls for.
#[derive(Debug, PartialEq, Eq, Structural, Clone, Copy)]
pub struct ShapeError;

/// Number of elements a shape holds: the product of its axis sizes.
pub open spec fn size_of_shape(shape: Seq<usize>) -> nat
    decreases shape.len(),
{
    if shape.len() == 0 {
        1
    } else {
        size_of_shape(shape.drop_last()) * (shape.last() as nat)
    }
}

/// Row-major flat offset of coordinate `idx` within `shape`, by the Horner
/// scheme (meaningful when `idx.len() == shape.len()`).
pub open spec fn flat_index(idx: Seq<usize>, shape: Seq<usize>) -> int
    decreases shape.len(),
{
    if shape.len() == 0 {
        0
    } else {
        flat_index(idx.drop_last(), shape.drop_last()) * shape.last() + idx.last()
    }
}

/// A rank-`N` array of machine integers with row-major backing storage.
#[derive(Debug)]
pub struct NDArray<const N: usize> {
    data: Vec<usize>,
    shape: [usize; N],
}

impl<const N: usize> NDArray<N> {
    /// The backing storage, in row-major order.
    pub closed spec fn spec_data(&self) -> Seq<usize> {
        self.data@
    }

    /// The per-axis sizes.
    pub closed spec fn spec_shape(&self) -> Seq<usize> {
        self.shape@
    }

    /// Every live array keeps its data length equal to its shape's element
    /// count; only a failed constructor ever sees a mismatch.
    pub open spec fn wf(&self) -> bool {
        &&& self.spec_shape().len() == N
        &&& self.spec_data().len() == size_of_shape(self.spec_shape())
    }

    /// Coordinates lie strictly within the shape on every axis.
    pub open spec fn valid_index(&self, idx: Seq<usize>) -> bool {
        &&& idx.len() == N
        &&& forall|i: int| 0 <= i < N ==> idx[i] < self.spec_shape()[i]
    }

    /// The element stored at coordinate `idx`.
    pub open spec fn at(&self, idx: Seq<usize>) -> usize {
        self.spec_data()[flat_index(idx, self.spec_shape())]
    }
}

/// A shape with some axis of size zero holds no elements.
pub proof fn lemma_size_zero_axis(shape: Seq<usize>, i: int)
    requires
        0 <= i < shape.len(),
        shape[i] == 0,
    ensures
        size_of_shape(shape) == 0,
    decreases shape.len(),
{
    if i == shape.len() - 1 {
        assert(shape.last() == 0);
        assert(size_of_shape(shape) == size_of_shape(shape.drop_last()) * 0);
    } else {
        assert(shape.drop_last()[i] == 0);
        lemma_size_zero_axis(shape.drop_last(), i);
        assert(size_of_shape(shape) == 0 * (shape.last() as nat));
    }
}

/// A one-axis shape holds as many elements as that axis is long.
pub proof fn lemma_size1(s0: usize)
    ensures
        size_of_shape(seq![s0]) == s0,
{
    assert(seq![s0].drop_last() =~= Seq::<usize>::empty());
    assert(size_of_shape(Seq::<usize>::empty()) == 1);
    assert(seq![s0].last() == s0);
    assert(size_of_shape(seq![s0]) == 1 * (s0 as nat));
}

/// Extending a prefix of a shape by one axis multiplies its element count by
/// that axis's size.
pub proof fn lemma_size_take_step(shape: Seq<usize>, m: int)
    requires
        0 <= m < shape.len(),
    ensures
        size_of_shape(shape.take(m + 1)) == size_of_shape(shape.take(m)) * shape[m],
{
    assert(shape.take(m + 1).drop_last() =~= shape.take(m));
    assert(shape.take(m + 1).last() == shape[m]);
}

/// When the remaining axes all have size at least one, a prefix of a shape
/// holds no more elements than the whole shape.
pub proof fn lemma_size_take_le(shape: Seq<usize>, m: int)
    requires
        0 <= m <= shape.len(),
        forall|i: int| m <= i < shape.len() ==> shape[i] >= 1,
    ensures
        size_of_shape(shape.take(m)) <= size_of_shape(shape),
    decreases shape.len() - m,
{
    if m == shape.len() {
        assert(shape.take(m) =~= shape);
    } else {
        lemma_size_take_step(shape, m);
        let a = size_of_shape(shape.take(m));
        let b = shape[m] as nat;
        assert(a <= a * b) by (nonlinear_arith)
            requires b >= 1;
        lemma_size_take_le(shape, m + 1);
    }
}

impl<const N: usize> NDArray<N> {
    /// The element count of `shape`, or `None` when it exceeds `usize`.
    fn checked_size(shape: &[usize; N]) -> (r: Option<usize>)
        ensures
            match r {
                Some(n) => n == size_of_shape(shape@),
                None => size_of_shape(shape@) > usize::MAX,
            },
    {
        let mut i: usize = 0;
        while i < N
            invariant
                0 <= i <= N,
                forall|j: int| 0 <= j < i ==> shape@[j] >= 1,
            decreases N - i,
        {
            if shape[i] == 0 {
                proof {
                    lemma_size_zero_axis(shape@, i as int);
                }
                return Some(0);
            }
            i += 1;
        }
        let mut acc: usize = 1;
        let mut m: usize = 0;
        while m < N
            invariant
                0 <= m <= N,
                forall|j: int| 0 <= j < N ==> shape@[j] >= 1,
                acc == size_of_shape(shape@.take(m as int)),
            decreases N - m,
        {
            proof {
                lemma_size_take_step(shape@, m as int);
            }
            match acc.checked_mul(shape[m]) {
                Some(v) => {
                    acc = v;
                }
                None => {
                    proof {
                        lemma_size_take_le(shape@, m as int + 1);
                    }
                    return None;
                }
            }
            m += 1;
        }
        proof {
            assert(shape@.take(N as int) =~= shape@);
        }
        Some(acc)
    }

    /// Builds an array from row-major data and a shape; fails exactly when
    /// the data length does not match the shape's element count.
    pub fn from_vec(data: Vec<usize>, shape: &[usize; N]) -> (r: Result<Self, ShapeError>)
        ensures
            r is Ok <==> data@.len() == size_of_shape(shape@),
            r matches Ok(t) ==> t.wf() && t.spec_data() == data@ && t.spec_shape() == shape@,
    {
        let dlen = data.len();
        match Self::checked_size(shape) {
            Some(n) if n == dlen => Ok(NDArray { data, shape: *shape }),
            _ => Err(ShapeError),
        }
    }

    /// Read-only view of the per-axis sizes.
    pub fn shape(&self) -> (r: &[usize; N])
        ensures
            r@ == self.spec_shape(),
    {
        &self.shape
    }
}

/// A valid coordinate's flat offset lies within the shape's element count.
pub proof fn lemma_flat_index_bound(idx: Seq<usize>, shape: Seq<usize>)
    requires
        idx.len() == shape.len(),
        forall|i: int| 0 <= i < idx.len() ==> idx[i] < shape[i],
    ensures
        0 <= flat_index(idx, shape) < size_of_shape(shape),
    decreases shape.len(),
{
    if shape.len() > 0 {
        let n = shape.len() - 1;
        assert(forall|i: int|
            0 <= i < n ==> idx.drop_last()[i] < shape.drop_last()[i]);
        lemma_flat_index_bound(idx.drop_last(), shape.drop_last());
        let f = flat_index(idx.drop_last(), shape.drop_last());
        let p = size_of_shape(shape.drop_last());
        let l = shape.last() as int;
        let c = idx.last() as int;
        assert(idx[n] < shape[n]);
        assert(0 <= f * l + c < p * l) by (nonlinear_arith)
            requires
                0 <= f < p,
                0 <= c < l;
    }
}

/// Distinct valid coordinates have distinct flat offsets: row-major
/// flattening is injective on the shape's coordinate box.
pub proof fn lemma_flat_index_injective(a: Seq<usize>, b: Seq<usize>, shape: Seq<usize>)
    requires
        a.len() == shape.len(),
        b.len() == shape.len(),
        forall|i: int| 0 <= i < shape.len() ==> a[i] < shape[i],
        forall|i: int| 0 <= i < shape.len() ==> b[i] < shape[i],
        flat_index(a, shape) == flat_index(b, shape),
    ensures
        a == b,
    decreases shape.len(),
{
    if shape.len() == 0 {
        assert(a =~= b);
    } else {
        let n = shape.len() - 1;
        assert(forall|i: int|
            0 <= i < n ==> a.drop_last()[i] < shape.drop_last()[i]);
        assert(forall|i: int|
            0 <= i < n ==> b.drop_last()[i] < shape.drop_last()[i]);
        lemma_flat_index_bound(a.drop_last(), shape.drop_last());
        lemma_flat_index_bound(b.drop_last(), shape.drop_last());
        let fa = flat_index(a.drop_last(), shape.drop_last());
        let fb = flat_index(b.drop_last(), shape.drop_last());
        let l = shape.last() as int;
        let ca = a.last() as int;
        let cb = b.last() as int;
        assert(a[n] < shape[n]);
        assert(b[n] < shape[n]);
        assert(fa == fb && ca == cb) by (nonlinear_arith)
            requires
                fa * l + ca == fb * l + cb,
                0 <= ca < l,
                0 <= cb < l,
                fa >= 0,
                fb >= 0;
        lemma_flat_index_injective(a.drop_last(), b.drop_last(), shape.drop_last());
        assert forall|i: int| 0 <= i < shape.len() implies a[i] == b[i] by {
            if i < n {
                assert(a.drop_last()[i] == b.drop_last()[i]);
            } else {
                assert(a[n] == ca && b[n] == cb);
            }
        }
        assert(a =~= b);
    }
}

impl<const N: usize> NDArray<N> {
    /// Row-major flat offset of `idx`, by one left-to-right Horner pass.
    fn flatten_index(&self, idx: &[usize; N]) -> (r: usize)
        requires
            self.wf(),
            self.valid_index(idx@),
        ensures
            r == flat_index(idx@, self.spec_shape()),
    {
        proof {
            assert(idx@.take(0) =~= Seq::<usize>::empty());
            assert(self.spec_shape().take(0) =~= Seq::<usize>::empty());
        }
        let dl = self.data.len();
        let mut acc: usize = 0;
        let mut i: usize = 0;
        while i < N
            invariant
                self.wf(),
                self.valid_index(idx@),
                dl == self.spec_data().len(),
                0 <= i <= N,
                acc == flat_index(idx@.take(i as int), self.spec_shape().take(i as int)),
            decreases N - i,
        {
            proof {
                let s = self.spec_shape();
                assert(idx@.take(i + 1).drop_last() =~= idx@.take(i as int));
                assert(s.take(i + 1).drop_last() =~= s.take(i as int));
                assert(idx@.take(i + 1).last() == idx@[i as int]);
                assert(s.take(i + 1).last() == s[i as int]);
                assert(forall|j: int|
                    0 <= j < i + 1 ==> #[trigger] idx@.take(i + 1)[j] < s.take(i + 1)[j]);
                lemma_flat_index_bound(idx@.take(i + 1), s.take(i + 1));
                assert forall|j: int| (i as int) + 1 <= j < N implies s[j] >= 1 by {
                    assert(idx@[j] < s[j]);
                }
                lemma_size_take_le(s, i + 1);
                assert(flat_index(idx@.take(i + 1), s.take(i + 1)) == acc * s[i as int]
                    + idx@[i as int]);
                assert(size_of_shape(s) == self.spec_data().len());
            }
            acc = acc * self.shape[i] + idx[i];
            i += 1;
        }
        proof {
            assert(idx@.take(N as int) =~= idx@);
            assert(self.spec_shape().take(N as int) =~= self.spec_shape());
        }
        acc
    }

    /// The element at coordinate `idx`.
    pub fn get(&self, idx: &[usize; N]) -> (r: usize)
        requires
            self.wf(),
            self.valid_index(idx@),
        ensures
            r == self.at(idx@),
    {
        let f = self.flatten_index(idx);
        proof {
            lemma_flat_index_bound(idx@, self.spec_shape());
        }
        self.data[f]
    }

    /// Writes `v` at coordinate `idx`, leaving every other element in place.
    pub fn set(&mut self, idx: &[usize; N], v: usize)
        requires
            old(self).wf(),
            old(self).valid_index(idx@),
        ensures
            final(self).wf(),
            final(self).spec_shape() == old(self).spec_shape(),
            final(self).spec_data() == old(self).spec_data().update(
                flat_index(idx@, old(self).spec_shape()),
                v,
            ),
            final(self).at(idx@) == v,
            forall|other: Seq<usize>|
                old(self).valid_index(other) && other != idx@ ==> final(self).at(other)
                    == old(self).at(other),
    {
        let f = self.flatten_index(idx);
        proof {
            lemma_flat_index_bound(idx@, self.spec_shape());
        }
        self.data[f] = v;
        proof {
            assert forall|other: Seq<usize>|
                old(self).valid_index(other) && other != idx@ implies self.at(other) == old(
                self,
            ).at(other) by {
                lemma_flat_index_bound(other, old(self).spec_shape());
                if flat_index(other, old(self).spec_shape()) == flat_index(
                    idx@,
                    old(self).spec_shape(),
                ) {
                    lemma_flat_index_injective(other, idx@, old(self).spec_shape());
                }
            }
        }
    }

    /// The backing storage of a live array fits in a machine word's worth of
    /// elements.
    pub proof fn lemma_len_fits(&self)
        ensures
            self.spec_data().len() <= usize::MAX,
    {
        broadcast use vstd::std_specs::vec::axiom_spec_len;

        assert(vstd::std_specs::vec::spec_vec_len(&self.data) == self.data@.len());
    }

    /// A copy of the backing storage in row-major order.
    pub fn into_flat_vec(&self) -> (r: Vec<usize>)
        ensures
            r@ == self.spec_data(),
    {
        let mut r: Vec<usize> = Vec::new();
        let mut i: usize = 0;
        let n = self.data.len();
        while i < n
            invariant
                0 <= i <= n,
                n == self.spec_data().len(),
                r@ =~= self.spec_data().take(i as int),
            decreases n - i,
        {
            r.push(self.data[i]);
            i += 1;
        }
        proof {
            assert(self.spec_data().take(n as int) =~= self.spec_data());
        }
        r
    }

    /// An array filled with `value` in the given shape.
    fn filled(shape: &[usize; N], value: usize) -> (r: Self)
        requires
            size_of_shape(shape@) <= usize::MAX,
        ensures
            r.wf(),
            r.spec_shape() == shape@,
            forall|i: int| 0 <= i < r.spec_data().len() ==> r.spec_data()[i] == value,
    {
        let n = match Self::checked_size(shape) {
            Some(n) => n,
            None => 0,  // unreachable: the element count fits by precondition
        };
        let mut data: Vec<usize> = Vec::new();
        let mut i: usize = 0;
        while i < n
            invariant
                0 <= i <= n,
                data@.len() == i,
                forall|j: int| 0 <= j < i ==> data@[j] == value,
            decreases n - i,
        {
            data.push(value);
            i += 1;
        }
        NDArray { data, shape: *shape }
    }

    /// The empty array: every axis has size zero.
    pub fn new() -> (r: Self)
        requires
            N >= 1,
        ensures
            r.wf(),
            r.spec_data().len() == 0,
            r.spec_shape() == Seq::new(N as nat, |i: int| 0usize),
    {
        let shape: [usize; N] = [0; N];
        proof {
            lemma_size_zero_axis(shape@, 0);
            assert(shape@ =~= Seq::new(N as nat, |i: int| 0usize));
        }
        NDArray { data: Vec::new(), shape }
    }

    /// An all-zero array of the given shape.
    pub fn zeros(shape: &[usize; N]) -> (r: Self)
        requires
            size_of_shape(shape@) <= usize::MAX,
        ensures
            r.wf(),
            r.spec_shape() == shape@,
            forall|i: int| 0 <= i < r.spec_data().len() ==> r.spec_data()[i] == 0,
    {
        Self::filled(shape, 0)
    }

    /// An all-one array of the given shape.
    pub fn ones(shape: &[usize; N]) -> (r: Self)
        requires
            size_of_shape(shape@) <= usize::MAX,
        ensures
            r.wf(),
            r.spec_shape() == shape@,
            forall|i: int| 0 <= i < r.spec_data().len() ==> r.spec_data()[i] == 1,
    {
        Self::filled(shape, 1)
    }

    /// Builds an array by consuming a finite sequence of elements; fails
    /// exactly when the sequence length does not match the shape.
    pub fn from_iter(data: Vec<usize>, shape: &[usize; N]) -> (r: Result<Self, ShapeError>)
        ensures
            r is Ok <==> data@.len() == size_of_shape(shape@),
            r matches Ok(t) ==> t.wf() && t.spec_data() == data@ && t.spec_shape() == shape@,
    {
        Self::from_vec(data, shape)
    }
}

impl<const N: usize> Clone for NDArray<N> {
    /// A deep copy: same shape, same elements, fresh storage.
    fn clone(&self) -> (r: Self)
        ensures
            r.spec_data() == self.spec_data(),
            r.spec_shape() == self.spec_shape(),
    {
        NDArray { data: self.into_flat_vec(), shape: self.shape }
    }
}

/// Law: after writing `v` at a valid coordinate `idx`, reading `idx` yields
/// `v`, and reading any other valid coordinate yields what it held before.
/// `u` is the written array, as `set` describes it.
pub proof fn lemma_write_read_round_trip<const N: usize>(
    t: NDArray<N>,
    u: NDArray<N>,
    idx: Seq<usize>,
    other: Seq<usize>,
    v: usize,
)
    requires
        t.wf(),
        t.valid_index(idx),
        t.valid_index(other),
        u.spec_shape() == t.spec_shape(),
        u.spec_data() == t.spec_data().update(flat_index(idx, t.spec_shape()), v),
    ensures
        u.at(idx) == v,
        other != idx ==> u.at(other) == t.at(other),
{
    lemma_flat_index_bound(idx, t.spec_shape());
    lemma_flat_index_bound(other, t.spec_shape());
    if other != idx && flat_index(other, t.spec_shape()) == flat_index(idx, t.spec_shape()) {
        lemma_flat_index_injective(other, idx, t.spec_shape());
    }
}

} // verus!
