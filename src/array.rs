//! Dense row-major arrays of `i64` and the reordering of their axes.
//!
//! Reordering axes always produces a new contiguous buffer in row-major
//! order, so every array can be reshaped by reinterpreting its buffer.

use vstd::prelude::*;
use crate::permutation::{
    identity, lemma_identity_is_permutation, lemma_move_round_trip, lemma_rest_none_named,
    is_permutation, lemma_move_permutation, moveaxis_permutation, move_permutation, permute,
    valid_move,
};
use crate::shape::{
    buffer_fits, lemma_nonzero_size_permute, lemma_product_permute, nonzero_size, product,
    size_of,
};

verus! {

/// Why a shape or an axis list was refused.
#[derive(Debug, Clone, Copy, PartialEq, Eq, Structural)]
pub enum ShapeError {
    /// The element count does not match the shape, or contracted axes differ in length.
    IncompatibleShape,
    /// An axis index is not below the array's rank.
    OutOfBounds,
    /// An axis list names the same axis twice.
    DuplicateAxis,
    /// The result would not fit in an addressable buffer.
    Overflow,
}

/// A dense array: its axis lengths and its elements in row-major order.
pub struct NdArray {
    pub shape: Vec<usize>,
    pub data: Vec<i64>,
}

impl NdArray {
    /// The buffer holds one element per index of the shape, and stays addressable.
    pub open spec fn wf(&self) -> bool {
        &&& self.data@.len() == product(self.shape@)
        &&& buffer_fits(self.shape@)
    }

    /// The array of the given shape whose elements, in row-major order, are `data`.
    pub fn from_shape_vec(shape: Vec<usize>, data: Vec<i64>) -> (r: Result<NdArray, ShapeError>)
        ensures
            r is Ok <==> data@.len() == product(shape@) && buffer_fits(shape@),
            r matches Ok(a) ==> a.wf() && a.shape@ == shape@ && a.data@ == data@,
            r matches Err(e) ==> e == if buffer_fits(shape@) {
                ShapeError::IncompatibleShape
            } else {
                ShapeError::Overflow
            },
    {
        if !fits_buffer(&shape) {
            return Err(ShapeError::Overflow);
        }
        if size_of(&shape) != data.len() {
            return Err(ShapeError::IncompatibleShape);
        }
        Ok(NdArray { shape, data })
    }

    /// The number of axes.
    pub fn ndim(&self) -> (r: usize)
        ensures
            r == self.shape@.len(),
    {
        self.shape.len()
    }

    /// The axis lengths.
    pub fn shape(&self) -> (r: &[usize])
        ensures
            r@ == self.shape@,
    {
        self.shape.as_slice()
    }

    /// The elements in row-major order.
    pub fn data(&self) -> (r: &[i64])
        ensures
            r@ == self.data@,
    {
        self.data.as_slice()
    }
}

/// Whether a buffer over `shape` stays addressable.
pub fn fits_buffer(shape: &[usize]) -> (r: bool)
    ensures
        r == buffer_fits(shape@),
{
    let limit: usize = (isize::MAX as usize) / 8;
    if shape.len() > limit {
        return false;
    }
    let mut acc: usize = 1;
    let mut i: usize = 0;
    while i < shape.len()
        invariant
            i <= shape@.len(),
            limit == isize::MAX / 8,
            1 <= acc <= limit,
            acc == nonzero_size(shape@.take(i as int)),
        decreases shape@.len() - i,
    {
        proof {
            assert(crate::shape::nonzero(shape@.take(i + 1)).drop_last() =~= crate::shape::nonzero(shape@.take(i as int)));
        }
        let x: usize = if shape[i] == 0 { 1 } else { shape[i] };
        if acc > limit / x {
            proof {
                assert(acc * x > limit) by (nonlinear_arith)
                    requires
                        acc > limit / x,
                        x >= 1,
                ;
                lemma_prefix_grows(shape@, i as int + 1);
            }
            return false;
        }
        proof {
            assert(acc * x <= limit) by (nonlinear_arith)
                requires
                    acc <= limit / x,
                    x >= 1,
            ;
            assert(1 <= acc * x) by (nonlinear_arith)
                requires
                    acc >= 1,
                    x >= 1,
            ;
        }
        acc = acc * x;
        i = i + 1;
    }
    assert(shape@.take(i as int) =~= shape@);
    true
}

proof fn lemma_prefix_grows(s: Seq<usize>, i: int)
    requires
        0 <= i <= s.len(),
    ensures
        nonzero_size(s.take(i)) <= nonzero_size(s),
{
    assert(s.take(i) + s.skip(i) =~= s);
    crate::shape::lemma_nonzero_size_concat(s.take(i), s.skip(i));
}

/// The position in a row-major buffer of the element at index `idx` of an array of shape `shape`.
pub open spec fn flat_index(shape: Seq<usize>, idx: Seq<int>) -> int
    decreases shape.len(),
{
    if shape.len() == 0 {
        0
    } else {
        flat_index(shape.drop_last(), idx.drop_last()) * shape.last() + idx.last()
    }
}

/// The index of the element at position `f` of a row-major buffer over `shape`.
pub open spec fn multi_index(shape: Seq<usize>, f: int) -> Seq<int>
    decreases shape.len(),
{
    if shape.len() == 0 {
        Seq::empty()
    } else {
        multi_index(shape.drop_last(), f / shape.last() as int).push(f % shape.last() as int)
    }
}

/// The index into the original array of the element found at `idx` after
/// its axes were reordered by `axes`: component `axes[k]` is `idx[k]`.
pub open spec fn source_index(idx: Seq<int>, axes: Seq<usize>) -> Seq<int> {
    Seq::new(axes.len(), |m: int| idx[axes.index_of(m as usize)])
}

/// The row-major elements of the array of shape `shape` and elements `data`
/// once its axes are reordered so that new axis `k` is old axis `axes[k]`.
pub open spec fn transposed(shape: Seq<usize>, data: Seq<i64>, axes: Seq<usize>) -> Seq<i64> {
    Seq::new(
        data.len(),
        |f: int| data[flat_index(shape, source_index(multi_index(permute(shape, axes), f), axes))],
    )
}

/// Relies on ndarray's `ArrayD::from_shape_vec`, `permuted_axes` and `iter`: the buffer
/// is viewed with the given shape, its axes reordered, and its elements read in logical order.
#[verifier::external_body]
fn transpose_buffer(shape: &Vec<usize>, data: &Vec<i64>, axes: &Vec<usize>) -> (r: Vec<i64>)
    requires
        data@.len() == product(shape@),
        buffer_fits(shape@),
        is_permutation(axes@, shape@.len()),
    ensures
        r@ == transposed(shape@, data@, axes@),
{
    let a = ndarray::ArrayD::from_shape_vec(ndarray::IxDyn(shape), data.clone()).unwrap();
    a.permuted_axes(ndarray::IxDyn(axes)).iter().cloned().collect()
}

/// `a` with its axes reordered so that new axis `k` is old axis `axes[k]`.
pub fn permuted_axes(a: &NdArray, axes: &Vec<usize>) -> (r: NdArray)
    requires
        a.wf(),
        is_permutation(axes@, a.shape@.len()),
    ensures
        r.wf(),
        r.shape@ == permute(a.shape@, axes@),
        r.data@ == transposed(a.shape@, a.data@, axes@),
{
    let data = transpose_buffer(&a.shape, &a.data, axes);
    let mut shape: Vec<usize> = Vec::new();
    let mut k: usize = 0;
    while k < axes.len()
        invariant
            k <= axes@.len(),
            is_permutation(axes@, a.shape@.len()),
            shape@ == permute(a.shape@, axes@).take(k as int),
        decreases axes@.len() - k,
    {
        shape.push(a.shape[axes[k]]);
        assert(shape@ =~= permute(a.shape@, axes@).take(k + 1));
        k = k + 1;
    }
    proof {
        assert(shape@ =~= permute(a.shape@, axes@));
        lemma_product_permute(a.shape@, axes@);
        lemma_nonzero_size_permute(a.shape@, axes@);
    }
    NdArray { shape, data }
}

/// Moves axis `source[k]` of `a` to position `destination[k]` for every `k`;
/// the other axes fill the remaining positions in their original order.
pub fn moveaxis_dyn(a: NdArray, source: &[usize], destination: &[usize]) -> (r: NdArray)
    requires
        a.wf(),
        valid_move(a.shape@.len(), source@, destination@),
    ensures
        r.wf(),
        r.shape@ == permute(a.shape@, move_permutation(a.shape@.len(), source@, destination@)),
        r.data@ == transposed(a.shape@, a.data@, move_permutation(a.shape@.len(), source@, destination@)),
{
    let axes = moveaxis_permutation(a.shape.len(), source, destination);
    permuted_axes(&a, &axes)
}

/// An array whose rank `NDIM` is fixed by its type.
pub struct FixedArray<const NDIM: usize> {
    pub array: NdArray,
}

impl<const NDIM: usize> FixedArray<NDIM> {
    /// The array is well formed and has `NDIM` axes.
    pub open spec fn wf(&self) -> bool {
        self.array.wf() && self.array.shape@.len() == NDIM
    }

    /// `a` as an array of rank `NDIM`, if it has that rank.
    pub fn from_array(a: NdArray) -> (r: Option<FixedArray<NDIM>>)
        requires
            a.wf(),
        ensures
            r is Some <==> a.shape@.len() == NDIM,
            r matches Some(f) ==> f.wf() && f.array == a,
    {
        if a.shape.len() == NDIM {
            Some(FixedArray { array: a })
        } else {
            None
        }
    }

    /// The array of rank `NDIM` underneath.
    pub fn into_array(self) -> (r: NdArray)
        ensures
            r == self.array,
    {
        self.array
    }
}

/// [`moveaxis_dyn`] on an array whose rank is fixed by its type; the rank is kept.
pub fn moveaxis_static<const NDIM: usize>(a: FixedArray<NDIM>, source: &[usize], destination: &[usize]) -> (r: FixedArray<NDIM>)
    requires
        a.wf(),
        valid_move(NDIM as nat, source@, destination@),
    ensures
        r.wf(),
        r.array.shape@ == permute(a.array.shape@, move_permutation(NDIM as nat, source@, destination@)),
        r.array.data@ == transposed(a.array.shape@, a.array.data@, move_permutation(NDIM as nat, source@, destination@)),
{
    FixedArray { array: moveaxis_dyn(a.array, source, destination) }
}

/// Reading a position of a buffer as an index and back gives the position again.
pub proof fn lemma_flat_multi(shape: Seq<usize>, f: int)
    requires
        0 <= f < product(shape),
    ensures
        flat_index(shape, multi_index(shape, f)) == f,
    decreases shape.len(),
{
    if shape.len() > 0 {
        let d = shape.drop_last();
        let l = shape.last() as int;
        crate::shape::lemma_product_bounds(d);
        let pd = product(d);
        assert(l > 0 && f / l < pd) by (nonlinear_arith)
            requires
                0 <= f < pd * l,
                0 <= pd,
                0 <= l,
        ;
        vstd::arithmetic::div_mod::lemma_fundamental_div_mod(f, l);
        let mi = multi_index(shape, f);
        assert(mi.drop_last() =~= multi_index(d, f / l));
        assert(mi.last() == f % l);
        lemma_flat_multi(d, f / l);
        assert(flat_index(shape, mi) == flat_index(d, mi.drop_last()) * l + mi.last());
        assert((f / l) * l == l * (f / l)) by (nonlinear_arith);
    }
}

/// `idx` has one component per axis of `shape`, each below that axis's length.
pub open spec fn valid_index(shape: Seq<usize>, idx: Seq<int>) -> bool {
    &&& idx.len() == shape.len()
    &&& forall|i: int| 0 <= i < idx.len() ==> 0 <= #[trigger] idx[i] < shape[i]
}

/// A valid index lands inside the buffer.
pub proof fn lemma_flat_bounds(shape: Seq<usize>, idx: Seq<int>)
    requires
        valid_index(shape, idx),
    ensures
        0 <= flat_index(shape, idx) < product(shape),
    decreases shape.len(),
{
    if shape.len() > 0 {
        let d = shape.drop_last();
        let di = idx.drop_last();
        assert(valid_index(d, di));
        lemma_flat_bounds(d, di);
        let f = flat_index(d, di);
        let pd = product(d);
        let l = shape.last() as int;
        let x = idx.last();
        assert(0 <= f * l + x < pd * l) by (nonlinear_arith)
            requires
                0 <= f < pd,
                0 <= x < l,
        ;
    }
}

/// A valid index read as a position and back gives the index again.
pub proof fn lemma_multi_flat(shape: Seq<usize>, idx: Seq<int>)
    requires
        valid_index(shape, idx),
    ensures
        multi_index(shape, flat_index(shape, idx)) == idx,
    decreases shape.len(),
{
    if shape.len() > 0 {
        let d = shape.drop_last();
        let di = idx.drop_last();
        assert(valid_index(d, di));
        lemma_flat_bounds(d, di);
        lemma_multi_flat(d, di);
        let ff = flat_index(d, di);
        let l = shape.last() as int;
        let x = idx.last();
        let f = flat_index(shape, idx);
        assert(f == ff * l + x);
        vstd::arithmetic::div_mod::lemma_fundamental_div_mod_converse_div(f, l, ff, x);
        vstd::arithmetic::div_mod::lemma_fundamental_div_mod_converse_mod(f, l, ff, x);
        assert(multi_index(shape, f) =~= idx);
    }
}

/// Every position of the buffer reads as a valid index.
pub proof fn lemma_multi_valid(shape: Seq<usize>, f: int)
    requires
        0 <= f < product(shape),
    ensures
        valid_index(shape, multi_index(shape, f)),
    decreases shape.len(),
{
    lemma_multi_index_len(shape, f);
    if shape.len() > 0 {
        let d = shape.drop_last();
        let l = shape.last() as int;
        crate::shape::lemma_product_bounds(d);
        let pd = product(d);
        assert(l > 0 && f / l < pd) by (nonlinear_arith)
            requires
                0 <= f < pd * l,
                0 <= pd,
                0 <= l,
        ;
        vstd::arithmetic::div_mod::lemma_div_pos_is_pos(f, l);
        lemma_multi_valid(d, f / l);
        let mi = multi_index(shape, f);
        assert(mi.drop_last() == multi_index(d, f / l));
        assert forall|i: int| 0 <= i < mi.len() implies 0 <= #[trigger] mi[i] < shape[i] by {
            if i < mi.len() - 1 {
                assert(mi[i] == mi.drop_last()[i]);
            }
        }
    }
}

/// Reordering by `p1` and then by `p2` restores the elements when each undoes the other.
pub proof fn lemma_transposed_round_trip(shape: Seq<usize>, data: Seq<i64>, p1: Seq<usize>, p2: Seq<usize>)
    requires
        data.len() == product(shape),
        is_permutation(p1, shape.len()),
        is_permutation(p2, shape.len()),
        forall|q: int| 0 <= q < shape.len() ==> p1[#[trigger] p2[q] as int] == q,
        forall|q: int| 0 <= q < shape.len() ==> p2[#[trigger] p1[q] as int] == q,
    ensures
        permute(permute(shape, p1), p2) == shape,
        transposed(permute(shape, p1), transposed(shape, data, p1), p2) == data,
{
    let n = shape.len();
    let s1 = permute(shape, p1);
    let d1 = transposed(shape, data, p1);
    assert forall|q: int| 0 <= q < n implies #[trigger] permute(s1, p2)[q] == shape[q] by {
        assert(p1[p2[q] as int] == q);
    }
    assert(permute(s1, p2) =~= shape);
    lemma_product_permute(shape, p1);
    assert forall|m: int| 0 <= m < n implies #[trigger] p2.index_of(m as usize) == p1[m] as int by {
        assert(p2[p1[m] as int] == m);
        assert(p2.contains(m as usize));
    }
    assert forall|q: int| 0 <= q < n implies #[trigger] p1.index_of(q as usize) == p2[q] as int by {
        assert(p1[p2[q] as int] == q);
        assert(p1.contains(q as usize));
    }
    assert forall|f: int| 0 <= f < data.len() implies #[trigger] transposed(s1, d1, p2)[f] == data[f] by {
        let j2 = multi_index(shape, f);
        lemma_multi_valid(shape, f);
        let i1 = source_index(j2, p2);
        assert forall|m: int| 0 <= m < n implies i1[m] == j2[p1[m] as int] by {
            assert(p2.index_of(m as usize) == p1[m] as int);
        }
        assert(valid_index(s1, i1));
        let g = flat_index(s1, i1);
        lemma_flat_bounds(s1, i1);
        lemma_multi_flat(s1, i1);
        assert forall|q: int| 0 <= q < n implies #[trigger] source_index(i1, p1)[q] == j2[q] by {
            assert(p1.index_of(q as usize) == p2[q] as int);
            assert(p1[p2[q] as int] == q);
        }
        assert(source_index(i1, p1) =~= j2);
        lemma_flat_multi(shape, f);
    }
    assert(transposed(s1, d1, p2) =~= data);
}

/// Reordering by the identity changes neither the shape nor the elements.
pub proof fn lemma_transposed_identity(shape: Seq<usize>, data: Seq<i64>)
    requires
        data.len() == product(shape),
        shape.len() <= usize::MAX,
    ensures
        permute(shape, identity(shape.len())) == shape,
        transposed(shape, data, identity(shape.len())) == data,
{
    let id = identity(shape.len());
    lemma_identity_is_permutation(shape.len());
    assert(permute(shape, id) =~= shape);
    assert forall|f: int| 0 <= f < data.len() implies transposed(shape, data, id)[f] == data[f] by {
        let mi = multi_index(shape, f);
        lemma_multi_index_len(shape, f);
        assert forall|m: int| 0 <= m < shape.len() implies #[trigger] source_index(mi, id)[m] == mi[m] by {
            assert(id.index_of(m as usize) == m);
        }
        assert(source_index(mi, id) =~= mi);
        lemma_flat_multi(shape, f);
    }
    assert(transposed(shape, data, id) =~= data);
}

/// An index has one component per axis.
pub proof fn lemma_multi_index_len(shape: Seq<usize>, f: int)
    ensures
        multi_index(shape, f).len() == shape.len(),
    decreases shape.len(),
{
    if shape.len() > 0 {
        lemma_multi_index_len(shape.drop_last(), f / shape.last() as int);
    }
}

/// Moving no axes returns the array unchanged.
pub proof fn lemma_moveaxis_nothing(a: NdArray)
    requires
        a.wf(),
    ensures
        permute(a.shape@, move_permutation(a.shape@.len(), seq![], seq![])) == a.shape@,
        transposed(a.shape@, a.data@, move_permutation(a.shape@.len(), seq![], seq![])) == a.data@,
{
    let n = a.shape@.len();
    let e = Seq::<usize>::empty();
    assert(n <= usize::MAX);
    lemma_rest_none_named(n, e);
    assert forall|pos: int| 0 <= pos < n implies #[trigger] move_permutation(n, e, e)[pos] == identity(n)[pos] by {
        lemma_rest_none_named(pos as nat, e);
    }
    assert(move_permutation(n, e, e) =~= identity(n));
    assert(seq![] =~= e);
    lemma_transposed_identity(a.shape@, a.data@);
}

/// A move keeps the element count and the multiset of axis lengths, and moving the
/// axes back from `destination` to `source` restores the original shape and elements.
pub proof fn lemma_moveaxis_round_trip(a: NdArray, source: Seq<usize>, destination: Seq<usize>)
    requires
        a.wf(),
        valid_move(a.shape@.len(), source, destination),
    ensures
        product(permute(a.shape@, move_permutation(a.shape@.len(), source, destination))) == product(a.shape@),
        permute(a.shape@, move_permutation(a.shape@.len(), source, destination)).to_multiset() == a.shape@.to_multiset(),
        permute(
            permute(a.shape@, move_permutation(a.shape@.len(), source, destination)),
            move_permutation(a.shape@.len(), destination, source),
        ) == a.shape@,
        transposed(
            permute(a.shape@, move_permutation(a.shape@.len(), source, destination)),
            transposed(a.shape@, a.data@, move_permutation(a.shape@.len(), source, destination)),
            move_permutation(a.shape@.len(), destination, source),
        ) == a.data@,
{
    let n = a.shape@.len();
    lemma_move_permutation(n, source, destination);
    lemma_move_permutation(n, destination, source);
    lemma_move_round_trip(n, source, destination);
    lemma_move_round_trip(n, destination, source);
    lemma_transposed_round_trip(
        a.shape@,
        a.data@,
        move_permutation(n, source, destination),
        move_permutation(n, destination, source),
    );
    lemma_product_permute(a.shape@, move_permutation(n, source, destination));
    crate::shape::lemma_permute_multiset(a.shape@, move_permutation(n, source, destination));
    let p1 = move_permutation(n, source, destination);
    let p2 = move_permutation(n, destination, source);
    assert forall|q: int| 0 <= q < n implies #[trigger] permute(permute(a.shape@, p1), p2)[q] == a.shape@[q] by {
        assert(p1[p2[q] as int] == q);
    }
    assert(permute(permute(a.shape@, p1), p2) =~= a.shape@);
}

} // verus!
