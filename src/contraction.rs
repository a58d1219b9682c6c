//! Generalized tensor contraction, and the outer product as its case with
//! one contracted axis of length one.

use vstd::prelude::*;
use crate::array::{
    fits_buffer, lemma_transposed_identity, permuted_axes, transposed, NdArray, ShapeError,
};
use crate::permutation::{
    all_below, distinct_in_range, has_duplicates, identity, is_permutation,
    lemma_contraction_orders, lemma_identity_is_permutation, lemma_rest_axes,
    lemma_rest_first_named, lemma_rest_none_named, lhs_order, lhs_permutation,
    permute, rest_axes, rhs_order, rhs_permutation,
};
use crate::shape::{
    buffer_fits, lemma_nonzero_size_concat, lemma_product_bounds, lemma_product_concat,
    nonzero_size, product, size_of,
};

verus! {

/// `x` reduced into the range of `i64`, as two's-complement arithmetic does.
pub open spec fn wrap64(x: int) -> int {
    let r = x % 0x1_0000_0000_0000_0000;
    if r > i64::MAX {
        r - 0x1_0000_0000_0000_0000
    } else {
        r
    }
}

/// `x` when it is positive, else one.
pub open spec fn at_least_one(x: int) -> int {
    if x <= 0 {
        1
    } else {
        x
    }
}

/// The sum of the first `t` products of row `i` of the `m × k` matrix `a`
/// with column `j` of the `k × n` matrix `b`.
pub open spec fn dot_sum(a: Seq<i64>, b: Seq<i64>, k: int, n: int, i: int, j: int, t: int) -> int
    decreases t,
{
    if t <= 0 {
        0
    } else {
        dot_sum(a, b, k, n, i, j, t - 1) + a[i * k + t - 1] * b[(t - 1) * n + j]
    }
}

/// The row-major `m × n` product of the row-major matrices `a` (`m × k`) and
/// `b` (`k × n`), each entry wrapped into `i64`.
pub open spec fn matmul(a: Seq<i64>, b: Seq<i64>, m: int, k: int, n: int) -> Seq<i64> {
    Seq::new((m * n) as nat, |f: int| wrap64(dot_sum(a, b, k, n, f / n, f % n, k)) as i64)
}

/// Relies on ndarray's `Array2::from_shape_vec` and `dot` over `std::num::Wrapping<i64>`:
/// the matrix product, each entry summed from zero with wrapping addition and multiplication.
#[verifier::external_body]
fn matmul_buffer(a: &Vec<i64>, b: &Vec<i64>, m: usize, k: usize, n: usize) -> (r: Vec<i64>)
    requires
        a@.len() == m * k,
        b@.len() == k * n,
        at_least_one(m as int) * at_least_one(k as int) <= isize::MAX,
        at_least_one(k as int) * at_least_one(n as int) <= isize::MAX,
        m * n * 8 <= isize::MAX,
    ensures
        r@ == matmul(a@, b@, m as int, k as int, n as int),
{
    let x = ndarray::Array2::from_shape_vec((m, k), a.iter().map(|&v| std::num::Wrapping(v)).collect()).unwrap();
    let y = ndarray::Array2::from_shape_vec((k, n), b.iter().map(|&v| std::num::Wrapping(v)).collect()).unwrap();
    x.dot(&y).iter().map(|v| v.0).collect()
}

/// The lengths of the axes of `shape` that `axes` does not name, in ascending axis order.
pub open spec fn free_shape(shape: Seq<usize>, axes: Seq<usize>) -> Seq<usize> {
    permute(shape, rest_axes(shape.len(), axes))
}

/// The shape of a contraction: the free lengths of the left operand, then those of the right.
pub open spec fn contract_shape(lhs: Seq<usize>, rhs: Seq<usize>, lhs_axes: Seq<usize>, rhs_axes: Seq<usize>) -> Seq<usize> {
    free_shape(lhs, lhs_axes) + free_shape(rhs, rhs_axes)
}

/// The elements of a contraction: each operand with its axes grouped, read as a
/// matrix of free by contracted elements, and the two matrices multiplied.
pub open spec fn contract_data(
    lhs: Seq<usize>,
    lhs_data: Seq<i64>,
    rhs: Seq<usize>,
    rhs_data: Seq<i64>,
    lhs_axes: Seq<usize>,
    rhs_axes: Seq<usize>,
) -> Seq<i64> {
    matmul(
        transposed(lhs, lhs_data, lhs_order(lhs.len(), lhs_axes)),
        transposed(rhs, rhs_data, rhs_order(rhs.len(), rhs_axes)),
        product(free_shape(lhs, lhs_axes)),
        product(permute(lhs, lhs_axes)),
        product(free_shape(rhs, rhs_axes)),
    )
}

/// The error of a contraction, if any, checked in this order: axis lists of
/// different lengths, a repeated axis, an axis beyond the rank, contracted
/// axes of different lengths, a result too large to address.
pub open spec fn contract_error(lhs: Seq<usize>, rhs: Seq<usize>, lhs_axes: Seq<usize>, rhs_axes: Seq<usize>) -> Option<ShapeError> {
    if lhs_axes.len() != rhs_axes.len() {
        Some(ShapeError::IncompatibleShape)
    } else if !lhs_axes.no_duplicates() || !rhs_axes.no_duplicates() {
        Some(ShapeError::DuplicateAxis)
    } else if !distinct_in_range(lhs_axes, lhs.len()) || !distinct_in_range(rhs_axes, rhs.len()) {
        Some(ShapeError::OutOfBounds)
    } else if permute(lhs, lhs_axes) != permute(rhs, rhs_axes) {
        Some(ShapeError::IncompatibleShape)
    } else if !buffer_fits(contract_shape(lhs, rhs, lhs_axes, rhs_axes)) {
        Some(ShapeError::Overflow)
    } else {
        None
    }
}

/// Whether axis `lhs_axes[k]` of `lhs` has the length of axis `rhs_axes[k]` of `rhs` for every `k`.
fn contracted_lengths_match(lhs: &NdArray, rhs: &NdArray, lhs_axes: &[usize], rhs_axes: &[usize]) -> (r: bool)
    requires
        lhs_axes@.len() == rhs_axes@.len(),
        distinct_in_range(lhs_axes@, lhs.shape@.len()),
        distinct_in_range(rhs_axes@, rhs.shape@.len()),
    ensures
        r == (permute(lhs.shape@, lhs_axes@) == permute(rhs.shape@, rhs_axes@)),
{
    let mut k: usize = 0;
    while k < lhs_axes.len()
        invariant
            k <= lhs_axes@.len() == rhs_axes@.len(),
            distinct_in_range(lhs_axes@, lhs.shape@.len()),
            distinct_in_range(rhs_axes@, rhs.shape@.len()),
            forall|i: int| 0 <= i < k ==> permute(lhs.shape@, lhs_axes@)[i] == permute(rhs.shape@, rhs_axes@)[i],
        decreases lhs_axes@.len() - k,
    {
        if lhs.shape[lhs_axes[k]] != rhs.shape[rhs_axes[k]] {
            assert(permute(lhs.shape@, lhs_axes@)[k as int] != permute(rhs.shape@, rhs_axes@)[k as int]);
            return false;
        }
        k = k + 1;
    }
    assert(permute(lhs.shape@, lhs_axes@) =~= permute(rhs.shape@, rhs_axes@));
    true
}

/// The elements `s[lo..hi]` as a new vector.
fn slice_to_vec(s: &Vec<usize>, lo: usize, hi: usize) -> (r: Vec<usize>)
    requires
        lo <= hi <= s@.len(),
    ensures
        r@ == s@.subrange(lo as int, hi as int),
{
    let mut r: Vec<usize> = Vec::new();
    let mut i: usize = lo;
    while i < hi
        invariant
            lo <= i <= hi <= s@.len(),
            r@ == s@.subrange(lo as int, i as int),
        decreases hi - i,
    {
        r.push(s[i]);
        assert(r@ =~= s@.subrange(lo as int, i + 1));
        i = i + 1;
    }
    r
}

#[verifier::rlimit(40)]
/// Contracts `lhs` with `rhs`, summing products over each pair of axes
/// `lhs_axes[k]`, `rhs_axes[k]`. The result's axes are the free axes of `lhs`
/// followed by the free axes of `rhs`, each in their original order.
pub fn tensordot(lhs: &NdArray, rhs: &NdArray, lhs_axes: &[usize], rhs_axes: &[usize]) -> (r: Result<NdArray, ShapeError>)
    requires
        lhs.wf(),
        rhs.wf(),
    ensures
        r is Err <==> contract_error(lhs.shape@, rhs.shape@, lhs_axes@, rhs_axes@) is Some,
        r matches Err(e) ==> contract_error(lhs.shape@, rhs.shape@, lhs_axes@, rhs_axes@) == Some(e),
        r matches Ok(a) ==> {
            &&& a.wf()
            &&& a.shape@ == contract_shape(lhs.shape@, rhs.shape@, lhs_axes@, rhs_axes@)
            &&& a.data@ == contract_data(lhs.shape@, lhs.data@, rhs.shape@, rhs.data@, lhs_axes@, rhs_axes@)
        },
{
    if lhs_axes.len() != rhs_axes.len() {
        return Err(ShapeError::IncompatibleShape);
    }
    if has_duplicates(lhs_axes) || has_duplicates(rhs_axes) {
        return Err(ShapeError::DuplicateAxis);
    }
    if !all_below(lhs_axes, lhs.ndim()) || !all_below(rhs_axes, rhs.ndim()) {
        return Err(ShapeError::OutOfBounds);
    }
    if !contracted_lengths_match(lhs, rhs, lhs_axes, rhs_axes) {
        return Err(ShapeError::IncompatibleShape);
    }
    let ghost ls = lhs.shape@;
    let ghost rs = rhs.shape@;
    let ghost la = lhs_axes@;
    let ghost ra = rhs_axes@;
    proof {
        lemma_contraction_orders(ls.len(), la);
        lemma_contraction_orders(rs.len(), ra);
    }
    let lhs_perm = lhs_permutation(lhs.ndim(), lhs_axes);
    let rhs_perm = rhs_permutation(rhs.ndim(), rhs_axes);
    let lt = permuted_axes(lhs, &lhs_perm);
    let rt = permuted_axes(rhs, &rhs_perm);
    let n_free_l = lhs.ndim() - lhs_axes.len();
    let n_axes = rhs_axes.len();
    let left = slice_to_vec(&lt.shape, 0, n_free_l);
    let dot_l = slice_to_vec(&lt.shape, n_free_l, lt.shape.len());
    let dot_r = slice_to_vec(&rt.shape, 0, n_axes);
    let right = slice_to_vec(&rt.shape, n_axes, rt.shape.len());
    proof {
        assert(left@ =~= free_shape(ls, la));
        assert(dot_l@ =~= permute(ls, la));
        assert(dot_r@ =~= permute(rs, ra));
        assert(right@ =~= free_shape(rs, ra));
        assert(lt.shape@ =~= left@ + dot_l@);
        assert(rt.shape@ =~= dot_r@ + right@);
    }
    let mut out_shape = left.clone();
    let mut j: usize = 0;
    while j < right.len()
        invariant
            j <= right@.len(),
            out_shape@ == left@ + right@.take(j as int),
        decreases right@.len() - j,
    {
        out_shape.push(right[j]);
        assert(out_shape@ =~= left@ + right@.take(j + 1));
        j = j + 1;
    }
    assert(right@.take(right@.len() as int) =~= right@);
    if !fits_buffer(&out_shape) {
        return Err(ShapeError::Overflow);
    }
    proof {
        lemma_nonzero_size_concat(left@, dot_l@);
        lemma_nonzero_size_concat(dot_r@, right@);
        lemma_nonzero_size_concat(left@, right@);
        lemma_product_concat(left@, dot_l@);
        lemma_product_concat(dot_r@, right@);
        lemma_product_concat(left@, right@);
        lemma_product_bounds(left@);
        lemma_product_bounds(dot_l@);
        lemma_product_bounds(right@);
    }
    let m = size_of(&left);
    let k = size_of(&dot_l);
    let n = size_of(&right);
    proof {
        let (nl, nk, nr) = (nonzero_size(left@), nonzero_size(dot_l@), nonzero_size(right@));
        assert(at_least_one(m as int) * at_least_one(k as int) <= nl * nk) by (nonlinear_arith)
            requires
                at_least_one(m as int) <= nl,
                at_least_one(k as int) <= nk,
                1 <= at_least_one(m as int),
                1 <= at_least_one(k as int),
        ;
        assert(at_least_one(k as int) * at_least_one(n as int) <= nk * nr) by (nonlinear_arith)
            requires
                at_least_one(k as int) <= nk,
                at_least_one(n as int) <= nr,
                1 <= at_least_one(k as int),
                1 <= at_least_one(n as int),
        ;
        assert(m * n <= nl * nr) by (nonlinear_arith)
            requires
                0 <= m <= nl,
                0 <= n <= nr,
        ;
    }
    let data = matmul_buffer(&lt.data, &rt.data, m, k, n);
    Ok(NdArray { shape: out_shape, data })
}

/// Every product `a[i] * b[j]`, wrapped into `i64`, at position `i * b.len() + j`.
pub open spec fn outer_data(a: Seq<i64>, b: Seq<i64>) -> Seq<i64> {
    Seq::new(a.len() * b.len(), |f: int| wrap64(a[f / b.len() as int] * b[f % b.len() as int]) as i64)
}

/// The outer product is the contraction of `lhs` with a trailing axis of
/// length one against `rhs` with a leading axis of length one.
proof fn lemma_outer_as_contraction(ls: Seq<usize>, a: Seq<i64>, rs: Seq<usize>, b: Seq<i64>)
    requires
        a.len() == product(ls),
        b.len() == product(rs),
        (ls.len() + 1) * 8 <= isize::MAX,
        (rs.len() + 1) * 8 <= isize::MAX,
    ensures
        contract_error(ls.push(1), seq![1usize] + rs, seq![ls.len() as usize], seq![0usize])
            == if buffer_fits(ls + rs) { None } else { Some(ShapeError::Overflow) },
        contract_shape(ls.push(1), seq![1usize] + rs, seq![ls.len() as usize], seq![0usize]) == ls + rs,
        contract_data(ls.push(1), a, seq![1usize] + rs, b, seq![ls.len() as usize], seq![0usize]) == outer_data(a, b),
{
    let nl = ls.len();
    let nr = rs.len();
    let l2 = ls.push(1);
    let r2 = seq![1usize] + rs;
    let la = seq![nl as usize];
    let ra = seq![0usize];
    assert(la[0] == nl as usize);
    assert(la.contains(nl as usize));
    assert(ra[0] == 0usize);
    assert(ra.contains(0usize));
    lemma_rest_none_named(nl, la);
    assert(rest_axes(nl + 1, la) == identity(nl));
    lemma_rest_first_named(nr + 1);
    assert(free_shape(l2, la) =~= ls);
    assert(free_shape(r2, ra) =~= rs);
    assert(permute(l2, la) =~= seq![1usize]);
    assert(permute(r2, ra) =~= seq![1usize]);
    assert(lhs_order(nl + 1, la) =~= identity(nl + 1));
    assert(rhs_order(nr + 1, ra) =~= identity(nr + 1));
    assert(l2.drop_last() =~= ls);
    lemma_product_concat(seq![1usize], rs);
    assert(seq![1usize].drop_last() =~= Seq::<usize>::empty());
    assert(product(l2) == product(ls) * 1);
    assert(product(Seq::<usize>::empty()) == 1);
    assert(product(seq![1usize]) == product(Seq::<usize>::empty()) * 1);
    let one = seq![1usize];
    assert(product(one + rs) == product(one) * product(rs));
    assert(product(one) == 1);
    assert(r2 =~= one + rs);
    let pr = product(rs);
    assert(1 * pr == pr) by (nonlinear_arith);
    assert(product(r2) == product(rs));
    lemma_transposed_identity(l2, a);
    lemma_transposed_identity(r2, b);
    let nb = b.len() as int;
    assert forall|f: int| 0 <= f < a.len() * b.len() implies #[trigger] matmul(a, b, a.len() as int, 1, nb)[f] == outer_data(a, b)[f] by {
        assert(dot_sum(a, b, 1, nb, f / nb, f % nb, 0) == 0);
        assert(dot_sum(a, b, 1, nb, f / nb, f % nb, 1) == dot_sum(a, b, 1, nb, f / nb, f % nb, 0) + a[(f / nb) * 1 + 1 - 1] * b[(1 - 1) * nb + f % nb]);
        assert(dot_sum(a, b, 1, nb, f / nb, f % nb, 1) == a[f / nb] * b[f % nb]);
    }
    assert(matmul(a, b, a.len() as int, 1, nb) =~= outer_data(a, b));
}

/// The shapes of an outer product's result, and of its operands with an axis of length one added, stay addressable.
pub open spec fn outer_fits(lhs: Seq<usize>, rhs: Seq<usize>) -> bool {
    &&& buffer_fits(lhs + rhs)
    &&& (lhs.len() + 1) * 8 <= isize::MAX
    &&& (rhs.len() + 1) * 8 <= isize::MAX
}

/// The outer product of `lhs` and `rhs`: an array of shape `lhs.shape ++ rhs.shape`
/// whose element at index `(i, j)` is `lhs[i] * rhs[j]`.
pub fn outer_product(lhs: &NdArray, rhs: &NdArray) -> (r: Result<NdArray, ShapeError>)
    requires
        lhs.wf(),
        rhs.wf(),
    ensures
        r is Err <==> !outer_fits(lhs.shape@, rhs.shape@),
        r matches Err(e) ==> e == ShapeError::Overflow,
        r matches Ok(a) ==> {
            &&& a.wf()
            &&& a.shape@ == lhs.shape@ + rhs.shape@
            &&& a.data@ == outer_data(lhs.data@, rhs.data@)
        },
{
    let limit: usize = (isize::MAX as usize) / 8;
    if lhs.shape.len() >= limit || rhs.shape.len() >= limit {
        return Err(ShapeError::Overflow);
    }
    let mut lhs_shape = lhs.shape.clone();
    lhs_shape.push(1);
    let mut rhs_shape: Vec<usize> = vec![1];
    let mut j: usize = 0;
    while j < rhs.shape.len()
        invariant
            j <= rhs.shape@.len(),
            rhs_shape@ == seq![1usize] + rhs.shape@.take(j as int),
        decreases rhs.shape@.len() - j,
    {
        rhs_shape.push(rhs.shape[j]);
        assert(rhs_shape@ =~= seq![1usize] + rhs.shape@.take(j + 1));
        j = j + 1;
    }
    assert(rhs.shape@.take(j as int) =~= rhs.shape@);
    let ghost ls = lhs.shape@;
    let ghost rs = rhs.shape@;
    proof {
        assert(lhs_shape@.drop_last() =~= ls);
        assert(crate::shape::nonzero(lhs_shape@).drop_last() =~= crate::shape::nonzero(ls));
        lemma_product_concat(seq![1usize], rs);
        lemma_nonzero_size_concat(seq![1usize], rs);
        assert(seq![1usize].drop_last() =~= Seq::<usize>::empty());
        assert(crate::shape::nonzero(seq![1usize]).drop_last() =~= Seq::<usize>::empty());
        lemma_outer_as_contraction(ls, lhs.data@, rs, rhs.data@);
        assert(product(lhs_shape@) == product(ls) * 1);
        assert(nonzero_size(lhs_shape@) == nonzero_size(ls) * 1);
        assert(product(seq![1usize]) == product(Seq::<usize>::empty()) * 1);
        assert(crate::shape::nonzero(Seq::<usize>::empty()) =~= Seq::<usize>::empty());
        assert(product(Seq::<usize>::empty()) == 1);
        assert(nonzero_size(seq![1usize]) == nonzero_size(Seq::<usize>::empty()) * 1);
        let pr = product(rs);
        assert(1 * pr == pr) by (nonlinear_arith);
        assert(product(rhs_shape@) == product(rs));
        let nzr = nonzero_size(rs);
        assert(1 * nzr == nzr) by (nonlinear_arith);
        assert(nonzero_size(rhs_shape@) == nonzero_size(rs));
        assert(buffer_fits(lhs_shape@));
        assert(buffer_fits(rhs_shape@));
    }
    let lhs1 = NdArray { shape: lhs_shape, data: lhs.data.clone() };
    let rhs1 = NdArray { shape: rhs_shape, data: rhs.data.clone() };
    let lhs_axes: Vec<usize> = vec![lhs1.ndim() - 1];
    let rhs_axes: Vec<usize> = vec![0];
    assert(lhs_axes@ =~= seq![ls.len() as usize]);
    assert(rhs_axes@ =~= seq![0usize]);
    tensordot(&lhs1, &rhs1, lhs_axes.as_slice(), rhs_axes.as_slice())
}

/// The sum of the first `t` elementwise products of `a` and `b`.
pub open spec fn inner_sum(a: Seq<i64>, b: Seq<i64>, t: int) -> int
    decreases t,
{
    if t <= 0 {
        0
    } else {
        inner_sum(a, b, t - 1) + a[t - 1] * b[t - 1]
    }
}

/// Contracting every axis of both operands, with the contracted axis lengths
/// matching pair by pair, gives a scalar: the sum of the products of the
/// elements that the axis lists pair up, wrapped into `i64`.
pub proof fn lemma_full_contraction(
    lhs: Seq<usize>,
    lhs_data: Seq<i64>,
    rhs: Seq<usize>,
    rhs_data: Seq<i64>,
    lhs_axes: Seq<usize>,
    rhs_axes: Seq<usize>,
)
    requires
        lhs.len() <= usize::MAX,
        rhs.len() <= usize::MAX,
        lhs_data.len() == product(lhs),
        rhs_data.len() == product(rhs),
        is_permutation(lhs_axes, lhs.len()),
        is_permutation(rhs_axes, rhs.len()),
        permute(lhs, lhs_axes) == permute(rhs, rhs_axes),
    ensures
        contract_error(lhs, rhs, lhs_axes, rhs_axes) is None,
        contract_shape(lhs, rhs, lhs_axes, rhs_axes) == Seq::<usize>::empty(),
        contract_data(lhs, lhs_data, rhs, rhs_data, lhs_axes, rhs_axes) == seq![
            wrap64(
                inner_sum(
                    transposed(lhs, lhs_data, lhs_axes),
                    transposed(rhs, rhs_data, rhs_axes),
                    lhs_data.len() as int,
                ),
            ) as i64,
        ],
{
    lemma_rest_axes(lhs.len(), lhs_axes);
    lemma_rest_axes(rhs.len(), rhs_axes);
    assert(rest_axes(lhs.len(), lhs_axes) =~= Seq::<usize>::empty());
    assert(rest_axes(rhs.len(), rhs_axes) =~= Seq::<usize>::empty());
    assert(free_shape(lhs, lhs_axes) =~= Seq::<usize>::empty());
    assert(free_shape(rhs, rhs_axes) =~= Seq::<usize>::empty());
    assert(contract_shape(lhs, rhs, lhs_axes, rhs_axes) =~= Seq::<usize>::empty());
    assert(lhs_order(lhs.len(), lhs_axes) =~= lhs_axes);
    assert(rhs_order(rhs.len(), rhs_axes) =~= rhs_axes);
    assert(crate::shape::nonzero(Seq::<usize>::empty()) =~= Seq::<usize>::empty());
    crate::shape::lemma_product_permute(lhs, lhs_axes);
    let ta = transposed(lhs, lhs_data, lhs_axes);
    let tb = transposed(rhs, rhs_data, rhs_axes);
    let k = lhs_data.len() as int;
    lemma_dot_sum_row_zero(ta, tb, k, k);
    assert(matmul(ta, tb, 1, k, 1) =~= seq![wrap64(inner_sum(ta, tb, k)) as i64]);
}

/// Contracting every axis of two arrays of the same shape, each axis with
/// itself in order, gives the sum of all elementwise products, wrapped into `i64`.
pub proof fn lemma_full_contraction_in_order(shape: Seq<usize>, a: Seq<i64>, b: Seq<i64>)
    requires
        shape.len() <= usize::MAX,
        a.len() == product(shape),
        b.len() == product(shape),
    ensures
        contract_error(shape, shape, identity(shape.len()), identity(shape.len())) is None,
        contract_shape(shape, shape, identity(shape.len()), identity(shape.len())) == Seq::<usize>::empty(),
        contract_data(shape, a, shape, b, identity(shape.len()), identity(shape.len()))
            == seq![wrap64(inner_sum(a, b, a.len() as int)) as i64],
{
    lemma_identity_is_permutation(shape.len());
    lemma_transposed_identity(shape, a);
    lemma_transposed_identity(shape, b);
    lemma_full_contraction(shape, a, shape, b, identity(shape.len()), identity(shape.len()));
}

proof fn lemma_dot_sum_row_zero(a: Seq<i64>, b: Seq<i64>, k: int, t: int)
    requires
        0 <= t,
    ensures
        dot_sum(a, b, k, 1, 0, 0, t) == inner_sum(a, b, t),
    decreases t,
{
    if t > 0 {
        lemma_dot_sum_row_zero(a, b, k, t - 1);
    }
}

/// The sum of the elements of `s`.
pub open spec fn seq_sum(s: Seq<i64>) -> int
    decreases s.len(),
{
    if s.len() == 0 {
        0
    } else {
        seq_sum(s.drop_last()) + s.last()
    }
}

/// Row `i` of the row-major matrix `data` with `width` columns.
pub open spec fn row(data: Seq<i64>, i: int, width: int) -> Seq<i64> {
    data.subrange(i * width, i * width + width)
}

/// Wrapping lands in the range of `i64` and keeps the residue modulo 2^64.
pub proof fn lemma_wrap64(y: int)
    ensures
        i64::MIN <= wrap64(y) <= i64::MAX,
        wrap64(y) % 0x1_0000_0000_0000_0000 == y % 0x1_0000_0000_0000_0000,
{
    let m: int = 0x1_0000_0000_0000_0000;
    let r = y % m;
    if r > i64::MAX {
        vstd::arithmetic::div_mod::lemma_fundamental_div_mod_converse_mod(r - m, m, -1, r);
    } else {
        vstd::arithmetic::div_mod::lemma_small_mod(r as nat, m as nat);
    }
}

proof fn lemma_outer_row_prefix(a: Seq<i64>, b: Seq<i64>, i: int, t: int)
    requires
        0 <= i < a.len(),
        0 <= t <= b.len(),
    ensures
        seq_sum(row(outer_data(a, b), i, b.len() as int).take(t)) % 0x1_0000_0000_0000_0000
            == (a[i] * seq_sum(b.take(t))) % 0x1_0000_0000_0000_0000,
    decreases t,
{
    let m: int = 0x1_0000_0000_0000_0000;
    let nb = b.len() as int;
    let r = row(outer_data(a, b), i, nb);
    if t == 0 {
        assert(r.take(0) =~= Seq::<i64>::empty());
        assert(b.take(0) =~= Seq::<i64>::empty());
        assert(a[i] * 0 == 0);
    } else {
        lemma_outer_row_prefix(a, b, i, t - 1);
        let j = t - 1;
        assert((i + 1) * nb <= a.len() * nb) by (nonlinear_arith)
            requires
                i + 1 <= a.len(),
                0 <= nb,
        ;
        assert(i * nb + nb == (i + 1) * nb) by (nonlinear_arith);
        assert(0 <= i * nb) by (nonlinear_arith)
            requires
                0 <= i,
                0 <= nb,
        ;
        let f = i * nb + j;
        vstd::arithmetic::div_mod::lemma_fundamental_div_mod_converse_mod(f, nb, i, j);
        vstd::arithmetic::div_mod::lemma_fundamental_div_mod_converse_div(f, nb, i, j);
        let p = a[i] * b[j];
        lemma_wrap64(p);
        assert(r[j] == outer_data(a, b)[f]);
        assert(r[j] as int == wrap64(p));
        assert(r.take(t).drop_last() =~= r.take(t - 1));
        assert(b.take(t).drop_last() =~= b.take(t - 1));
        let x = seq_sum(r.take(t - 1));
        let y = a[i] * seq_sum(b.take(t - 1));
        assert(seq_sum(r.take(t)) == x + wrap64(p));
        assert(a[i] * seq_sum(b.take(t)) == y + p) by (nonlinear_arith)
            requires
                seq_sum(b.take(t)) == seq_sum(b.take(t - 1)) + b[j],
                y == a[i] * seq_sum(b.take(t - 1)),
                p == a[i] * b[j],
        ;
        vstd::arithmetic::div_mod::lemma_add_mod_noop(x, wrap64(p), m);
        vstd::arithmetic::div_mod::lemma_add_mod_noop(y, p, m);
    }
}

/// Summing the outer product of `a` and `b` over the axes of `b` gives `a`
/// scaled by the sum of `b`, in wrapping `i64` arithmetic.
pub proof fn lemma_outer_product_sums(a: Seq<i64>, b: Seq<i64>)
    ensures
        forall|i: int| 0 <= i < a.len() ==> wrap64(seq_sum(#[trigger] row(outer_data(a, b), i, b.len() as int)))
            == wrap64(a[i] * seq_sum(b)),
{
    let nb = b.len() as int;
    assert forall|i: int| 0 <= i < a.len() implies wrap64(seq_sum(#[trigger] row(outer_data(a, b), i, nb)))
        == wrap64(a[i] * seq_sum(b)) by {
        lemma_outer_row_prefix(a, b, i, nb);
        assert((i + 1) * nb <= a.len() * nb) by (nonlinear_arith)
            requires
                i + 1 <= a.len(),
                0 <= nb,
        ;
        assert(i * nb + nb == (i + 1) * nb) by (nonlinear_arith);
        assert(0 <= i * nb) by (nonlinear_arith)
            requires
                0 <= i,
                0 <= nb,
        ;
        assert(row(outer_data(a, b), i, nb).take(nb) =~= row(outer_data(a, b), i, nb));
        assert(b.take(nb) =~= b);
    }
}

} // verus!
