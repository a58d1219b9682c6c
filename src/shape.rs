//! Shapes: element counts and the bounds that keep a buffer addressable.

use vstd::prelude::*;
use crate::permutation::{is_permutation, permute};

verus! {

/// The number of elements of an array of shape `s`.
pub open spec fn product(s: Seq<usize>) -> int
    decreases s.len(),
{
    if s.len() == 0 {
        1
    } else {
        product(s.drop_last()) * s.last()
    }
}

/// `s` with every zero-length axis counted as length one.
pub open spec fn nonzero(s: Seq<usize>) -> Seq<usize> {
    s.map_values(|x: usize| if x == 0 { 1usize } else { x })
}

/// The element count that the shape would have without its empty axes.
pub open spec fn nonzero_size(s: Seq<usize>) -> int {
    product(nonzero(s))
}

/// The list of axis lengths, and a buffer of 8-byte elements laid out over
/// shape `s`, each stay within `isize::MAX` bytes, whatever lengths its empty axes are given.
pub open spec fn buffer_fits(s: Seq<usize>) -> bool {
    &&& s.len() * 8 <= isize::MAX
    &&& nonzero_size(s) * 8 <= isize::MAX
}

/// The element count of a concatenation is the product of the counts.
pub proof fn lemma_product_concat(a: Seq<usize>, b: Seq<usize>)
    ensures
        product(a + b) == product(a) * product(b),
    decreases b.len(),
{
    if b.len() == 0 {
        assert(a + b =~= a);
    } else {
        lemma_product_concat(a, b.drop_last());
        assert((a + b).drop_last() =~= a + b.drop_last());
        assert(product(a) * product(b.drop_last()) * b.last() == product(a) * (product(b.drop_last()) * b.last())) by (nonlinear_arith);
    }
}

/// Removing axis `m` divides the element count by its length.
pub proof fn lemma_product_remove(s: Seq<usize>, m: int)
    requires
        0 <= m < s.len(),
    ensures
        product(s) == product(s.remove(m)) * s[m],
    decreases s.len(),
{
    if m == s.len() - 1 {
        assert(s.remove(m) =~= s.drop_last());
    } else {
        let d = s.drop_last();
        lemma_product_remove(d, m);
        assert(s.remove(m) =~= d.remove(m).push(s.last()));
        assert(s.remove(m).drop_last() =~= d.remove(m));
        assert(product(d.remove(m)) * s[m] * s.last() == product(d.remove(m)) * s.last() * s[m]) by (nonlinear_arith);
    }
}

/// Reordering the axes keeps the element count.
pub proof fn lemma_product_permute(s: Seq<usize>, p: Seq<usize>)
    requires
        is_permutation(p, s.len()),
    ensures
        product(permute(s, p)) == product(s),
    decreases s.len(),
{
    if s.len() > 0 {
        let m = p.last() as int;
        let q = p.drop_last();
        let shift = Seq::new(q.len(), |i: int| if q[i] < m { q[i] } else { (q[i] - 1) as usize });
        let t = s.remove(m);
        assert forall|i: int| 0 <= i < q.len() implies q[i] != m by {
            assert(p[i] != p[p.len() - 1]);
        }
        assert forall|i: int, j: int| 0 <= i < j < shift.len() implies shift[i] != shift[j] by {
            assert(p[i] != p[j]);
        }
        assert(is_permutation(shift, t.len()));
        lemma_product_permute(t, shift);
        assert(permute(t, shift) =~= permute(s, p).drop_last());
        lemma_product_remove(s, m);
    }
}

/// Reordering the axes keeps the multiset of axis lengths.
pub proof fn lemma_permute_multiset(s: Seq<usize>, p: Seq<usize>)
    requires
        is_permutation(p, s.len()),
    ensures
        permute(s, p).to_multiset() == s.to_multiset(),
    decreases s.len(),
{
    broadcast use vstd::seq_lib::group_to_multiset_ensures;
    if s.len() == 0 {
        assert(permute(s, p) =~= s);
    } else {
        let m = p.last() as int;
        let q = p.drop_last();
        let shift = Seq::new(q.len(), |i: int| if q[i] < m { q[i] } else { (q[i] - 1) as usize });
        let t = s.remove(m);
        assert forall|i: int| 0 <= i < q.len() implies q[i] != m by {
            assert(p[i] != p[p.len() - 1]);
        }
        assert forall|i: int, j: int| 0 <= i < j < shift.len() implies shift[i] != shift[j] by {
            assert(p[i] != p[j]);
        }
        lemma_permute_multiset(t, shift);
        assert(permute(t, shift) =~= permute(s, p).drop_last());
        assert(permute(s, p) =~= permute(s, p).drop_last().push(s[m]));
        assert(s.contains(s[m]));
        assert(s.to_multiset().remove(s[m]).insert(s[m]) =~= s.to_multiset());
    }
}

/// Reordering the axes keeps the shape's size without its empty axes.
pub proof fn lemma_nonzero_size_permute(s: Seq<usize>, p: Seq<usize>)
    requires
        is_permutation(p, s.len()),
    ensures
        nonzero_size(permute(s, p)) == nonzero_size(s),
{
    assert(nonzero(permute(s, p)) =~= permute(nonzero(s), p));
    lemma_product_permute(nonzero(s), p);
}

/// Every element count is at least zero and at most the size without empty axes, which is positive.
pub proof fn lemma_product_bounds(s: Seq<usize>)
    ensures
        0 <= product(s) <= nonzero_size(s),
        1 <= nonzero_size(s),
    decreases s.len(),
{
    if s.len() > 0 {
        lemma_product_bounds(s.drop_last());
        assert(nonzero(s).drop_last() =~= nonzero(s.drop_last()));
        let a = product(s.drop_last());
        let b = nonzero_size(s.drop_last());
        let x = s.last() as int;
        let y = nonzero(s).last() as int;
        assert(0 <= a * x <= b * y && 1 <= b * y) by (nonlinear_arith)
            requires
                0 <= a <= b,
                1 <= b,
                0 <= x <= y,
                1 <= y,
        ;
    }
}

/// The size without empty axes of a concatenation is the product of the two.
pub proof fn lemma_nonzero_size_concat(a: Seq<usize>, b: Seq<usize>)
    ensures
        nonzero_size(a + b) == nonzero_size(a) * nonzero_size(b),
        nonzero_size(a) <= nonzero_size(a + b),
        nonzero_size(b) <= nonzero_size(a + b),
{
    assert(nonzero(a + b) =~= nonzero(a) + nonzero(b));
    lemma_product_concat(nonzero(a), nonzero(b));
    lemma_product_bounds(a);
    lemma_product_bounds(b);
    let x = nonzero_size(a);
    let y = nonzero_size(b);
    assert(x <= x * y && y <= x * y) by (nonlinear_arith)
        requires
            1 <= x,
            1 <= y,
    ;
}

/// The element count of the shape `s`, when its size without empty axes fits in `usize`.
pub fn size_of(s: &[usize]) -> (r: usize)
    requires
        nonzero_size(s@) <= usize::MAX,
    ensures
        r == product(s@),
{
    let mut acc: usize = 1;
    let mut i: usize = 0;
    while i < s.len()
        invariant
            i <= s@.len(),
            nonzero_size(s@) <= usize::MAX,
            acc == product(s@.take(i as int)),
        decreases s@.len() - i,
    {
        proof {
            assert(s@.take(i + 1).drop_last() =~= s@.take(i as int));
            assert(s@.take(i + 1) + s@.skip(i + 1) =~= s@);
            lemma_nonzero_size_concat(s@.take(i + 1), s@.skip(i + 1));
            lemma_product_bounds(s@.take(i + 1));
        }
        acc = acc * s[i];
        i = i + 1;
    }
    assert(s@.take(i as int) =~= s@);
    acc
}

} // verus!
