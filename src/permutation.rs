//! Axis permutations: moving chosen axes to chosen positions, and the
//! orders in which a contraction groups its free and contracted axes.

use vstd::prelude::*;

verus! {

/// `axes` names pairwise distinct axes of an array of rank `n`.
pub open spec fn distinct_in_range(axes: Seq<usize>, n: nat) -> bool {
    &&& axes.no_duplicates()
    &&& forall|i: int| 0 <= i < axes.len() ==> axes[i] < n
}

/// `p` lists every axis of an array of rank `n` exactly once.
pub open spec fn is_permutation(p: Seq<usize>, n: nat) -> bool {
    p.len() == n && distinct_in_range(p, n)
}

/// The axes below `n` that `axes` does not name, in ascending order.
pub open spec fn rest_axes(n: nat, axes: Seq<usize>) -> Seq<usize>
    decreases n,
{
    if n == 0 {
        Seq::empty()
    } else {
        let r = rest_axes((n - 1) as nat, axes);
        if axes.contains((n - 1) as usize) {
            r
        } else {
            r.push((n - 1) as usize)
        }
    }
}

/// Reorders `s` so that position `i` holds `s[p[i]]`.
pub open spec fn permute<T>(s: Seq<T>, p: Seq<usize>) -> Seq<T> {
    Seq::new(p.len(), |i: int| s[p[i] as int])
}

/// The axis that lands at position `pos` when the axes `source[k]` move to
/// `destination[k]` and the other axes keep their relative order.
pub open spec fn moved_axis(n: nat, source: Seq<usize>, destination: Seq<usize>, pos: int) -> usize {
    if destination.contains(pos as usize) {
        source[destination.index_of(pos as usize)]
    } else {
        rest_axes(n, source)[rest_axes(pos as nat, destination).len() as int]
    }
}

/// The whole permutation of a move: position `i` holds the original axis found there.
pub open spec fn move_permutation(n: nat, source: Seq<usize>, destination: Seq<usize>) -> Seq<usize> {
    Seq::new(n, |pos: int| moved_axis(n, source, destination, pos))
}

/// Valid arguments of a move on an array of rank `n`.
pub open spec fn valid_move(n: nat, source: Seq<usize>, destination: Seq<usize>) -> bool {
    &&& n <= usize::MAX
    &&& source.len() == destination.len()
    &&& distinct_in_range(source, n)
    &&& distinct_in_range(destination, n)
}

/// The order in which a contraction reads the left operand: free axes
/// ascending, then the contracted axes as listed.
pub open spec fn lhs_order(n: nat, axes: Seq<usize>) -> Seq<usize> {
    rest_axes(n, axes) + axes
}

/// The order in which a contraction reads the right operand: the contracted
/// axes as listed, then the free axes ascending.
pub open spec fn rhs_order(n: nat, axes: Seq<usize>) -> Seq<usize> {
    axes + rest_axes(n, axes)
}

/// The set of axes of `axes` that lie below `n`.
spec fn named_below(axes: Seq<usize>, n: nat) -> Set<usize> {
    axes.to_set().filter(|x: usize| x < n)
}

proof fn lemma_rest_count(n: nat, axes: Seq<usize>)
    requires
        n <= usize::MAX,
    ensures
        named_below(axes, n).finite(),
        rest_axes(n, axes).len() + named_below(axes, n).len() == n,
    decreases n,
{
    axes.to_set().lemma_len_filter(|x: usize| x < n);
    if n == 0 {
        assert(named_below(axes, n) =~= Set::empty());
    } else {
        let m = (n - 1) as nat;
        lemma_rest_count(m, axes);
        if axes.contains(m as usize) {
            assert(!named_below(axes, m).contains(m as usize));
            assert(named_below(axes, n) =~= named_below(axes, m).insert(m as usize));
        } else {
            assert(named_below(axes, n) =~= named_below(axes, m));
        }
    }
}

/// Facts about the free axes: each lies below `n` and is not named,
/// they ascend strictly, every unnamed axis appears, and there are `n - N` of them.
pub proof fn lemma_rest_axes(n: nat, axes: Seq<usize>)
    requires
        n <= usize::MAX,
    ensures
        forall|i: int| 0 <= i < rest_axes(n, axes).len() ==> rest_axes(n, axes)[i] < n && !axes.contains(#[trigger] rest_axes(n, axes)[i]),
        forall|i: int, j: int| 0 <= i < j < rest_axes(n, axes).len() ==> rest_axes(n, axes)[i] < rest_axes(n, axes)[j],
        forall|x: usize| x < n && !axes.contains(x) ==> rest_axes(n, axes).contains(x),
        rest_axes(n, axes).len() <= n,
        distinct_in_range(axes, n) ==> rest_axes(n, axes).len() + axes.len() == n,
    decreases n,
{
    if n > 0 {
        let m = (n - 1) as nat;
        lemma_rest_axes(m, axes);
        let r = rest_axes(m, axes);
        if !axes.contains(m as usize) {
            assert(r.push(m as usize)[r.len() as int] == m);
            assert forall|x: usize| x < n && !axes.contains(x) implies rest_axes(n, axes).contains(x) by {
                if x < m {
                    let i = choose|i: int| 0 <= i < r.len() && r[i] == x;
                    assert(rest_axes(n, axes)[i] == x);
                } else {
                    assert(rest_axes(n, axes)[r.len() as int] == x);
                }
            }
        }
    }
    lemma_rest_count(n, axes);
    if distinct_in_range(axes, n) {
        axes.unique_seq_to_set();
        assert(named_below(axes, n) =~= axes.to_set());
    }
}

/// The free axes below `a` are a prefix of those below `b`.
pub proof fn lemma_rest_prefix(a: nat, b: nat, axes: Seq<usize>)
    requires
        a <= b <= usize::MAX,
    ensures
        rest_axes(a, axes).len() <= rest_axes(b, axes).len(),
        forall|i: int| 0 <= i < rest_axes(a, axes).len() ==> rest_axes(b, axes)[i] == rest_axes(a, axes)[i],
    decreases b,
{
    if a < b {
        lemma_rest_prefix(a, (b - 1) as nat, axes);
    }
}

/// An unnamed axis `p` sits in the free axes at the position that counts the free axes below it.
pub proof fn lemma_rest_position(n: nat, axes: Seq<usize>, p: usize)
    requires
        p < n <= usize::MAX,
        !axes.contains(p),
    ensures
        rest_axes(p as nat, axes).len() < rest_axes(n, axes).len(),
        rest_axes(n, axes)[rest_axes(p as nat, axes).len() as int] == p,
{
    lemma_rest_prefix((p + 1) as nat, n, axes);
}

/// An unnamed position `p` below `q` counts fewer free axes below it than `q` does.
proof fn lemma_rest_rank_injective(axes: Seq<usize>, p: usize, q: usize)
    requires
        p < q,
        !axes.contains(p),
    ensures
        rest_axes(p as nat, axes).len() < rest_axes(q as nat, axes).len(),
{
    lemma_rest_prefix((p + 1) as nat, q as nat, axes);
}

proof fn lemma_index_of(s: Seq<usize>, k: int)
    requires
        s.no_duplicates(),
        0 <= k < s.len(),
    ensures
        s.contains(s[k]),
        s.index_of(s[k]) == k,
{
    assert(s.contains(s[k]));
    let j = s.index_of(s[k]);
    assert(s[j] == s[k]);
}

/// The permutation of a valid move lists every axis once, puts `source[k]`
/// at `destination[k]`, and fills the other positions with the other axes in ascending order.
pub proof fn lemma_move_permutation(n: nat, source: Seq<usize>, destination: Seq<usize>)
    requires
        valid_move(n, source, destination),
    ensures
        is_permutation(move_permutation(n, source, destination), n),
        forall|k: int| 0 <= k < source.len() ==> move_permutation(n, source, destination)[destination[k] as int] == source[k],
{
    let p = move_permutation(n, source, destination);
    lemma_rest_axes(n, source);
    lemma_rest_axes(n, destination);
    assert forall|k: int| 0 <= k < source.len() implies p[destination[k] as int] == source[k] by {
        lemma_index_of(destination, k);
    }
    assert forall|pos: int| 0 <= pos < n implies p[pos] < n && (destination.contains(pos as usize) <==> source.contains(#[trigger] p[pos])) by {
        if destination.contains(pos as usize) {
            let k = destination.index_of(pos as usize);
            assert(source.contains(source[k]));
        } else {
            lemma_rest_position(n, destination, pos as usize);
        }
    }
    assert forall|a: int, b: int| 0 <= a < b < n implies p[a] != p[b] by {
        let da = destination.contains(a as usize);
        let db = destination.contains(b as usize);
        if da && db {
            let ka = destination.index_of(a as usize);
            let kb = destination.index_of(b as usize);
            assert(ka != kb);
        } else if !da && !db {
            lemma_rest_rank_injective(destination, a as usize, b as usize);
            lemma_rest_position(n, destination, b as usize);
        }
    }
}

/// Moving `destination` back to `source` undoes a move: the composed reordering is the identity.
pub proof fn lemma_move_round_trip(n: nat, source: Seq<usize>, destination: Seq<usize>)
    requires
        valid_move(n, source, destination),
    ensures
        forall|q: int| 0 <= q < n ==> move_permutation(n, source, destination)[#[trigger] move_permutation(n, destination, source)[q] as int] == q,
{
    let p1 = move_permutation(n, source, destination);
    let p2 = move_permutation(n, destination, source);
    lemma_rest_axes(n, source);
    lemma_rest_axes(n, destination);
    assert forall|q: int| 0 <= q < n implies p1[p2[q] as int] == q by {
        if source.contains(q as usize) {
            let k = source.index_of(q as usize);
            lemma_index_of(destination, k);
        } else {
            let j = rest_axes(q as nat, source).len() as int;
            lemma_rest_position(n, source, q as usize);
            let x = p2[q];
            assert(x == rest_axes(n, destination)[j]);
            assert(!destination.contains(x));
            lemma_rest_position(n, destination, x);
            let jx = rest_axes(x as nat, destination).len() as int;
            if jx < j {
                assert(rest_axes(n, destination)[jx] < rest_axes(n, destination)[j]);
            } else if j < jx {
                assert(rest_axes(n, destination)[j] < rest_axes(n, destination)[jx]);
            }
        }
    }
}

/// The orders of both operands of a contraction list every axis once.
pub proof fn lemma_contraction_orders(n: nat, axes: Seq<usize>)
    requires
        n <= usize::MAX,
        distinct_in_range(axes, n),
    ensures
        is_permutation(lhs_order(n, axes), n),
        is_permutation(rhs_order(n, axes), n),
{
    lemma_rest_axes(n, axes);
    let r = rest_axes(n, axes);
    assert forall|i: int, j: int| 0 <= i < j < r.len() + axes.len() implies (r + axes)[i] != (r + axes)[j] by {
        if j >= r.len() && i < r.len() {
            assert(axes.contains((r + axes)[j]));
        }
    }
    assert forall|i: int, j: int| 0 <= i < j < r.len() + axes.len() implies (axes + r)[i] != (axes + r)[j] by {
        if i < axes.len() && j >= axes.len() {
            assert(axes.contains((axes + r)[i]));
        }
    }
}

/// The position of `x` in `axes`, if it is there.
pub fn position_of(axes: &[usize], x: usize) -> (r: Option<usize>)
    ensures
        r matches Some(k) ==> k < axes@.len() && axes@[k as int] == x,
        r is None <==> !axes@.contains(x),
{
    let mut k: usize = 0;
    while k < axes.len()
        invariant
            k <= axes@.len(),
            forall|i: int| 0 <= i < k ==> axes@[i] != x,
        decreases axes@.len() - k,
    {
        if axes[k] == x {
            return Some(k);
        }
        k = k + 1;
    }
    None
}

/// Whether every entry of `axes` names an axis of an array of rank `n`.
pub fn all_below(axes: &[usize], n: usize) -> (r: bool)
    ensures
        r == forall|i: int| 0 <= i < axes@.len() ==> axes@[i] < n,
{
    let mut k: usize = 0;
    while k < axes.len()
        invariant
            k <= axes@.len(),
            forall|i: int| 0 <= i < k ==> axes@[i] < n,
        decreases axes@.len() - k,
    {
        if axes[k] >= n {
            return false;
        }
        k = k + 1;
    }
    true
}

/// Whether some axis is listed twice in `axes`.
pub fn has_duplicates(axes: &[usize]) -> (r: bool)
    ensures
        r == !axes@.no_duplicates(),
{
    let mut j: usize = 0;
    while j < axes.len()
        invariant
            j <= axes@.len(),
            forall|a: int, b: int| 0 <= a < b < j ==> axes@[a] != axes@[b],
        decreases axes@.len() - j,
    {
        let mut i: usize = 0;
        while i < j
            invariant
                i <= j < axes@.len(),
                forall|a: int| 0 <= a < i ==> axes@[a] != axes@[j as int],
            decreases j - i,
        {
            if axes[i] == axes[j] {
                return true;
            }
            i = i + 1;
        }
        j = j + 1;
    }
    false
}

/// The axes below `n` that `axes` does not name, in ascending order.
pub fn free_axes(n: usize, axes: &[usize]) -> (r: Vec<usize>)
    ensures
        r@ == rest_axes(n as nat, axes@),
{
    let mut r: Vec<usize> = Vec::new();
    let mut x: usize = 0;
    while x < n
        invariant
            x <= n,
            r@ == rest_axes(x as nat, axes@),
        decreases n - x,
    {
        if position_of(axes, x).is_none() {
            r.push(x);
        }
        x = x + 1;
    }
    r
}

/// The permutation that moves axis `source[k]` to position `destination[k]`
/// for every `k` and keeps the other axes in their original relative order.
pub fn moveaxis_permutation(ndim: usize, source: &[usize], destination: &[usize]) -> (r: Vec<usize>)
    requires
        valid_move(ndim as nat, source@, destination@),
    ensures
        r@ == move_permutation(ndim as nat, source@, destination@),
        is_permutation(r@, ndim as nat),
{
    proof {
        lemma_move_permutation(ndim as nat, source@, destination@);
        lemma_rest_axes(ndim as nat, source@);
        lemma_rest_axes(ndim as nat, destination@);
    }
    let rest = free_axes(ndim, source);
    let mut r: Vec<usize> = Vec::new();
    let mut used: usize = 0;
    let mut pos: usize = 0;
    while pos < ndim
        invariant
            pos <= ndim,
            valid_move(ndim as nat, source@, destination@),
            rest@ == rest_axes(ndim as nat, source@),
            rest@.len() == rest_axes(ndim as nat, destination@).len(),
            used == rest_axes(pos as nat, destination@).len(),
            rest@.len() <= ndim,
            r@ == move_permutation(ndim as nat, source@, destination@).take(pos as int),
        decreases ndim - pos,
    {
        match position_of(destination, pos) {
            Some(k) => {
                proof {
                    lemma_index_of(destination@, k as int);
                }
                r.push(source[k]);
            },
            None => {
                proof {
                    lemma_rest_position(ndim as nat, destination@, pos);
                }
                r.push(rest[used]);
                used = used + 1;
            },
        }
        assert(r@ =~= move_permutation(ndim as nat, source@, destination@).take(pos + 1));
        pos = pos + 1;
    }
    assert(r@ =~= move_permutation(ndim as nat, source@, destination@));
    r
}

/// The order in which a contraction reads its left operand of rank `ndim`:
/// the free axes ascending, then `axes` as listed.
pub fn lhs_permutation(ndim: usize, axes: &[usize]) -> (r: Vec<usize>)
    ensures
        r@ == lhs_order(ndim as nat, axes@),
{
    let mut r = free_axes(ndim, axes);
    let ghost free = r@;
    let mut k: usize = 0;
    while k < axes.len()
        invariant
            k <= axes@.len(),
            r@ == free + axes@.take(k as int),
        decreases axes@.len() - k,
    {
        r.push(axes[k]);
        assert(r@ =~= free + axes@.take(k + 1));
        k = k + 1;
    }
    assert(axes@.take(axes@.len() as int) =~= axes@);
    r
}

/// The order in which a contraction reads its right operand of rank `ndim`:
/// `axes` as listed, then the free axes ascending.
pub fn rhs_permutation(ndim: usize, axes: &[usize]) -> (r: Vec<usize>)
    ensures
        r@ == rhs_order(ndim as nat, axes@),
{
    let free = free_axes(ndim, axes);
    let mut r: Vec<usize> = Vec::new();
    let mut k: usize = 0;
    while k < axes.len()
        invariant
            k <= axes@.len(),
            r@ == axes@.take(k as int),
        decreases axes@.len() - k,
    {
        r.push(axes[k]);
        assert(r@ =~= axes@.take(k + 1));
        k = k + 1;
    }
    let mut j: usize = 0;
    while j < free.len()
        invariant
            j <= free@.len(),
            r@ == axes@ + free@.take(j as int),
        decreases free@.len() - j,
    {
        r.push(free[j]);
        assert(r@ =~= axes@ + free@.take(j + 1));
        j = j + 1;
    }
    assert(free@.take(free@.len() as int) =~= free@);
    r
}

/// The axes `0, 1, ..., n - 1` in order: the permutation that reorders nothing.
pub open spec fn identity(n: nat) -> Seq<usize> {
    Seq::new(n, |i: int| i as usize)
}

/// With no axis below `x` named, every axis below `x` is free.
pub proof fn lemma_rest_none_named(x: nat, axes: Seq<usize>)
    requires
        x <= usize::MAX,
        forall|y: usize| y < x ==> !axes.contains(y),
    ensures
        rest_axes(x, axes) == identity(x),
    decreases x,
{
    if x > 0 {
        lemma_rest_none_named((x - 1) as nat, axes);
        assert(rest_axes(x, axes) =~= identity(x));
    }
}

/// With only axis 0 named, the free axes below `x` are `1, ..., x - 1`.
pub proof fn lemma_rest_first_named(x: nat)
    requires
        1 <= x <= usize::MAX,
    ensures
        rest_axes(x, seq![0usize]) == Seq::new((x - 1) as nat, |i: int| (i + 1) as usize),
    decreases x,
{
    if x == 1 {
        assert(seq![0usize][0] == 0usize);
        assert(seq![0usize].contains(0usize));
        assert(rest_axes(0, seq![0usize]) =~= Seq::<usize>::empty());
        assert(rest_axes(1, seq![0usize]) =~= Seq::new(0, |i: int| (i + 1) as usize));
    } else {
        lemma_rest_first_named((x - 1) as nat);
        assert(!seq![0usize].contains((x - 1) as usize));
        assert(rest_axes(x, seq![0usize]) =~= Seq::new((x - 1) as nat, |i: int| (i + 1) as usize));
    }
}

/// The identity lists every axis once.
pub proof fn lemma_identity_is_permutation(n: nat)
    requires
        n <= usize::MAX,
    ensures
        is_permutation(identity(n), n),
        forall|m: usize| m < n ==> #[trigger] identity(n).index_of(m) == m as int,
{
    assert forall|m: usize| m < n implies #[trigger] identity(n).index_of(m) == m as int by {
        lemma_index_of(identity(n), m as int);
    }
}

} // verus!
