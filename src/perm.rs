//! Facts about rearranging a sequence of elements: what a permutation of a
//! sub-range keeps, and when two ordered sequences must be identical.

use vstd::prelude::*;
use vstd::seq_lib::*;

use crate::order::{all_of_width, antisymmetric_on, le, lemma_flip, lemma_refl, sorted_range, split_at, total_preorder};

verus! {

/// `new` equals `old` outside `[a, b)` and holds the same elements as `old` inside it.
pub open spec fn permuted_within(old: Seq<Seq<u8>>, new: Seq<Seq<u8>>, a: int, b: int) -> bool {
    &&& 0 <= a <= b <= old.len()
    &&& new.len() == old.len()
    &&& forall|k: int| 0 <= k < old.len() && !(a <= k < b) ==> #[trigger] new[k] == old[k]
    &&& new.subrange(a, b).to_multiset() == old.subrange(a, b).to_multiset()
}

pub proof fn lemma_swap_multiset(s: Seq<Seq<u8>>, i: int, j: int)
    requires
        0 <= i < s.len(),
        0 <= j < s.len(),
    ensures
        s.update(i, s[j]).update(j, s[i]).to_multiset() == s.to_multiset(),
{
    broadcast use to_multiset_update, to_multiset_contains;
    broadcast use vstd::multiset::group_multiset_axioms;

    let t = s.update(i, s[j]);
    assert(t[j] == s[j]);
    assert(s.to_multiset().count(s[j]) > 0) by {
        assert(s.contains(s[j]));
    }
    assert(t.update(j, s[i]).to_multiset() =~= s.to_multiset());
}

/// Exchanging two elements inside `[a, b)` permutes that sub-range.
pub proof fn lemma_swap_permuted(s: Seq<Seq<u8>>, a: int, b: int, i: int, j: int)
    requires
        0 <= a <= i < b <= s.len(),
        a <= j < b,
    ensures
        permuted_within(s, s.update(i, s[j]).update(j, s[i]), a, b),
{
    let t = s.update(i, s[j]).update(j, s[i]);
    let sub = s.subrange(a, b);
    lemma_swap_multiset(sub, i - a, j - a);
    assert(t.subrange(a, b) =~= sub.update(i - a, sub[j - a]).update(j - a, sub[i - a]));
}

/// A permutation of a sub-range is a permutation of the whole.
pub proof fn lemma_permuted_within_whole(old: Seq<Seq<u8>>, new: Seq<Seq<u8>>, a: int, b: int)
    requires
        permuted_within(old, new, a, b),
    ensures
        new.to_multiset() == old.to_multiset(),
{
    broadcast use lemma_multiset_commutative;

    assert(old =~= old.subrange(0, a) + old.subrange(a, b) + old.subrange(b, old.len() as int));
    assert(new =~= new.subrange(0, a) + new.subrange(a, b) + new.subrange(b, new.len() as int));
    assert(new.subrange(0, a) =~= old.subrange(0, a));
    assert(new.subrange(b, new.len() as int) =~= old.subrange(b, old.len() as int));
    lemma_multiset_commutative(old.subrange(0, a), old.subrange(a, b));
    lemma_multiset_commutative(new.subrange(0, a), new.subrange(a, b));
    lemma_multiset_commutative(
        old.subrange(0, a) + old.subrange(a, b),
        old.subrange(b, old.len() as int),
    );
    lemma_multiset_commutative(
        new.subrange(0, a) + new.subrange(a, b),
        new.subrange(b, new.len() as int),
    );
}

/// Each element inside a permuted sub-range was somewhere in that sub-range before.
pub proof fn lemma_permuted_source(
    old: Seq<Seq<u8>>,
    new: Seq<Seq<u8>>,
    a: int,
    b: int,
    q: int,
) -> (src: int)
    requires
        permuted_within(old, new, a, b),
        a <= q < b,
    ensures
        a <= src < b,
        new[q] == old[src],
{
    broadcast use to_multiset_contains;

    assert(new.subrange(a, b)[q - a] == new[q]);
    assert(new.subrange(a, b).contains(new[q]));
    assert(new.subrange(a, b).to_multiset().count(new[q]) > 0);
    assert(old.subrange(a, b).contains(new[q]));
    let k = choose|k: int| 0 <= k < b - a && old.subrange(a, b)[k] == new[q];
    a + k
}

/// Permuting inside `[a, b)` keeps a split at any point outside `(a, b)`.
pub proof fn lemma_split_kept(
    ord: spec_fn(Seq<u8>, Seq<u8>) -> int,
    old: Seq<Seq<u8>>,
    new: Seq<Seq<u8>>,
    a: int,
    b: int,
    t: int,
)
    requires
        permuted_within(old, new, a, b),
        t <= a || b <= t,
        split_at(ord, old, t),
    ensures
        split_at(ord, new, t),
{
    assert forall|p: int, q: int| 0 <= p < t <= q < new.len() implies #[trigger] le(
        ord,
        new[p],
        new[q],
    ) by {
        let p2 = if a <= p < b {
            lemma_permuted_source(old, new, a, b, p)
        } else {
            p
        };
        let q2 = if a <= q < b {
            lemma_permuted_source(old, new, a, b, q)
        } else {
            q
        };
        assert(le(ord, old[p2], old[q2]));
    }
}

/// Permuting inside `[a, b)` keeps the order of a range that lies outside it.
pub proof fn lemma_sorted_kept(
    ord: spec_fn(Seq<u8>, Seq<u8>) -> int,
    old: Seq<Seq<u8>>,
    new: Seq<Seq<u8>>,
    a: int,
    b: int,
    x: int,
    y: int,
)
    requires
        permuted_within(old, new, a, b),
        0 <= x,
        y <= old.len(),
        y <= a || b <= x,
        sorted_range(ord, old, x, y),
    ensures
        sorted_range(ord, new, x, y),
{
    assert forall|p: int, q: int| x <= p < q < y implies #[trigger] le(ord, new[p], new[q]) by {
        assert(le(ord, old[p], old[q]));
    }
}

/// Two ordered ranges that meet at a split make one ordered range.
pub proof fn lemma_sorted_concat(
    ord: spec_fn(Seq<u8>, Seq<u8>) -> int,
    s: Seq<Seq<u8>>,
    x: int,
    y: int,
    z: int,
)
    requires
        0 <= x <= y <= z <= s.len(),
        sorted_range(ord, s, x, y),
        sorted_range(ord, s, y, z),
        split_at(ord, s, y),
    ensures
        sorted_range(ord, s, x, z),
{
    assert forall|p: int, q: int| x <= p < q < z implies #[trigger] le(ord, s[p], s[q]) by {
        if p < y && y <= q {
            assert(le(ord, s[p], s[q]));
        }
    }
}

/// A split inside a sub-range `[a, a + m)` that is itself split from the rest
/// on both sides is a split of the whole.
pub proof fn lemma_split_lift(
    ord: spec_fn(Seq<u8>, Seq<u8>) -> int,
    s: Seq<Seq<u8>>,
    a: int,
    m: int,
    t: int,
)
    requires
        0 <= a,
        0 <= t <= m,
        a + m <= s.len(),
        split_at(ord, s.subrange(a, a + m), t),
        split_at(ord, s, a),
        split_at(ord, s, a + m),
    ensures
        split_at(ord, s, a + t),
{
    assert forall|p: int, q: int| 0 <= p < a + t <= q < s.len() implies #[trigger] le(
        ord,
        s[p],
        s[q],
    ) by {
        if a <= p && q < a + m {
            assert(le(ord, s.subrange(a, a + m)[p - a], s.subrange(a, a + m)[q - a]));
        }
    }
}

/// Order inside the sub-sequence `[a, a + m)` is order on that range of the whole.
pub proof fn lemma_sorted_lift(
    ord: spec_fn(Seq<u8>, Seq<u8>) -> int,
    s: Seq<Seq<u8>>,
    a: int,
    m: int,
    x: int,
    y: int,
)
    requires
        0 <= a,
        0 <= x <= y <= m,
        a + m <= s.len(),
        sorted_range(ord, s.subrange(a, a + m), x, y),
    ensures
        sorted_range(ord, s, a + x, a + y),
{
    assert forall|p: int, q: int| a + x <= p < q < a + y implies #[trigger] le(ord, s[p], s[q]) by {
        assert(le(ord, s.subrange(a, a + m)[p - a], s.subrange(a, a + m)[q - a]));
    }
}

/// Under a consistent ranking in which only identical elements rank equal,
/// two ordered sequences that hold the same elements are identical.
pub proof fn lemma_sorted_unique(
    ord: spec_fn(Seq<u8>, Seq<u8>) -> int,
    s: Seq<Seq<u8>>,
    t: Seq<Seq<u8>>,
    w: nat,
)
    requires
        total_preorder(ord),
        antisymmetric_on(ord, w),
        all_of_width(s, w),
        all_of_width(t, w),
        sorted_range(ord, s, 0, s.len() as int),
        sorted_range(ord, t, 0, t.len() as int),
        s.to_multiset() == t.to_multiset(),
    ensures
        s == t,
    decreases s.len(),
{
    broadcast use to_multiset_contains, to_multiset_len, to_multiset_remove;

    assert(s.len() == s.to_multiset().len());
    assert(t.len() == t.to_multiset().len());
    if s.len() == 0 {
        assert(s =~= t);
        return;
    }
    let n = s.len() - 1;
    let x = s[n];
    let y = t[n];
    assert(s.contains(x));
    assert(s.to_multiset().count(x) > 0);
    assert(t.contains(x));
    let kt = choose|k: int| 0 <= k < t.len() && t[k] == x;
    assert(t.contains(y));
    assert(t.to_multiset().count(y) > 0);
    assert(s.contains(y));
    let ks = choose|k: int| 0 <= k < s.len() && s[k] == y;
    if kt < n {
        assert(le(ord, t[kt], t[n]));
    } else {
        lemma_refl(ord, x);
    }
    if ks < n {
        assert(le(ord, s[ks], s[n]));
    } else {
        lemma_refl(ord, y);
    }
    lemma_flip(ord, x, y);
    assert(ord(x, y) == 0);
    assert(x.len() == w && y.len() == w);
    assert(x == y);
    assert(s.remove(n) =~= s.drop_last());
    assert(t.remove(n) =~= t.drop_last());
    assert(s.drop_last().to_multiset() == s.to_multiset().remove(x));
    assert(t.drop_last().to_multiset() == t.to_multiset().remove(y));
    assert forall|p: int, q: int| 0 <= p < q < n implies #[trigger] le(ord, s.drop_last()[p], s.drop_last()[q]) by {
        assert(le(ord, s[p], s[q]));
    }
    assert forall|p: int, q: int| 0 <= p < q < n implies #[trigger] le(ord, t.drop_last()[p], t.drop_last()[q]) by {
        assert(le(ord, t[p], t[q]));
    }
    assert(all_of_width(s.drop_last(), w));
    assert(all_of_width(t.drop_last(), w));
    lemma_sorted_unique(ord, s.drop_last(), t.drop_last(), w);
    assert(s =~= t.drop_last().push(y));
    assert(t =~= t.drop_last().push(y));
}

} // verus!
