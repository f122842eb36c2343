//! Comparators and the rankings they compute.
//!
//! A comparator is any `Fn(&[u8], &[u8]) -> i32`. Its behaviour is described
//! by a ranking, a spec function from two elements to an integer whose sign
//! says which ranks first. A comparator is valid when, on elements of the
//! buffer's width, it computes a ranking that is a total preorder; only then
//! does sorting promise order. Inside the engine that ranking is widened to
//! all byte sequences (`widen`), so the proofs need no length side conditions.

use vstd::prelude::*;

verus! {

/// `f` may be called on any two elements of `w` bytes.
pub open spec fn callable<F: Fn(&[u8], &[u8]) -> i32>(f: F, w: nat) -> bool {
    forall|a: &[u8], b: &[u8]| a@.len() == w && b@.len() == w ==> #[trigger] f.requires((a, b))
}

/// Whatever `f` returns on two elements of `w` bytes is what `ord` gives for them.
pub open spec fn ranks_by<F: Fn(&[u8], &[u8]) -> i32>(
    f: F,
    ord: spec_fn(Seq<u8>, Seq<u8>) -> int,
    w: nat,
) -> bool {
    forall|a: &[u8], b: &[u8], r: i32|
        a@.len() == w && b@.len() == w && #[trigger] f.ensures((a, b), r) ==> r as int == ord(a@, b@)
}

/// On elements of `w` bytes, `f` computes `ord`, a consistent ranking of all
/// byte sequences.
pub open spec fn follows<F: Fn(&[u8], &[u8]) -> i32>(
    f: F,
    ord: spec_fn(Seq<u8>, Seq<u8>) -> int,
    w: nat,
) -> bool {
    ranks_by(f, ord, w) && total_preorder(ord)
}

/// `f` is a valid comparator of `w`-byte elements: on them it computes a
/// consistent ranking.
pub open spec fn consistent<F: Fn(&[u8], &[u8]) -> i32>(f: F, w: nat) -> bool {
    exists|ord: spec_fn(Seq<u8>, Seq<u8>) -> int| ranks_by(f, ord, w) && total_preorder_on(ord, w)
}

/// Every element, compared by `f` with the next one, gives a result of at most zero.
pub open spec fn sorted_under<F: Fn(&[u8], &[u8]) -> i32>(f: F, s: Seq<Seq<u8>>) -> bool {
    forall|i: int, a: &[u8], b: &[u8], r: i32|
        #![trigger s[i], f.ensures((a, b), r)]
        0 <= i < s.len() - 1 && a@ == s[i] && b@ == s[i + 1] && f.ensures((a, b), r) ==> r <= 0
}

/// `s` is in order under a consistent ranking that `f` computes on `w`-byte
/// elements and under which only identical such elements rank equal.
pub open spec fn strictly_sorted_under<F: Fn(&[u8], &[u8]) -> i32>(
    f: F,
    s: Seq<Seq<u8>>,
    w: nat,
) -> bool {
    exists|ord: spec_fn(Seq<u8>, Seq<u8>) -> int|
        ranks_by(f, ord, w) && total_preorder_on(ord, w) && antisymmetric_on(ord, w) && sorted_by(ord, s)
}

/// Every element of `s` has `w` bytes.
pub open spec fn all_of_width(s: Seq<Seq<u8>>, w: nat) -> bool {
    forall|k: int| 0 <= k < s.len() ==> (#[trigger] s[k]).len() == w
}

/// Order under a ranking that `f` computes is order as `f` reports it.
pub proof fn lemma_sorted_under<F: Fn(&[u8], &[u8]) -> i32>(
    f: F,
    ord: spec_fn(Seq<u8>, Seq<u8>) -> int,
    s: Seq<Seq<u8>>,
    w: nat,
)
    requires
        ranks_by(f, ord, w),
        all_of_width(s, w),
        sorted_by(ord, s),
    ensures
        sorted_under(f, s),
{
    assert forall|i: int, a: &[u8], b: &[u8], r: i32|
        #![trigger s[i], f.ensures((a, b), r)]
        0 <= i < s.len() - 1 && a@ == s[i] && b@ == s[i + 1] && f.ensures((a, b), r)
        implies r <= 0 by {
        assert(s[i].len() == w && s[i + 1].len() == w);
        assert(ord(s[i], s[i + 1]) <= 0);
    }
}

/// `ord` is a consistent ranking of the byte sequences of length `w`:
/// swapping the arguments flips the sign, and "ranks no later than" is
/// transitive.
#[verifier::opaque]
pub open spec fn total_preorder_on(ord: spec_fn(Seq<u8>, Seq<u8>) -> int, w: nat) -> bool {
    &&& forall|a: Seq<u8>, b: Seq<u8>|
        a.len() == w && b.len() == w ==> (#[trigger] ord(a, b) < 0 <==> ord(b, a) > 0)
    &&& forall|a: Seq<u8>, b: Seq<u8>, c: Seq<u8>|
        #![trigger ord(a, b), ord(b, c)]
        a.len() == w && b.len() == w && c.len() == w && ord(a, b) <= 0 && ord(b, c) <= 0 ==> ord(a, c)
            <= 0
}

/// Under `ord`, only identical byte sequences of length `w` rank equal.
pub open spec fn antisymmetric_on(ord: spec_fn(Seq<u8>, Seq<u8>) -> int, w: nat) -> bool {
    forall|a: Seq<u8>, b: Seq<u8>| a.len() == w && b.len() == w && #[trigger] ord(a, b) == 0 ==> a == b
}

/// `ord` on sequences of length `w`, extended to all byte sequences: those of
/// length `w` rank before all others, which rank equal among themselves.
pub open spec fn widen(ord: spec_fn(Seq<u8>, Seq<u8>) -> int, w: nat) -> spec_fn(Seq<u8>, Seq<u8>) -> int {
    |a: Seq<u8>, b: Seq<u8>|
        if a.len() == w && b.len() == w {
            ord(a, b)
        } else {
            (if a.len() == w { 0int } else { 1int }) - (if b.len() == w { 0int } else { 1int })
        }
}

/// Widening keeps what a ranking says on `w`-byte sequences and makes a
/// consistent ranking of all byte sequences.
pub proof fn lemma_widen<F: Fn(&[u8], &[u8]) -> i32>(f: F, ord: spec_fn(Seq<u8>, Seq<u8>) -> int, w: nat)
    requires
        total_preorder_on(ord, w),
    ensures
        total_preorder(widen(ord, w)),
        ranks_by(f, ord, w) ==> ranks_by(f, widen(ord, w), w),
        antisymmetric_on(ord, w) ==> antisymmetric_on(widen(ord, w), w),
        forall|s: Seq<Seq<u8>>| all_of_width(s, w) && sorted_by(ord, s) ==> #[trigger] sorted_by(widen(ord, w), s),
{
    reveal(total_preorder);
    reveal(total_preorder_on);
    let o = widen(ord, w);
    assert forall|a: Seq<u8>, b: Seq<u8>| #[trigger] o(a, b) < 0 <==> o(b, a) > 0 by {
        if a.len() == w && b.len() == w {
            assert(ord(a, b) < 0 <==> ord(b, a) > 0);
        }
    }
    assert forall|a: Seq<u8>, b: Seq<u8>, c: Seq<u8>|
        #![trigger o(a, b), o(b, c)]
        o(a, b) <= 0 && o(b, c) <= 0 implies o(a, c) <= 0 by {
        if a.len() == w && b.len() == w && c.len() == w {
            assert(ord(a, b) <= 0 && ord(b, c) <= 0 ==> ord(a, c) <= 0);
        }
    }
    assert forall|s: Seq<Seq<u8>>| all_of_width(s, w) && sorted_by(ord, s) implies #[trigger] sorted_by(o, s) by {
        assert forall|i: int| 0 <= i < s.len() - 1 implies o(#[trigger] s[i], s[i + 1]) <= 0 by {
            assert(s[i].len() == w && s[i + 1].len() == w);
            assert(ord(s[i], s[i + 1]) <= 0);
        }
    }
}

/// `ord` is a consistent ranking: swapping the arguments flips the sign, and
/// "ranks no later than" is transitive. Such a ranking is total.
#[verifier::opaque]
pub open spec fn total_preorder(ord: spec_fn(Seq<u8>, Seq<u8>) -> int) -> bool {
    &&& forall|a: Seq<u8>, b: Seq<u8>| #[trigger] ord(a, b) < 0 <==> ord(b, a) > 0
    &&& forall|a: Seq<u8>, b: Seq<u8>, c: Seq<u8>|
        #![trigger ord(a, b), ord(b, c)]
        ord(a, b) <= 0 && ord(b, c) <= 0 ==> ord(a, c) <= 0
}

/// Every element ranks no later than the next one.
pub open spec fn sorted_by(ord: spec_fn(Seq<u8>, Seq<u8>) -> int, s: Seq<Seq<u8>>) -> bool {
    forall|i: int| 0 <= i < s.len() - 1 ==> ord(#[trigger] s[i], s[i + 1]) <= 0
}

/// `a` ranks no later than `b`.
pub open spec fn le(ord: spec_fn(Seq<u8>, Seq<u8>) -> int, a: Seq<u8>, b: Seq<u8>) -> bool {
    ord(a, b) <= 0
}

/// Every pair of positions in `[lo, hi)` is in order.
pub open spec fn sorted_range(
    ord: spec_fn(Seq<u8>, Seq<u8>) -> int,
    s: Seq<Seq<u8>>,
    lo: int,
    hi: int,
) -> bool {
    forall|p: int, q: int| lo <= p < q < hi ==> #[trigger] le(ord, s[p], s[q])
}

/// Every element before position `t` ranks no later than every element from `t` on.
pub open spec fn split_at(ord: spec_fn(Seq<u8>, Seq<u8>) -> int, s: Seq<Seq<u8>>, t: int) -> bool {
    forall|p: int, q: int| 0 <= p < t <= q < s.len() ==> #[trigger] le(ord, s[p], s[q])
}

pub proof fn lemma_flip(ord: spec_fn(Seq<u8>, Seq<u8>) -> int, a: Seq<u8>, b: Seq<u8>)
    requires
        total_preorder(ord),
    ensures
        ord(a, b) < 0 <==> ord(b, a) > 0,
        ord(a, b) == 0 <==> ord(b, a) == 0,
        ord(a, b) > 0 <==> ord(b, a) < 0,
        le(ord, a, b) || le(ord, b, a),
{
    reveal(total_preorder);
    assert(ord(a, b) < 0 <==> ord(b, a) > 0);
    assert(ord(b, a) < 0 <==> ord(a, b) > 0);
}

pub proof fn lemma_refl(ord: spec_fn(Seq<u8>, Seq<u8>) -> int, a: Seq<u8>)
    requires
        total_preorder(ord),
    ensures
        ord(a, a) == 0,
{
    lemma_flip(ord, a, a);
}

pub proof fn lemma_trans(ord: spec_fn(Seq<u8>, Seq<u8>) -> int, a: Seq<u8>, b: Seq<u8>, c: Seq<u8>)
    requires
        total_preorder(ord),
        le(ord, a, b),
        le(ord, b, c),
    ensures
        le(ord, a, c),
{
    reveal(total_preorder);
    assert(ord(a, b) <= 0 && ord(b, c) <= 0 ==> ord(a, c) <= 0);
}

/// Pairwise order on all of a sequence gives order on neighbours.
pub proof fn lemma_sorted_range_sorted_by(ord: spec_fn(Seq<u8>, Seq<u8>) -> int, s: Seq<Seq<u8>>)
    requires
        sorted_range(ord, s, 0, s.len() as int),
    ensures
        sorted_by(ord, s),
{
    assert forall|i: int| 0 <= i < s.len() - 1 implies ord(#[trigger] s[i], s[i + 1]) <= 0 by {
        assert(le(ord, s[i], s[i + 1]));
    }
}

/// Order on neighbours gives order on every pair, when the ranking is consistent.
pub proof fn lemma_sorted_by_sorted_range(ord: spec_fn(Seq<u8>, Seq<u8>) -> int, s: Seq<Seq<u8>>)
    requires
        total_preorder(ord),
        sorted_by(ord, s),
    ensures
        sorted_range(ord, s, 0, s.len() as int),
{
    assert forall|p: int, q: int| 0 <= p < q < s.len() implies #[trigger] le(ord, s[p], s[q]) by {
        lemma_sorted_by_pair(ord, s, p, q);
    }
}

proof fn lemma_sorted_by_pair(
    ord: spec_fn(Seq<u8>, Seq<u8>) -> int, s: Seq<Seq<u8>>, p: int, q: int,
)
    requires
        total_preorder(ord),
        sorted_by(ord, s),
        0 <= p < q < s.len(),
    ensures
        le(ord, s[p], s[q]),
    decreases q - p,
{
    assert(ord(s[q - 1], s[q - 1 + 1]) <= 0);
    if p < q - 1 {
        lemma_sorted_by_pair(ord, s, p, q - 1);
        lemma_trans(ord, s[p], s[q - 1], s[q]);
    }
}

} // verus!
