//! The reentrant entry point, whose comparator also receives a context.

use vstd::prelude::*;

use crate::elements::{elements, unchanged_outside};
use crate::order::{antisymmetric_on, follows, sorted_by, total_preorder_on, widen};
use crate::qsort::{depth_budget, introsort_helper};

verus! {

/// `f` may be called on any two elements of `w` bytes with the context `arg`.
pub open spec fn callable_with<X, F: Fn(&[u8], &[u8], &X) -> i32>(f: F, arg: &X, w: nat) -> bool {
    forall|a: &[u8], b: &[u8]| a@.len() == w && b@.len() == w ==> #[trigger] f.requires((a, b, arg))
}

/// Whatever `f` returns, given the context `arg`, on two elements of `w`
/// bytes is what `ord` gives for them.
pub open spec fn ranks_with<X, F: Fn(&[u8], &[u8], &X) -> i32>(
    f: F,
    arg: &X,
    ord: spec_fn(Seq<u8>, Seq<u8>) -> int,
    w: nat,
) -> bool {
    forall|a: &[u8], b: &[u8], r: i32|
        a@.len() == w && b@.len() == w && #[trigger] f.ensures((a, b, arg), r) ==> r as int == ord(a@, b@)
}

/// `f`, given the context `arg`, is a valid comparator of `w`-byte elements.
pub open spec fn consistent_with<X, F: Fn(&[u8], &[u8], &X) -> i32>(f: F, arg: &X, w: nat) -> bool {
    exists|ord: spec_fn(Seq<u8>, Seq<u8>) -> int| ranks_with(f, arg, ord, w) && total_preorder_on(ord, w)
}

/// Every element, compared by `f` with the next one under the context `arg`,
/// gives a result of at most zero.
pub open spec fn sorted_under_with<X, F: Fn(&[u8], &[u8], &X) -> i32>(
    f: F,
    arg: &X,
    s: Seq<Seq<u8>>,
) -> bool {
    forall|i: int, a: &[u8], b: &[u8], r: i32|
        #![trigger s[i], f.ensures((a, b, arg), r)]
        0 <= i < s.len() - 1 && a@ == s[i] && b@ == s[i + 1] && f.ensures((a, b, arg), r) ==> r <= 0
}

/// `s` is in order under a consistent ranking that `f` computes with the
/// context `arg` on `w`-byte elements and under which only identical such
/// elements rank equal.
pub open spec fn strictly_sorted_under_with<X, F: Fn(&[u8], &[u8], &X) -> i32>(
    f: F,
    arg: &X,
    s: Seq<Seq<u8>>,
    w: nat,
) -> bool {
    exists|ord: spec_fn(Seq<u8>, Seq<u8>) -> int|
        ranks_with(f, arg, ord, w) && total_preorder_on(ord, w) && antisymmetric_on(ord, w) && sorted_by(
            ord,
            s,
        )
}

/// A ranking that `f` computes with `arg` on `w`-byte elements, chosen to
/// order `s` strictly whenever one such exists, widened to all sequences.
pub open spec fn pick_ranking_with<X, F: Fn(&[u8], &[u8], &X) -> i32>(
    f: F,
    arg: &X,
    s: Seq<Seq<u8>>,
    w: nat,
) -> spec_fn(Seq<u8>, Seq<u8>) -> int {
    widen(
        if strictly_sorted_under_with(f, arg, s, w) {
            choose|ord: spec_fn(Seq<u8>, Seq<u8>) -> int|
                ranks_with(f, arg, ord, w) && total_preorder_on(ord, w) && antisymmetric_on(ord, w)
                    && sorted_by(ord, s)
        } else {
            choose|ord: spec_fn(Seq<u8>, Seq<u8>) -> int|
                ranks_with(f, arg, ord, w) && total_preorder_on(ord, w)
        },
        w,
    )
}

/// Sorts in place the first `nmemb` elements of `width` bytes in `base` with
/// the comparator `compar`, which receives `arg` on every call, as C's
/// `qsort_r`. It promises what `qsort` promises.
pub fn qsort_r<X, F: Fn(&[u8], &[u8], &X) -> i32>(
    base: &mut [u8],
    nmemb: usize,
    width: usize,
    compar: Option<F>,
    arg: &X,
)
    requires
        nmemb * width <= old(base)@.len(),
        compar matches Some(f) ==> callable_with(f, arg, width as nat),
    ensures
        unchanged_outside(old(base)@, final(base)@, 0, nmemb * width),
        elements(final(base)@, width as nat, 0, nmemb as nat).to_multiset()
            == elements(old(base)@, width as nat, 0, nmemb as nat).to_multiset(),
        compar is None || nmemb <= 1 ==> final(base)@ == old(base)@,
        compar matches Some(f) ==> (consistent_with(f, arg, width as nat) ==> sorted_under_with(
            f,
            arg,
            elements(final(base)@, width as nat, 0, nmemb as nat),
        )),
        compar matches Some(f) ==> (strictly_sorted_under_with(
            f,
            arg,
            elements(old(base)@, width as nat, 0, nmemb as nat),
            width as nat,
        ) ==> final(base)@ == old(base)@),
{
    if let Some(f) = compar {
        if nmemb > 1 {
            let fr = &f;
            let bound = |a: &[u8], b: &[u8]| -> (r: i32)
                requires
                    fr.requires((a, b, arg)),
                ensures
                    fr.ensures((a, b, arg), r),
                { fr(a, b, arg) };
            let ghost w = width as nat;
            let ghost v0 = elements(base@, w, 0, nmemb as nat);
            let ghost ord = pick_ranking_with(f, arg, v0, w);
            let ghost strict = strictly_sorted_under_with(f, arg, v0, w);
            let ghost inner = if strict {
                choose|ord: spec_fn(Seq<u8>, Seq<u8>) -> int|
                    ranks_with(f, arg, ord, w) && total_preorder_on(ord, w) && antisymmetric_on(ord, w)
                        && sorted_by(ord, v0)
            } else {
                choose|ord: spec_fn(Seq<u8>, Seq<u8>) -> int|
                    ranks_with(f, arg, ord, w) && total_preorder_on(ord, w)
            };
            proof {
                assert(ord == widen(inner, w));
                assert forall|a: &[u8], b: &[u8]|
                    a@.len() == w && b@.len() == w implies #[trigger] bound.requires((a, b)) by {
                    assert(f.requires((a, b, arg)));
                }
                crate::elements::lemma_elements_width(base@, w, 0, nmemb as nat);
                if strict {
                    assert(consistent_with(f, arg, w));
                }
                if consistent_with(f, arg, w) {
                    crate::order::lemma_widen(bound, inner, w);
                    assert forall|a: &[u8], b: &[u8], r: i32|
                        a@.len() == w && b@.len() == w && #[trigger] bound.ensures((a, b), r)
                        implies r as int == ord(a@, b@) by {
                        assert(f.ensures((a, b, arg), r));
                    }
                    assert(follows(bound, ord, w));
                }
            }
            let maxdepth = depth_budget(nmemb);
            introsort_helper(base, width, 0, nmemb, maxdepth, &bound, Ghost(ord));
            proof {
                let v = elements(base@, w, 0, nmemb as nat);
                crate::elements::lemma_elements_width(base@, w, 0, nmemb as nat);
                if consistent_with(f, arg, w) {
                    assert forall|i: int, a: &[u8], b: &[u8], r: i32|
                        #![trigger v[i], f.ensures((a, b, arg), r)]
                        0 <= i < v.len() - 1 && a@ == v[i] && b@ == v[i + 1] && f.ensures(
                            (a, b, arg),
                            r,
                        ) implies r <= 0 by {
                        assert(v[i].len() == w && v[i + 1].len() == w);
                        assert(crate::order::le(ord, v[i], v[i + 1]));
                    }
                    if strict {
                        assert(sorted_by(ord, v0));
                        crate::order::lemma_sorted_by_sorted_range(ord, v0);
                        crate::perm::lemma_sorted_unique(ord, v, v0, w);
                        crate::elements::lemma_elements_determine(old(base)@, base@, w, nmemb as nat);
                    }
                }
            }
        }
    }
}

} // verus!
