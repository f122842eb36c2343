//! A buffer seen as a sequence of fixed-width elements, and the two
//! primitives the sorting engine builds on: comparing and exchanging elements.

use vstd::prelude::*;

use crate::order::{callable, ranks_by};

verus! {

/// Size of the scratch buffer through which two elements are exchanged.
pub const SWAP_BUFFER_SIZE: usize = 128;

/// The `count` elements of `width` bytes each that start at element index
/// `first` of `bytes`.
pub open spec fn elements(bytes: Seq<u8>, width: nat, first: int, count: nat) -> Seq<Seq<u8>> {
    Seq::new(count, |k: int| bytes.subrange((first + k) * width, (first + k) * width + width))
}

/// `new` has the length of `old` and the same bytes outside `[start, end)`.
pub open spec fn unchanged_outside(old: Seq<u8>, new: Seq<u8>, start: int, end: int) -> bool {
    &&& new.len() == old.len()
    &&& forall|k: int| 0 <= k < old.len() && !(start <= k < end) ==> #[trigger] new[k] == old[k]
}

pub proof fn lemma_mul_le(a: int, b: int, w: int)
    requires
        a <= b,
        0 <= w,
    ensures
        a * w <= b * w,
{
    assert(a * w <= b * w) by (nonlinear_arith)
        requires
            a <= b,
            0 <= w,
    ;
}

pub proof fn lemma_mul_succ(a: int, w: int)
    ensures
        (a + 1) * w == a * w + w,
{
    assert((a + 1) * w == a * w + w) by (nonlinear_arith);
}

/// Element `k` of a range lies within the range's bytes.
pub proof fn lemma_element_within(first: int, count: int, k: int, w: int)
    requires
        0 <= first,
        0 <= k < count,
        0 <= w,
    ensures
        first * w <= (first + k) * w,
        (first + k) * w + w <= (first + count) * w,
        0 <= (first + k) * w,
{
    lemma_mul_le(first, first + k, w);
    lemma_mul_le(first + k + 1, first + count, w);
    lemma_mul_succ(first + k, w);
    lemma_mul_le(0, first + k, w);
}

/// Two distinct elements occupy disjoint bytes.
pub proof fn lemma_elements_disjoint(i: int, j: int, w: int)
    requires
        0 <= i < j,
        0 <= w,
    ensures
        i * w + w <= j * w,
{
    lemma_mul_le(i + 1, j, w);
    lemma_mul_succ(i, w);
}

/// The elements of a sub-range are a slice of the elements of the range.
pub proof fn lemma_sub_elements(bytes: Seq<u8>, w: nat, first: int, count: nat, a: int, m: nat)
    requires
        0 <= a,
        a + m <= count,
    ensures
        elements(bytes, w, first + a, m) == elements(bytes, w, first, count).subrange(a, a + m),
{
    assert forall|k: int| 0 <= k < m implies #[trigger] elements(bytes, w, first + a, m)[k]
        == elements(bytes, w, first, count).subrange(a, a + m)[k] by {
        assert(first + a + k == first + (a + k));
    }
    assert(elements(bytes, w, first + a, m) =~= elements(bytes, w, first, count).subrange(a, a + m));
}

/// Work done inside the sub-range `[a, a + m)` of a range leaves the other
/// elements of the range, and the bytes outside the range, as they were.
pub proof fn lemma_frame(old: Seq<u8>, new: Seq<u8>, w: nat, first: int, count: nat, a: int, m: nat)
    requires
        0 <= first,
        0 <= a,
        a + m <= count,
        (first + count) * w <= old.len(),
        unchanged_outside(old, new, (first + a) * w, (first + a + m) * w),
    ensures
        unchanged_outside(old, new, first * w, (first + count) * w),
        forall|k: int|
            0 <= k < count && !(a <= k < a + m) ==> #[trigger] elements(new, w, first, count)[k]
                == elements(old, w, first, count)[k],
{
    lemma_mul_le(first, first + a, w as int);
    lemma_mul_le(first + a + m, first + count, w as int);
    assert forall|k: int| 0 <= k < count && !(a <= k < a + m) implies #[trigger] elements(
        new,
        w,
        first,
        count,
    )[k] == elements(old, w, first, count)[k] by {
        lemma_element_within(first, count as int, k, w as int);
        if k < a {
            lemma_elements_disjoint(first + k, first + a, w as int);
        } else {
            lemma_mul_le(first + a + m, first + k, w as int);
        }
        assert(new.subrange((first + k) * w, (first + k) * w + w) =~= old.subrange(
            (first + k) * w,
            (first + k) * w + w,
        ));
    }
}

/// Exchanges the `w` bytes at `p1` with the `w` bytes at `p2`, a chunk at a
/// time through a fixed scratch buffer.
fn swap_bytes(base: &mut [u8], p1: usize, p2: usize, w: usize)
    requires
        p1 + w <= p2 || p2 + w <= p1,
        p1 + w <= old(base)@.len(),
        p2 + w <= old(base)@.len(),
    ensures
        final(base)@.len() == old(base)@.len(),
        forall|k: int|
            0 <= k < old(base)@.len() ==> #[trigger] final(base)@[k] == if p1 <= k < p1 + w {
                old(base)@[k - p1 + p2]
            } else if p2 <= k < p2 + w {
                old(base)@[k - p2 + p1]
            } else {
                old(base)@[k]
            },
{
    let ghost orig = base@;
    proof {
        assert(base@.len() == base.len());
    }
    let mut buffer: [u8; 128] = [0u8; 128];
    let mut done: usize = 0;
    while done < w
        invariant
            done <= w,
            p1 + w <= p2 || p2 + w <= p1,
            p1 + w <= orig.len(),
            p2 + w <= orig.len(),
            orig.len() <= usize::MAX,
            base@.len() == orig.len(),
            forall|k: int|
                0 <= k < orig.len() ==> #[trigger] base@[k] == if p1 <= k < p1 + done {
                    orig[k - p1 + p2]
                } else if p2 <= k < p2 + done {
                    orig[k - p2 + p1]
                } else {
                    orig[k]
                },
        decreases w - done,
    {
        let chunk: usize = if w - done < SWAP_BUFFER_SIZE {
            w - done
        } else {
            SWAP_BUFFER_SIZE
        };
        let a = p1 + done;
        let b = p2 + done;
        let ghost before = base@;
        let mut t: usize = 0;
        while t < chunk
            invariant
                t <= chunk <= 128,
                a + chunk <= orig.len(),
                before.len() == orig.len(),
                orig.len() <= usize::MAX,
                base@ == before,
                forall|u: int| 0 <= u < t ==> #[trigger] buffer@[u] == before[a + u],
            decreases chunk - t,
        {
            buffer[t] = base[a + t];
            t = t + 1;
        }
        t = 0;
        while t < chunk
            invariant
                t <= chunk <= 128,
                a + chunk <= orig.len(),
                b + chunk <= orig.len(),
                a + chunk <= b || b + chunk <= a,
                before.len() == orig.len(),
                orig.len() <= usize::MAX,
                base@.len() == before.len(),
                forall|u: int| 0 <= u < chunk ==> #[trigger] buffer@[u] == before[a + u],
                forall|k: int|
                    0 <= k < before.len() ==> #[trigger] base@[k] == if a <= k < a + t {
                        before[k - a + b]
                    } else {
                        before[k]
                    },
            decreases chunk - t,
        {
            let x = base[b + t];
            base[a + t] = x;
            t = t + 1;
        }
        let ghost middle = base@;
        t = 0;
        while t < chunk
            invariant
                t <= chunk <= 128,
                a + chunk <= orig.len(),
                b + chunk <= orig.len(),
                a + chunk <= b || b + chunk <= a,
                before.len() == orig.len(),
                orig.len() <= usize::MAX,
                base@.len() == before.len(),
                forall|u: int| 0 <= u < chunk ==> #[trigger] buffer@[u] == before[a + u],
                forall|k: int|
                    0 <= k < before.len() ==> #[trigger] base@[k] == if b <= k < b + t {
                        before[k - b + a]
                    } else {
                        middle[k]
                    },
            decreases chunk - t,
        {
            base[b + t] = buffer[t];
            t = t + 1;
        }
        done = done + chunk;
    }
}

/// Exchanges elements `i` and `j` of the range of `count` elements of `w`
/// bytes that starts at element `first`.
pub fn swap(base: &mut [u8], w: usize, first: usize, count: usize, i: usize, j: usize)
    requires
        i < count,
        j < count,
        first + count <= usize::MAX,
        (first + count) * w <= old(base)@.len(),
    ensures
        unchanged_outside(old(base)@, final(base)@, first * w, (first + count) * w),
        elements(final(base)@, w as nat, first as int, count as nat) == ({
            let v = elements(old(base)@, w as nat, first as int, count as nat);
            v.update(i as int, v[j as int]).update(j as int, v[i as int])
        }),
{
    let ghost orig = base@;
    let ghost v = elements(orig, w as nat, first as int, count as nat);
    if i == j {
        proof {
            assert(v.update(i as int, v[j as int]).update(j as int, v[i as int]) =~= v);
        }
        return;
    }
    proof {
        lemma_element_within(first as int, count as int, i as int, w as int);
        lemma_element_within(first as int, count as int, j as int, w as int);
        if i < j {
            lemma_elements_disjoint(first + i, first + j, w as int);
        } else {
            lemma_elements_disjoint(first + j, first + i, w as int);
        }
    }
    proof {
        assert(base@.len() == base.len());
    }
    let p1 = (first + i) * w;
    let p2 = (first + j) * w;
    swap_bytes(base, p1, p2, w);
    proof {
        let nv = elements(base@, w as nat, first as int, count as nat);
        let expect = v.update(i as int, v[j as int]).update(j as int, v[i as int]);
        assert forall|k: int| 0 <= k < count implies #[trigger] nv[k] == expect[k] by {
            lemma_element_within(first as int, count as int, k, w as int);
            if k == i {
                assert(nv[k] =~= v[j as int]);
            } else if k == j {
                assert(nv[k] =~= v[i as int]);
            } else {
                if k < i {
                    lemma_elements_disjoint(first + k, first + i, w as int);
                } else {
                    lemma_elements_disjoint(first + i, first + k, w as int);
                }
                if k < j {
                    lemma_elements_disjoint(first + k, first + j, w as int);
                } else {
                    lemma_elements_disjoint(first + j, first + k, w as int);
                }
                assert(nv[k] =~= v[k]);
            }
        }
        assert(nv =~= expect);
        lemma_mul_le(first as int, first + i, w as int);
        lemma_mul_le(first as int, first + j, w as int);
    }
}

/// Compares elements `i` and `j` of the range of `count` elements of `w`
/// bytes that starts at element `first`.
pub fn compare<F: Fn(&[u8], &[u8]) -> i32>(
    base: &[u8],
    w: usize,
    first: usize,
    count: usize,
    i: usize,
    j: usize,
    comp: &F,
    Ghost(ord): Ghost<spec_fn(Seq<u8>, Seq<u8>) -> int>,
) -> (r: i32)
    requires
        i < count,
        j < count,
        first + count <= usize::MAX,
        (first + count) * w <= base@.len(),
        callable(*comp, w as nat),
    ensures
        ranks_by(*comp, ord, w as nat) ==> r as int == ord(
            elements(base@, w as nat, first as int, count as nat)[i as int],
            elements(base@, w as nat, first as int, count as nat)[j as int],
        ),
{
    proof {
        lemma_element_within(first as int, count as int, i as int, w as int);
        lemma_element_within(first as int, count as int, j as int, w as int);
    }
    proof {
        assert(base@.len() == base.len());
    }
    let p1 = (first + i) * w;
    let p2 = (first + j) * w;
    let a = &base[p1..p1 + w];
    let b = &base[p2..p2 + w];
    comp(a, b)
}

/// A buffer is determined by its first `count` elements and the bytes after them.
pub proof fn lemma_elements_determine(old: Seq<u8>, new: Seq<u8>, w: nat, count: nat)
    requires
        count * w <= old.len(),
        unchanged_outside(old, new, 0, (count * w) as int),
        elements(new, w, 0, count) == elements(old, w, 0, count),
    ensures
        new == old,
{
    assert forall|k: int| 0 <= k < old.len() implies #[trigger] new[k] == old[k] by {
        if k < count * w {
            assert(w > 0) by (nonlinear_arith)
                requires
                    0 <= k < count * w,
            ;
            let e = k / w as int;
            let off = k % w as int;
            vstd::arithmetic::div_mod::lemma_fundamental_div_mod(k, w as int);
            vstd::arithmetic::div_mod::lemma_mod_bound(k, w as int);
            assert(k == e * w + off) by (nonlinear_arith)
                requires
                    k == w * (k / w as int) + k % w as int,
                    e == k / w as int,
                    off == k % w as int,
            ;
            if e >= count {
                lemma_mul_le(count as int, e, w as int);
            }
            assert(0 <= e) by (nonlinear_arith)
                requires
                    0 <= k,
                    w > 0,
                    e == k / w as int,
            ;
            lemma_element_within(0, count as int, e, w as int);
            assert(elements(new, w, 0, count)[e][off] == new[k]);
            assert(elements(old, w, 0, count)[e][off] == old[k]);
        }
    }
    assert(new =~= old);
}

/// Every element of a range that fits in the buffer has `w` bytes.
pub proof fn lemma_elements_width(bytes: Seq<u8>, w: nat, first: int, count: nat)
    requires
        0 <= first,
        (first + count) * w <= bytes.len(),
    ensures
        crate::order::all_of_width(elements(bytes, w, first, count), w),
{
    assert forall|k: int| 0 <= k < count implies (#[trigger] elements(bytes, w, first, count)[k]).len() == w by {
        lemma_element_within(first, count as int, k, w as int);
    }
}

} // verus!
