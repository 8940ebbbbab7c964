//! Ordering of result lists. A type with a total preorder (`Ordered`) can be
//! inserted into a sorted vector keeping it sorted, which is how every listing
//! here is put in the order its query asks for.

use vstd::prelude::*;

verus! {

/// A total preorder on `Self`, with an executable comparison.
pub trait Ordered: Sized {
    spec fn key_le(a: Self, b: Self) -> bool;

    proof fn lemma_key_total(a: Self, b: Self)
        ensures
            Self::key_le(a, b) || Self::key_le(b, a),
    ;

    proof fn lemma_key_trans(a: Self, b: Self, c: Self)
        requires
            Self::key_le(a, b),
            Self::key_le(b, c),
        ensures
            Self::key_le(a, c),
    ;

    fn le(&self, other: &Self) -> (r: bool)
        ensures
            r == Self::key_le(*self, *other),
    ;
}

/// `s` is in non-decreasing order.
pub open spec fn sorted<T: Ordered>(s: Seq<T>) -> bool {
    forall|i: int, j: int| 0 <= i < j < s.len() ==> T::key_le(#[trigger] s[i], #[trigger] s[j])
}

/// Inserts `x` into the sorted `v`, after every element not above it.
pub fn insert_sorted<T: Ordered>(v: &mut Vec<T>, x: T)
    requires
        sorted(old(v)@),
    ensures
        sorted(final(v)@),
        final(v)@.len() == old(v)@.len() + 1,
        exists|k: int| 0 <= k <= old(v)@.len() && final(v)@ == old(v)@.insert(k, x),
{
    let n = v.len();
    let mut k: usize = 0;
    while k < n && v[k].le(&x)
        invariant
            n == v@.len(),
            k <= n,
            v@ == old(v)@,
            sorted(v@),
            forall|i: int| 0 <= i < k ==> T::key_le(#[trigger] v@[i], x),
        decreases n - k,
    {
        k = k + 1;
    }
    let ghost before = v@;
    v.insert(k, x);
    proof {
        assert(v@ == before.insert(k as int, x));
        assert forall|i: int, j: int| 0 <= i < j < v@.len() implies T::key_le(
            #[trigger] v@[i],
            #[trigger] v@[j],
        ) by {
            if k < n {
                assert(!T::key_le(before[k as int], x));
                T::lemma_key_total(before[k as int], x);
            }
            if i < k && j < k {
                assert(v@[i] == before[i] && v@[j] == before[j]);
            } else if i < k && j == k {
                assert(v@[i] == before[i]);
            } else if i < k && j > k {
                assert(v@[i] == before[i] && v@[j] == before[j - 1]);
                if j - 1 < k {
                } else {
                    assert(T::key_le(before[i], before[j - 1]));
                }
            } else if i == k {
                assert(v@[j] == before[j - 1]);
                if j - 1 > k {
                    assert(T::key_le(before[k as int], before[j - 1]));
                    T::lemma_key_trans(x, before[k as int], before[j - 1]);
                }
            } else {
                assert(v@[i] == before[i - 1] && v@[j] == before[j - 1]);
            }
        }
    }
}

/// What inserting into a sequence does to membership and to distinctness.
pub proof fn lemma_insert_contains<T>(s: Seq<T>, k: int, x: T)
    requires
        0 <= k <= s.len(),
    ensures
        forall|y: T| #[trigger] s.insert(k, x).contains(y) <==> s.contains(y) || y == x,
        s.no_duplicates() && !s.contains(x) ==> s.insert(k, x).no_duplicates(),
{
    let t = s.insert(k, x);
    assert forall|y: T| #[trigger] t.contains(y) <==> s.contains(y) || y == x by {
        if t.contains(y) {
            let i = choose|i: int| 0 <= i < t.len() && t[i] == y;
            if i < k {
                assert(s[i] == y);
            } else if i > k {
                assert(s[i - 1] == y);
            }
        }
        if s.contains(y) {
            let i = choose|i: int| 0 <= i < s.len() && s[i] == y;
            if i < k {
                assert(t[i] == y);
            } else {
                assert(t[i + 1] == y);
            }
        }
        if y == x {
            assert(t[k] == x);
        }
    }
    if s.no_duplicates() && !s.contains(x) {
        assert forall|i: int, j: int| 0 <= i < t.len() && 0 <= j < t.len() && i != j implies t[i]
            != t[j] by {
            if i == k {
                if j < k {
                    assert(s.contains(s[j]));
                } else {
                    assert(s.contains(s[j - 1]));
                }
            } else if j == k {
                if i < k {
                    assert(s.contains(s[i]));
                } else {
                    assert(s.contains(s[i - 1]));
                }
            } else {
                let si = if i < k {
                    i
                } else {
                    i - 1
                };
                let sj = if j < k {
                    j
                } else {
                    j - 1
                };
                assert(t[i] == s[si] && t[j] == s[sj]);
            }
        }
    }
}

} // verus!
