//! Duplicate-free sequences read as sets: what replacing or appending an
//! element does to the set of elements.

use vstd::prelude::*;

verus! {

/// Replacing element `i` of a duplicate-free sequence by a value found
/// nowhere else in it.
pub proof fn lemma_update_set<T>(s: Seq<T>, i: int, x: T)
    requires
        0 <= i < s.len(),
        s.no_duplicates(),
        forall|j: int| 0 <= j < s.len() && j != i ==> s[j] != x,
    ensures
        s.update(i, x).to_set() == s.to_set().remove(s[i]).insert(x),
        s.update(i, x).no_duplicates(),
{
    let t = s.update(i, x);
    assert forall|y: T| t.to_set().contains(y) <==> s.to_set().remove(s[i]).insert(x).contains(y) by {
        if t.contains(y) {
            let j = choose|j: int| 0 <= j < t.len() && t[j] == y;
            if j != i {
                assert(s[j] == y);
            }
        }
        if y != x && s.contains(y) && y != s[i] {
            let j = choose|j: int| 0 <= j < s.len() && s[j] == y;
            assert(t[j] == y);
        }
        if y == x {
            assert(t[i] == x);
        }
    }
    assert(t.to_set() =~= s.to_set().remove(s[i]).insert(x));
}

/// Appending a value not yet present.
pub proof fn lemma_push_set<T>(s: Seq<T>, x: T)
    requires
        s.no_duplicates(),
        !s.contains(x),
    ensures
        s.push(x).to_set() == s.to_set().insert(x),
        s.push(x).no_duplicates(),
{
    let t = s.push(x);
    assert forall|y: T| t.to_set().contains(y) <==> s.to_set().insert(x).contains(y) by {
        if t.contains(y) {
            let j = choose|j: int| 0 <= j < t.len() && t[j] == y;
            if j < s.len() {
                assert(s[j] == y);
            }
        }
        if s.contains(y) {
            let j = choose|j: int| 0 <= j < s.len() && s[j] == y;
            assert(t[j] == y);
        }
        if y == x {
            assert(t[s.len() as int] == x);
        }
    }
    assert(t.to_set() =~= s.to_set().insert(x));
    assert forall|a: int, b: int| 0 <= a < t.len() && 0 <= b < t.len() && a != b implies t[a]
        != t[b] by {
        if a == s.len() {
            assert(s.contains(t[b]));
        } else if b == s.len() {
            assert(s.contains(t[a]));
        }
    }
}

} // verus!
