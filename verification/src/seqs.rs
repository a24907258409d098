//! Small sequence lemmas shared by the queue invariants: how freedom from
//! duplicates survives pushing, dropping, removing and inserting elements.

use vstd::prelude::*;

verus! {

/// Pushing an element a sequence does not contain keeps it duplicate-free.
pub proof fn lemma_no_dup_push<A>(s: Seq<A>, x: A)
    requires
        s.no_duplicates(),
        !s.contains(x),
    ensures
        s.push(x).no_duplicates(),
{
    let t = s.push(x);
    assert forall|a: int, b: int|
        0 <= a < t.len() && 0 <= b < t.len() && a != b implies t[a] != t[b] by {
        if a < s.len() && b < s.len() {
            assert(s[a] != s[b]);
        } else if a < s.len() {
            assert(!(s[a] == x)) by {
                if s[a] == x {
                    assert(s.contains(x));
                }
            }
        } else {
            assert(!(s[b] == x)) by {
                if s[b] == x {
                    assert(s.contains(x));
                }
            }
        }
    }
}

/// Dropping the front element keeps a sequence duplicate-free.
pub proof fn lemma_no_dup_drop_first<A>(s: Seq<A>)
    requires
        s.no_duplicates(),
        s.len() >= 1,
    ensures
        s.drop_first().no_duplicates(),
{
    let t = s.drop_first();
    assert forall|a: int, b: int|
        0 <= a < t.len() && 0 <= b < t.len() && a != b implies t[a] != t[b] by {
        assert(t[a] == s[a + 1]);
        assert(t[b] == s[b + 1]);
    }
}

/// Removing any element keeps a sequence duplicate-free.
pub proof fn lemma_no_dup_remove<A>(s: Seq<A>, j: int)
    requires
        s.no_duplicates(),
        0 <= j < s.len(),
    ensures
        s.remove(j).no_duplicates(),
{
    let t = s.remove(j);
    assert forall|a: int, b: int|
        0 <= a < t.len() && 0 <= b < t.len() && a != b implies t[a] != t[b] by {
        let a0 = if a < j {
            a
        } else {
            a + 1
        };
        let b0 = if b < j {
            b
        } else {
            b + 1
        };
        assert(t[a] == s[a0]);
        assert(t[b] == s[b0]);
    }
}

/// Inserting an element a sequence does not contain, at any position, keeps
/// it duplicate-free.
pub proof fn lemma_no_dup_insert<A>(s: Seq<A>, x: A, p: int)
    requires
        s.no_duplicates(),
        !s.contains(x),
        0 <= p <= s.len(),
    ensures
        s.insert(p, x).no_duplicates(),
{
    let t = s.insert(p, x);
    assert forall|a: int, b: int|
        0 <= a < t.len() && 0 <= b < t.len() && a != b implies t[a] != t[b] by {
        if a != p && b != p {
            let a0 = if a < p {
                a
            } else {
                a - 1
            };
            let b0 = if b < p {
                b
            } else {
                b - 1
            };
            assert(t[a] == s[a0]);
            assert(t[b] == s[b0]);
        } else {
            let c = if a == p {
                b
            } else {
                a
            };
            let c0 = if c < p {
                c
            } else {
                c - 1
            };
            assert(t[c] == s[c0]);
            assert(!(s[c0] == x)) by {
                if s[c0] == x {
                    assert(s.contains(x));
                }
            }
        }
    }
}

} // verus!
