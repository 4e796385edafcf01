//! Strictly sorted sequences of node identifiers.
//!
//! The search keeps its branch keys and its candidate sets in ascending
//! order so that every traversal of them is deterministic.  This module
//! gives the ordered-insertion primitive used for that, together with the
//! facts the rest of the crate needs about it.

use vstd::prelude::*;

verus! {

/// A sequence is strictly ascending: no duplicates, increasing order.
pub open spec fn strictly_sorted(s: Seq<u64>) -> bool {
    forall|i: int, j: int| 0 <= i < j < s.len() ==> s[i] < s[j]
}

/// Insertion of `x` into an ascending sequence, keeping order and dropping
/// the insertion when `x` is already present.
pub open spec fn sorted_insert_seq(s: Seq<u64>, x: u64) -> Seq<u64>
    decreases s.len(),
{
    if s.len() == 0 {
        seq![x]
    } else if x < s[0] {
        seq![x] + s
    } else if x == s[0] {
        s
    } else {
        seq![s[0]] + sorted_insert_seq(s.drop_first(), x)
    }
}

/// The distinct values of `s`, in ascending order, built by inserting the
/// elements of `s` from front to back.
pub open spec fn sorted_uniq(s: Seq<u64>) -> Seq<u64>
    decreases s.len(),
{
    if s.len() == 0 {
        Seq::<u64>::empty()
    } else {
        sorted_insert_seq(sorted_uniq(s.drop_last()), s.last())
    }
}

/// Ordered insertion keeps a sequence ascending and adds exactly the new
/// value to its members; the length grows only when the value was absent.
pub proof fn lemma_sorted_insert_props(s: Seq<u64>, x: u64)
    requires
        strictly_sorted(s),
    ensures
        strictly_sorted(sorted_insert_seq(s, x)),
        sorted_insert_seq(s, x).contains(x),
        forall|y: u64| #[trigger]
            sorted_insert_seq(s, x).contains(y) ==> (s.contains(y) || y == x),
        forall|y: u64| #[trigger] s.contains(y) ==> sorted_insert_seq(s, x).contains(y),
        sorted_insert_seq(s, x).len() == if s.contains(x) {
            s.len() as int
        } else {
            s.len() + 1 as int
        },
    decreases s.len(),
{
    let r = sorted_insert_seq(s, x);
    if s.len() == 0 {
        assert(r[0] == x);
        assert(r.contains(x));
        assert(!s.contains(x));
        assert forall|y: u64| #[trigger] r.contains(y) implies (s.contains(y) || y == x) by {
            let i = choose|i: int| 0 <= i < r.len() && r[i] == y;
            assert(0 <= i < r.len() && r[i] == y);
            assert(y == x);
        }
    } else if x < s[0] {
        assert(r == seq![x] + s);
        assert(r[0] == x);
        assert(r.contains(x));
        assert forall|i: int| 0 <= i < s.len() implies s[i] > x by {
            if i > 0 {
                assert(s[0] < s[i]);
            }
        }
        assert(!s.contains(x));
        assert forall|y: u64| #[trigger] r.contains(y) implies (s.contains(y) || y == x) by {
            let i = choose|i: int| 0 <= i < r.len() && r[i] == y;
            assert(0 <= i < r.len() && r[i] == y);
            if i > 0 {
                assert(s[i - 1] == y);
                assert(s.contains(y));
            }
        }
        assert forall|y: u64| #[trigger] s.contains(y) implies r.contains(y) by {
            let i = choose|i: int| 0 <= i < s.len() && s[i] == y;
            assert(0 <= i < s.len() && s[i] == y);
            assert(r[i + 1] == y);
            assert(r.contains(y));
        }
    } else if x == s[0] {
        assert(r == s);
        assert(s[0] == x);
        assert(s.contains(x));
    } else {
        let t = s.drop_first();
        assert(t.len() == s.len() - 1);
        assert forall|k: int| 0 <= k < t.len() implies t[k] == s[k + 1] by {}
        assert(strictly_sorted(t));
        lemma_sorted_insert_props(t, x);
        let rt = sorted_insert_seq(t, x);
        assert(r == seq![s[0]] + rt);
        assert forall|i: int, j: int| 0 <= i < j < r.len() implies r[i] < r[j] by {
            if 0 < i {
                assert(r[i] == rt[i - 1] && r[j] == rt[j - 1]);
            } else {
                assert(r[0] == s[0]);
                assert(r[j] == rt[j - 1]);
                assert(rt.contains(rt[j - 1]));
                if rt[j - 1] == x {
                    assert(s[0] < x);
                } else {
                    assert(t.contains(rt[j - 1]));
                    let k = choose|k: int| 0 <= k < t.len() && t[k] == rt[j - 1];
                    assert(0 <= k < t.len() && t[k] == rt[j - 1]);
                    assert(t[k] == s[k + 1]);
                    assert(s[0] < s[k + 1]);
                }
            }
        }
        assert(rt.contains(x));
        let kx = choose|k: int| 0 <= k < rt.len() && rt[k] == x;
        assert(0 <= kx < rt.len() && rt[kx] == x);
        assert(r[kx + 1] == x);
        assert(r.contains(x));
        assert forall|y: u64| #[trigger] r.contains(y) implies (s.contains(y) || y == x) by {
            let i = choose|i: int| 0 <= i < r.len() && r[i] == y;
            assert(0 <= i < r.len() && r[i] == y);
            if i == 0 {
                assert(s[0] == y);
                assert(s.contains(y));
            } else {
                assert(rt[i - 1] == y);
                assert(rt.contains(y));
                if y != x {
                    assert(t.contains(y));
                    let k = choose|k: int| 0 <= k < t.len() && t[k] == y;
                    assert(0 <= k < t.len() && t[k] == y);
                    assert(s[k + 1] == y);
                    assert(s.contains(y));
                }
            }
        }
        assert forall|y: u64| #[trigger] s.contains(y) implies r.contains(y) by {
            let i = choose|i: int| 0 <= i < s.len() && s[i] == y;
            assert(0 <= i < s.len() && s[i] == y);
            if i == 0 {
                assert(r[0] == y);
                assert(r.contains(y));
            } else {
                assert(t[i - 1] == y);
                assert(t.contains(y));
                assert(rt.contains(y));
                let k = choose|k: int| 0 <= k < rt.len() && rt[k] == y;
                assert(0 <= k < rt.len() && rt[k] == y);
                assert(r[k + 1] == y);
                assert(r.contains(y));
            }
        }
        if s.contains(x) {
            assert(t.contains(x)) by {
                let i = choose|i: int| 0 <= i < s.len() && s[i] == x;
                assert(0 <= i < s.len() && s[i] == x);
                assert(i != 0);
                assert(t[i - 1] == x);
            }
        }
        if t.contains(x) {
            let i = choose|i: int| 0 <= i < t.len() && t[i] == x;
            assert(0 <= i < t.len() && t[i] == x);
            assert(s[i + 1] == x);
            assert(s.contains(x));
        }
    }
}

/// Where the scan of an ascending sequence stops tells the whole story of
/// the ordered insertion: either the value was already there, or it goes
/// in at exactly that position.
pub proof fn lemma_sorted_insert_at(s: Seq<u64>, x: u64, k: int)
    requires
        strictly_sorted(s),
        0 <= k <= s.len(),
        forall|j: int| 0 <= j < k ==> s[j] < x,
        k < s.len() ==> s[k] >= x,
    ensures
        sorted_insert_seq(s, x) == if k < s.len() && s[k] == x {
            s
        } else {
            s.subrange(0, k) + seq![x] + s.subrange(k, s.len() as int)
        },
    decreases k,
{
    let r = sorted_insert_seq(s, x);
    if k == 0 {
        if s.len() == 0 {
            assert(r =~= s.subrange(0, 0) + seq![x] + s.subrange(0, 0));
        } else if x < s[0] {
            assert(r =~= s.subrange(0, 0) + seq![x] + s.subrange(0, s.len() as int));
        } else {
            assert(s[0] == x);
        }
    } else {
        assert(s[0] < x);
        let t = s.drop_first();
        lemma_sorted_insert_at(t, x, k - 1);
        let rt = sorted_insert_seq(t, x);
        if k < s.len() && s[k] == x {
            assert(t[k - 1] == x);
            assert(r =~= s);
        } else {
            assert(rt == t.subrange(0, k - 1) + seq![x] + t.subrange(k - 1, t.len() as int));
            assert(r =~= s.subrange(0, k) + seq![x] + s.subrange(k, s.len() as int));
        }
    }
}

/// The members of the ascending deduplication are exactly the members of
/// the original sequence.
pub proof fn lemma_sorted_uniq_props(s: Seq<u64>)
    ensures
        strictly_sorted(sorted_uniq(s)),
        forall|y: u64| #[trigger] sorted_uniq(s).contains(y) ==> s.contains(y),
        forall|y: u64| #[trigger] s.contains(y) ==> sorted_uniq(s).contains(y),
    decreases s.len(),
{
    if s.len() == 0 {
    } else {
        let t = s.drop_last();
        assert(t.len() == s.len() - 1);
        assert forall|k: int| 0 <= k < t.len() implies t[k] == s[k] by {}
        lemma_sorted_uniq_props(t);
        lemma_sorted_insert_props(sorted_uniq(t), s.last());
        assert(sorted_uniq(s) == sorted_insert_seq(sorted_uniq(t), s.last()));
        assert forall|y: u64| #[trigger] sorted_uniq(s).contains(y) implies s.contains(y) by {
            assert(sorted_uniq(t).contains(y) || y == s.last());
            if y == s.last() {
                assert(s[s.len() - 1] == y);
                assert(s.contains(y));
            } else {
                assert(t.contains(y));
                let i = choose|i: int| 0 <= i < t.len() && t[i] == y;
                assert(0 <= i < t.len() && t[i] == y);
                assert(s[i] == y);
                assert(s.contains(y));
            }
        }
        assert forall|y: u64| #[trigger] s.contains(y) implies sorted_uniq(s).contains(y) by {
            let i = choose|i: int| 0 <= i < s.len() && s[i] == y;
            assert(0 <= i < s.len() && s[i] == y);
            if i < s.len() - 1 {
                assert(t[i] == y);
                assert(t.contains(y));
                assert(sorted_uniq(t).contains(y));
                assert(sorted_uniq(s).contains(y));
            } else {
                assert(y == s.last());
                assert(sorted_uniq(s).contains(y));
            }
        }
    }
}

/// Deduplicating a sequence without duplicates keeps its length.
pub proof fn lemma_sorted_uniq_len(s: Seq<u64>)
    requires
        s.no_duplicates(),
    ensures
        sorted_uniq(s).len() == s.len(),
    decreases s.len(),
{
    if s.len() > 0 {
        let t = s.drop_last();
        assert(t.len() == s.len() - 1);
        assert forall|k: int| 0 <= k < t.len() implies t[k] == s[k] by {}
        assert(t.no_duplicates());
        lemma_sorted_uniq_len(t);
        lemma_sorted_uniq_props(t);
        lemma_sorted_insert_props(sorted_uniq(t), s.last());
        assert(!t.contains(s.last())) by {
            if t.contains(s.last()) {
                let i = choose|i: int| 0 <= i < t.len() && t[i] == s.last();
                assert(0 <= i < t.len() && t[i] == s.last());
                assert(s[i] == s[s.len() - 1]);
            }
        }
        assert(!sorted_uniq(t).contains(s.last()));
    }
}

/// Whether `x` occurs in `v`.
pub fn vec_contains(v: &Vec<u64>, x: u64) -> (b: bool)
    ensures
        b == v@.contains(x),
{
    let mut i: usize = 0;
    while i < v.len()
        invariant
            i <= v.len(),
            forall|j: int| 0 <= j < i ==> v@[j] != x,
        decreases v.len() - i,
    {
        if v[i] == x {
            return true;
        }
        i += 1;
    }
    false
}

/// Insert `x` into the ascending vector `v`, leaving `v` unchanged when it
/// already holds `x`.
pub fn sorted_insert(v: &mut Vec<u64>, x: u64)
    requires
        strictly_sorted(old(v)@),
    ensures
        final(v)@ == sorted_insert_seq(old(v)@, x),
        strictly_sorted(final(v)@),
{
    let ghost s = v@;
    let mut i: usize = 0;
    while i < v.len() && v[i] < x
        invariant
            v@ == s,
            i <= v.len(),
            forall|j: int| 0 <= j < i ==> v@[j] < x,
            strictly_sorted(s),
        decreases v.len() - i,
    {
        i += 1;
    }
    proof {
        lemma_sorted_insert_at(s, x, i as int);
        lemma_sorted_insert_props(s, x);
    }
    if i < v.len() && v[i] == x {
    } else {
        v.insert(i, x);
        proof {
            assert(v@ =~= s.subrange(0, i as int) + seq![x] + s.subrange(i as int, s.len() as int));
        }
    }
}

} // verus!
