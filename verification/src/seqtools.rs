//! Small general facts about sequences: distinct values in
//! first-occurrence order, occurrence counts, and membership under
//! `push` and `insert`.

use vstd::prelude::*;

verus! {

/// The distinct values of `s`, in first-occurrence order.
pub open spec fn firsts<T>(s: Seq<T>) -> Seq<T>
    decreases s.len(),
{
    if s.len() == 0 {
        Seq::empty()
    } else {
        let rest = firsts(s.drop_last());
        if s.drop_last().contains(s.last()) {
            rest
        } else {
            rest.push(s.last())
        }
    }
}

/// How often `x` occurs in `s`.
pub open spec fn count_occ<T>(s: Seq<T>, x: T) -> int
    decreases s.len(),
{
    if s.len() == 0 {
        0
    } else {
        count_occ(s.drop_last(), x) + if s.last() == x {
            1int
        } else {
            0int
        }
    }
}

/// Membership in a pushed sequence.
pub proof fn lemma_push_contains<T>(s: Seq<T>, x: T, y: T)
    ensures
        s.push(x).contains(y) <==> (s.contains(y) || x == y),
{
    if s.push(x).contains(y) {
        let k = choose|k: int| 0 <= k < s.push(x).len() && s.push(x)[k] == y;
        if k < s.len() {
            assert(s[k] == y);
        }
    }
    if s.contains(y) {
        let k = choose|k: int| 0 <= k < s.len() && s[k] == y;
        assert(s.push(x)[k] == y);
    }
    if x == y {
        assert(s.push(x)[s.len() as int] == y);
    }
}

/// Membership in a sequence with one value inserted.
pub proof fn lemma_insert_contains<T>(s: Seq<T>, pos: int, x: T, y: T)
    requires
        0 <= pos <= s.len(),
    ensures
        s.insert(pos, x).contains(y) <==> (s.contains(y) || x == y),
{
    let t = s.insert(pos, x);
    if t.contains(y) {
        let k = choose|k: int| 0 <= k < t.len() && t[k] == y;
        if k < pos {
            assert(s[k] == y);
        } else if k > pos {
            assert(s[k - 1] == y);
        }
    }
    if s.contains(y) {
        let k = choose|k: int| 0 <= k < s.len() && s[k] == y;
        if k < pos {
            assert(t[k] == y);
        } else {
            assert(t[k + 1] == y);
        }
    }
    if x == y {
        assert(t[pos] == y);
    }
}

/// A value occurs among the distinct values exactly when it occurs at
/// all.
pub proof fn lemma_firsts_contains<T>(s: Seq<T>, x: T)
    ensures
        firsts(s).contains(x) <==> s.contains(x),
    decreases s.len(),
{
    if s.len() > 0 {
        lemma_firsts_contains(s.drop_last(), x);
        lemma_push_contains(firsts(s.drop_last()), s.last(), x);
        assert(s.contains(x) <==> (s.drop_last().contains(x) || s.last() == x)) by {
            if s.contains(x) {
                let k = choose|k: int| 0 <= k < s.len() && s[k] == x;
                if k < s.len() - 1 {
                    assert(s.drop_last()[k] == x);
                }
            }
            if s.drop_last().contains(x) {
                let k = choose|k: int| 0 <= k < s.drop_last().len() && s.drop_last()[k] == x;
                assert(s[k] == x);
            }
        }
    }
}

/// The distinct values of a sequence are pairwise distinct.
pub proof fn lemma_firsts_distinct<T>(s: Seq<T>)
    ensures
        forall|a: int, b: int| 0 <= a < b < firsts(s).len() ==> firsts(s)[a] != firsts(s)[b],
    decreases s.len(),
{
    if s.len() > 0 {
        lemma_firsts_distinct(s.drop_last());
        if !s.drop_last().contains(s.last()) {
            lemma_firsts_contains(s.drop_last(), s.last());
            assert(!firsts(s.drop_last()).contains(s.last()));
            assert forall|a: int, b: int|
                0 <= a < b < firsts(s).len() implies firsts(s)[a] != firsts(s)[b] by {
                if b == firsts(s).len() - 1 {
                    if firsts(s)[a] == s.last() {
                        assert(firsts(s.drop_last())[a] == s.last());
                        assert(firsts(s.drop_last()).contains(s.last()));
                    }
                } else {
                    assert(firsts(s)[a] == firsts(s.drop_last())[a]);
                    assert(firsts(s)[b] == firsts(s.drop_last())[b]);
                }
            }
        } else {
            assert(firsts(s) == firsts(s.drop_last()));
            assert forall|a: int, b: int|
                0 <= a < b < firsts(s).len() implies firsts(s)[a] != firsts(s)[b] by {
                assert(firsts(s)[a] == firsts(s.drop_last())[a]);
                assert(firsts(s)[b] == firsts(s.drop_last())[b]);
            }
        }
    }
}

/// A value that does not occur has occurrence count zero.
pub proof fn lemma_count_occ_zero<T>(s: Seq<T>, x: T)
    requires
        !s.contains(x),
    ensures
        count_occ(s, x) == 0,
    decreases s.len(),
{
    if s.len() > 0 {
        assert(!s.drop_last().contains(x)) by {
            if s.drop_last().contains(x) {
                let k = choose|k: int| 0 <= k < s.drop_last().len() && s.drop_last()[k] == x;
                assert(s[k] == x);
            }
        }
        assert(s.last() != x) by {
            if s.last() == x {
                assert(s[s.len() - 1] == x);
            }
        }
        lemma_count_occ_zero(s.drop_last(), x);
    }
}

} // verus!
