//! Sequences in which each element counts once.

use vstd::prelude::*;

verus! {

/// The first position of `t` in `s`, or the length of `s` where `t` does not
/// occur.
pub open spec fn first_index_of<T>(s: Seq<T>, t: T) -> int
    decreases s.len(),
{
    if s.len() == 0 {
        0
    } else if s[0] == t {
        0
    } else {
        1 + first_index_of(s.drop_first(), t)
    }
}

/// `first_index_of` finds the first occurrence, and only misses what is not
/// there.
pub proof fn lemma_first_index_of<T>(s: Seq<T>, t: T)
    ensures
        0 <= first_index_of(s, t) <= s.len(),
        first_index_of(s, t) < s.len() ==> s[first_index_of(s, t)] == t,
        forall|j: int| 0 <= j < first_index_of(s, t) ==> s[j] != t,
        first_index_of(s, t) == s.len() <==> !s.contains(t),
    decreases s.len(),
{
    if s.len() > 0 && s[0] != t {
        let rest = s.drop_first();
        lemma_first_index_of(rest, t);
        let p = first_index_of(rest, t);
        assert forall|j: int| 0 <= j < p + 1 implies s[j] != t by {
            if j > 0 {
                assert(s[j] == rest[j - 1]);
            }
        }
        if p < rest.len() {
            assert(s[p + 1] == rest[p]);
        } else {
            assert forall|j: int| 0 <= j < s.len() implies s[j] != t by {}
        }
    }
}

/// The elements of `s`, each once, in the order of first occurrence.
pub open spec fn unique<T>(s: Seq<T>) -> Seq<T>
    decreases s.len(),
{
    if s.len() == 0 {
        Seq::empty()
    } else {
        let before = unique(s.drop_last());
        if before.contains(s.last()) {
            before
        } else {
            before.push(s.last())
        }
    }
}

/// `unique` keeps each element of `s` once and adds none.
pub proof fn lemma_unique<T>(s: Seq<T>)
    ensures
        unique(s).no_duplicates(),
        unique(s).len() <= s.len(),
        forall|t: T| unique(s).contains(t) <==> s.contains(t),
    decreases s.len(),
{
    if s.len() > 0 {
        let init = s.drop_last();
        let last = s.last();
        lemma_unique(init);
        let before = unique(init);
        assert forall|t: T| unique(s).contains(t) <==> s.contains(t) by {
            if unique(s).contains(t) {
                let k = choose|k: int| 0 <= k < unique(s).len() && unique(s)[k] == t;
                if k < before.len() {
                    assert(before[k] == t);
                    assert(before.contains(t));
                    assert(init.contains(t));
                    let i = choose|i: int| 0 <= i < init.len() && init[i] == t;
                    assert(s[i] == t);
                } else {
                    assert(s[s.len() - 1] == t);
                }
            }
            if s.contains(t) {
                let i = choose|i: int| 0 <= i < s.len() && s[i] == t;
                if i < init.len() {
                    assert(init[i] == t);
                    assert(init.contains(t));
                    assert(before.contains(t));
                    let k = choose|k: int| 0 <= k < before.len() && before[k] == t;
                    if !before.contains(last) {
                        assert(before.push(last)[k] == t);
                    }
                } else {
                    if before.contains(last) {
                    } else {
                        assert(before.push(last)[before.len() as int] == t);
                    }
                }
            }
        }
    }
}

/// `have` followed by the elements of `new` that are not there yet, each
/// once.
pub open spec fn merged<T>(have: Seq<T>, new: Seq<T>) -> Seq<T>
    decreases new.len(),
{
    if new.len() == 0 {
        have
    } else {
        let before = merged(have, new.drop_last());
        if before.contains(new.last()) {
            before
        } else {
            before.push(new.last())
        }
    }
}

/// Keeping each element once can be done run by run.
pub proof fn lemma_unique_merged<T>(a: Seq<T>, b: Seq<T>)
    ensures
        unique(a + b) == merged(unique(a), b),
    decreases b.len(),
{
    if b.len() == 0 {
        assert(a + b == a);
    } else {
        assert((a + b).drop_last() == a + b.drop_last());
        assert((a + b).last() == b.last());
        lemma_unique_merged(a, b.drop_last());
    }
}

} // verus!
