//! Association lists keyed by strings.
//!
//! Every map of the engine (participant balances, the property registry,
//! the voting board) is a vector of key/value pairs with pairwise distinct
//! keys.  The spec functions here give such a vector its mathematical
//! reading, and the lemmas relate lookups before and after a point update
//! or an append.

use vstd::prelude::*;

verus! {

/// The keys of the pairs are pairwise distinct.
pub open spec fn keys_unique<V>(s: Seq<(String, V)>) -> bool {
    forall|i: int, j: int| 0 <= i < j < s.len() ==> s[i].0@ != s[j].0@
}

/// Some pair carries the key `k`.
pub open spec fn has_key<V>(s: Seq<(String, V)>, k: Seq<char>) -> bool {
    exists|i: int| 0 <= i < s.len() && s[i].0@ == k
}

/// The index of the pair carrying key `k` (meaningful when `has_key` holds
/// and the keys are distinct).
pub open spec fn key_index<V>(s: Seq<(String, V)>, k: Seq<char>) -> int {
    choose|i: int| 0 <= i < s.len() && s[i].0@ == k
}

/// With distinct keys, the pair at index `i` is found exactly there.
pub proof fn lemma_key_at<V>(s: Seq<(String, V)>, i: int)
    requires
        keys_unique(s),
        0 <= i < s.len(),
    ensures
        has_key(s, s[i].0@),
        key_index(s, s[i].0@) == i,
{
    assert(has_key(s, s[i].0@)) by {
        assert(0 <= i < s.len() && s[i].0@ == s[i].0@);
    }
    let j = key_index(s, s[i].0@);
    assert(0 <= j < s.len() && s[j].0@ == s[i].0@);
    if i < j {
        assert(s[i].0@ != s[j].0@);
    } else if j < i {
        assert(s[j].0@ != s[i].0@);
    }
}

/// Replacing the pair at index `i` by one with the same key leaves every
/// lookup position unchanged.
pub proof fn lemma_keys_update<V>(s: Seq<(String, V)>, i: int, nv: (String, V))
    requires
        keys_unique(s),
        0 <= i < s.len(),
        nv.0@ == s[i].0@,
    ensures
        keys_unique(s.update(i, nv)),
        forall|k: Seq<char>| has_key(s.update(i, nv), k) == has_key(s, k),
        forall|k: Seq<char>| has_key(s, k) ==> #[trigger] key_index(s.update(i, nv), k) == key_index(s, k),
{
    let t = s.update(i, nv);
    assert forall|p: int, q: int| 0 <= p < q < t.len() implies t[p].0@ != t[q].0@ by {
        assert(s[p].0@ != s[q].0@);
    }
    assert forall|k: Seq<char>| has_key(t, k) == has_key(s, k) by {
        if has_key(s, k) {
            let w = key_index::<V>(s, k);
            assert(0 <= w < t.len() && t[w].0@ == k);
        }
        if has_key(t, k) {
            let w = key_index::<V>(t, k);
            assert(0 <= w < s.len() && s[w].0@ == k);
        }
    }
    assert forall|k: Seq<char>| has_key(s, k) implies #[trigger] key_index(t, k) == key_index(s, k) by {
        let w = key_index::<V>(s, k);
        assert(0 <= w < s.len() && s[w].0@ == k);
        assert(t[w].0@ == k);
        lemma_key_at(t, w);
    }
}

/// Appending a pair with a fresh key keeps the keys distinct, finds the new
/// key at the end, and leaves every other lookup unchanged.
pub proof fn lemma_keys_push<V>(s: Seq<(String, V)>, nv: (String, V))
    requires
        keys_unique(s),
        !has_key(s, nv.0@),
    ensures
        keys_unique(s.push(nv)),
        has_key(s.push(nv), nv.0@),
        key_index(s.push(nv), nv.0@) == s.len(),
        forall|k: Seq<char>| #[trigger] has_key(s.push(nv), k) == (has_key(s, k) || k == nv.0@),
        forall|k: Seq<char>| has_key(s, k) ==> #[trigger] key_index(s.push(nv), k) == key_index(s, k),
{
    let t = s.push(nv);
    assert forall|p: int, q: int| 0 <= p < q < t.len() implies t[p].0@ != t[q].0@ by {
        if q < s.len() {
            assert(s[p].0@ != s[q].0@);
        } else {
            assert(t[q] == nv);
            if t[p].0@ == nv.0@ {
                assert(0 <= p < s.len() && s[p].0@ == nv.0@);
                assert(has_key(s, nv.0@));
            }
        }
    }
    assert(keys_unique(t));
    assert(t[s.len() as int].0@ == nv.0@);
    lemma_key_at(t, s.len() as int);
    assert forall|k: Seq<char>| #[trigger] has_key(t, k) == (has_key(s, k) || k == nv.0@) by {
        if has_key(s, k) {
            let w = key_index::<V>(s, k);
            assert(0 <= w < t.len() && t[w].0@ == k);
        }
        if k == nv.0@ {
            assert(t[s.len() as int].0@ == k);
        }
        if has_key(t, k) && k != nv.0@ {
            let w = key_index::<V>(t, k);
            assert(w < s.len() && s[w].0@ == k);
        }
    }
    assert forall|k: Seq<char>| has_key(s, k) implies #[trigger] key_index(t, k) == key_index(s, k) by {
        let w = key_index::<V>(s, k);
        assert(0 <= w < s.len() && s[w].0@ == k);
        assert(t[w].0@ == k);
        lemma_key_at(t, w);
    }
}

/// Two lists with the same keys at the same positions agree on every lookup
/// position.
pub proof fn lemma_keys_pointwise<V>(s1: Seq<(String, V)>, s2: Seq<(String, V)>)
    requires
        keys_unique(s1),
        s2.len() == s1.len(),
        forall|j: int| 0 <= j < s1.len() ==> s2[j].0@ == s1[j].0@,
    ensures
        keys_unique(s2),
        forall|k: Seq<char>| has_key(s2, k) == has_key(s1, k),
        forall|k: Seq<char>| has_key(s1, k) ==> #[trigger] key_index(s2, k) == key_index(s1, k),
{
    assert forall|p: int, q: int| 0 <= p < q < s2.len() implies s2[p].0@ != s2[q].0@ by {
        assert(s1[p].0@ != s1[q].0@);
    }
    assert forall|k: Seq<char>| has_key(s2, k) == has_key(s1, k) by {
        if has_key(s1, k) {
            let w = key_index(s1, k);
            assert(0 <= w < s2.len() && s2[w].0@ == k);
        }
        if has_key(s2, k) {
            let w = key_index(s2, k);
            assert(0 <= w < s1.len() && s1[w].0@ == k);
        }
    }
    assert forall|k: Seq<char>| has_key(s1, k) implies #[trigger] key_index(s2, k) == key_index(s1, k) by {
        let w = key_index(s1, k);
        assert(0 <= w < s2.len() && s2[w].0@ == k);
        lemma_key_at(s2, w);
    }
}

/// Linear search for a key among the pairs.
pub fn find_key<V>(s: &Vec<(String, V)>, k: &String) -> (r: Option<usize>)
    ensures
        match r {
            Some(i) => 0 <= i < s@.len() && s@[i as int].0@ == k@ && has_key(s@, k@),
            None => !has_key(s@, k@),
        },
{
    let mut i: usize = 0;
    while i < s.len()
        invariant
            0 <= i <= s@.len(),
            forall|j: int| 0 <= j < i ==> s@[j].0@ != k@,
        decreases s@.len() - i,
    {
        if s[i].0 == *k {
            return Some(i);
        }
        i = i + 1;
    }
    None
}

} // verus!
