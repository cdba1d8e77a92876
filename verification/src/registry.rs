//! The property registry: each named property and its pool of shares still
//! available for purchase.  Purchases draw shares out of the pool, so the
//! total ever minted for a property is the pool plus all participant
//! balances for it.

use vstd::prelude::*;
use vstd::string::StringExecFns;
use crate::ledger::{Ledger, lemma_sum_balances_nonneg};

verus! {

/// A named asset divided into shares.  `shares` is the pool of shares not
/// yet allocated to any participant.
pub struct Property {
    pub id: String,
    pub name: String,
    pub shares: u64,
}

/// The property ids are pairwise distinct.
pub open spec fn prop_ids_unique(ps: Seq<Property>) -> bool {
    forall|i: int, j: int| 0 <= i < j < ps.len() ==> ps[i].id@ != ps[j].id@
}

/// Some property carries the id `k`.
pub open spec fn has_prop(ps: Seq<Property>, k: Seq<char>) -> bool {
    exists|i: int| 0 <= i < ps.len() && ps[i].id@ == k
}

/// The index of the property with id `k`.
pub open spec fn prop_index(ps: Seq<Property>, k: Seq<char>) -> int {
    choose|i: int| 0 <= i < ps.len() && ps[i].id@ == k
}

/// The unallocated pool of the property with id `k`; zero when unregistered.
pub open spec fn pool_of(ps: Seq<Property>, k: Seq<char>) -> u64 {
    if has_prop(ps, k) {
        ps[prop_index(ps, k)].shares
    } else {
        0
    }
}

/// The display name of the property with id `k`; empty when unregistered.
pub open spec fn name_of(ps: Seq<Property>, k: Seq<char>) -> Seq<char> {
    if has_prop(ps, k) {
        ps[prop_index(ps, k)].name@
    } else {
        Seq::empty()
    }
}

/// With distinct ids, the property at index `i` is found exactly there.
pub proof fn lemma_prop_at(ps: Seq<Property>, i: int)
    requires
        prop_ids_unique(ps),
        0 <= i < ps.len(),
    ensures
        has_prop(ps, ps[i].id@),
        prop_index(ps, ps[i].id@) == i,
        pool_of(ps, ps[i].id@) == ps[i].shares,
        name_of(ps, ps[i].id@) == ps[i].name@,
{
    assert(has_prop(ps, ps[i].id@)) by {
        assert(0 <= i < ps.len() && ps[i].id@ == ps[i].id@);
    }
    let j = prop_index(ps, ps[i].id@);
    assert(0 <= j < ps.len() && ps[j].id@ == ps[i].id@);
    if i < j {
        assert(ps[i].id@ != ps[j].id@);
    } else if j < i {
        assert(ps[j].id@ != ps[i].id@);
    }
}

/// Replacing the property at index `i` by one with the same id changes the
/// pool and name read at that id alone.
pub proof fn lemma_props_update(ps: Seq<Property>, i: int, np: Property)
    requires
        prop_ids_unique(ps),
        0 <= i < ps.len(),
        np.id@ == ps[i].id@,
    ensures
        prop_ids_unique(ps.update(i, np)),
        forall|k: Seq<char>| has_prop(ps.update(i, np), k) == has_prop(ps, k),
        forall|k: Seq<char>|
            #[trigger] pool_of(ps.update(i, np), k) == if k == np.id@ {
                np.shares
            } else {
                pool_of(ps, k)
            },
        forall|k: Seq<char>|
            #[trigger] name_of(ps.update(i, np), k) == if k == np.id@ {
                np.name@
            } else {
                name_of(ps, k)
            },
{
    let t = ps.update(i, np);
    assert forall|p: int, q: int| 0 <= p < q < t.len() implies t[p].id@ != t[q].id@ by {
        assert(ps[p].id@ != ps[q].id@);
    }
    assert forall|k: Seq<char>| has_prop(t, k) == has_prop(ps, k) by {
        if has_prop(ps, k) {
            let w = prop_index(ps, k);
            assert(0 <= w < t.len() && t[w].id@ == k);
        }
        if has_prop(t, k) {
            let w = prop_index(t, k);
            assert(0 <= w < ps.len() && ps[w].id@ == k);
        }
    }
    assert forall|k: Seq<char>|
        #[trigger] pool_of(t, k) == (if k == np.id@ {
            np.shares
        } else {
            pool_of(ps, k)
        }) && #[trigger] name_of(t, k) == (if k == np.id@ {
            np.name@
        } else {
            name_of(ps, k)
        }) by {
        if has_prop(ps, k) {
            let w = prop_index(ps, k);
            lemma_prop_at(ps, w);
            assert(t[w].id@ == k);
            lemma_prop_at(t, w);
        }
    }
}

/// Registering a property under a fresh id leaves every other id's pool and
/// name unchanged.
pub proof fn lemma_props_push(ps: Seq<Property>, np: Property)
    requires
        prop_ids_unique(ps),
        !has_prop(ps, np.id@),
    ensures
        prop_ids_unique(ps.push(np)),
        forall|k: Seq<char>| #[trigger] has_prop(ps.push(np), k) == (has_prop(ps, k) || k == np.id@),
        pool_of(ps.push(np), np.id@) == np.shares,
        name_of(ps.push(np), np.id@) == np.name@,
        forall|k: Seq<char>|
            k != np.id@ ==> #[trigger] pool_of(ps.push(np), k) == pool_of(ps, k)
                && #[trigger] name_of(ps.push(np), k) == name_of(ps, k),
{
    let t = ps.push(np);
    let n = ps.len() as int;
    assert forall|p: int, q: int| 0 <= p < q < t.len() implies t[p].id@ != t[q].id@ by {
        if q < n {
            assert(ps[p].id@ != ps[q].id@);
        } else {
            assert(t[q] == np);
            if t[p].id@ == np.id@ {
                assert(0 <= p < n && ps[p].id@ == np.id@);
                assert(has_prop(ps, np.id@));
            }
        }
    }
    assert(prop_ids_unique(t));
    assert(t[n].id@ == np.id@);
    lemma_prop_at(t, n);
    assert forall|k: Seq<char>| #[trigger] has_prop(t, k) == (has_prop(ps, k) || k == np.id@) by {
        if has_prop(ps, k) {
            let w = prop_index(ps, k);
            assert(0 <= w < t.len() && t[w].id@ == k);
        }
        if has_prop(t, k) && k != np.id@ {
            let w = prop_index(t, k);
            assert(w < n && ps[w].id@ == k);
        }
    }
    assert forall|k: Seq<char>|
        k != np.id@ implies #[trigger] pool_of(t, k) == pool_of(ps, k)
            && #[trigger] name_of(t, k) == name_of(ps, k) by {
        if has_prop(ps, k) {
            let w = prop_index(ps, k);
            lemma_prop_at(ps, w);
            assert(t[w].id@ == k);
            lemma_prop_at(t, w);
        }
    }
}

impl Ledger {
    /// Mints `amount` new shares of `property_id`: the property's pool grows
    /// by `amount`, and a property seen for the first time is registered
    /// under a derived display name.  Never fails; minting zero still
    /// registers an absent property and changes nothing else.
    pub fn mint_property_shares(&mut self, property_id: String, amount: u64)
        requires
            old(self).wf(),
            old(self).total_for(property_id@) + amount <= u64::MAX,
        ensures
            final(self).wf(),
            forall|k: Seq<char>|
                #[trigger] has_prop(final(self).properties@, k) == (has_prop(
                    old(self).properties@,
                    k,
                ) || k == property_id@),
            pool_of(final(self).properties@, property_id@) == pool_of(
                old(self).properties@,
                property_id@,
            ) + amount,
            forall|k: Seq<char>|
                k != property_id@ ==> #[trigger] pool_of(final(self).properties@, k) == pool_of(
                    old(self).properties@,
                    k,
                ) && #[trigger] name_of(final(self).properties@, k) == name_of(
                    old(self).properties@,
                    k,
                ),
            has_prop(old(self).properties@, property_id@) ==> name_of(
                final(self).properties@,
                property_id@,
            ) == name_of(old(self).properties@, property_id@),
            !has_prop(old(self).properties@, property_id@) ==> name_of(
                final(self).properties@,
                property_id@,
            ) == "Property "@ + property_id@,
            final(self).user_shares == old(self).user_shares,
            final(self).decisions == old(self).decisions,
            final(self).total_for(property_id@) == old(self).total_for(property_id@) + amount,
            forall|k: Seq<char>|
                k != property_id@ ==> #[trigger] final(self).total_for(k) == old(self).total_for(
                    k,
                ),
    {
        let idx = find_prop(&self.properties, &property_id);
        match idx {
            Some(i) => {
                proof {
                    lemma_prop_at(self.properties@, i as int);
                    lemma_sum_balances_nonneg(self.user_shares@, property_id@);
                }
                let np = Property {
                    id: self.properties[i].id.clone(),
                    name: self.properties[i].name.clone(),
                    shares: self.properties[i].shares + amount,
                };
                proof {
                    lemma_props_update(self.properties@, i as int, np);
                }
                self.properties.set(i, np);
            },
            None => {
                let name = String::from_str("Property ").concat(property_id.as_str());
                let np = Property { id: property_id.clone(), name, shares: amount };
                proof {
                    lemma_props_push(self.properties@, np);
                }
                self.properties.push(np);
            },
        }
    }
}

/// Linear search for a property id.
pub fn find_prop(ps: &Vec<Property>, k: &String) -> (r: Option<usize>)
    ensures
        match r {
            Some(i) => 0 <= i < ps@.len() && ps@[i as int].id@ == k@ && has_prop(ps@, k@),
            None => !has_prop(ps@, k@),
        },
{
    let mut i: usize = 0;
    while i < ps.len()
        invariant
            0 <= i <= ps@.len(),
            forall|j: int| 0 <= j < i ==> ps@[j].id@ != k@,
        decreases ps@.len() - i,
    {
        if ps[i].id == *k {
            return Some(i);
        }
        i = i + 1;
    }
    None
}

} // verus!
