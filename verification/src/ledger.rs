//! The share ledger: per-participant, per-property share balances, and the
//! whole engine state.  The central invariant is conservation: for every
//! property, its unallocated pool plus the sum of all participant balances
//! stays within the machine word, and purchases and transfers never change
//! that sum.

use vstd::prelude::*;
use crate::allocation::{share_of, sum_portions, lemma_share_le_holding, lemma_sum_portions_take_succ, lemma_split_total_le_amount, proportional_share};
use crate::assoc::{keys_unique, has_key, key_index, lemma_key_at, lemma_keys_update, lemma_keys_push, lemma_keys_pointwise, find_key};
use crate::registry::{Property, prop_ids_unique, has_prop, pool_of, name_of, find_prop, lemma_prop_at, lemma_props_update};
use crate::voting::{VotingDecision, voters_unique};

verus! {

/// A participant's balances: shares held per property id.
pub struct UserShares {
    pub property_shares: Vec<(String, u64)>,
}

/// The whole engine state: the property registry, every participant's
/// balances, and the voting board.
pub struct Ledger {
    pub properties: Vec<Property>,
    pub user_shares: Vec<(String, UserShares)>,
    pub decisions: Vec<(String, VotingDecision)>,
}

/// The balance recorded for property `p`; zero when no entry exists.
pub open spec fn entry_val(es: Seq<(String, u64)>, p: Seq<char>) -> u64 {
    if has_key(es, p) {
        es[key_index(es, p)].1
    } else {
        0
    }
}

/// The sum of all balances in one participant's entry list.
pub open spec fn sum_entries(es: Seq<(String, u64)>) -> int
    decreases es.len(),
{
    if es.len() == 0 {
        0
    } else {
        es[0].1 + sum_entries(es.skip(1))
    }
}

/// The entry list of participant `u`; empty when unknown.
pub open spec fn holdings_of(us: Seq<(String, UserShares)>, u: Seq<char>) -> Seq<(String, u64)> {
    if has_key(us, u) {
        us[key_index(us, u)].1.property_shares@
    } else {
        Seq::empty()
    }
}

/// Participant `u`'s balance for property `p`.
pub open spec fn holding(us: Seq<(String, UserShares)>, u: Seq<char>, p: Seq<char>) -> u64 {
    entry_val(holdings_of(us, u), p)
}

/// Participant `u`'s total shares across all properties: their voting
/// weight, and the basis of proportional transfers.
pub open spec fn weight_of(us: Seq<(String, UserShares)>, u: Seq<char>) -> int {
    sum_entries(holdings_of(us, u))
}

/// The sum over all participants of their balance for property `p`.
pub open spec fn sum_balances(us: Seq<(String, UserShares)>, p: Seq<char>) -> int
    decreases us.len(),
{
    if us.len() == 0 {
        0
    } else {
        entry_val(us[0].1.property_shares@, p) + sum_balances(us.skip(1), p)
    }
}

impl Ledger {
    /// Well-formedness: all keys distinct, and for every property the pool
    /// plus all balances fits the machine word.
    pub open spec fn wf(&self) -> bool {
        &&& prop_ids_unique(self.properties@)
        &&& keys_unique(self.user_shares@)
        &&& forall|i: int|
            0 <= i < self.user_shares@.len() ==> keys_unique(
                #[trigger] self.user_shares@[i].1.property_shares@,
            )
        &&& keys_unique(self.decisions@)
        &&& forall|i: int|
            0 <= i < self.decisions@.len() ==> voters_unique(
                #[trigger] self.decisions@[i].1.voters@,
            )
        &&& forall|p: Seq<char>|
            pool_of(self.properties@, p) + #[trigger] sum_balances(self.user_shares@, p)
                <= u64::MAX
    }

    /// All shares ever minted for property `p`: the unallocated pool plus
    /// every participant's balance.
    pub open spec fn total_for(&self, p: Seq<char>) -> int {
        pool_of(self.properties@, p) + sum_balances(self.user_shares@, p)
    }

    /// An empty ledger: no properties, no balances, no decisions.
    pub fn new() -> (r: Ledger)
        ensures
            r.wf(),
            r.properties@.len() == 0,
            r.user_shares@.len() == 0,
            r.decisions@.len() == 0,
    {
        Ledger { properties: Vec::new(), user_shares: Vec::new(), decisions: Vec::new() }
    }
}

/// Every sum of balances is nonnegative.
pub proof fn lemma_sum_entries_nonneg(es: Seq<(String, u64)>)
    ensures
        0 <= sum_entries(es),
    decreases es.len(),
{
    if es.len() > 0 {
        lemma_sum_entries_nonneg(es.skip(1));
    }
}

/// A sum of entries splits at any point.
pub proof fn lemma_sum_entries_split(es: Seq<(String, u64)>, k: int)
    requires
        0 <= k <= es.len(),
    ensures
        sum_entries(es) == sum_entries(es.take(k)) + sum_entries(es.skip(k)),
    decreases k,
{
    if k == 0 {
        assert(es.take(0).len() == 0);
        assert(es.skip(0) =~= es);
    } else {
        lemma_sum_entries_split(es.skip(1), k - 1);
        assert(es.take(k).skip(1) =~= es.skip(1).take(k - 1));
        assert(es.skip(k) =~= es.skip(1).skip(k - 1));
        assert(es.take(k)[0] == es[0]);
        assert(sum_entries(es.take(k)) == es[0].1 + sum_entries(es.skip(1).take(k - 1)));
    }
}

/// Extending a prefix sum by one entry adds that entry's balance.
pub proof fn lemma_sum_entries_take_succ(es: Seq<(String, u64)>, k: int)
    requires
        0 <= k < es.len(),
    ensures
        sum_entries(es.take(k + 1)) == sum_entries(es.take(k)) + es[k].1,
{
    let t = es.take(k + 1);
    lemma_sum_entries_split(t, k);
    assert(t.take(k) =~= es.take(k));
    assert(t.skip(k) =~= seq![es[k]]);
    assert(sum_entries(seq![es[k]]) == es[k].1 + sum_entries(seq![es[k]].skip(1)));
    assert(seq![es[k]].skip(1).len() == 0);
}

/// The sum of entries dominates any single entry's balance.
pub proof fn lemma_sum_entries_ge_at(es: Seq<(String, u64)>, i: int)
    requires
        0 <= i < es.len(),
    ensures
        es[i].1 <= sum_entries(es),
{
    lemma_sum_entries_split(es, i);
    lemma_sum_entries_nonneg(es.take(i));
    assert(es.skip(i)[0] == es[i]);
    assert(sum_entries(es.skip(i)) == es[i].1 + sum_entries(es.skip(i).skip(1)));
    lemma_sum_entries_nonneg(es.skip(i).skip(1));
}

/// Replacing the entry at index `i` shifts the sum by the balance change.
pub proof fn lemma_sum_entries_update(es: Seq<(String, u64)>, i: int, nv: (String, u64))
    requires
        0 <= i < es.len(),
    ensures
        sum_entries(es.update(i, nv)) == sum_entries(es) - es[i].1 + nv.1,
    decreases es.len(),
{
    let t = es.update(i, nv);
    if i == 0 {
        assert(t.skip(1) =~= es.skip(1));
        assert(t[0] == nv);
    } else {
        assert(t.skip(1) =~= es.skip(1).update(i - 1, nv));
        lemma_sum_entries_update(es.skip(1), i - 1, nv);
        assert(t[0] == es[0]);
        assert(es.skip(1)[i - 1] == es[i]);
    }
}

/// Appending an entry adds its balance to the sum.
pub proof fn lemma_sum_entries_push(es: Seq<(String, u64)>, nv: (String, u64))
    ensures
        sum_entries(es.push(nv)) == sum_entries(es) + nv.1,
    decreases es.len(),
{
    let t = es.push(nv);
    assert(sum_entries(t) == t[0].1 + sum_entries(t.skip(1)));
    if es.len() == 0 {
        assert(t[0] == nv);
        assert(t.skip(1).len() == 0);
        assert(sum_entries(t.skip(1)) == 0);
    } else {
        assert(t.skip(1) =~= es.skip(1).push(nv));
        lemma_sum_entries_push(es.skip(1), nv);
        assert(t[0] == es[0]);
    }
}

/// The sum over all participants of one property's balances is nonnegative.
pub proof fn lemma_sum_balances_nonneg(us: Seq<(String, UserShares)>, p: Seq<char>)
    ensures
        0 <= sum_balances(us, p),
    decreases us.len(),
{
    if us.len() > 0 {
        lemma_sum_balances_nonneg(us.skip(1), p);
    }
}

/// A sum of balances splits at any point.
pub proof fn lemma_sum_balances_split(us: Seq<(String, UserShares)>, k: int, p: Seq<char>)
    requires
        0 <= k <= us.len(),
    ensures
        sum_balances(us, p) == sum_balances(us.take(k), p) + sum_balances(us.skip(k), p),
    decreases k,
{
    if k == 0 {
        assert(us.take(0).len() == 0);
        assert(us.skip(0) =~= us);
    } else {
        lemma_sum_balances_split(us.skip(1), k - 1, p);
        assert(us.take(k).skip(1) =~= us.skip(1).take(k - 1));
        assert(us.skip(k) =~= us.skip(1).skip(k - 1));
        assert(us.take(k)[0] == us[0]);
        assert(sum_balances(us.take(k), p) == entry_val(us[0].1.property_shares@, p)
            + sum_balances(us.skip(1).take(k - 1), p));
    }
}

/// Extending a prefix sum of balances by one participant.
pub proof fn lemma_sum_balances_take_succ(us: Seq<(String, UserShares)>, k: int, p: Seq<char>)
    requires
        0 <= k < us.len(),
    ensures
        sum_balances(us.take(k + 1), p) == sum_balances(us.take(k), p)
            + entry_val(us[k].1.property_shares@, p),
{
    let t = us.take(k + 1);
    lemma_sum_balances_split(t, k, p);
    assert(t.take(k) =~= us.take(k));
    assert(t.skip(k) =~= seq![us[k]]);
    assert(sum_balances(seq![us[k]], p) == entry_val(us[k].1.property_shares@, p)
        + sum_balances(seq![us[k]].skip(1), p));
    assert(seq![us[k]].skip(1).len() == 0);
}

/// The sum of balances dominates any single participant's balance.
pub proof fn lemma_sum_balances_ge_at(us: Seq<(String, UserShares)>, i: int, p: Seq<char>)
    requires
        0 <= i < us.len(),
    ensures
        entry_val(us[i].1.property_shares@, p) <= sum_balances(us, p),
{
    lemma_sum_balances_split(us, i, p);
    lemma_sum_balances_nonneg(us.take(i), p);
    assert(us.skip(i)[0] == us[i]);
    assert(sum_balances(us.skip(i), p) == entry_val(us[i].1.property_shares@, p)
        + sum_balances(us.skip(i).skip(1), p));
    lemma_sum_balances_nonneg(us.skip(i).skip(1), p);
}

/// The sum of balances dominates the balances of two distinct participants
/// taken together.
pub proof fn lemma_sum_balances_ge_two(us: Seq<(String, UserShares)>, i: int, j: int, p: Seq<char>)
    requires
        0 <= i < us.len(),
        0 <= j < us.len(),
        i != j,
    ensures
        entry_val(us[i].1.property_shares@, p) + entry_val(us[j].1.property_shares@, p)
            <= sum_balances(us, p),
    decreases us.len(),
{
    if i == 0 {
        lemma_sum_balances_ge_at(us.skip(1), j - 1, p);
        assert(us.skip(1)[j - 1] == us[j]);
    } else if j == 0 {
        lemma_sum_balances_ge_at(us.skip(1), i - 1, p);
        assert(us.skip(1)[i - 1] == us[i]);
    } else {
        lemma_sum_balances_ge_two(us.skip(1), i - 1, j - 1, p);
        assert(us.skip(1)[i - 1] == us[i]);
        assert(us.skip(1)[j - 1] == us[j]);
        lemma_sum_balances_nonneg(us, p);
    }
}

/// Replacing the participant at index `i` shifts each property's balance sum
/// by that participant's balance change.
pub proof fn lemma_sum_balances_update(
    us: Seq<(String, UserShares)>,
    i: int,
    nv: (String, UserShares),
    p: Seq<char>,
)
    requires
        0 <= i < us.len(),
    ensures
        sum_balances(us.update(i, nv), p) == sum_balances(us, p)
            - entry_val(us[i].1.property_shares@, p)
            + entry_val(nv.1.property_shares@, p),
    decreases us.len(),
{
    let t = us.update(i, nv);
    if i == 0 {
        assert(t.skip(1) =~= us.skip(1));
        assert(t[0] == nv);
    } else {
        assert(t.skip(1) =~= us.skip(1).update(i - 1, nv));
        lemma_sum_balances_update(us.skip(1), i - 1, nv, p);
        assert(t[0] == us[0]);
        assert(us.skip(1)[i - 1] == us[i]);
    }
}

/// Appending a participant adds their balances to each property's sum.
pub proof fn lemma_sum_balances_push(
    us: Seq<(String, UserShares)>,
    nv: (String, UserShares),
    p: Seq<char>,
)
    ensures
        sum_balances(us.push(nv), p) == sum_balances(us, p)
            + entry_val(nv.1.property_shares@, p),
    decreases us.len(),
{
    let t = us.push(nv);
    assert(sum_balances(t, p) == entry_val(t[0].1.property_shares@, p)
        + sum_balances(t.skip(1), p));
    if us.len() == 0 {
        assert(t[0] == nv);
        assert(t.skip(1).len() == 0);
        assert(sum_balances(t.skip(1), p) == 0);
    } else {
        assert(t.skip(1) =~= us.skip(1).push(nv));
        lemma_sum_balances_push(us.skip(1), nv, p);
        assert(t[0] == us[0]);
    }
}

/// Appending an entry under a fresh key adds a balance readable at that key
/// alone.
pub proof fn lemma_entry_val_push(es: Seq<(String, u64)>, nv: (String, u64))
    requires
        keys_unique(es),
        !has_key(es, nv.0@),
    ensures
        keys_unique(es.push(nv)),
        forall|q: Seq<char>|
            #[trigger] entry_val(es.push(nv), q) == if q == nv.0@ {
                nv.1
            } else {
                entry_val(es, q)
            },
        forall|q: Seq<char>| #[trigger] has_key(es.push(nv), q) == (has_key(es, q) || q == nv.0@),
{
    lemma_keys_push(es, nv);
    let t = es.push(nv);
    assert forall|q: Seq<char>|
        #[trigger] entry_val(t, q) == (if q == nv.0@ {
            nv.1
        } else {
            entry_val(es, q)
        }) by {
        if q == nv.0@ {
            assert(key_index(t, q) == es.len());
            assert(entry_val(t, q) == t[es.len() as int].1);
        } else if has_key(es, q) {
            let w = key_index(es, q);
            assert(key_index(t, q) == w);
            assert(entry_val(t, q) == t[w].1);
        }
    }
}

/// Replacing the participant at index `i` by one with the same key changes
/// the holdings read at that key alone.
pub proof fn lemma_holdings_update(us: Seq<(String, UserShares)>, i: int, nv: (String, UserShares))
    requires
        keys_unique(us),
        0 <= i < us.len(),
        nv.0@ == us[i].0@,
    ensures
        keys_unique(us.update(i, nv)),
        forall|u: Seq<char>| #[trigger] has_key(us.update(i, nv), u) == has_key(us, u),
        forall|u: Seq<char>|
            #[trigger] holdings_of(us.update(i, nv), u) == if u == nv.0@ {
                nv.1.property_shares@
            } else {
                holdings_of(us, u)
            },
{
    lemma_keys_update(us, i, nv);
    lemma_key_at(us, i);
    let t = us.update(i, nv);
    assert forall|u: Seq<char>|
        #[trigger] holdings_of(t, u) == (if u == nv.0@ {
            nv.1.property_shares@
        } else {
            holdings_of(us, u)
        }) by {
        if has_key(us, u) {
            let w = key_index(us, u);
            assert(key_index(t, u) == w);
            assert(holdings_of(t, u) == t[w].1.property_shares@);
        }
    }
}

/// Appending a fresh participant gives them their holdings and changes no
/// one else's.
pub proof fn lemma_holdings_push(us: Seq<(String, UserShares)>, nv: (String, UserShares))
    requires
        keys_unique(us),
        !has_key(us, nv.0@),
    ensures
        keys_unique(us.push(nv)),
        forall|u: Seq<char>| #[trigger] has_key(us.push(nv), u) == (has_key(us, u) || u == nv.0@),
        holdings_of(us.push(nv), nv.0@) == nv.1.property_shares@,
        forall|u: Seq<char>|
            u != nv.0@ ==> #[trigger] holdings_of(us.push(nv), u) == holdings_of(us, u),
{
    lemma_keys_push(us, nv);
    let t = us.push(nv);
    assert(holdings_of(t, nv.0@) == t[us.len() as int].1.property_shares@);
    assert forall|u: Seq<char>| u != nv.0@ implies #[trigger] holdings_of(t, u) == holdings_of(
        us,
        u,
    ) by {
        if has_key(us, u) {
            let w = key_index(us, u);
            assert(key_index(t, u) == w);
            assert(holdings_of(t, u) == t[w].1.property_shares@);
        }
    }
}

/// Sums the balances of one entry list.
pub fn sum_share_entries(es: &Vec<(String, u64)>) -> (r: u64)
    requires
        sum_entries(es@) <= u64::MAX,
    ensures
        r == sum_entries(es@),
{
    let mut r: u64 = 0;
    let mut i: usize = 0;
    proof {
        assert(es@.take(0).len() == 0);
    }
    while i < es.len()
        invariant
            0 <= i <= es@.len(),
            sum_entries(es@) <= u64::MAX,
            r == sum_entries(es@.take(i as int)),
        decreases es@.len() - i,
    {
        proof {
            lemma_sum_entries_take_succ(es@, i as int);
            lemma_sum_entries_split(es@, i + 1);
            lemma_sum_entries_nonneg(es@.skip(i + 1));
            lemma_sum_entries_nonneg(es@.take(i as int));
        }
        r = r + es[i].1;
        i = i + 1;
    }
    proof {
        assert(es@.take(es@.len() as int) =~= es@);
    }
    r
}

/// Copies an entry list element for element.
fn copy_entries(es: &Vec<(String, u64)>) -> (r: Vec<(String, u64)>)
    ensures
        r@ == es@,
{
    let mut r: Vec<(String, u64)> = Vec::new();
    let mut i: usize = 0;
    while i < es.len()
        invariant
            0 <= i <= es@.len(),
            r@.len() == i,
            forall|j: int| 0 <= j < i ==> r@[j] == es@[j],
        decreases es@.len() - i,
    {
        r.push((es[i].0.clone(), es[i].1));
        proof {
            assert(r@[i as int] =~= es@[i as int]);
        }
        i = i + 1;
    }
    proof {
        assert(r@ =~= es@);
    }
    r
}

/// An entry list equal to `es` except that the balance at key `p` has grown
/// by `amount` (the entry is created when absent).
fn entries_with_added(es: &Vec<(String, u64)>, p: &String, amount: u64) -> (r: Vec<(String, u64)>)
    requires
        keys_unique(es@),
        entry_val(es@, p@) + amount <= u64::MAX,
    ensures
        keys_unique(r@),
        entry_val(r@, p@) == entry_val(es@, p@) + amount,
        forall|q: Seq<char>| q != p@ ==> #[trigger] entry_val(r@, q) == entry_val(es@, q),
        forall|q: Seq<char>| #[trigger] has_key(r@, q) == (has_key(es@, q) || q == p@),
        sum_entries(r@) == sum_entries(es@) + amount,
{
    let mut r = copy_entries(es);
    let idx = find_key(es, p);
    match idx {
        Some(k) => {
            proof {
                lemma_key_at(es@, k as int);
            }
            let nv = (es[k].0.clone(), es[k].1 + amount);
            proof {
                lemma_keys_update(es@, k as int, nv);
                lemma_sum_entries_update(es@, k as int, nv);
                assert forall|q: Seq<char>| #[trigger] entry_val(es@.update(k as int, nv), q)
                    == (if q == p@ {
                        (entry_val(es@, p@) + amount) as u64
                    } else {
                        entry_val(es@, q)
                    }) by {
                    if has_key(es@, q) {
                        let w = key_index(es@, q);
                        assert(entry_val(es@.update(k as int, nv), q) == es@.update(
                            k as int,
                            nv,
                        )[w].1);
                    }
                }
            }
            r.set(k, nv);
        },
        None => {
            let nv = (p.clone(), amount);
            proof {
                lemma_keys_push(es@, nv);
                lemma_sum_entries_push(es@, nv);
                assert(entry_val(es@.push(nv), p@) == amount);
                assert forall|q: Seq<char>| q != p@ implies #[trigger] entry_val(es@.push(nv), q)
                    == entry_val(es@, q) by {
                    if has_key(es@, q) {
                        let w = key_index(es@, q);
                        assert(entry_val(es@.push(nv), q) == es@.push(nv)[w].1);
                    }
                }
            }
            r.push(nv);
        },
    }
    r
}

impl Ledger {
    /// Purchases `amount` shares of `property_id` for `caller`, drawing them
    /// out of the property's unallocated pool.  An unknown property or a
    /// pool smaller than `amount` makes the call a silent no-op; otherwise
    /// the pool shrinks and the caller's balance grows by exactly `amount`,
    /// so no property's total ever changes.
    pub fn purchase_shares_with_ckbtc(&mut self, caller: String, property_id: String, amount: u64)
        requires
            old(self).wf(),
        ensures
            final(self).wf(),
            !(has_prop(old(self).properties@, property_id@) && amount <= pool_of(
                old(self).properties@,
                property_id@,
            )) ==> *final(self) == *old(self),
            has_prop(old(self).properties@, property_id@) && amount <= pool_of(
                old(self).properties@,
                property_id@,
            ) ==> {
                &&& pool_of(final(self).properties@, property_id@) == pool_of(
                    old(self).properties@,
                    property_id@,
                ) - amount
                &&& forall|k: Seq<char>|
                    k != property_id@ ==> #[trigger] pool_of(final(self).properties@, k)
                        == pool_of(old(self).properties@, k)
                &&& forall|k: Seq<char>|
                    #[trigger] has_prop(final(self).properties@, k) == has_prop(
                        old(self).properties@,
                        k,
                    )
                &&& forall|k: Seq<char>|
                    #[trigger] name_of(final(self).properties@, k) == name_of(
                        old(self).properties@,
                        k,
                    )
                &&& holding(final(self).user_shares@, caller@, property_id@) == holding(
                    old(self).user_shares@,
                    caller@,
                    property_id@,
                ) + amount
                &&& forall|q: Seq<char>|
                    q != property_id@ ==> #[trigger] holding(final(self).user_shares@, caller@, q)
                        == holding(old(self).user_shares@, caller@, q)
                &&& forall|u: Seq<char>|
                    u != caller@ ==> #[trigger] holdings_of(final(self).user_shares@, u)
                        == holdings_of(old(self).user_shares@, u)
                &&& forall|u: Seq<char>|
                    #[trigger] has_key(final(self).user_shares@, u) == (has_key(
                        old(self).user_shares@,
                        u,
                    ) || u == caller@)
                &&& forall|q: Seq<char>|
                    #[trigger] has_key(holdings_of(final(self).user_shares@, caller@), q) == (
                    has_key(holdings_of(old(self).user_shares@, caller@), q) || q == property_id@)
                &&& weight_of(final(self).user_shares@, caller@) == weight_of(
                    old(self).user_shares@,
                    caller@,
                ) + amount
                &&& final(self).decisions == old(self).decisions
            },
            forall|k: Seq<char>| #[trigger] final(self).total_for(k) == old(self).total_for(k),
    {
        let pidx = match find_prop(&self.properties, &property_id) {
            Some(i) => i,
            None => {
                return;
            },
        };
        if self.properties[pidx].shares < amount {
            return;
        }
        proof {
            lemma_prop_at(self.properties@, pidx as int);
        }
        let ghost ps0 = self.properties@;
        let ghost us0 = self.user_shares@;
        let np = Property {
            id: self.properties[pidx].id.clone(),
            name: self.properties[pidx].name.clone(),
            shares: self.properties[pidx].shares - amount,
        };
        proof {
            lemma_props_update(ps0, pidx as int, np);
        }
        self.properties.set(pidx, np);
        let uidx = find_key(&self.user_shares, &caller);
        match uidx {
            Some(j) => {
                proof {
                    lemma_key_at(us0, j as int);
                    lemma_sum_balances_ge_at(us0, j as int, property_id@);
                    lemma_sum_balances_nonneg(us0, property_id@);
                }
                let nes = entries_with_added(
                    &self.user_shares[j].1.property_shares,
                    &property_id,
                    amount,
                );
                let nu = (self.user_shares[j].0.clone(), UserShares { property_shares: nes });
                proof {
                    lemma_keys_update(us0, j as int, nu);
                    assert forall|p: Seq<char>| #[trigger] sum_balances(
                        us0.update(j as int, nu),
                        p,
                    ) == sum_balances(us0, p) - entry_val(us0[j as int].1.property_shares@, p)
                        + entry_val(nu.1.property_shares@, p) by {
                        lemma_sum_balances_update(us0, j as int, nu, p);
                    }
                }
                self.user_shares.set(j, nu);
            },
            None => {
                let mut nes: Vec<(String, u64)> = Vec::new();
                nes.push((property_id.clone(), amount));
                proof {
                    assert(nes@.len() == 1);
                    lemma_key_at(nes@, 0);
                    assert(entry_val(nes@, property_id@) == amount);
                    assert(sum_entries(nes@) == amount + sum_entries(nes@.skip(1)));
                    assert(nes@.skip(1).len() == 0);
                    assert forall|q: Seq<char>| q != property_id@ implies #[trigger] entry_val(
                        nes@,
                        q,
                    ) == 0 by {
                        if has_key(nes@, q) {
                            let w = key_index(nes@, q);
                            assert(nes@[w].0@ == q);
                        }
                    }
                }
                let nu = (caller.clone(), UserShares { property_shares: nes });
                proof {
                    lemma_keys_push(us0, nu);
                    assert forall|p: Seq<char>| #[trigger] sum_balances(us0.push(nu), p)
                        == sum_balances(us0, p) + entry_val(nu.1.property_shares@, p) by {
                        lemma_sum_balances_push(us0, nu, p);
                    }
                }
                self.user_shares.push(nu);
            },
        }
    }

    /// Moves `amount` shares from `caller` to `recipient`, apportioned
    /// across all of the caller's properties in proportion to the caller's
    /// current holdings, each portion truncated toward zero.  Succeeds (and
    /// returns true) exactly when the caller's total holdings cover
    /// `amount` — an unknown caller holds zero, so only a zero transfer
    /// from one succeeds, moving nothing.  Rounding may move strictly less
    /// than `amount`, and the shortfall is not corrected.  On failure
    /// nothing changes.
    pub fn transfer_shares(&mut self, caller: String, recipient: String, amount: u64) -> (r: bool)
        requires
            old(self).wf(),
            weight_of(old(self).user_shares@, caller@) <= u64::MAX,
        ensures
            final(self).wf(),
            r == (amount <= weight_of(old(self).user_shares@, caller@)),
            !r ==> *final(self) == *old(self),
            r && caller@ == recipient@ ==> *final(self) == *old(self),
            r && caller@ != recipient@ ==> {
                let total = weight_of(old(self).user_shares@, caller@) as u64;
                let och = holdings_of(old(self).user_shares@, caller@);
                &&& forall|q: Seq<char>|
                    #[trigger] holding(final(self).user_shares@, caller@, q) == holding(
                        old(self).user_shares@,
                        caller@,
                        q,
                    ) - share_of(amount, holding(old(self).user_shares@, caller@, q), total)
                &&& forall|q: Seq<char>|
                    #[trigger] holding(final(self).user_shares@, recipient@, q) == holding(
                        old(self).user_shares@,
                        recipient@,
                        q,
                    ) + share_of(amount, holding(old(self).user_shares@, caller@, q), total)
                &&& forall|q: Seq<char>|
                    #[trigger] has_key(holdings_of(final(self).user_shares@, caller@), q)
                        == has_key(och, q)
                &&& forall|q: Seq<char>|
                    #[trigger] has_key(holdings_of(final(self).user_shares@, recipient@), q) == (
                    has_key(holdings_of(old(self).user_shares@, recipient@), q) || share_of(
                        amount,
                        holding(old(self).user_shares@, caller@, q),
                        total,
                    ) > 0)
                &&& forall|u: Seq<char>|
                    u != caller@ && u != recipient@ ==> #[trigger] holdings_of(
                        final(self).user_shares@,
                        u,
                    ) == holdings_of(old(self).user_shares@, u)
                &&& has_key(final(self).user_shares@, recipient@) == (has_key(
                    old(self).user_shares@,
                    recipient@,
                ) || exists|q: Seq<char>|
                    share_of(amount, holding(old(self).user_shares@, caller@, q), total) > 0)
                &&& forall|u: Seq<char>|
                    u != recipient@ ==> #[trigger] has_key(final(self).user_shares@, u) == has_key(
                        old(self).user_shares@,
                        u,
                    )
                &&& weight_of(final(self).user_shares@, caller@) == weight_of(
                    old(self).user_shares@,
                    caller@,
                ) - sum_portions(och, amount, total)
                &&& weight_of(final(self).user_shares@, recipient@) == weight_of(
                    old(self).user_shares@,
                    recipient@,
                ) + sum_portions(och, amount, total)
                &&& sum_portions(och, amount, total) <= amount
                &&& final(self).properties == old(self).properties
                &&& final(self).decisions == old(self).decisions
            },
            forall|k: Seq<char>| #[trigger] final(self).total_for(k) == old(self).total_for(k),
    {
        let ghost us0 = self.user_shares@;
        let uidx = match find_key(&self.user_shares, &caller) {
            Some(i) => i,
            None => {
                // An unknown caller holds nothing, so only the zero
                // transfer is covered, and it moves nothing.
                proof {
                    assert(holdings_of(us0, caller@) == Seq::<(String, u64)>::empty());
                    assert(weight_of(us0, caller@) == 0);
                    assert(sum_portions(Seq::<(String, u64)>::empty(), amount, 0u64) == 0);
                    assert forall|q: Seq<char>| holding(us0, caller@, q) == 0 by {
                        assert(!has_key(Seq::<(String, u64)>::empty(), q));
                    }
                }
                return amount == 0;
            },
        };
        proof {
            lemma_key_at(us0, uidx as int);
        }
        let total = sum_share_entries(&self.user_shares[uidx].1.property_shares);
        if total < amount {
            return false;
        }
        if caller == recipient {
            return true;
        }
        let snap = copy_entries(&self.user_shares[uidx].1.property_shares);
        let ghost och = snap@;
        assert(och == holdings_of(us0, caller@));
        assert(keys_unique(och));
        proof {
            if total > 0 {
                assert((0int) / (total as int) == 0) by (nonlinear_arith)
                    requires total > 0,
                ;
            }
            assert(share_of(amount, 0u64, total) == 0);
        }

        // Plan and deduction in one pass: for each of the caller's entries,
        // the portion to move, and the caller's entry with it taken out.
        let mut plan: Vec<(String, u64)> = Vec::new();
        let mut nes: Vec<(String, u64)> = Vec::new();
        let mut i: usize = 0;
        while i < snap.len()
            invariant
                0 <= i <= snap@.len(),
                nes@.len() == i,
                keys_unique(snap@),
                amount <= total,
                total == sum_entries(snap@),
                forall|j: int|
                    0 <= j < i ==> nes@[j].0 == snap@[j].0 && nes@[j].1 == snap@[j].1 - share_of(
                        amount,
                        snap@[j].1,
                        total,
                    ),
                keys_unique(plan@),
                forall|j: int| 0 <= j < plan@.len() ==> plan@[j].1 > 0,
                forall|q: Seq<char>| has_key(plan@, q) ==> has_key(snap@.take(i as int), q),
                forall|q: Seq<char>|
                    #[trigger] entry_val(plan@, q) == share_of(
                        amount,
                        entry_val(snap@.take(i as int), q),
                        total,
                    ),
                sum_entries(nes@) == sum_entries(snap@.take(i as int)) - sum_portions(
                    snap@.take(i as int),
                    amount,
                    total,
                ),
                sum_entries(plan@) == sum_portions(snap@.take(i as int), amount, total),
            decreases snap@.len() - i,
        {
            proof {
                lemma_sum_entries_ge_at(snap@, i as int);
                lemma_share_le_holding(amount, snap@[i as int].1, total);
                lemma_key_at(snap@, i as int);
                lemma_sum_entries_take_succ(snap@, i as int);
                lemma_sum_portions_take_succ(snap@, i as int, amount, total);
                assert(!has_key(snap@.take(i as int), snap@[i as int].0@)) by {
                    if has_key(snap@.take(i as int), snap@[i as int].0@) {
                        let w = key_index(snap@.take(i as int), snap@[i as int].0@);
                        assert(snap@[w].0@ == snap@[i as int].0@);
                    }
                }
                assert(snap@.take(i as int + 1) =~= snap@.take(i as int).push(snap@[i as int]));
                assert forall|p: int, q: int|
                    0 <= p < q < snap@.take(i as int).len() implies snap@.take(i as int)[p].0@
                    != snap@.take(i as int)[q].0@ by {
                    assert(snap@[p].0@ != snap@[q].0@);
                }
                lemma_entry_val_push(snap@.take(i as int), snap@[i as int]);
            }
            let t = proportional_share(amount, snap[i].1, total);
            let nv = (snap[i].0.clone(), snap[i].1 - t);
            proof {
                lemma_sum_entries_push(nes@, nv);
            }
            nes.push(nv);
            if t > 0 {
                let pv = (snap[i].0.clone(), t);
                proof {
                    assert(!has_key(plan@, snap@[i as int].0@));
                    lemma_entry_val_push(plan@, (snap@[i as int].0, t));
                    lemma_sum_entries_push(plan@, pv);
                }
                plan.push(pv);
            } else {
                proof {
                    assert(entry_val(plan@, snap@[i as int].0@) == 0) by {
                        if has_key(plan@, snap@[i as int].0@) {
                            let w = key_index(plan@, snap@[i as int].0@);
                            assert(has_key(snap@.take(i as int), snap@[i as int].0@));
                        }
                    }
                }
            }
            i = i + 1;
        }
        proof {
            assert(snap@.take(snap@.len() as int) =~= snap@);
        }
        // Every planned portion, read by property id.
        assert(forall|q: Seq<char>|
            #[trigger] entry_val(plan@, q) == share_of(amount, entry_val(och, q), total));
        proof {
            lemma_keys_pointwise(snap@, nes@);
            assert forall|q: Seq<char>|
                #[trigger] entry_val(nes@, q) == entry_val(och, q) - share_of(
                    amount,
                    entry_val(och, q),
                    total,
                ) by {
                if has_key(och, q) {
                    let w = key_index(och, q);
                    lemma_key_at(och, w);
                    assert(key_index(nes@, q) == w);
                    assert(entry_val(nes@, q) == nes@[w].1);
                } else {
                    assert(entry_val(och, q) == 0);
                    assert(share_of(amount, 0u64, total) == 0);
                }
            }
        }
        if plan.len() == 0 {
            proof {
                assert forall|q: Seq<char>|
                    !(share_of(amount, holding(us0, caller@, q), total) > 0) by {
                    assert(entry_val(plan@, q) == 0);
                }
                assert(sum_entries(plan@) == 0);
                assert(sum_portions(och, amount, total) == 0);
            }
            return true;
        }
        // Apply the deduction to the caller.
        let ghost nes_s = nes@;
        let nu = (self.user_shares[uidx].0.clone(), UserShares { property_shares: nes });
        proof {
            lemma_holdings_update(us0, uidx as int, nu);
            assert forall|p: Seq<char>| #[trigger] sum_balances(us0.update(uidx as int, nu), p)
                == sum_balances(us0, p) - share_of(amount, entry_val(och, p), total) by {
                lemma_sum_balances_update(us0, uidx as int, nu, p);
            }
        }
        self.user_shares.set(uidx, nu);
        let ghost us1 = self.user_shares@;
        // Credit the recipient, property by property, following the plan.
        let ridx_opt = find_key(&self.user_shares, &recipient);
        let mut rese: Vec<(String, u64)>;
        match ridx_opt {
            Some(j) => {
                rese = copy_entries(&self.user_shares[j].1.property_shares);
                proof {
                    lemma_key_at(us1, j as int);
                    assert(rese@ == holdings_of(us1, recipient@));
                    if j as int != uidx as int {
                        assert(us1[j as int].1.property_shares@ == us0[j as int].1.property_shares@);
                    }
                }
            },
            None => {
                rese = Vec::new();
            },
        }
        let ghost res0s = rese@;
        proof {
            assert(res0s =~= holdings_of(us0, recipient@));
            assert(keys_unique(res0s));
            assert forall|q: Seq<char>|
                #[trigger] entry_val(res0s, q) + entry_val(och, q) <= u64::MAX by {
                assert(pool_of(old(self).properties@, q) + sum_balances(us0, q) <= u64::MAX);
                if has_key(us0, recipient@) {
                    let w = key_index(us0, recipient@);
                    assert(0 <= w < us0.len() && us0[w].0@ == recipient@);
                    assert(w != uidx as int);
                    lemma_sum_balances_ge_two(us0, w, uidx as int, q);
                    assert(us0[w].1.property_shares@ == res0s);
                } else {
                    lemma_sum_balances_ge_at(us0, uidx as int, q);
                    assert(entry_val(res0s, q) == 0);
                }
            }
        }
        let mut k: usize = 0;
        while k < plan.len()
            invariant
                0 <= k <= plan@.len(),
                keys_unique(plan@),
                keys_unique(och),
                keys_unique(res0s),
                keys_unique(rese@),
                amount <= total,
                forall|j: int| 0 <= j < plan@.len() ==> plan@[j].1 > 0,
                forall|q: Seq<char>|
                    #[trigger] entry_val(plan@, q) == share_of(amount, entry_val(och, q), total),
                forall|q: Seq<char>|
                    #[trigger] entry_val(res0s, q) + entry_val(och, q) <= u64::MAX,
                forall|q: Seq<char>|
                    #[trigger] entry_val(rese@, q) == entry_val(res0s, q) + entry_val(
                        plan@.take(k as int),
                        q,
                    ),
                forall|q: Seq<char>|
                    #[trigger] has_key(rese@, q) == (has_key(res0s, q) || has_key(
                        plan@.take(k as int),
                        q,
                    )),
                sum_entries(rese@) == sum_entries(res0s) + sum_entries(plan@.take(k as int)),
            decreases plan@.len() - k,
        {
            let ghost pk = plan@[k as int].0@;
            proof {
                lemma_sum_entries_take_succ(plan@, k as int);
                lemma_key_at(plan@, k as int);
                assert(!has_key(plan@.take(k as int), pk)) by {
                    if has_key(plan@.take(k as int), pk) {
                        let w = key_index(plan@.take(k as int), pk);
                        assert(plan@[w].0@ == pk);
                    }
                }
                assert(entry_val(plan@.take(k as int), pk) == 0);
                assert(entry_val(rese@, pk) == entry_val(res0s, pk));
                lemma_share_le_holding(amount, entry_val(och, pk), total);
                assert(plan@[k as int].1 == entry_val(plan@, pk));
                assert(entry_val(rese@, pk) + plan@[k as int].1 <= u64::MAX);
                assert(plan@.take(k as int + 1) =~= plan@.take(k as int).push(plan@[k as int]));
                assert forall|p: int, q: int|
                    0 <= p < q < plan@.take(k as int).len() implies plan@.take(k as int)[p].0@
                    != plan@.take(k as int)[q].0@ by {
                    assert(plan@[p].0@ != plan@[q].0@);
                }
                lemma_entry_val_push(plan@.take(k as int), plan@[k as int]);
            }
            rese = entries_with_added(&rese, &plan[k].0, plan[k].1);
            k = k + 1;
        }
        proof {
            assert(plan@.take(plan@.len() as int) =~= plan@);
        }
        let ghost rese_s = rese@;
        match ridx_opt {
            Some(j) => {
                let nur = (self.user_shares[j].0.clone(), UserShares { property_shares: rese });
                proof {
                    lemma_key_at(us1, j as int);
                    lemma_holdings_update(us1, j as int, nur);
                    assert forall|p: Seq<char>| #[trigger] sum_balances(
                        us1.update(j as int, nur),
                        p,
                    ) == sum_balances(us1, p) - entry_val(res0s, p) + entry_val(rese_s, p) by {
                        lemma_sum_balances_update(us1, j as int, nur, p);
                        assert(us1[j as int].1.property_shares@ == res0s);
                    }
                }
                self.user_shares.set(j, nur);
                proof {
                    let us2 = self.user_shares@;
                    assert forall|iu: int|
                        0 <= iu < us2.len() implies keys_unique(
                        #[trigger] us2[iu].1.property_shares@,
                    ) by {
                        if iu == j as int {
                            assert(us2[iu].1.property_shares@ == rese_s);
                        } else if iu == uidx as int {
                            assert(us2[iu].1.property_shares@ == nes_s);
                        } else {
                            assert(us2[iu].1.property_shares@ == us0[iu].1.property_shares@);
                        }
                    }
                }
            },
            None => {
                let nur = (recipient.clone(), UserShares { property_shares: rese });
                proof {
                    lemma_holdings_push(us1, nur);
                    assert forall|p: Seq<char>| #[trigger] sum_balances(us1.push(nur), p)
                        == sum_balances(us1, p) + entry_val(rese_s, p) by {
                        lemma_sum_balances_push(us1, nur, p);
                        assert(entry_val(res0s, p) == 0);
                    }
                }
                self.user_shares.push(nur);
                proof {
                    let us2 = self.user_shares@;
                    assert forall|iu: int|
                        0 <= iu < us2.len() implies keys_unique(
                        #[trigger] us2[iu].1.property_shares@,
                    ) by {
                        if iu == us1.len() as int {
                            assert(us2[iu].1.property_shares@ == rese_s);
                        } else if iu == uidx as int {
                            assert(us2[iu].1.property_shares@ == nes_s);
                        } else {
                            assert(us2[iu].1.property_shares@ == us0[iu].1.property_shares@);
                        }
                    }
                }
            },
        }
        proof {
            let us2 = self.user_shares@;
            // The planned keys are exactly those with a positive portion.
            assert forall|q: Seq<char>| has_key(plan@, q) == (share_of(
                amount,
                entry_val(och, q),
                total,
            ) > 0) by {
                if has_key(plan@, q) {
                    let w = key_index(plan@, q);
                    assert(0 <= w < plan@.len() && plan@[w].0@ == q);
                    assert(entry_val(plan@, q) == plan@[w].1);
                    assert(plan@[w].1 > 0);
                } else {
                    assert(entry_val(plan@, q) == 0);
                }
            }
            // The recipient is present afterwards, and some portion is positive.
            assert(has_key(us2, recipient@));
            assert(share_of(amount, holding(us0, caller@, plan@[0].0@), total) > 0) by {
                lemma_key_at(plan@, 0);
                assert(entry_val(plan@, plan@[0].0@) == plan@[0].1);
            }
            // Conservation, property by property.
            assert forall|p: Seq<char>| #[trigger] sum_balances(us2, p) == sum_balances(
                us0,
                p,
            ) by {
                assert(entry_val(rese_s, p) == entry_val(res0s, p) + entry_val(plan@, p));
            }
            // The weights moved, in aggregate.
            assert(holdings_of(us2, caller@) == nes_s);
            assert(sum_entries(nes_s) == sum_entries(och) - sum_portions(och, amount, total));
            assert(holdings_of(us2, recipient@) == rese_s);
            assert(sum_entries(rese_s) == sum_entries(res0s) + sum_entries(plan@));
            assert(sum_entries(res0s) == weight_of(us0, recipient@));
            lemma_split_total_le_amount(och, amount, total);
        }
        true
    }

    /// Participant `participant`'s recorded balance for `property_id`;
    /// zero when either is unknown.
    pub fn get_holding(&self, participant: &String, property_id: &String) -> (r: u64)
        requires
            self.wf(),
        ensures
            r == holding(self.user_shares@, participant@, property_id@),
    {
        match find_key(&self.user_shares, participant) {
            Some(i) => {
                proof {
                    lemma_key_at(self.user_shares@, i as int);
                }
                match find_key(&self.user_shares[i].1.property_shares, property_id) {
                    Some(k) => {
                        proof {
                            lemma_key_at(self.user_shares@[i as int].1.property_shares@, k as int);
                        }
                        self.user_shares[i].1.property_shares[k].1
                    },
                    None => 0,
                }
            },
            None => 0,
        }
    }

    /// Participant `participant`'s total shares across all properties:
    /// their voting weight.
    pub fn participant_weight(&self, participant: &String) -> (r: u64)
        requires
            self.wf(),
            weight_of(self.user_shares@, participant@) <= u64::MAX,
        ensures
            r == weight_of(self.user_shares@, participant@),
    {
        match find_key(&self.user_shares, participant) {
            Some(i) => {
                proof {
                    lemma_key_at(self.user_shares@, i as int);
                }
                sum_share_entries(&self.user_shares[i].1.property_shares)
            },
            None => 0,
        }
    }

    /// The unallocated pool of `property_id`, when it is registered.
    pub fn property_pool(&self, property_id: &String) -> (r: Option<u64>)
        requires
            self.wf(),
        ensures
            r == (if has_prop(self.properties@, property_id@) {
                Some(pool_of(self.properties@, property_id@))
            } else {
                None::<u64>
            }),
    {
        match find_prop(&self.properties, property_id) {
            Some(i) => {
                proof {
                    lemma_prop_at(self.properties@, i as int);
                }
                Some(self.properties[i].shares)
            },
            None => None,
        }
    }
}

/// Conservation of shares: in a well-formed ledger the sum of all
/// participants' balances for a property never exceeds that property's
/// total minted shares (its unallocated pool plus all balances, `total_for`).
/// Purchases and transfers leave every property's `total_for` unchanged and
/// minting grows exactly the minted property's by the minted amount — see
/// those operations' contracts — so the bound holds after any sequence of
/// operations on a well-formed ledger.
pub proof fn lemma_conservation(l: &Ledger, p: Seq<char>)
    requires
        l.wf(),
    ensures
        0 <= sum_balances(l.user_shares@, p),
        sum_balances(l.user_shares@, p) <= l.total_for(p),
        l.total_for(p) <= u64::MAX,
{
    lemma_sum_balances_nonneg(l.user_shares@, p);
}

} // verus!
