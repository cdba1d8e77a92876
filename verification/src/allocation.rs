//! Proportional allocation: splitting a quantity among holders in proportion
//! to their share counts, with per-holder floor truncation and no
//! redistribution of the residual.

use vstd::prelude::*;
use vstd::arithmetic::div_mod::{lemma_div_is_ordered, lemma_div_by_multiple, lemma_div_pos_is_pos, lemma_fundamental_div_mod, lemma_mod_bound};
use vstd::arithmetic::mul::lemma_mul_is_distributive_add;
use crate::assoc::{has_key, lemma_key_at, find_key};
use crate::ledger::{Ledger, UserShares, entry_val, sum_balances, sum_entries, lemma_sum_entries_nonneg, lemma_sum_balances_nonneg, lemma_sum_balances_ge_at, lemma_sum_balances_take_succ, lemma_sum_balances_split};
use crate::registry::pool_of;

verus! {

/// The portion of `amount` owed to a holder of `s` shares out of `total`:
/// the proportion `s / total` applied to `amount`, truncated toward zero.
/// A zero total yields zero.
pub open spec fn share_of(amount: u64, s: u64, total: u64) -> int {
    if total == 0 {
        0
    } else {
        (amount * s) / (total as int)
    }
}

/// A holder's portion never exceeds the amount being split.
pub proof fn lemma_share_le_amount(amount: u64, s: u64, total: u64)
    requires
        s <= total,
    ensures
        0 <= share_of(amount, s, total) <= amount,
{
    if total > 0 {
        assert(amount * s <= amount * total) by (nonlinear_arith)
            requires s <= total,
        ;
        assert((amount * s) / (total as int) <= amount) by (nonlinear_arith)
            requires amount * s <= amount * total, total > 0,
        ;
        assert((amount * s) / (total as int) >= 0) by (nonlinear_arith)
            requires amount >= 0, s >= 0, total > 0,
        ;
    }
}

/// When the amount being split does not exceed the total share count, a
/// holder's portion never exceeds the holder's own share count.
pub proof fn lemma_share_le_holding(amount: u64, s: u64, total: u64)
    requires
        amount <= total,
    ensures
        0 <= share_of(amount, s, total) <= s,
{
    if total > 0 {
        assert(amount * s <= total * s) by (nonlinear_arith)
            requires amount <= total,
        ;
        assert((amount * s) / (total as int) <= s) by (nonlinear_arith)
            requires amount * s <= total * s, total > 0, s >= 0,
        ;
        assert((amount * s) / (total as int) >= 0) by (nonlinear_arith)
            requires amount >= 0, s >= 0, total > 0,
        ;
    }
}

/// Computes `share_of` exactly: the product is taken at double width, so no
/// precision is lost before the truncating division.
pub fn proportional_share(amount: u64, s: u64, total: u64) -> (r: u64)
    requires
        s <= total,
    ensures
        r == share_of(amount, s, total),
        r <= amount,
{
    if total == 0 {
        0
    } else {
        proof {
            lemma_share_le_amount(amount, s, total);
            assert((amount as u128) * (s as u128) <= u128::MAX) by (nonlinear_arith)
                requires amount <= u64::MAX, s <= u64::MAX,
            ;
        }
        let prod: u128 = (amount as u128) * (s as u128);
        let q: u128 = prod / (total as u128);
        q as u64
    }
}

/// The sum of the floor-truncated portions over a whole entry list.
pub open spec fn sum_portions(es: Seq<(String, u64)>, amount: u64, total: u64) -> int
    decreases es.len(),
{
    if es.len() == 0 {
        0
    } else {
        share_of(amount, es[0].1, total) + sum_portions(es.skip(1), amount, total)
    }
}

/// A sum of portions splits at any point.
pub proof fn lemma_sum_portions_split(es: Seq<(String, u64)>, k: int, amount: u64, total: u64)
    requires
        0 <= k <= es.len(),
    ensures
        sum_portions(es, amount, total) == sum_portions(es.take(k), amount, total) + sum_portions(
            es.skip(k),
            amount,
            total,
        ),
    decreases k,
{
    if k == 0 {
        assert(es.take(0).len() == 0);
        assert(es.skip(0) =~= es);
    } else {
        lemma_sum_portions_split(es.skip(1), k - 1, amount, total);
        assert(es.take(k).skip(1) =~= es.skip(1).take(k - 1));
        assert(es.skip(k) =~= es.skip(1).skip(k - 1));
        assert(es.take(k)[0] == es[0]);
        assert(sum_portions(es.take(k), amount, total) == share_of(amount, es[0].1, total)
            + sum_portions(es.skip(1).take(k - 1), amount, total));
    }
}

/// Extending a prefix sum of portions by one holder adds that holder's
/// portion.
pub proof fn lemma_sum_portions_take_succ(es: Seq<(String, u64)>, k: int, amount: u64, total: u64)
    requires
        0 <= k < es.len(),
    ensures
        sum_portions(es.take(k + 1), amount, total) == sum_portions(es.take(k), amount, total)
            + share_of(amount, es[k].1, total),
{
    let t = es.take(k + 1);
    lemma_sum_portions_split(t, k, amount, total);
    assert(t.take(k) =~= es.take(k));
    assert(t.skip(k) =~= seq![es[k]]);
    assert(sum_portions(seq![es[k]], amount, total) == share_of(amount, es[k].1, total)
        + sum_portions(seq![es[k]].skip(1), amount, total));
    assert(seq![es[k]].skip(1).len() == 0);
}

/// Truncating division loses at most the remainder: the quotients of two
/// parts never beat the quotient of the whole.
proof fn lemma_div_add_le(x: int, y: int, t: int)
    requires
        0 <= x,
        0 <= y,
        0 < t,
    ensures
        x / t + y / t <= (x + y) / t,
{
    lemma_fundamental_div_mod(x, t);
    lemma_fundamental_div_mod(y, t);
    lemma_mod_bound(x, t);
    lemma_mod_bound(y, t);
    lemma_div_pos_is_pos(x, t);
    lemma_div_pos_is_pos(y, t);
    let a = x / t + y / t;
    assert(t * a == t * (x / t) + t * (y / t)) by {
        lemma_mul_is_distributive_add(t, x / t, y / t);
    }
    assert(x + y >= t * a);
    lemma_div_is_ordered(t * a, x + y, t);
    assert((a * t) / t == a) by {
        lemma_div_by_multiple(a, t);
    }
    assert(t * a == a * t);
}

/// With a zero total every portion is zero.
proof fn lemma_sum_portions_zero_total(es: Seq<(String, u64)>, amount: u64)
    ensures
        sum_portions(es, amount, 0) == 0,
    decreases es.len(),
{
    if es.len() > 0 {
        lemma_sum_portions_zero_total(es.skip(1), amount);
    }
}

/// The portions of a list of holders add up to at most the whole list's
/// proportional portion.
proof fn lemma_sum_portions_le_div(es: Seq<(String, u64)>, amount: u64, total: u64)
    requires
        total > 0,
    ensures
        0 <= sum_portions(es, amount, total),
        sum_portions(es, amount, total) <= (amount * sum_entries(es)) / (total as int),
    decreases es.len(),
{
    if es.len() == 0 {
        assert((0int * (total as int)) / (total as int) == 0) by {
            lemma_div_by_multiple(0, total as int);
        }
    } else {
        lemma_sum_portions_le_div(es.skip(1), amount, total);
        let s0 = es[0].1 as int;
        let rest = sum_entries(es.skip(1));
        lemma_sum_entries_nonneg(es.skip(1));
        assert(amount * s0 >= 0) by (nonlinear_arith)
            requires amount >= 0, s0 >= 0,
        ;
        assert(amount * rest >= 0) by (nonlinear_arith)
            requires amount >= 0, rest >= 0,
        ;
        lemma_div_add_le(amount * s0, amount * rest, total as int);
        assert(amount * s0 + amount * rest == amount * (s0 + rest)) by {
            lemma_mul_is_distributive_add(amount as int, s0, rest);
        }
        assert(sum_entries(es) == s0 + rest);
        lemma_div_pos_is_pos(amount * rest, total as int);
    }
}

/// Rounding loss of a proportional split: the floor-truncated portions of
/// all holders together never exceed the amount being split, whether `es`
/// lists one participant's holdings (a transfer plan) or one property's
/// holders (a rent allocation).  The difference — the residual of the
/// per-holder truncations — is simply lost, never redistributed.
pub proof fn lemma_split_total_le_amount(es: Seq<(String, u64)>, amount: u64, total: u64)
    requires
        sum_entries(es) <= total,
    ensures
        0 <= sum_portions(es, amount, total),
        sum_portions(es, amount, total) <= amount,
{
    if total == 0 {
        lemma_sum_portions_zero_total(es, amount);
    } else {
        lemma_sum_portions_le_div(es, amount, total);
        lemma_sum_entries_nonneg(es);
        assert(amount * sum_entries(es) <= amount * total) by (nonlinear_arith)
            requires amount >= 0, sum_entries(es) <= total,
        ;
        assert(amount * sum_entries(es) >= 0) by (nonlinear_arith)
            requires amount >= 0, sum_entries(es) >= 0,
        ;
        lemma_div_is_ordered(amount * sum_entries(es), amount * total, total as int);
        assert((amount * (total as int)) / (total as int) == amount) by {
            lemma_div_by_multiple(amount as int, total as int);
            assert(amount * (total as int) == (amount as int) * (total as int));
        }
    }
}

/// The rent allocation read off a participant list: every participant with
/// a nonzero balance for property `p`, in ledger order, paired with their
/// floor-truncated proportional portion of `amount`.  A participant whose
/// balance is zero — a stale zero entry included — is owed nothing and is
/// not listed.
pub open spec fn rent_shares(
    us: Seq<(String, UserShares)>,
    p: Seq<char>,
    amount: u64,
    total: u64,
) -> Seq<(String, u64)>
    decreases us.len(),
{
    if us.len() == 0 {
        Seq::empty()
    } else {
        rent_shares(us.drop_last(), p, amount, total) + (if entry_val(
            us.last().1.property_shares@,
            p,
        ) > 0 {
            seq![
                (
                    us.last().0,
                    share_of(amount, entry_val(us.last().1.property_shares@, p), total) as u64,
                ),
            ]
        } else {
            Seq::empty()
        })
    }
}

impl Ledger {
    /// Computes the proportional rent allocation for `property_id`: each
    /// participant with a nonzero holding for the property is owed the floor
    /// of `amount` times their holding over the property's total held
    /// shares.  When nobody holds the property the allocation is empty.  The
    /// portions may add up to less than `amount`; the residual is not
    /// redistributed.  Nothing in the ledger changes; settling the owed
    /// portions is the hosting environment's concern.
    pub fn distribute_rent(&self, property_id: &String, amount: u64) -> (r: Vec<(String, u64)>)
        requires
            self.wf(),
        ensures
            sum_balances(self.user_shares@, property_id@) == 0 ==> r@ == Seq::<(
                String,
                u64,
            )>::empty(),
            sum_balances(self.user_shares@, property_id@) > 0 ==> r@ == rent_shares(
                self.user_shares@,
                property_id@,
                amount,
                sum_balances(self.user_shares@, property_id@) as u64,
            ),
    {
        let us_len = self.user_shares.len();
        let mut total: u64 = 0;
        let mut i: usize = 0;
        proof {
            assert(self.user_shares@.take(0).len() == 0);
        }
        while i < us_len
            invariant
                self.wf(),
                us_len == self.user_shares@.len(),
                0 <= i <= us_len,
                total == sum_balances(self.user_shares@.take(i as int), property_id@),
            decreases us_len - i,
        {
            proof {
                lemma_sum_balances_take_succ(self.user_shares@, i as int, property_id@);
                lemma_sum_balances_split(self.user_shares@, i as int + 1, property_id@);
                lemma_sum_balances_nonneg(self.user_shares@.skip(i as int + 1), property_id@);
                lemma_sum_balances_nonneg(self.user_shares@.take(i as int), property_id@);
                assert(pool_of(self.properties@, property_id@) + sum_balances(
                    self.user_shares@,
                    property_id@,
                ) <= u64::MAX);
            }
            let v: u64 = match find_key(&self.user_shares[i].1.property_shares, property_id) {
                Some(k) => {
                    proof {
                        lemma_key_at(self.user_shares@[i as int].1.property_shares@, k as int);
                    }
                    self.user_shares[i].1.property_shares[k].1
                },
                None => 0,
            };
            total = total + v;
            i = i + 1;
        }
        proof {
            assert(self.user_shares@.take(us_len as int) =~= self.user_shares@);
        }
        if total == 0 {
            return Vec::new();
        }
        let mut r: Vec<(String, u64)> = Vec::new();
        let mut j: usize = 0;
        proof {
            assert(self.user_shares@.take(0).len() == 0);
        }
        while j < us_len
            invariant
                self.wf(),
                us_len == self.user_shares@.len(),
                0 <= j <= us_len,
                total == sum_balances(self.user_shares@, property_id@),
                total > 0,
                r@ == rent_shares(self.user_shares@.take(j as int), property_id@, amount, total),
            decreases us_len - j,
        {
            proof {
                assert(self.user_shares@.take(j as int + 1).drop_last() =~= self.user_shares@.take(
                    j as int,
                ));
                assert(self.user_shares@.take(j as int + 1).last() == self.user_shares@[j as int]);
            }
            match find_key(&self.user_shares[j].1.property_shares, property_id) {
                Some(k) => {
                    proof {
                        lemma_key_at(self.user_shares@[j as int].1.property_shares@, k as int);
                        lemma_sum_balances_ge_at(self.user_shares@, j as int, property_id@);
                    }
                    let s = self.user_shares[j].1.property_shares[k].1;
                    if s > 0 {
                        let m = proportional_share(amount, s, total);
                        r.push((self.user_shares[j].0.clone(), m));
                    }
                    proof {
                        assert(r@ =~= rent_shares(
                            self.user_shares@.take(j as int + 1),
                            property_id@,
                            amount,
                            total,
                        ));
                    }
                },
                None => {
                    proof {
                        assert(r@ =~= rent_shares(
                            self.user_shares@.take(j as int + 1),
                            property_id@,
                            amount,
                            total,
                        ));
                    }
                },
            }
            j = j + 1;
        }
        proof {
            assert(self.user_shares@.take(us_len as int) =~= self.user_shares@);
        }
        r
    }
}

} // verus!
