use share_ledger::ledger::Ledger;
use share_ledger::http::http_request_test;

fn s(x: &str) -> String {
    String::from(x)
}

#[test]
fn mint_creates_property_with_derived_name() {
    let mut l = Ledger::new();
    l.mint_property_shares(s("P1"), 0);
    assert_eq!(l.properties.len(), 1);
    assert_eq!(l.properties[0].id, "P1");
    assert_eq!(l.properties[0].name, "Property P1");
    assert_eq!(l.properties[0].shares, 0);
    assert_eq!(l.property_pool(&s("P1")), Some(0));
    // repeatable with no other change
    l.mint_property_shares(s("P1"), 0);
    assert_eq!(l.properties.len(), 1);
    assert_eq!(l.properties[0].shares, 0);
    assert!(l.user_shares.is_empty());
    assert!(l.decisions.is_empty());
}

#[test]
fn mint_accumulates_shares() {
    let mut l = Ledger::new();
    l.mint_property_shares(s("P"), 100);
    l.mint_property_shares(s("P"), 50);
    assert_eq!(l.property_pool(&s("P")), Some(150));
    assert_eq!(l.properties.len(), 1);
}

#[test]
fn purchase_moves_shares_from_pool_to_caller() {
    let mut l = Ledger::new();
    l.mint_property_shares(s("P"), 100);
    l.purchase_shares_with_ckbtc(s("alice"), s("P"), 40);
    assert_eq!(l.property_pool(&s("P")), Some(60));
    assert_eq!(l.get_holding(&s("alice"), &s("P")), 40);
}

#[test]
fn purchase_of_unknown_property_is_a_no_op() {
    let mut l = Ledger::new();
    l.purchase_shares_with_ckbtc(s("alice"), s("ghost"), 10);
    assert!(l.properties.is_empty());
    assert!(l.user_shares.is_empty());
    assert_eq!(l.get_holding(&s("alice"), &s("ghost")), 0);
}

#[test]
fn purchase_beyond_pool_is_a_no_op() {
    let mut l = Ledger::new();
    l.mint_property_shares(s("P"), 10);
    l.purchase_shares_with_ckbtc(s("alice"), s("P"), 11);
    assert_eq!(l.property_pool(&s("P")), Some(10));
    assert_eq!(l.get_holding(&s("alice"), &s("P")), 0);
    // the whole pool is still purchasable
    l.purchase_shares_with_ckbtc(s("alice"), s("P"), 10);
    assert_eq!(l.property_pool(&s("P")), Some(0));
    assert_eq!(l.get_holding(&s("alice"), &s("P")), 10);
}

fn holder_with(l: &mut Ledger, who: &str, props: &[(&str, u64)]) {
    for (p, n) in props {
        l.mint_property_shares(s(p), *n);
        l.purchase_shares_with_ckbtc(s(who), s(p), *n);
    }
}

#[test]
fn transfer_splits_proportionally() {
    let mut l = Ledger::new();
    holder_with(&mut l, "alice", &[("A", 30), ("B", 70)]);
    assert_eq!(l.participant_weight(&s("alice")), 100);
    let ok = l.transfer_shares(s("alice"), s("bob"), 50);
    assert!(ok);
    assert_eq!(l.get_holding(&s("alice"), &s("A")), 15);
    assert_eq!(l.get_holding(&s("alice"), &s("B")), 35);
    assert_eq!(l.get_holding(&s("bob"), &s("A")), 15);
    assert_eq!(l.get_holding(&s("bob"), &s("B")), 35);
    assert_eq!(l.participant_weight(&s("bob")), 50);
}

#[test]
fn transfer_rounding_loss_is_not_corrected() {
    let mut l = Ledger::new();
    holder_with(&mut l, "alice", &[("A", 1), ("B", 2)]);
    let ok = l.transfer_shares(s("alice"), s("bob"), 2);
    assert!(ok);
    // floor(2*1/3) = 0: property A is skipped; floor(2*2/3) = 1 moves from B
    assert_eq!(l.get_holding(&s("alice"), &s("A")), 1);
    assert_eq!(l.get_holding(&s("alice"), &s("B")), 1);
    assert_eq!(l.get_holding(&s("bob"), &s("A")), 0);
    assert_eq!(l.get_holding(&s("bob"), &s("B")), 1);
    // only 1 of the requested 2 moved
    assert_eq!(l.participant_weight(&s("bob")), 1);
    // bob never got an entry for A at all
    let bob = l.user_shares.iter().find(|(u, _)| u == "bob").unwrap();
    assert!(bob.1.property_shares.iter().all(|(p, _)| p != "A"));
}

#[test]
fn transfer_with_insufficient_total_fails_without_mutation() {
    let mut l = Ledger::new();
    holder_with(&mut l, "alice", &[("A", 4), ("B", 6)]);
    let ok = l.transfer_shares(s("alice"), s("bob"), 11);
    assert!(!ok);
    assert_eq!(l.get_holding(&s("alice"), &s("A")), 4);
    assert_eq!(l.get_holding(&s("alice"), &s("B")), 6);
    assert_eq!(l.participant_weight(&s("bob")), 0);
    assert!(l.user_shares.iter().all(|(u, _)| u != "bob"));
}

#[test]
fn transfer_from_unknown_caller_covers_only_zero() {
    let mut l = Ledger::new();
    // an unknown caller holds zero in total, which covers a zero transfer
    assert!(l.transfer_shares(s("nobody"), s("bob"), 0));
    assert!(l.user_shares.is_empty());
    // while any positive amount exceeds it and fails
    assert!(!l.transfer_shares(s("nobody"), s("bob"), 1));
    assert!(l.user_shares.is_empty());
}

#[test]
fn transfer_of_exact_total_moves_everything() {
    let mut l = Ledger::new();
    holder_with(&mut l, "alice", &[("A", 5)]);
    let ok = l.transfer_shares(s("alice"), s("bob"), 5);
    assert!(ok);
    assert_eq!(l.get_holding(&s("alice"), &s("A")), 0);
    assert_eq!(l.get_holding(&s("bob"), &s("A")), 5);
    // alice keeps an explicit zero entry: no pruning
    let alice = l.user_shares.iter().find(|(u, _)| u == "alice").unwrap();
    assert!(alice.1.property_shares.iter().any(|(p, n)| p == "A" && *n == 0));
}

#[test]
fn transfer_to_oneself_changes_nothing() {
    let mut l = Ledger::new();
    holder_with(&mut l, "alice", &[("A", 30), ("B", 70)]);
    let ok = l.transfer_shares(s("alice"), s("alice"), 50);
    assert!(ok);
    assert_eq!(l.get_holding(&s("alice"), &s("A")), 30);
    assert_eq!(l.get_holding(&s("alice"), &s("B")), 70);
}

fn total_balances(l: &Ledger, p: &str) -> u64 {
    l.user_shares
        .iter()
        .map(|(_, us)| {
            us.property_shares
                .iter()
                .filter(|(q, _)| q == p)
                .map(|(_, n)| *n)
                .sum::<u64>()
        })
        .sum()
}

#[test]
fn conservation_over_a_sequence_of_operations() {
    let mut l = Ledger::new();
    let mut minted_a: u64 = 0;
    let mut minted_b: u64 = 0;
    l.mint_property_shares(s("A"), 1000);
    minted_a += 1000;
    l.mint_property_shares(s("B"), 500);
    minted_b += 500;
    l.purchase_shares_with_ckbtc(s("u1"), s("A"), 300);
    l.purchase_shares_with_ckbtc(s("u2"), s("A"), 200);
    l.purchase_shares_with_ckbtc(s("u1"), s("B"), 500);
    l.mint_property_shares(s("A"), 7);
    minted_a += 7;
    l.transfer_shares(s("u1"), s("u3"), 123);
    l.purchase_shares_with_ckbtc(s("u3"), s("A"), 9999); // no-op: pool too small
    l.transfer_shares(s("u2"), s("u1"), 50);
    l.transfer_shares(s("u3"), s("u3"), 10);
    for (p, minted) in [("A", minted_a), ("B", minted_b)] {
        let held = total_balances(&l, p);
        let pool = l.property_pool(&s(p)).unwrap();
        assert!(held <= minted);
        assert_eq!(held + pool, minted);
    }
}

#[test]
fn rent_allocation_is_proportional_with_floor() {
    let mut l = Ledger::new();
    l.mint_property_shares(s("P"), 100);
    l.purchase_shares_with_ckbtc(s("alice"), s("P"), 30);
    l.purchase_shares_with_ckbtc(s("bob"), s("P"), 70);
    let out = l.distribute_rent(&s("P"), 100);
    assert_eq!(out.len(), 2);
    assert!(out.contains(&(s("alice"), 30)));
    assert!(out.contains(&(s("bob"), 70)));
}

#[test]
fn rent_allocation_truncates_each_portion() {
    let mut l = Ledger::new();
    l.mint_property_shares(s("P"), 3);
    l.purchase_shares_with_ckbtc(s("alice"), s("P"), 1);
    l.purchase_shares_with_ckbtc(s("bob"), s("P"), 2);
    let out = l.distribute_rent(&s("P"), 2);
    // floor(2*1/3) = 0 and floor(2*2/3) = 1: a unit of rent is lost
    assert_eq!(out.len(), 2);
    assert!(out.contains(&(s("alice"), 0)));
    assert!(out.contains(&(s("bob"), 1)));
}

#[test]
fn rent_allocation_skips_zero_balance_entries() {
    let mut l = Ledger::new();
    l.mint_property_shares(s("P"), 5);
    l.purchase_shares_with_ckbtc(s("alice"), s("P"), 5);
    l.transfer_shares(s("alice"), s("bob"), 5);
    // alice keeps a stale zero entry for P ...
    let alice = l.user_shares.iter().find(|(u, _)| u == "alice").unwrap();
    assert!(alice.1.property_shares.iter().any(|(p, n)| p == "P" && *n == 0));
    // ... but holds nothing, so only bob is owed rent
    let out = l.distribute_rent(&s("P"), 10);
    assert_eq!(out, vec![(s("bob"), 10)]);
}

#[test]
fn rent_allocation_is_empty_without_holders() {
    let mut l = Ledger::new();
    assert!(l.distribute_rent(&s("ghost"), 100).is_empty());
    l.mint_property_shares(s("P"), 10);
    // registered but nobody holds it
    assert!(l.distribute_rent(&s("P"), 100).is_empty());
}

#[test]
fn transfer_of_zero_succeeds_without_moving_anything() {
    let mut l = Ledger::new();
    holder_with(&mut l, "alice", &[("A", 3)]);
    assert!(l.transfer_shares(s("alice"), s("bob"), 0));
    assert_eq!(l.get_holding(&s("alice"), &s("A")), 3);
    assert!(l.user_shares.iter().all(|(u, _)| u != "bob"));
}

#[test]
fn purchase_of_zero_creates_an_explicit_zero_entry() {
    let mut l = Ledger::new();
    l.mint_property_shares(s("P"), 10);
    l.purchase_shares_with_ckbtc(s("alice"), s("P"), 0);
    assert_eq!(l.get_holding(&s("alice"), &s("P")), 0);
    let alice = l.user_shares.iter().find(|(u, _)| u == "alice").unwrap();
    assert!(alice.1.property_shares.iter().any(|(p, n)| p == "P" && *n == 0));
    // holding nothing, alice is owed no rent and is not listed
    l.purchase_shares_with_ckbtc(s("bob"), s("P"), 10);
    let out = l.distribute_rent(&s("P"), 7);
    assert_eq!(out, vec![(s("bob"), 7)]);
}

#[test]
fn repurchase_after_transfer_keeps_one_entry_per_property() {
    let mut l = Ledger::new();
    holder_with(&mut l, "alice", &[("A", 8)]);
    l.transfer_shares(s("alice"), s("bob"), 8);
    l.mint_property_shares(s("A"), 5);
    l.purchase_shares_with_ckbtc(s("bob"), s("A"), 5);
    assert_eq!(l.get_holding(&s("bob"), &s("A")), 13);
    let bob = l.user_shares.iter().find(|(u, _)| u == "bob").unwrap();
    assert_eq!(
        bob.1.property_shares.iter().filter(|(p, _)| p == "A").count(),
        1
    );
}

#[test]
fn status_probe_is_fixed() {
    let r = http_request_test();
    assert_eq!(r.status, 200);
    assert_eq!(
        r.body,
        "<html><body><h1>ICP Real Estate Backend Running!</h1></body></html>".as_bytes()
    );
}
