use share_ledger::ledger::Ledger;

fn s(x: &str) -> String {
    String::from(x)
}

fn holder_with(l: &mut Ledger, who: &str, prop: &str, n: u64) {
    l.mint_property_shares(s(prop), n);
    l.purchase_shares_with_ckbtc(s(who), s(prop), n);
}

fn tally(l: &Ledger, d: &str) -> (u64, u64) {
    let dec = l.decisions.iter().find(|(id, _)| id == d).unwrap();
    (dec.1.votes_yes, dec.1.votes_no)
}

#[test]
fn vote_is_weighted_by_total_holdings() {
    let mut l = Ledger::new();
    holder_with(&mut l, "alice", "A", 4);
    holder_with(&mut l, "alice", "B", 3);
    l.vote_on_decision(s("alice"), s("D1"), true);
    assert_eq!(tally(&l, "D1"), (7, 0));
    assert_eq!(l.get_voting_result(&s("D1")), Some(true));
}

#[test]
fn tie_and_unknown_decision_are_indistinguishable() {
    let mut l = Ledger::new();
    holder_with(&mut l, "alice", "A", 10);
    holder_with(&mut l, "bob", "B", 10);
    l.vote_on_decision(s("alice"), s("D1"), true);
    l.vote_on_decision(s("bob"), s("D1"), false);
    assert_eq!(tally(&l, "D1"), (10, 10));
    // an exact tie reads the same as a decision nobody ever voted on
    assert_eq!(l.get_voting_result(&s("D1")), None);
    assert_eq!(l.get_voting_result(&s("D2")), None);
}

#[test]
fn duplicate_vote_is_ignored() {
    let mut l = Ledger::new();
    holder_with(&mut l, "alice", "A", 5);
    l.vote_on_decision(s("alice"), s("D1"), true);
    l.vote_on_decision(s("alice"), s("D1"), false);
    assert_eq!(tally(&l, "D1"), (5, 0));
    assert_eq!(l.get_voting_result(&s("D1")), Some(true));
    let dec = l.decisions.iter().find(|(id, _)| id == "D1").unwrap();
    assert_eq!(dec.1.voters.len(), 1);
}

#[test]
fn zero_weight_participant_cannot_vote() {
    let mut l = Ledger::new();
    l.vote_on_decision(s("nobody"), s("D1"), true);
    assert!(l.decisions.is_empty());
    assert_eq!(l.get_voting_result(&s("D1")), None);
    // a participant left with only zero entries has zero weight too
    holder_with(&mut l, "alice", "A", 5);
    l.transfer_shares(s("alice"), s("bob"), 5);
    l.vote_on_decision(s("alice"), s("D1"), true);
    assert!(l.decisions.is_empty());
}

#[test]
fn no_tally_wins_when_no_weight_leads() {
    let mut l = Ledger::new();
    holder_with(&mut l, "alice", "A", 3);
    holder_with(&mut l, "bob", "B", 8);
    l.vote_on_decision(s("alice"), s("D"), true);
    l.vote_on_decision(s("bob"), s("D"), false);
    assert_eq!(tally(&l, "D"), (3, 8));
    assert_eq!(l.get_voting_result(&s("D")), Some(false));
}

#[test]
fn weight_is_fixed_at_cast_time() {
    let mut l = Ledger::new();
    holder_with(&mut l, "alice", "A", 5);
    l.vote_on_decision(s("alice"), s("D"), true);
    // gaining more shares afterwards does not change the cast vote
    l.purchase_shares_with_ckbtc(s("alice"), s("A"), 0);
    l.mint_property_shares(s("A"), 100);
    l.purchase_shares_with_ckbtc(s("alice"), s("A"), 100);
    assert_eq!(tally(&l, "D"), (5, 0));
}
