//! The voting board: share-weighted yes/no tallies per named decision, with
//! each participant counted at most once, at the weight they held when they
//! cast their vote.

use vstd::prelude::*;
use crate::assoc::{keys_unique, has_key, key_index, lemma_key_at, lemma_keys_update, lemma_keys_push, find_key};
use crate::ledger::{Ledger, weight_of, sum_share_entries};

verus! {

/// One decision's running tally and the participants who already voted.
pub struct VotingDecision {
    pub votes_yes: u64,
    pub votes_no: u64,
    pub voters: Vec<String>,
}

/// The recorded voters are pairwise distinct.
pub open spec fn voters_unique(vs: Seq<String>) -> bool {
    forall|i: int, j: int| 0 <= i < j < vs.len() ==> vs[i]@ != vs[j]@
}

/// Participant `u` appears among the recorded voters.
pub open spec fn is_voter(vs: Seq<String>, u: Seq<char>) -> bool {
    exists|i: int| 0 <= i < vs.len() && vs[i]@ == u
}

/// The yes tally of decision `d`; zero when the decision is unknown.
pub open spec fn yes_of(ds: Seq<(String, VotingDecision)>, d: Seq<char>) -> u64 {
    if has_key(ds, d) {
        ds[key_index(ds, d)].1.votes_yes
    } else {
        0
    }
}

/// The no tally of decision `d`; zero when the decision is unknown.
pub open spec fn no_of(ds: Seq<(String, VotingDecision)>, d: Seq<char>) -> u64 {
    if has_key(ds, d) {
        ds[key_index(ds, d)].1.votes_no
    } else {
        0
    }
}

/// The recorded voters of decision `d`; empty when the decision is unknown.
pub open spec fn voters_of(ds: Seq<(String, VotingDecision)>, d: Seq<char>) -> Seq<String> {
    if has_key(ds, d) {
        ds[key_index(ds, d)].1.voters@
    } else {
        Seq::empty()
    }
}

/// Participant `u` already voted on decision `d`.
pub open spec fn has_voted(ds: Seq<(String, VotingDecision)>, d: Seq<char>, u: Seq<char>) -> bool {
    is_voter(voters_of(ds, d), u)
}

/// Recording one more voter adds exactly that participant.
pub proof fn lemma_is_voter_push(vs: Seq<String>, c: String)
    ensures
        forall|u: Seq<char>| #[trigger] is_voter(vs.push(c), u) == (is_voter(vs, u) || u == c@),
{
    let t = vs.push(c);
    assert forall|u: Seq<char>| #[trigger] is_voter(t, u) == (is_voter(vs, u) || u == c@) by {
        if is_voter(vs, u) {
            let w = choose|i: int| 0 <= i < vs.len() && vs[i]@ == u;
            assert(t[w]@ == u);
        }
        if u == c@ {
            assert(t[vs.len() as int]@ == u);
        }
        if is_voter(t, u) && u != c@ {
            let w = choose|i: int| 0 <= i < t.len() && t[i]@ == u;
            assert(0 <= w < vs.len() && vs[w]@ == u);
        }
    }
}

/// Replacing the decision at index `i` by one under the same id changes the
/// tally and voters read at that id alone.
pub proof fn lemma_decisions_update(
    ds: Seq<(String, VotingDecision)>,
    i: int,
    nv: (String, VotingDecision),
)
    requires
        keys_unique(ds),
        0 <= i < ds.len(),
        nv.0@ == ds[i].0@,
    ensures
        keys_unique(ds.update(i, nv)),
        forall|d: Seq<char>| #[trigger] has_key(ds.update(i, nv), d) == has_key(ds, d),
        forall|d: Seq<char>|
            #[trigger] yes_of(ds.update(i, nv), d) == if d == nv.0@ {
                nv.1.votes_yes
            } else {
                yes_of(ds, d)
            },
        forall|d: Seq<char>|
            #[trigger] no_of(ds.update(i, nv), d) == if d == nv.0@ {
                nv.1.votes_no
            } else {
                no_of(ds, d)
            },
        forall|d: Seq<char>|
            #[trigger] voters_of(ds.update(i, nv), d) == if d == nv.0@ {
                nv.1.voters@
            } else {
                voters_of(ds, d)
            },
{
    lemma_keys_update(ds, i, nv);
    lemma_key_at(ds, i);
    let t = ds.update(i, nv);
    assert forall|d: Seq<char>|
        #[trigger] yes_of(t, d) == (if d == nv.0@ {
            nv.1.votes_yes
        } else {
            yes_of(ds, d)
        }) && #[trigger] no_of(t, d) == (if d == nv.0@ {
            nv.1.votes_no
        } else {
            no_of(ds, d)
        }) && #[trigger] voters_of(t, d) == (if d == nv.0@ {
            nv.1.voters@
        } else {
            voters_of(ds, d)
        }) by {
        if has_key(ds, d) {
            let w = key_index(ds, d);
            assert(key_index(t, d) == w);
            assert(yes_of(t, d) == t[w].1.votes_yes);
        }
    }
}

/// Recording a decision under a fresh id changes nothing read at other ids.
pub proof fn lemma_decisions_push(ds: Seq<(String, VotingDecision)>, nv: (String, VotingDecision))
    requires
        keys_unique(ds),
        !has_key(ds, nv.0@),
    ensures
        keys_unique(ds.push(nv)),
        forall|d: Seq<char>| #[trigger] has_key(ds.push(nv), d) == (has_key(ds, d) || d == nv.0@),
        yes_of(ds.push(nv), nv.0@) == nv.1.votes_yes,
        no_of(ds.push(nv), nv.0@) == nv.1.votes_no,
        voters_of(ds.push(nv), nv.0@) == nv.1.voters@,
        forall|d: Seq<char>|
            d != nv.0@ ==> #[trigger] yes_of(ds.push(nv), d) == yes_of(ds, d) && #[trigger] no_of(
                ds.push(nv),
                d,
            ) == no_of(ds, d) && #[trigger] voters_of(ds.push(nv), d) == voters_of(ds, d),
{
    lemma_keys_push(ds, nv);
    let t = ds.push(nv);
    assert(yes_of(t, nv.0@) == t[ds.len() as int].1.votes_yes);
    assert forall|d: Seq<char>|
        d != nv.0@ implies #[trigger] yes_of(t, d) == yes_of(ds, d) && #[trigger] no_of(t, d)
        == no_of(ds, d) && #[trigger] voters_of(t, d) == voters_of(ds, d) by {
        if has_key(ds, d) {
            let w = key_index(ds, d);
            assert(key_index(t, d) == w);
            assert(yes_of(t, d) == t[w].1.votes_yes);
        }
    }
}

/// Linear scan of the recorded voters.
fn contains_voter(vs: &Vec<String>, u: &String) -> (r: bool)
    ensures
        r == is_voter(vs@, u@),
{
    let mut i: usize = 0;
    while i < vs.len()
        invariant
            0 <= i <= vs@.len(),
            forall|j: int| 0 <= j < i ==> vs@[j]@ != u@,
        decreases vs@.len() - i,
    {
        if vs[i] == *u {
            return true;
        }
        i = i + 1;
    }
    false
}

/// Copies the voter list element for element.
fn copy_voters(vs: &Vec<String>) -> (r: Vec<String>)
    ensures
        r@ == vs@,
{
    let mut r: Vec<String> = Vec::new();
    let mut i: usize = 0;
    while i < vs.len()
        invariant
            0 <= i <= vs@.len(),
            r@.len() == i,
            forall|j: int| 0 <= j < i ==> r@[j] == vs@[j],
        decreases vs@.len() - i,
    {
        r.push(vs[i].clone());
        i = i + 1;
    }
    proof {
        assert(r@ =~= vs@);
    }
    r
}

impl Ledger {
    /// Casts `caller`'s vote on `decision_id` at their current total share
    /// weight.  A participant with zero weight cannot vote, and a repeated
    /// vote on the same decision is ignored: the first vote stands.  The
    /// weight is fixed at cast time and never recomputed.
    pub fn vote_on_decision(&mut self, caller: String, decision_id: String, in_favor: bool)
        requires
            old(self).wf(),
            weight_of(old(self).user_shares@, caller@) <= u64::MAX,
            weight_of(old(self).user_shares@, caller@) > 0 && !has_voted(
                old(self).decisions@,
                decision_id@,
                caller@,
            ) && in_favor ==> yes_of(old(self).decisions@, decision_id@) + weight_of(
                old(self).user_shares@,
                caller@,
            ) <= u64::MAX,
            weight_of(old(self).user_shares@, caller@) > 0 && !has_voted(
                old(self).decisions@,
                decision_id@,
                caller@,
            ) && !in_favor ==> no_of(old(self).decisions@, decision_id@) + weight_of(
                old(self).user_shares@,
                caller@,
            ) <= u64::MAX,
        ensures
            final(self).wf(),
            weight_of(old(self).user_shares@, caller@) == 0 ==> *final(self) == *old(self),
            weight_of(old(self).user_shares@, caller@) > 0 && has_voted(
                old(self).decisions@,
                decision_id@,
                caller@,
            ) ==> *final(self) == *old(self),
            weight_of(old(self).user_shares@, caller@) > 0 && !has_voted(
                old(self).decisions@,
                decision_id@,
                caller@,
            ) ==> {
                let w = weight_of(old(self).user_shares@, caller@);
                &&& yes_of(final(self).decisions@, decision_id@) == yes_of(
                    old(self).decisions@,
                    decision_id@,
                ) + (if in_favor {
                    w
                } else {
                    0
                })
                &&& no_of(final(self).decisions@, decision_id@) == no_of(
                    old(self).decisions@,
                    decision_id@,
                ) + (if in_favor {
                    0
                } else {
                    w
                })
                &&& forall|u: Seq<char>|
                    #[trigger] has_voted(final(self).decisions@, decision_id@, u) == (has_voted(
                        old(self).decisions@,
                        decision_id@,
                        u,
                    ) || u == caller@)
                &&& forall|d: Seq<char>|
                    #[trigger] has_key(final(self).decisions@, d) == (has_key(
                        old(self).decisions@,
                        d,
                    ) || d == decision_id@)
                &&& forall|d: Seq<char>|
                    d != decision_id@ ==> #[trigger] yes_of(final(self).decisions@, d) == yes_of(
                        old(self).decisions@,
                        d,
                    ) && #[trigger] no_of(final(self).decisions@, d) == no_of(
                        old(self).decisions@,
                        d,
                    ) && #[trigger] voters_of(final(self).decisions@, d) == voters_of(
                        old(self).decisions@,
                        d,
                    )
                &&& final(self).properties == old(self).properties
                &&& final(self).user_shares == old(self).user_shares
            },
            forall|k: Seq<char>| #[trigger] final(self).total_for(k) == old(self).total_for(k),
    {
        let ghost ds0 = self.decisions@;
        let w: u64 = match find_key(&self.user_shares, &caller) {
            Some(i) => {
                proof {
                    lemma_key_at(self.user_shares@, i as int);
                }
                sum_share_entries(&self.user_shares[i].1.property_shares)
            },
            None => 0,
        };
        if w == 0 {
            return;
        }
        match find_key(&self.decisions, &decision_id) {
            Some(j) => {
                proof {
                    lemma_key_at(ds0, j as int);
                }
                if contains_voter(&self.decisions[j].1.voters, &caller) {
                    return;
                }
                let mut nvoters = copy_voters(&self.decisions[j].1.voters);
                nvoters.push(caller.clone());
                proof {
                    lemma_is_voter_push(ds0[j as int].1.voters@, caller);
                    assert forall|p: int, q: int|
                        0 <= p < q < nvoters@.len() implies nvoters@[p]@ != nvoters@[q]@ by {
                        if q < nvoters@.len() - 1 {
                            assert(ds0[j as int].1.voters@[p]@ != ds0[j as int].1.voters@[q]@);
                        } else {
                            if nvoters@[p]@ == caller@ {
                                assert(is_voter(ds0[j as int].1.voters@, caller@));
                            }
                        }
                    }
                }
                let nd = VotingDecision {
                    votes_yes: if in_favor {
                        self.decisions[j].1.votes_yes + w
                    } else {
                        self.decisions[j].1.votes_yes
                    },
                    votes_no: if in_favor {
                        self.decisions[j].1.votes_no
                    } else {
                        self.decisions[j].1.votes_no + w
                    },
                    voters: nvoters,
                };
                let np = (self.decisions[j].0.clone(), nd);
                proof {
                    lemma_decisions_update(ds0, j as int, np);
                }
                self.decisions.set(j, np);
            },
            None => {
                let mut nvoters: Vec<String> = Vec::new();
                nvoters.push(caller.clone());
                proof {
                    lemma_is_voter_push(Seq::<String>::empty(), caller);
                    assert(nvoters@ =~= Seq::<String>::empty().push(caller));
                }
                let nd = VotingDecision {
                    votes_yes: if in_favor {
                        w
                    } else {
                        0
                    },
                    votes_no: if in_favor {
                        0
                    } else {
                        w
                    },
                    voters: nvoters,
                };
                let np = (decision_id.clone(), nd);
                proof {
                    lemma_decisions_push(ds0, np);
                }
                self.decisions.push(np);
            },
        }
    }

    /// The outcome of decision `decision_id`: yes when the yes weight leads,
    /// no when the no weight leads, and nothing both for an exact tie and
    /// for a decision nobody ever voted on (the two are indistinguishable
    /// here by design).
    pub fn get_voting_result(&self, decision_id: &String) -> (r: Option<bool>)
        requires
            self.wf(),
        ensures
            r == (if has_key(self.decisions@, decision_id@) && yes_of(
                self.decisions@,
                decision_id@,
            ) > no_of(self.decisions@, decision_id@) {
                Some(true)
            } else if has_key(self.decisions@, decision_id@) && no_of(
                self.decisions@,
                decision_id@,
            ) > yes_of(self.decisions@, decision_id@) {
                Some(false)
            } else {
                None::<bool>
            }),
    {
        match find_key(&self.decisions, decision_id) {
            Some(j) => {
                proof {
                    lemma_key_at(self.decisions@, j as int);
                }
                if self.decisions[j].1.votes_yes > self.decisions[j].1.votes_no {
                    Some(true)
                } else if self.decisions[j].1.votes_no > self.decisions[j].1.votes_yes {
                    Some(false)
                } else {
                    None
                }
            },
            None => None,
        }
    }
}

} // verus!
