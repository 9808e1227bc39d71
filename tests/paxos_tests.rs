use paxos::{
    quorum_threshold, tally_phase1, tally_phase2, value_to_propose, Acceptor, BallotNum,
    LocalCluster, Phase1Reply, Phase1Request, Phase2Reply, Phase2Request, Proposer,
};
use std::cmp::Ordering;

fn reach(net: &mut LocalCluster, up: &[bool]) {
    for (i, u) in up.iter().enumerate() {
        net.set_reachable(i, *u);
    }
}

fn seed_phase1(net: &mut LocalCluster, i: usize, b: BallotNum) {
    net.deliver_phase1(i, Phase1Request { ballot: b });
}

fn seed_phase2(net: &mut LocalCluster, i: usize, b: BallotNum, v: &[u8]) -> bool {
    net.deliver_phase2(i, Phase2Request { ballot: b, v: v.to_vec() }).ok
}

fn bal(n: u64, id: &str) -> BallotNum {
    BallotNum::new(n, id.to_string())
}

fn quorum(n: usize) -> Vec<String> {
    (0..n).map(|i| format!("acceptor{}", i)).collect()
}

fn p1(a: &mut Acceptor, b: BallotNum) -> Phase1Reply {
    a.handle_phase1(Phase1Request { ballot: b })
}

fn p2(a: &mut Acceptor, b: BallotNum, v: &[u8]) -> bool {
    a.handle_phase2(Phase2Request { ballot: b, v: v.to_vec() }).ok
}

fn reply(last: Option<BallotNum>, v: &[u8], vbal: Option<BallotNum>) -> Phase1Reply {
    Phase1Reply { last_ballot: last, v: v.to_vec(), vbal }
}

#[test]
fn quorum_threshold_boundaries() {
    assert_eq!(quorum_threshold(1), 1);
    assert_eq!(quorum_threshold(2), 2);
    assert_eq!(quorum_threshold(3), 2);
    assert_eq!(quorum_threshold(5), 3);
    assert_eq!(quorum_threshold(0), 1);
}

#[test]
fn ballots_order_by_counter_then_identity() {
    assert_eq!(bal(1, "A").compare(&bal(1, "B")), Ordering::Less);
    assert_eq!(bal(1, "B").compare(&bal(2, "A")), Ordering::Less);
    assert_eq!(bal(2, "A").compare(&bal(1, "B")), Ordering::Greater);
    assert_eq!(bal(3, "AB").compare(&bal(3, "A")), Ordering::Greater);
    assert_eq!(bal(3, "A").compare(&bal(3, "A")), Ordering::Equal);
    assert!(bal(0, "B").less_than(&bal(1, "A")));
    assert!(!bal(1, "A").less_than(&bal(1, "A")));
    assert!(bal(7, "x").same_as(&bal(7, "x")));
    assert!(!bal(7, "x").same_as(&bal(7, "y")));
}

#[test]
fn new_acceptor_is_empty() {
    let a = Acceptor::new();
    assert!(a.last_ballot().is_none());
    assert!(a.accepted_value().is_empty());
    assert!(a.accepted_ballot().is_none());
}

#[test]
fn phase1_on_fresh_acceptor_promises() {
    let mut a = Acceptor::new();
    let r = p1(&mut a, bal(1, "A"));
    assert_eq!(r.last_ballot.unwrap().compare(&bal(1, "A")), Ordering::Equal);
    assert!(r.v.is_empty());
    assert!(r.vbal.is_none());
    assert_eq!(a.last_ballot().as_ref().unwrap().ballot, 1);
}

#[test]
fn phase1_with_lower_ballot_reports_higher() {
    let mut a = Acceptor::new();
    p1(&mut a, bal(5, "B"));
    let r = p1(&mut a, bal(3, "A"));
    let last = r.last_ballot.unwrap();
    assert_eq!(last.ballot, 5);
    assert_eq!(last.node_id, "B");
    assert_eq!(a.last_ballot().as_ref().unwrap().ballot, 5);
}

#[test]
fn phase2_before_phase1_is_rejected() {
    let mut a = Acceptor::new();
    assert!(!p2(&mut a, bal(1, "A"), b"X"));
    assert!(a.accepted_value().is_empty());
    assert!(a.last_ballot().is_none());
}

#[test]
fn phase2_at_promised_ballot_is_accepted() {
    let mut a = Acceptor::new();
    p1(&mut a, bal(1, "A"));
    assert!(p2(&mut a, bal(1, "A"), b"X"));
    assert_eq!(a.accepted_value(), &b"X".to_vec());
    assert_eq!(a.accepted_ballot().as_ref().unwrap().ballot, 1);
    // re-sending at the same ballot still succeeds
    assert!(p2(&mut a, bal(1, "A"), b"X"));
    // a higher ballot than promised is accepted and becomes the highest
    assert!(p2(&mut a, bal(4, "C"), b"W"));
    assert_eq!(a.last_ballot().as_ref().unwrap().ballot, 4);
    assert_eq!(a.accepted_value(), &b"W".to_vec());
}

#[test]
fn last_ballot_never_decreases() {
    let mut a = Acceptor::new();
    let steps: Vec<(bool, u64, &str)> = vec![
        (true, 2, "A"),
        (true, 1, "B"),
        (false, 1, "C"),
        (false, 3, "A"),
        (true, 2, "Z"),
        (false, 3, "A"),
        (true, 9, "A"),
    ];
    let mut prev: Option<BallotNum> = None;
    for (phase1, n, id) in steps {
        if phase1 {
            p1(&mut a, bal(n, id));
        } else {
            p2(&mut a, bal(n, id), b"v");
        }
        let now = a.last_ballot().clone().unwrap();
        if let Some(p) = &prev {
            assert!(!now.less_than(p));
        }
        prev = Some(now);
    }
    assert_eq!(prev.unwrap().ballot, 9);
}

#[test]
fn promise_rejects_lower_phase2() {
    let mut a = Acceptor::new();
    let r = p1(&mut a, bal(4, "B"));
    assert_eq!(r.last_ballot.unwrap().ballot, 4);
    p1(&mut a, bal(2, "A"));
    assert!(!p2(&mut a, bal(3, "Z"), b"X"));
    assert!(!p2(&mut a, bal(4, "A"), b"X"));
    assert!(a.accepted_value().is_empty());
    assert!(p2(&mut a, bal(4, "B"), b"X"));
}

#[test]
fn accepted_value_surfaces_in_phase1() {
    let mut a = Acceptor::new();
    p1(&mut a, bal(1, "B"));
    p2(&mut a, bal(1, "B"), b"V");
    let r = p1(&mut a, bal(2, "A"));
    assert_eq!(r.v, b"V".to_vec());
    assert_eq!(r.vbal.unwrap().ballot, 1);
    assert_eq!(r.last_ballot.unwrap().ballot, 2);
}

#[test]
fn tally_phase1_majority_without_values() {
    let b = bal(1, "A");
    let rs = vec![
        reply(Some(bal(1, "A")), b"", None),
        reply(Some(bal(1, "A")), b"", None),
        reply(Some(bal(0, "C")), b"", None),
    ];
    assert_eq!(tally_phase1(&b, 3, &rs), (None, true));
}

#[test]
fn tally_phase1_too_few_promises_fails() {
    let b = bal(1, "A");
    let rs = vec![reply(Some(bal(1, "A")), b"", None), reply(None, b"", None)];
    assert_eq!(tally_phase1(&b, 3, &rs), (None, false));
    assert_eq!(tally_phase1(&b, 3, &Vec::new()), (None, false));
}

#[test]
fn tally_phase1_superseded_fails() {
    let b = bal(1, "A");
    let rs = vec![
        reply(Some(bal(1, "A")), b"", None),
        reply(Some(bal(1, "A")), b"", None),
        reply(Some(bal(1, "B")), b"", None),
    ];
    assert_eq!(tally_phase1(&b, 3, &rs), (None, false));
}

#[test]
fn tally_phase1_adopts_highest_value() {
    let b = bal(5, "A");
    let rs = vec![
        reply(Some(bal(5, "A")), b"low", Some(bal(1, "B"))),
        reply(Some(bal(5, "A")), b"high", Some(bal(3, "C"))),
        reply(Some(bal(5, "A")), b"mid", Some(bal(2, "B"))),
    ];
    assert_eq!(tally_phase1(&b, 3, &rs), (Some(b"high".to_vec()), true));
}

#[test]
fn tally_phase1_ties_keep_first_seen() {
    let b = bal(5, "A");
    let rs = vec![
        reply(Some(bal(5, "A")), b"first", Some(bal(3, "C"))),
        reply(Some(bal(5, "A")), b"second", Some(bal(3, "C"))),
    ];
    assert_eq!(tally_phase1(&b, 2, &rs), (Some(b"first".to_vec()), true));
}

#[test]
fn tally_phase2_counts_oks() {
    let ok = |b: bool| Phase2Reply { ok: b };
    assert!(tally_phase2(3, &vec![ok(true), ok(false), ok(true)]));
    assert!(!tally_phase2(3, &vec![ok(true), ok(false), ok(false)]));
    assert!(!tally_phase2(2, &vec![ok(true)]));
    assert!(tally_phase2(1, &vec![ok(true)]));
    assert!(tally_phase2(5, &vec![ok(true), ok(true), ok(true)]));
}

#[test]
fn adopted_value_wins_over_own() {
    assert_eq!(value_to_propose(b"mine".to_vec(), Some(b"theirs".to_vec())), b"theirs".to_vec());
    assert_eq!(value_to_propose(b"mine".to_vec(), None), b"mine".to_vec());
}

#[test]
fn empty_value_is_refused() {
    let mut a = Acceptor::new();
    p1(&mut a, bal(1, "A"));
    assert!(!p2(&mut a, bal(1, "A"), b""));
    assert!(a.accepted_ballot().is_none());
    assert!(a.accepted_value().is_empty());
}

#[test]
fn proposer_ballots_read_then_increment() {
    let mut p = Proposer::new("A".to_string(), quorum(3));
    assert!(p.get_bal().is_none());
    let b0 = p.get_nextbal().unwrap();
    let b1 = p.get_nextbal().unwrap();
    assert_eq!(b0.ballot, 0);
    assert_eq!(b0.node_id, "A");
    assert_eq!(b1.ballot, 1);
    assert!(b0.less_than(&b1));
    assert_eq!(p.get_bal().unwrap().compare(&b1), Ordering::Equal);
}

#[test]
fn phase2_before_any_draw_fails() {
    let mut net = LocalCluster::new(quorum(3));
    let p = Proposer::new("A".to_string(), quorum(3));
    assert!(!p.propose_phase2(b"X".to_vec(), &mut net));
    assert!(net.acceptor(0).last_ballot().is_none());
}

#[test]
fn three_acceptors_commit_fresh_value() {
    let mut net = LocalCluster::new(quorum(3));
    let mut a = Proposer::new("A".to_string(), quorum(3));
    a.get_nextbal();
    assert_eq!(a.propose_v(b"X".to_vec(), &mut net), (true, b"X".to_vec()));
    assert_eq!(a.get_bal().unwrap().compare(&bal(1, "A")), Ordering::Equal);
    for i in 0..3 {
        let acc = net.acceptor(i);
        assert_eq!(acc.accepted_value(), &b"X".to_vec());
        assert_eq!(acc.accepted_ballot().as_ref().unwrap().compare(&bal(1, "A")), Ordering::Equal);
    }
}

#[test]
fn first_proposal_uses_ballot_zero() {
    let mut net = LocalCluster::new(quorum(3));
    let mut a = Proposer::new("A".to_string(), quorum(3));
    assert_eq!(a.propose_v(b"X".to_vec(), &mut net), (true, b"X".to_vec()));
    assert_eq!(net.acceptor(0).accepted_ballot().as_ref().unwrap().compare(&bal(0, "A")), Ordering::Equal);
}

#[test]
fn previously_accepted_value_is_adopted() {
    let mut net = LocalCluster::new(quorum(3));
    seed_phase1(&mut net, 0, bal(0, "B"));
    assert!(seed_phase2(&mut net, 0, bal(0, "B"), b"Y"));
    let mut a = Proposer::new("A".to_string(), quorum(3));
    a.get_nextbal();
    let (ok, v) = a.propose_v(b"Z".to_vec(), &mut net);
    assert!(ok);
    assert_eq!(v, b"Y".to_vec());
    for i in 0..3 {
        assert_eq!(net.acceptor(i).accepted_value(), &b"Y".to_vec());
    }
}

#[test]
fn racing_proposer_supersedes_phase2() {
    let mut acc = Acceptor::new();
    p1(&mut acc, bal(1, "A"));
    let r = p1(&mut acc, bal(2, "B"));
    assert_eq!(r.last_ballot.unwrap().compare(&bal(2, "B")), Ordering::Equal);
    assert!(!p2(&mut acc, bal(1, "A"), b"X"));
    assert!(acc.accepted_value().is_empty());
}

#[test]
fn racing_proposers_fail_then_agree() {
    let mut net = LocalCluster::new(quorum(3));
    let mut a = Proposer::new("A".to_string(), quorum(3));
    let mut b = Proposer::new("B".to_string(), quorum(3));
    // A promises (0,A) everywhere, then B promises (0,B) which is higher
    assert_eq!(a.propose_phase1(&mut net), (None, true));
    assert_eq!(b.propose_phase1(&mut net), (None, true));
    // A's Phase2 at (0,A) is rejected by all
    assert!(!a.propose_phase2(b"X".to_vec(), &mut net));
    // B commits its value; A's next attempt adopts it
    assert!(b.propose_phase2(b"Y".to_vec(), &mut net));
    assert_eq!(a.propose_v(b"X".to_vec(), &mut net), (true, b"Y".to_vec()));
    // B's next ballot (1,B) is above (1,A): it succeeds and keeps Y
    assert_eq!(b.propose_v(b"W".to_vec(), &mut net), (true, b"Y".to_vec()));
}

#[test]
fn minority_acceptance_is_repaired() {
    let mut net = LocalCluster::new(quorum(5));
    let mut a = Proposer::new("A".to_string(), quorum(5));
    // A's Phase1 at (0,A) reaches only one acceptor
    reach(&mut net, &[true, false, false, false, false]);
    assert_eq!(a.propose_v(b"X".to_vec(), &mut net), (false, b"X".to_vec()));
    reach(&mut net, &[true, true, true, false, false]);
    assert_eq!(a.propose_phase1(&mut net), (None, true));
    // its value at (1,A) reaches only acceptor 0
    reach(&mut net, &[true, false, false, false, false]);
    assert!(!a.propose_phase2(b"X".to_vec(), &mut net));
    assert_eq!(net.acceptor(0).accepted_value(), &b"X".to_vec());
    // B at (1,B) reaches a majority that includes the acceptor holding X
    let mut b = Proposer::new("B".to_string(), quorum(5));
    b.get_nextbal();
    reach(&mut net, &[true, true, true, false, false]);
    let (ok, v) = b.propose_v(b"Y".to_vec(), &mut net);
    assert!(ok);
    assert_eq!(v, b"X".to_vec());
    // a proposer with a lower ballot is superseded by the majority that promised B
    let mut c = Proposer::new("C".to_string(), quorum(5));
    reach(&mut net, &[false, false, true, true, true]);
    assert_eq!(c.propose_v(b"Z".to_vec(), &mut net), (false, b"Z".to_vec()));
}

#[test]
fn phase1_without_majority_fails() {
    let mut net = LocalCluster::new(quorum(5));
    reach(&mut net, &[true, true, false, false, false]);
    let mut a = Proposer::new("A".to_string(), quorum(5));
    assert_eq!(a.propose_v(b"X".to_vec(), &mut net), (false, b"X".to_vec()));
    assert_eq!(a.get_bal().unwrap().ballot, 0);
    assert!(net.acceptor(0).accepted_value().is_empty());
}

#[test]
fn default_acceptor_is_empty() {
    let a = Acceptor::default();
    assert!(a.last_ballot().is_none());
    assert!(a.accepted_value().is_empty());
}

#[test]
fn retries_draw_higher_ballots_until_success() {
    let mut net = LocalCluster::new(quorum(3));
    seed_phase1(&mut net, 0, bal(5, "B"));
    seed_phase1(&mut net, 1, bal(5, "B"));
    let mut a = Proposer::new("A".to_string(), quorum(3));
    // ballots (0,A) to (5,A) are all below (5,B); (6,A) is the first above
    assert_eq!(a.propose_with_retries(b"X".to_vec(), 6, &mut net), (true, b"X".to_vec()));
    assert_eq!(a.get_bal().unwrap().ballot, 6);
}

#[test]
fn retry_budget_exhausted_fails() {
    let mut net = LocalCluster::new(quorum(3));
    seed_phase1(&mut net, 0, bal(5, "B"));
    seed_phase1(&mut net, 1, bal(5, "B"));
    let mut a = Proposer::new("A".to_string(), quorum(3));
    assert_eq!(a.propose_with_retries(b"X".to_vec(), 5, &mut net), (false, b"X".to_vec()));
    assert_eq!(a.get_bal().unwrap().ballot, 5);
    assert!(net.acceptor(2).accepted_value().is_empty());
    let mut b = Proposer::new("B".to_string(), quorum(3));
    assert_eq!(b.propose_with_retries(b"Y".to_vec(), 0, &mut net), (false, b"Y".to_vec()));
    assert_eq!(b.get_bal().unwrap().ballot, 0);
}

#[test]
fn single_acceptor_quorum_commits() {
    let mut net = LocalCluster::new(quorum(1));
    let mut a = Proposer::new("A".to_string(), quorum(1));
    assert_eq!(a.propose_v(b"solo".to_vec(), &mut net), (true, b"solo".to_vec()));
}

#[test]
fn two_acceptor_quorum_needs_both() {
    let mut net = LocalCluster::new(quorum(2));
    reach(&mut net, &[true, false]);
    let mut a = Proposer::new("A".to_string(), quorum(2));
    assert_eq!(a.propose_v(b"X".to_vec(), &mut net), (false, b"X".to_vec()));
    reach(&mut net, &[true, true]);
    assert_eq!(a.propose_v(b"X".to_vec(), &mut net), (true, b"X".to_vec()));
}

#[test]
fn empty_proposal_is_never_committed() {
    let mut net = LocalCluster::new(quorum(3));
    let mut a = Proposer::new("A".to_string(), quorum(3));
    assert_eq!(a.propose_v(Vec::new(), &mut net), (false, Vec::new()));
    assert!(net.acceptor(0).accepted_ballot().is_none());
}

#[test]
fn fresh_proposer_thresholds_on_ballot_zero() {
    let z = || reply(Some(bal(0, "A")), b"", None);
    let b0 = bal(0, "A");
    assert_eq!(tally_phase1(&b0, 1, &vec![z()]), (None, true));
    assert_eq!(tally_phase1(&b0, 2, &vec![z()]), (None, false));
    assert_eq!(tally_phase1(&b0, 2, &vec![z(), z()]), (None, true));
    assert_eq!(tally_phase1(&b0, 5, &vec![z(), z()]), (None, false));
    assert_eq!(tally_phase1(&b0, 5, &vec![z(), z(), z()]), (None, true));
}

#[test]
fn requests_reach_only_quorum_members() {
    let mut net = LocalCluster::new(quorum(3));
    // a proposer whose quorum names one acceptor reaches that one alone
    let mut a = Proposer::new("A".to_string(), vec!["acceptor1".to_string()]);
    assert_eq!(a.propose_v(b"X".to_vec(), &mut net), (true, b"X".to_vec()));
    assert!(net.acceptor(0).last_ballot().is_none());
    assert_eq!(net.acceptor(1).accepted_value(), &b"X".to_vec());
    assert!(net.acceptor(2).last_ballot().is_none());
    // a member the cluster does not hold gives no reply
    let mut b = Proposer::new("B".to_string(), vec!["elsewhere".to_string()]);
    assert_eq!(b.propose_v(b"Y".to_vec(), &mut net), (false, b"Y".to_vec()));
}

#[test]
fn repeated_member_gets_one_request() {
    let mut net = LocalCluster::new(quorum(3));
    let q = vec!["acceptor0".to_string(), "acceptor0".to_string(), "acceptor0".to_string()];
    let mut a = Proposer::new("A".to_string(), q);
    // one reply from acceptor0 is short of the two that a quorum of three needs
    assert_eq!(a.propose_v(b"X".to_vec(), &mut net), (false, b"X".to_vec()));
    assert!(net.acceptor(0).accepted_value().is_empty());
}
