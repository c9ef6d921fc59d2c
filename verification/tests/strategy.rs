use ordersynth::error::Error;
use ordersynth::hard_policies::HardPolicy;
use ordersynth::hard_policies::PolicyError;
use ordersynth::hard_policies::ViolEntry;
use ordersynth::netsim::ConfigModifier;
use ordersynth::netsim::Network;
use ordersynth::stopper::Stopper;
use ordersynth::strategy_trta::StrategyTRTA;

fn mods(ids: &[u64]) -> Vec<ConfigModifier> {
    ids.iter().map(|id| ConfigModifier::plain(*id)).collect()
}

fn bad(state: &[u64]) -> ViolEntry {
    ViolEntry { state: state.to_vec(), error: PolicyError::ForwardingBlackHole(vec![99]) }
}

// Replay an ordering against fresh tables and check that every prefix is
// accepted and satisfies the policies (solution validity).
fn replay_ok(reject: Vec<Vec<u64>>, viol: Vec<ViolEntry>, ordering: &[ConfigModifier]) -> bool {
    let mut net = Network::new(reject);
    let mut pol = HardPolicy::new(viol);
    if pol.step(net.get_forwarding_state()).is_err() {
        return false;
    }
    for m in ordering {
        if net.apply_modifier(m).is_err() {
            return false;
        }
        let _ = pol.step(net.get_forwarding_state());
        if !pol.check() {
            return false;
        }
    }
    true
}

// One modification whose application keeps the policies: the ordering is
// exactly that modification.
#[test]
fn single_modifier_is_returned() {
    let mut s =
        StrategyTRTA::new(Network::new(vec![]), mods(&[7]), HardPolicy::new(vec![]), None).unwrap();
    let sol = s.work(Stopper::new()).unwrap();
    let ids: Vec<u64> = sol.iter().map(|m| m.id).collect();
    assert_eq!(ids, vec![7]);
}

// Three independent modifications: any order is valid, and the returned
// one replays cleanly.
#[test]
fn independent_modifiers_any_order() {
    let mut s =
        StrategyTRTA::new(Network::new(vec![]), mods(&[0, 1, 2]), HardPolicy::new(vec![]), None)
            .unwrap();
    let sol = s.work(Stopper::new()).unwrap();
    assert_eq!(sol.len(), 3);
    let mut ids: Vec<u64> = sol.iter().map(|m| m.id).collect();
    assert!(replay_ok(vec![], vec![], &sol));
    ids.sort();
    assert_eq!(ids, vec![0, 1, 2]);
}

// Modification 1 must come before modification 2; modification 0 may go
// anywhere. The returned ordering respects the constraint.
#[test]
fn ordering_respects_dependency() {
    let viol = vec![bad(&[2]), bad(&[0, 2])];
    let viol2 = vec![bad(&[2]), bad(&[0, 2])];
    let mut s = StrategyTRTA::new(
        Network::new(vec![]),
        mods(&[0, 1, 2]),
        HardPolicy::new(viol),
        Some(10_000),
    )
    .unwrap();
    let sol = s.work(Stopper::new()).unwrap();
    let ids: Vec<u64> = sol.iter().map(|m| m.id).collect();
    let p1 = ids.iter().position(|&x| x == 1).unwrap();
    let p2 = ids.iter().position(|&x| x == 2).unwrap();
    assert!(p1 < p2);
    assert!(replay_ok(vec![], viol2, &sol));
}

// Only the exact order 0, 1, 2 keeps the policies at every step.
#[test]
fn unique_total_order_is_found() {
    let all_bad = vec![
        bad(&[1]),
        bad(&[2]),
        bad(&[0, 2]),
        bad(&[1, 0]),
        bad(&[1, 2]),
        bad(&[2, 0]),
        bad(&[2, 1]),
    ];
    let mut s = StrategyTRTA::new(
        Network::new(vec![]),
        mods(&[0, 1, 2]),
        HardPolicy::new(all_bad),
        Some(10_000),
    )
    .unwrap();
    let sol = s.work(Stopper::new()).unwrap();
    let ids: Vec<u64> = sol.iter().map(|m| m.id).collect();
    assert_eq!(ids, vec![0, 1, 2]);
}

// A simulator-level dependency: the simulator rejects applying 1 first.
#[test]
fn simulator_rejection_is_worked_around() {
    let reject = vec![vec![1]];
    let mut s = StrategyTRTA::new(
        Network::new(reject),
        mods(&[0, 1]),
        HardPolicy::new(vec![]),
        Some(10_000),
    )
    .unwrap();
    let sol = s.work(Stopper::new()).unwrap();
    let ids: Vec<u64> = sol.iter().map(|m| m.id).collect();
    assert_eq!(ids, vec![0, 1]);
}

// The initial state already violates a policy: fail before any
// modification.
#[test]
fn invalid_initial_state_is_reported() {
    let viol = vec![ViolEntry { state: vec![], error: PolicyError::Other(1) }];
    let r = StrategyTRTA::new(Network::new(vec![]), mods(&[0]), HardPolicy::new(viol), None);
    match r {
        Err(e) => assert_eq!(e, Error::InvalidInitialState),
        Ok(_) => panic!("expected the initial state to be rejected"),
    }
}

// A zero budget times out at the first driver iteration.
#[test]
fn zero_budget_times_out() {
    let mut s =
        StrategyTRTA::new(Network::new(vec![]), mods(&[0, 1]), HardPolicy::new(vec![]), Some(0))
            .unwrap();
    assert_eq!(s.work(Stopper::new()).unwrap_err(), Error::Timeout);
}

// A raised cancellation handle aborts the search.
#[test]
fn cancellation_aborts() {
    let mut s =
        StrategyTRTA::new(Network::new(vec![]), mods(&[0, 1]), HardPolicy::new(vec![]), None)
            .unwrap();
    let stop = Stopper::new();
    stop.send_stop();
    assert_eq!(s.work(stop).unwrap_err(), Error::Abort);
}

// No safe ordering exists: every first step violates a policy.
#[test]
fn no_safe_ordering_is_reported() {
    let viol = vec![bad(&[0]), bad(&[1])];
    let mut s =
        StrategyTRTA::new(Network::new(vec![]), mods(&[0, 1]), HardPolicy::new(viol), None)
            .unwrap();
    assert_eq!(s.work(Stopper::new()).unwrap_err(), Error::ProbablyNoSafeOrdering);
}

// An empty pool is trivially ordered.
#[test]
fn empty_pool_is_trivial() {
    let mut s =
        StrategyTRTA::new(Network::new(vec![]), mods(&[]), HardPolicy::new(vec![]), None).unwrap();
    let sol = s.work(Stopper::new()).unwrap();
    assert!(sol.is_empty());
}

// A stuck point that forces the learner: from the state after modification
// 0, every remaining step violates a policy, and only the full group
// 2, 0, 1 applies cleanly from the start. Whenever the shuffled root tries
// 0 first, the search gets stuck and the learner must assemble the full
// group; the returned ordering is the unique valid one either way.
#[test]
fn learner_assembles_full_group() {
    let viol = || vec![bad(&[1]), bad(&[0, 1]), bad(&[0, 2]), bad(&[2, 1])];
    let mut saw_stuck_point = false;
    for _ in 0..200 {
        let mut s = StrategyTRTA::new(
            Network::new(vec![]),
            mods(&[0, 1, 2]),
            HardPolicy::new(viol()),
            Some(10_000),
        )
        .unwrap();
        let sol = s.work(Stopper::new()).unwrap();
        let ids: Vec<u64> = sol.iter().map(|m| m.id).collect();
        assert_eq!(ids, vec![2, 0, 1]);
        if s.seen_dependency_without_immediage_effect() {
            saw_stuck_point = true;
            break;
        }
    }
    assert!(saw_stuck_point);
}
