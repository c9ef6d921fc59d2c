use ordersynth::error::Error;
use ordersynth::hard_policies::HardPolicy;
use ordersynth::hard_policies::PolicyError;
use ordersynth::hard_policies::ViolEntry;
use ordersynth::hard_policies::clone_error;
use ordersynth::hard_policies::errors_equal;
use ordersynth::netsim::ConfigModifier;
use ordersynth::netsim::Network;
use ordersynth::stopper::Stopper;

// Rollback fidelity at the simulator: a rejected application leaves the
// ledger exactly as it was.
#[test]
fn rejected_apply_leaves_state_unchanged() {
    let mut net = Network::new(vec![vec![5]]);
    assert!(net.apply_modifier(&ConfigModifier::plain(7)).is_ok());
    assert_eq!(net.get_forwarding_state(), vec![7]);
    // applying 5 would reach the rejected state [7, 5]? no: the table
    // rejects exactly the sequence [5], so [7, 5] is fine
    assert!(net.apply_modifier(&ConfigModifier::plain(5)).is_ok());
    assert_eq!(net.get_forwarding_state(), vec![7, 5]);
    net.undo_action();
    net.undo_action();
    // now [5] is rejected from the initial state
    assert!(net.apply_modifier(&ConfigModifier::plain(5)).is_err());
    assert_eq!(net.get_forwarding_state(), Vec::<u64>::new());
    assert_eq!(net.num_applied(), 0);
}

#[test]
fn policy_step_check_undo() {
    let viol = vec![ViolEntry {
        state: vec![1],
        error: PolicyError::ForwardingBlackHole(vec![42, 43]),
    }];
    let mut pol = HardPolicy::new(viol);
    assert!(pol.step(vec![]).is_ok());
    assert!(pol.check());
    match pol.step(vec![1]) {
        Err(PolicyError::ForwardingBlackHole(nodes)) => assert_eq!(nodes, vec![42, 43]),
        _ => panic!("expected a black-hole report"),
    }
    assert!(!pol.check());
    match pol.get_watch_errors() {
        Some(PolicyError::ForwardingBlackHole(nodes)) => assert_eq!(nodes, vec![42, 43]),
        _ => panic!("expected a black-hole report"),
    }
    pol.undo();
    assert!(pol.check());
    assert_eq!(pol.num_steps(), 1);
}

#[test]
fn error_values_compare() {
    let a = PolicyError::ForwardingBlackHole(vec![1, 2]);
    let b = PolicyError::ForwardingBlackHole(vec![1, 2]);
    let c = PolicyError::ForwardingBlackHole(vec![2]);
    assert!(errors_equal(&a, &b));
    assert!(!errors_equal(&a, &c));
    assert!(!errors_equal(&a, &PolicyError::NoConvergence));
    assert!(errors_equal(&PolicyError::NoConvergence, &PolicyError::NoConvergence));
    assert!(errors_equal(&PolicyError::Other(3), &PolicyError::Other(3)));
    assert!(!errors_equal(&PolicyError::Other(3), &PolicyError::Other(4)));
    let d = clone_error(&a);
    assert!(errors_equal(&a, &d));
}

#[test]
fn outward_errors_are_distinct() {
    assert_ne!(Error::Timeout, Error::Abort);
    assert_ne!(Error::InvalidInitialState, Error::ProbablyNoSafeOrdering);
    assert_eq!(Error::Timeout, Error::Timeout);
}

#[test]
fn stopper_round_trip() {
    let s = Stopper::new();
    assert!(!s.is_stop());
    let t = s.duplicate();
    t.send_stop();
    assert!(s.is_stop());
}

#[test]
fn modifier_constructors() {
    let m = ConfigModifier::plain(9);
    assert_eq!(m.id, 9);
    assert!(m.session.is_none());
    let m2 = ConfigModifier::session_change(3, 10, 20);
    assert_eq!(m2.id, 3);
    assert_eq!(m2.session, Some((10, 20)));
    let m3 = m2.duplicate();
    assert_eq!(m3.id, 3);
    assert_eq!(m3.session, Some((10, 20)));
}
