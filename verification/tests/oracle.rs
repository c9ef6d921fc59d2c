use ordersynth::error::Error;
use ordersynth::hard_policies::HardPolicy;
use ordersynth::hard_policies::PolicyError;
use ordersynth::hard_policies::ViolEntry;
use ordersynth::ltl::Ltl;
use ordersynth::ltl::fmt_usize;
use ordersynth::ltl::initial_formula;
use ordersynth::ltl::node_constraints;
use ordersynth::ltl::parse_oracle_response;
use ordersynth::ltl::prefix_formula;
use ordersynth::ltl::render_formula;
use ordersynth::netsim::ConfigModifier;
use ordersynth::netsim::Network;
use ordersynth::stopper::Stopper;
use ordersynth::strategy_trta::LtlOracle;
use ordersynth::strategy_trta::StrategyTRTA;
use ordersynth::strategy_trta::sanitize_frontier;

fn text(v: Vec<u8>) -> String {
    String::from_utf8(v).unwrap()
}

#[test]
fn numbers_render_in_decimal() {
    assert_eq!(text(fmt_usize(0)), "0");
    assert_eq!(text(fmt_usize(7)), "7");
    assert_eq!(text(fmt_usize(120)), "120");
    assert_eq!(text(fmt_usize(1005)), "1005");
}

#[test]
fn formulas_render_to_ascii() {
    let lit = Ltl::Not(Box::new(Ltl::Until(
        Box::new(Ltl::Not(Box::new(Ltl::Atom(3)))),
        Box::new(Ltl::Atom(1)),
    )));
    assert_eq!(text(render_formula(&lit)), "!((!(x3) U x1))\n");
    let imp = Ltl::Implies(Box::new(Ltl::Atom(0)), Box::new(Ltl::True));
    assert_eq!(text(render_formula(&imp)), "(x0 -> True)\n");
}

#[test]
fn initial_formula_for_one_modification() {
    let f = initial_formula(1);
    assert_eq!(
        text(render_formula(&f)),
        "(True & ((G((x0 -> True)) & True) & (F(x0) & True)))\n"
    );
}

#[test]
fn initial_formula_excludes_simultaneous_steps() {
    let f = initial_formula(2);
    let s = text(render_formula(&f));
    // each step activates at most one modification, and both eventually occur
    assert!(s.contains("G((x0 -> (!(x1) & True)))"));
    assert!(s.contains("G((x1 -> (!(x0) & True)))"));
    assert!(s.contains("F(x0)"));
    assert!(s.contains("F(x1)"));
}

#[test]
fn prefix_formula_chains_next_finally() {
    let p = prefix_formula(&vec![2usize, 0, 1]);
    assert_eq!(text(render_formula(&p)), "(x2 & X(F((x0 & X(F(x1))))))\n");
    let empty = prefix_formula(&Vec::new());
    assert_eq!(text(render_formula(&empty)), "True\n");
}

#[test]
fn constraints_cover_matched_routers() {
    // groups 0 and 1 touch router 9; group 2 does not; group 1 is stuck
    let pairs = vec![Some((9u64, 5u64)), Some((4u64, 9u64)), None];
    let prefix: Vec<usize> = Vec::new();
    let nodes = vec![9u64];
    let c = node_constraints(&pairs, &prefix, 1, &nodes).unwrap();
    // only group 0 qualifies: group 1 is the stuck group itself
    assert_eq!(text(render_formula(&c)), "!((!(x0) U x1))\n");
    // a router nobody touches contributes nothing
    let none = node_constraints(&pairs, &prefix, 1, &vec![1234]);
    assert!(none.is_none());
}

#[test]
fn sat_answers_are_parsed() {
    let resp = b"aalta\nsat\nx0, (x1), !x2\nx10,(x3)\n".to_vec();
    let parsed = parse_oracle_response(&resp).unwrap();
    assert_eq!(parsed, vec![0, 1, 10, 3]);
}

#[test]
fn sat_line_is_trimmed() {
    let resp = b"header\n  sat \r\nx2\n".to_vec();
    let parsed = parse_oracle_response(&resp).unwrap();
    assert_eq!(parsed, vec![2]);
}

#[test]
fn unsat_answers_yield_nothing() {
    assert!(parse_oracle_response(&b"aalta\nunsat\n".to_vec()).is_none());
    assert!(parse_oracle_response(&b"sat".to_vec()).is_none());
    assert!(parse_oracle_response(&b"\nsatisfied\nx1\n".to_vec()).is_none());
}

#[test]
fn frontiers_are_sanitized() {
    let f = sanitize_frontier(&vec![3, 1, 3, 9, 0, 1], 4);
    assert_eq!(f, vec![3, 1, 0]);
}

struct CannedOracle {
    answer: Vec<u8>,
    queries: usize,
}

impl LtlOracle for CannedOracle {
    fn query(&mut self, formula: &Vec<u8>) -> Vec<u8> {
        assert!(!formula.is_empty());
        self.queries += 1;
        self.answer.clone()
    }
}

fn mods(ids: &[u64]) -> Vec<ConfigModifier> {
    ids.iter().map(|id| ConfigModifier::session_change(*id, *id, *id + 100)).collect()
}

// A solvable instance never consults the oracle.
#[test]
fn oracle_unused_when_unstuck() {
    let mut s =
        StrategyTRTA::new(Network::new(vec![]), mods(&[0, 1, 2]), HardPolicy::new(vec![]), None)
            .unwrap();
    let mut oracle = CannedOracle { answer: b"h\nunsat\n".to_vec(), queries: 0 };
    let sol = s.work_oracle(Stopper::new(), &mut oracle).unwrap();
    assert_eq!(sol.len(), 3);
    assert_eq!(oracle.queries, 0);
}

// An unsolvable instance consults the oracle; an unsatisfiable answer
// leads to backtracking and exhaustion.
#[test]
fn oracle_unsat_leads_to_exhaustion() {
    let viol = vec![
        ViolEntry { state: vec![0], error: PolicyError::ForwardingBlackHole(vec![0]) },
        ViolEntry { state: vec![1], error: PolicyError::ForwardingBlackHole(vec![1]) },
    ];
    let mut s =
        StrategyTRTA::new(Network::new(vec![]), mods(&[0, 1]), HardPolicy::new(viol), None)
            .unwrap();
    let mut oracle = CannedOracle { answer: b"h\nunsat\n".to_vec(), queries: 0 };
    let r = s.work_oracle(Stopper::new(), &mut oracle);
    assert_eq!(r.unwrap_err(), Error::ProbablyNoSafeOrdering);
    assert!(oracle.queries >= 1);
}
