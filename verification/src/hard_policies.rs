//! Model of the hard-policy evaluator.
//!
//! The evaluator steps over forwarding states (in this model: applied-id
//! sequences) and keeps a trace of the states stepped so far. Which states
//! violate a policy, and with which black-holing routers, is given by a
//! fixed table; the first matching entry decides.

use vstd::prelude::*;
use crate::netsim::copy_ids;
use crate::netsim::ids_equal;

verus! {

/// A policy violation report.
#[derive(Debug)]
pub enum PolicyError {
    /// Routers observed to black-hole traffic in the violating state.
    ForwardingBlackHole(Vec<u64>),
    /// The simulator rejected a modification; treated as a convergence
    /// failure.
    NoConvergence,
    /// Any other violation kind, carried opaquely.
    Other(u64),
}

/// The mathematical value of a violation report: a kind tag and the
/// associated router ids.
pub open spec fn err_view(e: PolicyError) -> (int, Seq<u64>) {
    match e {
        PolicyError::ForwardingBlackHole(v) => (0int, v@),
        PolicyError::NoConvergence => (1int, Seq::<u64>::empty()),
        PolicyError::Other(k) => (2int, seq![k]),
    }
}

/// A plain copy of a violation report.
pub fn clone_error(e: &PolicyError) -> (r: PolicyError)
    ensures
        err_view(r) == err_view(*e),
{
    match e {
        PolicyError::ForwardingBlackHole(v) => PolicyError::ForwardingBlackHole(copy_ids(v)),
        PolicyError::NoConvergence => PolicyError::NoConvergence,
        PolicyError::Other(k) => PolicyError::Other(*k),
    }
}

/// Whether two violation reports carry the same value.
pub fn errors_equal(a: &PolicyError, b: &PolicyError) -> (r: bool)
    ensures
        r == (err_view(*a) == err_view(*b)),
{
    match (a, b) {
        (PolicyError::ForwardingBlackHole(va), PolicyError::ForwardingBlackHole(vb)) => ids_equal(
            va,
            vb,
        ),
        (PolicyError::NoConvergence, PolicyError::NoConvergence) => true,
        (PolicyError::Other(ka), PolicyError::Other(kb)) => {
            proof {
                if ka == kb {
                    assert(seq![*ka] =~= seq![*kb]);
                } else {
                    assert(seq![*ka][0] != seq![*kb][0]);
                }
            }
            ka == kb
        },
        _ => {
            proof {
                assert(err_view(*a).0 != err_view(*b).0);
            }
            false
        },
    }
}

/// One entry of the violation table: a state and the report it produces.
pub struct ViolEntry {
    pub state: Vec<u64>,
    pub error: PolicyError,
}

/// The first report matching `s` in the table `m`, if any.
pub open spec fn find_verdict(m: Seq<(Seq<u64>, (int, Seq<u64>))>, s: Seq<u64>) -> Option<
    (int, Seq<u64>),
>
    decreases m.len(),
{
    if m.len() == 0 {
        None
    } else if m[0].0 == s {
        Some(m[0].1)
    } else {
        find_verdict(m.drop_first(), s)
    }
}

/// The hard-policy evaluator model.
pub struct HardPolicy {
    trace: Vec<Vec<u64>>,
    viol: Vec<ViolEntry>,
    num_mods: Option<usize>,
}

impl HardPolicy {
    /// The violation table as a mathematical value.
    pub closed spec fn model(&self) -> Seq<(Seq<u64>, (int, Seq<u64>))> {
        self.viol@.map_values(|v: ViolEntry| (v.state@, err_view(v.error)))
    }

    /// The forwarding states stepped so far, oldest first.
    pub closed spec fn trace(&self) -> Seq<Seq<u64>> {
        self.trace@.map_values(|v: Vec<u64>| v@)
    }

    /// The configured number of modifications, if set.
    pub closed spec fn num_mods(&self) -> Option<usize> {
        self.num_mods
    }

    /// The report, if any, that state `s` produces.
    pub open spec fn verdict(&self, s: Seq<u64>) -> Option<(int, Seq<u64>)> {
        find_verdict(self.model(), s)
    }

    /// Whether state `s` violates some policy.
    pub open spec fn violates(&self, s: Seq<u64>) -> bool {
        self.verdict(s) is Some
    }

    /// A fresh evaluator over the given violation table, with an empty
    /// trace.
    pub fn new(viol: Vec<ViolEntry>) -> (r: HardPolicy)
        ensures
            r.trace() == Seq::<Seq<u64>>::empty(),
            r.model() == viol@.map_values(|v: ViolEntry| (v.state@, err_view(v.error))),
            r.num_mods() is None,
    {
        let r = HardPolicy { trace: Vec::new(), viol, num_mods: None };
        proof {
            assert(r.trace() =~= Seq::<Seq<u64>>::empty());
        }
        r
    }

    /// A copy of this evaluator, with the same trace and table.
    pub fn duplicate(&self) -> (r: HardPolicy)
        ensures
            r.trace() == self.trace(),
            r.model() == self.model(),
            r.num_mods() == self.num_mods(),
    {
        let mut trace: Vec<Vec<u64>> = Vec::new();
        let mut k: usize = 0;
        while k < self.trace.len()
            invariant
                k <= self.trace@.len(),
                trace@.len() == k,
                forall|i: int| 0 <= i < k ==> #[trigger] trace@[i]@ == self.trace@[i]@,
            decreases self.trace@.len() - k,
        {
            trace.push(copy_ids(&self.trace[k]));
            k += 1;
        }
        let mut viol: Vec<ViolEntry> = Vec::new();
        let mut j: usize = 0;
        while j < self.viol.len()
            invariant
                j <= self.viol@.len(),
                viol@.len() == j,
                forall|i: int| 0 <= i < j ==> #[trigger] viol@[i].state@
                    == self.viol@[i].state@,
                forall|i: int| 0 <= i < j ==> #[trigger] err_view(viol@[i].error) == err_view(
                    self.viol@[i].error,
                ),
            decreases self.viol@.len() - j,
        {
            let entry = ViolEntry {
                state: copy_ids(&self.viol[j].state),
                error: clone_error(&self.viol[j].error),
            };
            proof {
                assert(entry.state@ == self.viol@[j as int].state@);
                assert(err_view(entry.error) == err_view(self.viol@[j as int].error));
            }
            let ghost pre = viol@;
            viol.push(entry);
            proof {
                assert(viol@ == pre.push(entry));
                assert forall|i: int| 0 <= i < j + 1 implies #[trigger] viol@[i].state@
                    == self.viol@[i].state@ by {
                    if i < j {
                        assert(viol@[i] == pre[i]);
                        assert(pre[i].state@ == self.viol@[i].state@);
                    } else {
                        assert(viol@[i] == entry);
                    }
                }
                assert forall|i: int| 0 <= i < j + 1 implies #[trigger] err_view(viol@[i].error)
                    == err_view(self.viol@[i].error) by {
                    if i < j {
                        assert(viol@[i] == pre[i]);
                        assert(err_view(pre[i].error) == err_view(self.viol@[i].error));
                    } else {
                        assert(viol@[i] == entry);
                    }
                }
            }
            j += 1;
        }
        let r = HardPolicy { trace, viol, num_mods: self.num_mods };
        proof {
            assert(r.trace() =~= self.trace());
            assert(r.model() =~= self.model());
        }
        r
    }

    /// Record the number of modifications, unless it is already set.
    pub fn set_num_mods_if_none(&mut self, n: usize)
        ensures
            final(self).trace() == old(self).trace(),
            final(self).model() == old(self).model(),
            final(self).num_mods() == if old(self).num_mods() is None {
                Some(n)
            } else {
                old(self).num_mods()
            },
    {
        if self.num_mods.is_none() {
            self.num_mods = Some(n);
        }
    }

    /// Step the evaluator on forwarding state `fs`: the state joins the
    /// trace, and the first matching violation, if any, is reported.
    pub fn step(&mut self, fs: Vec<u64>) -> (r: Result<(), PolicyError>)
        ensures
            final(self).trace() == old(self).trace().push(fs@),
            final(self).model() == old(self).model(),
            final(self).num_mods() == old(self).num_mods(),
            (r is Ok) == !old(self).violates(fs@),
            r matches Err(e) ==> Some(err_view(e)) == old(self).verdict(fs@),
    {
        let mut k: usize = 0;
        let mut found: Option<PolicyError> = None;
        proof {
            assert(self.model().skip(0) =~= self.model());
        }
        while k < self.viol.len()
            invariant
                k <= self.viol@.len(),
                self.viol@ == old(self).viol@,
                found is None ==> find_verdict(self.model(), fs@) == find_verdict(
                    self.model().skip(k as int),
                    fs@,
                ),
                found matches Some(e) ==> Some(err_view(e)) == find_verdict(self.model(), fs@),
            decreases self.viol@.len() - k,
        {
            if found.is_none() {
                if ids_equal(&self.viol[k].state, &fs) {
                    found = Some(clone_error(&self.viol[k].error));
                    proof {
                        let m = self.model();
                        assert(m.skip(k as int)[0] == m[k as int]);
                        assert(m[k as int].0 == fs@);
                    }
                } else {
                    proof {
                        let m = self.model();
                        assert(m.skip(k as int)[0] == m[k as int]);
                        assert(m[k as int].0 != fs@);
                        assert(m.skip(k as int).drop_first() =~= m.skip(k + 1));
                    }
                }
            }
            k += 1;
        }
        proof {
            if found is None {
                assert(self.model().skip(self.viol@.len() as int) =~= Seq::<
                    (Seq<u64>, (int, Seq<u64>)),
                >::empty());
            }
        }
        self.trace.push(fs);
        proof {
            assert(self.trace() =~= old(self).trace().push(self.trace@[self.trace@.len()
                - 1]@));
        }
        match found {
            None => Ok(()),
            Some(e) => Err(e),
        }
    }

    /// Whether the evaluator has stepped onto a state at all.
    pub fn num_steps(&self) -> (r: usize)
        ensures
            r == self.trace().len(),
    {
        self.trace.len()
    }

    /// Whether the policies hold in the most recently stepped state. An
    /// evaluator that has stepped nowhere reports success.
    pub fn check(&self) -> (r: bool)
        ensures
            r == (self.trace().len() == 0 || !self.violates(self.trace().last())),
    {
        if self.trace.len() == 0 {
            return true;
        }
        let last = self.trace.len() - 1;
        let mut k: usize = 0;
        proof {
            assert(self.model().skip(0) =~= self.model());
        }
        while k < self.viol.len()
            invariant
                k <= self.viol@.len(),
                self.trace@.len() > 0,
                last == self.trace@.len() - 1,
                find_verdict(self.model(), self.trace().last()) == find_verdict(
                    self.model().skip(k as int),
                    self.trace().last(),
                ),
            decreases self.viol@.len() - k,
        {
            if ids_equal(&self.viol[k].state, &self.trace[last]) {
                proof {
                    let m = self.model();
                    assert(m.skip(k as int)[0] == m[k as int]);
                    assert(m[k as int].0 == self.trace().last());
                }
                return false;
            }
            proof {
                let m = self.model();
                assert(m.skip(k as int)[0] == m[k as int]);
                assert(m[k as int].0 != self.trace().last());
                assert(m.skip(k as int).drop_first() =~= m.skip(k + 1));
            }
            k += 1;
        }
        proof {
            assert(self.model().skip(self.viol@.len() as int) =~= Seq::<
                (Seq<u64>, (int, Seq<u64>)),
            >::empty());
        }
        true
    }

    /// The report for the most recently stepped state, if it violates a
    /// policy.
    pub fn get_watch_errors(&self) -> (r: Option<PolicyError>)
        ensures
            (r is Some) == (self.trace().len() > 0 && self.violates(self.trace().last())),
            r matches Some(e) ==> Some(err_view(e)) == self.verdict(self.trace().last()),
    {
        if self.trace.len() == 0 {
            return None;
        }
        let last = self.trace.len() - 1;
        let mut k: usize = 0;
        proof {
            assert(self.model().skip(0) =~= self.model());
        }
        while k < self.viol.len()
            invariant
                k <= self.viol@.len(),
                self.trace@.len() > 0,
                last == self.trace@.len() - 1,
                find_verdict(self.model(), self.trace().last()) == find_verdict(
                    self.model().skip(k as int),
                    self.trace().last(),
                ),
            decreases self.viol@.len() - k,
        {
            if ids_equal(&self.viol[k].state, &self.trace[last]) {
                proof {
                    let m = self.model();
                    assert(m.skip(k as int)[0] == m[k as int]);
                    assert(m[k as int].0 == self.trace().last());
                }
                return Some(clone_error(&self.viol[k].error));
            }
            proof {
                let m = self.model();
                assert(m.skip(k as int)[0] == m[k as int]);
                assert(m[k as int].0 != self.trace().last());
                assert(m.skip(k as int).drop_first() =~= m.skip(k + 1));
            }
            k += 1;
        }
        proof {
            assert(self.model().skip(self.viol@.len() as int) =~= Seq::<
                (Seq<u64>, (int, Seq<u64>)),
            >::empty());
        }
        None
    }

    /// Forget the most recently stepped state.
    pub fn undo(&mut self)
        requires
            old(self).trace().len() > 0,
        ensures
            final(self).trace() == old(self).trace().drop_last(),
            final(self).model() == old(self).model(),
            final(self).num_mods() == old(self).num_mods(),
    {
        let _ = self.trace.pop();
        proof {
            assert(self.trace() =~= old(self).trace().drop_last());
        }
    }
}

} // verus!
