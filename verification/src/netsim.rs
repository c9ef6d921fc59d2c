//! Model of the network simulator that the search drives.
//!
//! The simulator's whole observable state is the ordered sequence of
//! modifier identifiers applied so far (its undo ledger); which applications
//! it rejects is given by a fixed table of rejected sequences.

use vstd::prelude::*;

verus! {

/// An atomic configuration modification, identified by `id`. A modification
/// that adds or removes a peering session exposes its `(source, target)`
/// router pair; other kinds expose none.
#[derive(Debug)]
pub struct ConfigModifier {
    pub id: u64,
    pub session: Option<(u64, u64)>,
}

impl ConfigModifier {
    /// A modification with no exposed router pair.
    pub fn plain(id: u64) -> (r: ConfigModifier)
        ensures
            r.id == id,
            r.session is None,
    {
        ConfigModifier { id, session: None }
    }

    /// A peering-session modification between `source` and `target`.
    pub fn session_change(id: u64, source: u64, target: u64) -> (r: ConfigModifier)
        ensures
            r.id == id,
            r.session == Some((source, target)),
    {
        ConfigModifier { id, session: Some((source, target)) }
    }

    /// A plain copy of this modification.
    pub fn duplicate(&self) -> (r: ConfigModifier)
        ensures
            r == *self,
    {
        ConfigModifier { id: self.id, session: self.session }
    }
}

/// Compare two id sequences.
pub fn ids_equal(a: &Vec<u64>, b: &Vec<u64>) -> (r: bool)
    ensures
        r == (a@ == b@),
{
    if a.len() != b.len() {
        proof {
            assert(a@ != b@);
        }
        return false;
    }
    let mut k: usize = 0;
    while k < a.len()
        invariant
            k <= a@.len(),
            a@.len() == b@.len(),
            forall|i: int| 0 <= i < k ==> a@[i] == b@[i],
        decreases a@.len() - k,
    {
        if a[k] != b[k] {
            proof {
                assert(a@ != b@);
            }
            return false;
        }
        k += 1;
    }
    proof {
        assert(a@ =~= b@);
    }
    true
}

/// Whether the rejection table `rej` refuses state `s`.
pub open spec fn rejects_state(rej: Seq<Seq<u64>>, s: Seq<u64>) -> bool {
    exists|k: int| 0 <= k < rej.len() && rej[k] == s
}

/// A plain copy of an id sequence.
pub fn copy_ids(v: &Vec<u64>) -> (r: Vec<u64>)
    ensures
        r@ == v@,
{
    let mut r: Vec<u64> = Vec::new();
    let mut k: usize = 0;
    while k < v.len()
        invariant
            k <= v@.len(),
            r@ == v@.subrange(0, k as int),
        decreases v@.len() - k,
    {
        r.push(v[k]);
        proof {
            assert(r@ =~= v@.subrange(0, k + 1));
        }
        k += 1;
    }
    proof {
        assert(r@ =~= v@);
    }
    r
}

/// The network simulator model. Applying a modifier appends its id to the
/// ledger unless the resulting sequence is in the rejection table; undoing
/// removes the most recent id.
pub struct Network {
    applied: Vec<u64>,
    reject: Vec<Vec<u64>>,
}

impl Network {
    /// The ids applied so far, oldest first.
    pub closed spec fn applied(&self) -> Seq<u64> {
        self.applied@
    }

    /// The rejection table: the sequences that the simulator refuses to
    /// reach.
    pub closed spec fn reject_model(&self) -> Seq<Seq<u64>> {
        self.reject@.map_values(|v: Vec<u64>| v@)
    }

    /// Whether the simulator would refuse to be in state `s`.
    pub open spec fn sim_rejects(&self, s: Seq<u64>) -> bool {
        rejects_state(self.reject_model(), s)
    }

    /// A fresh network with nothing applied and the given rejection table.
    pub fn new(reject: Vec<Vec<u64>>) -> (r: Network)
        ensures
            r.applied() == Seq::<u64>::empty(),
            r.reject_model() == reject@.map_values(|v: Vec<u64>| v@),
    {
        Network { applied: Vec::new(), reject }
    }

    /// A copy of this network, in the same state and with the same table.
    pub fn duplicate(&self) -> (r: Network)
        ensures
            r.applied() == self.applied(),
            r.reject_model() == self.reject_model(),
    {
        let applied = copy_ids(&self.applied);
        let mut reject: Vec<Vec<u64>> = Vec::new();
        let mut k: usize = 0;
        while k < self.reject.len()
            invariant
                k <= self.reject@.len(),
                reject@.len() == k,
                forall|i: int| 0 <= i < k ==> #[trigger] reject@[i]@ == self.reject@[i]@,
            decreases self.reject@.len() - k,
        {
            let row = copy_ids(&self.reject[k]);
            reject.push(row);
            k += 1;
        }
        let r = Network { applied, reject };
        proof {
            assert(r.reject_model() =~= self.reject_model());
        }
        r
    }

    /// Apply a modifier: on success its id is appended to the ledger; on a
    /// rejection the state is unchanged. The application is rejected exactly
    /// when the extended sequence is in the rejection table.
    pub fn apply_modifier(&mut self, m: &ConfigModifier) -> (r: Result<(), ()>)
        ensures
            final(self).reject_model() == old(self).reject_model(),
            r is Ok <==> !old(self).sim_rejects(old(self).applied().push(m.id)),
            r is Ok ==> final(self).applied() == old(self).applied().push(m.id),
            r is Err ==> final(self).applied() == old(self).applied(),
    {
        self.applied.push(m.id);
        let mut k: usize = 0;
        let mut hit = false;
        while k < self.reject.len()
            invariant
                k <= self.reject@.len(),
                self.applied@ == old(self).applied@.push(m.id),
                self.reject@ == old(self).reject@,
                hit ==> self.sim_rejects(self.applied@),
                !hit ==> forall|i: int| 0 <= i < k ==> #[trigger] self.reject@[i]@
                    != self.applied@,
            decreases self.reject@.len() - k,
        {
            if !hit && ids_equal(&self.reject[k], &self.applied) {
                hit = true;
                proof {
                    assert(self.reject_model()[k as int] == self.applied@);
                }
            }
            k += 1;
        }
        if hit {
            let _ = self.applied.pop();
            proof {
                assert(self.applied@ =~= old(self).applied@);
            }
            Err(())
        } else {
            proof {
                assert forall|i: int|
                    0 <= i < self.reject_model().len() implies self.reject_model()[i]
                    != self.applied@ by {
                    assert(self.reject@[i]@ != self.applied@);
                }
            }
            Ok(())
        }
    }

    /// Undo the most recent application.
    pub fn undo_action(&mut self)
        requires
            old(self).applied().len() > 0,
        ensures
            final(self).applied() == old(self).applied().drop_last(),
            final(self).reject_model() == old(self).reject_model(),
    {
        let _ = self.applied.pop();
    }

    /// The number of applications currently on the ledger.
    pub fn num_applied(&self) -> (r: usize)
        ensures
            r == self.applied().len(),
    {
        self.applied.len()
    }

    /// The forwarding state: in this model, fully determined by the applied
    /// sequence.
    pub fn get_forwarding_state(&self) -> (r: Vec<u64>)
        ensures
            r@ == self.applied(),
    {
        copy_ids(&self.applied)
    }
}

} // verus!
