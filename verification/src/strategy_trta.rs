//! The ordering search: a depth-first tree exploration over permutations of
//! modifier groups, combined with dependency learning at stuck points.
//!
//! The driver owns a pool of groups (initially one singleton group per input
//! modification), explores orderings with a stack of frames, probes the
//! remaining candidates of the top frame against the simulator and the
//! policy evaluator, and, when every candidate fails, either learns a new
//! atomic dependency group or hands the stuck point to the LTL oracle path.

use vstd::prelude::*;
use rand::seq::SliceRandom;
use crate::clock::elapsed_millis;
use crate::clock::instant_now;
use crate::error::Error;
use crate::hard_policies::HardPolicy;
use crate::hard_policies::err_view;
use crate::hard_policies::find_verdict;
use crate::hard_policies::clone_error;
use crate::hard_policies::errors_equal;
use crate::hard_policies::PolicyError;
use crate::netsim::ConfigModifier;
use crate::netsim::Network;
use crate::netsim::rejects_state;
use crate::netsim::copy_ids;
use crate::stopper::Stopper;
use vstd::multiset::Multiset;

verus! {

/// The modifier ids of one group, in internal order.
pub open spec fn group_ids(g: Seq<ConfigModifier>) -> Seq<u64> {
    g.map_values(|m: ConfigModifier| m.id)
}

/// The state reached after the first `k` of `ids` are applied on `base`.
pub open spec fn state_after(base: Seq<u64>, ids: Seq<u64>, k: int) -> Seq<u64> {
    base + ids.subrange(0, k)
}

/// The violation-table model of the policy evaluator.
pub type PolicyModel = Seq<(Seq<u64>, (int, Seq<u64>))>;

/// Applying `ids` one at a time from `base`: the simulator (with rejection
/// table `rej`) accepts every step, and every reached state satisfies the
/// hard policies (with violation table `vm`).
pub open spec fn all_states_ok(rej: Seq<Seq<u64>>, vm: PolicyModel, base: Seq<u64>, ids: Seq<u64>) -> bool {
    forall|k: int| 1 <= k <= ids.len() ==> !rejects_state(rej, #[trigger] state_after(base, ids, k))
        && find_verdict(vm, state_after(base, ids, k)) is None
}

/// Applying `ids` from `base` goes wrong first at step `k`.
pub open spec fn fails_at(
    rej: Seq<Seq<u64>>,
    vm: PolicyModel,
    base: Seq<u64>,
    ids: Seq<u64>,
    k: int,
) -> bool {
    &&& 1 <= k <= ids.len()
    &&& (rejects_state(rej, state_after(base, ids, k)) || find_verdict(
        vm,
        state_after(base, ids, k),
    ) is Some)
    &&& forall|j: int| 1 <= j < k ==> !rejects_state(rej, #[trigger] state_after(base, ids, j))
        && find_verdict(vm, state_after(base, ids, j)) is None
}

/// A failing probe records a router set exactly when its first bad step is
/// a policy violation of the forwarding-black-hole kind.
pub open spec fn probe_captures(rej: Seq<Seq<u64>>, vm: PolicyModel, base: Seq<u64>, ids: Seq<u64>) -> bool {
    let k = choose|k: int| fails_at(rej, vm, base, ids, k);
    let s = state_after(base, ids, k);
    !rejects_state(rej, s) && find_verdict(vm, s) is Some && find_verdict(vm, s).unwrap().0 == 0
}

/// The router set recorded by a failing probe that captures one.
pub open spec fn probe_nodes(rej: Seq<Seq<u64>>, vm: PolicyModel, base: Seq<u64>, ids: Seq<u64>) -> Seq<
    u64,
> {
    let k = choose|k: int| fails_at(rej, vm, base, ids, k);
    let s = state_after(base, ids, k);
    find_verdict(vm, s).unwrap().1
}

/// The value of the violation that a failing probe reports: the verdict of
/// the first bad state, or a convergence failure where the simulator
/// rejected the step.
pub open spec fn fail_error_view(rej: Seq<Seq<u64>>, vm: PolicyModel, base: Seq<u64>, ids: Seq<u64>) -> (
    int,
    Seq<u64>,
) {
    let k = choose|k: int| fails_at(rej, vm, base, ids, k);
    let s = state_after(base, ids, k);
    if rejects_state(rej, s) {
        (1int, Seq::<u64>::empty())
    } else {
        find_verdict(vm, s).unwrap()
    }
}

/// The router set reported after probing every candidate in `cs` from
/// `base`: that of the last candidate that recorded one, empty if none did.
pub open spec fn last_captured(rej: Seq<Seq<u64>>, vm: PolicyModel, base: Seq<u64>, cs: Seq<Seq<u64>>) -> Seq<
    u64,
>
    decreases cs.len(),
{
    if cs.len() == 0 {
        Seq::<u64>::empty()
    } else if !all_states_ok(rej, vm, base, cs.last()) && probe_captures(rej, vm, base, cs.last()) {
        probe_nodes(rej, vm, base, cs.last())
    } else {
        last_captured(rej, vm, base, cs.drop_last())
    }
}

/// The forwarding states passed to the policy evaluator while `ids` are
/// applied on `base`, in order.
pub open spec fn prefix_states(base: Seq<u64>, ids: Seq<u64>) -> Seq<Seq<u64>> {
    Seq::new(ids.len(), |k: int| base + ids.subrange(0, k + 1))
}

/// The modifier ids of the groups that `order` names, concatenated in that
/// order.
pub open spec fn concat_ids(gm: Seq<Seq<u64>>, order: Seq<usize>) -> Seq<u64>
    decreases order.len(),
{
    if order.len() == 0 {
        Seq::<u64>::empty()
    } else {
        concat_ids(gm, order.drop_last()) + gm[order.last() as int]
    }
}

/// The group ordering `order`, applied one group at a time from the empty
/// state, goes wrong first within the group at position `pos`.
pub open spec fn order_fails_at(
    gm: Seq<Seq<u64>>,
    rej: Seq<Seq<u64>>,
    vm: PolicyModel,
    order: Seq<usize>,
    pos: int,
) -> bool {
    &&& 0 <= pos < order.len()
    &&& all_states_ok(rej, vm, Seq::<u64>::empty(), concat_ids(gm, order.subrange(0, pos)))
    &&& !all_states_ok(
        rej,
        vm,
        concat_ids(gm, order.subrange(0, pos)),
        gm[order[pos] as int],
    )
}

/// The multiset of all modifier ids in the first `k` groups of the pool.
pub open spec fn pool_ids_upto(gm: Seq<Seq<u64>>, k: int) -> Multiset<u64>
    decreases k,
{
    if k <= 0 {
        Multiset::<u64>::empty()
    } else {
        pool_ids_upto(gm, k - 1).add(gm[k - 1].to_multiset())
    }
}

/// The multiset of all modifier ids in the pool.
pub open spec fn pool_ids(gm: Seq<Seq<u64>>) -> Multiset<u64> {
    pool_ids_upto(gm, gm.len() as int)
}

/// The summed ids of the groups that `order` names.
pub open spec fn sel_sum(gm: Seq<Seq<u64>>, order: Seq<usize>) -> Multiset<u64>
    decreases order.len(),
{
    if order.len() == 0 {
        Multiset::<u64>::empty()
    } else {
        sel_sum(gm, order.drop_last()).add(gm[order.last() as int].to_multiset())
    }
}

/// The summed ids of the first `k` groups whose index is not in `excl`.
pub open spec fn kept_pool(gm: Seq<Seq<u64>>, excl: Seq<usize>, k: int) -> Multiset<u64>
    decreases k,
{
    if k <= 0 {
        Multiset::<u64>::empty()
    } else {
        kept_pool(gm, excl, k - 1).add(
            if excl.contains((k - 1) as usize) {
                Multiset::<u64>::empty()
            } else {
                gm[k - 1].to_multiset()
            },
        )
    }
}

/// Concatenating groups sums their id multisets.
pub proof fn lemma_concat_multiset(gm: Seq<Seq<u64>>, order: Seq<usize>)
    ensures
        concat_ids(gm, order).to_multiset() == sel_sum(gm, order),
    decreases order.len(),
{
    broadcast use vstd::multiset::group_multiset_axioms;

    if order.len() == 0 {
        let e = concat_ids(gm, order);
        e.to_multiset_ensures();
        vstd::multiset::lemma_multiset_empty_len(e.to_multiset());
        assert(e.to_multiset() =~= Multiset::<u64>::empty());
    } else {
        lemma_concat_multiset(gm, order.drop_last());
        vstd::seq_lib::lemma_multiset_commutative(
            concat_ids(gm, order.drop_last()),
            gm[order.last() as int],
        );
    }
}

/// With nothing excluded, the kept part is the whole prefix.
proof fn lemma_kept_pool_no_excl(gm: Seq<Seq<u64>>, excl: Seq<usize>, k: int)
    requires
        forall|v: usize| !excl.contains(v),
    ensures
        kept_pool(gm, excl, k) == pool_ids_upto(gm, k),
    decreases k,
{
    if k > 0 {
        lemma_kept_pool_no_excl(gm, excl, k - 1);
    }
}

/// Shrinking the exclusions by one index adds that group back, when the
/// index lies below `k`.
proof fn lemma_kept_pool_excl_step(
    gm: Seq<Seq<u64>>,
    a: Seq<usize>,
    b: Seq<usize>,
    x: usize,
    k: int,
)
    requires
        k <= usize::MAX,
        forall|v: usize| #[trigger] b.contains(v) <==> (a.contains(v) && v != x),
        a.contains(x),
    ensures
        kept_pool(gm, b, k) == kept_pool(gm, a, k).add(
            if 0 <= x < k {
                gm[x as int].to_multiset()
            } else {
                Multiset::<u64>::empty()
            },
        ),
    decreases k,
{
    broadcast use vstd::multiset::group_multiset_axioms;

    if k <= 0 {
        assert(kept_pool(gm, b, k) =~= kept_pool(gm, a, k).add(Multiset::<u64>::empty()));
    } else {
        lemma_kept_pool_excl_step(gm, a, b, x, k - 1);
        if (k - 1) as usize == x {
            assert(a.contains((k - 1) as usize));
            assert(!b.contains((k - 1) as usize));
            assert(kept_pool(gm, b, k) =~= kept_pool(gm, a, k).add(gm[x as int].to_multiset()));
        } else {
            assert(b.contains((k - 1) as usize) == a.contains((k - 1) as usize));
            assert(kept_pool(gm, b, k) =~= kept_pool(gm, a, k).add(
                if 0 <= x < k {
                    gm[x as int].to_multiset()
                } else {
                    Multiset::<u64>::empty()
                },
            ));
        }
    }
}

/// The groups selected by a duplicate-free index list, together with the
/// unselected rest, make up the whole pool.
pub proof fn lemma_pool_split(gm: Seq<Seq<u64>>, sol: Seq<usize>)
    requires
        gm.len() <= usize::MAX,
        sol.no_duplicates(),
        forall|p: int| 0 <= p < sol.len() ==> (#[trigger] sol[p]) < gm.len(),
    ensures
        kept_pool(gm, sol, gm.len() as int).add(sel_sum(gm, sol)) == pool_ids(gm),
    decreases sol.len(),
{
    broadcast use vstd::multiset::group_multiset_axioms;

    if sol.len() == 0 {
        assert(forall|v: usize| !sol.contains(v));
        lemma_kept_pool_no_excl(gm, sol, gm.len() as int);
        assert(kept_pool(gm, sol, gm.len() as int).add(sel_sum(gm, sol)) =~= pool_ids(gm));
    } else {
        let x = sol.last();
        let rest = sol.drop_last();
        assert forall|v: usize| #[trigger] rest.contains(v) <==> (sol.contains(v) && v
            != x) by {
            if rest.contains(v) {
                let q = choose|q: int| 0 <= q < rest.len() && rest[q] == v;
                assert(sol[q] == v);
                assert(sol[q] != sol[sol.len() - 1]);
            }
            if sol.contains(v) && v != x {
                let q = choose|q: int| 0 <= q < sol.len() && sol[q] == v;
                assert(q < sol.len() - 1);
                assert(rest[q] == v);
            }
        }
        lemma_kept_pool_excl_step(gm, sol, rest, x, gm.len() as int);
        lemma_pool_split(gm, rest);
        assert(x < gm.len());
        assert(kept_pool(gm, sol, gm.len() as int).add(sel_sum(gm, sol)) =~= kept_pool(
            gm,
            rest,
            gm.len() as int,
        ).add(sel_sum(gm, rest)));
    }
}

/// An ordering covering the whole pool carries exactly the pool's ids.
pub proof fn lemma_full_selection(gm: Seq<Seq<u64>>, sigma: Seq<usize>)
    requires
        gm.len() <= usize::MAX,
        crate::permutator::is_index_perm(sigma, gm.len()),
    ensures
        concat_ids(gm, sigma).to_multiset() == pool_ids(gm),
    decreases gm.len(),
{
    broadcast use vstd::multiset::group_multiset_axioms;

    lemma_concat_multiset(gm, sigma);
    lemma_pool_split(gm, sigma);
    assert(kept_pool(gm, sigma, gm.len() as int) =~= Multiset::<u64>::empty()) by {
        assert forall|k: int| 0 <= k <= gm.len() implies kept_pool(gm, sigma, k)
            =~= Multiset::<u64>::empty() by {
            lemma_kept_pool_all_excl(gm, sigma, k);
        }
    }
    assert(Multiset::<u64>::empty().add(sel_sum(gm, sigma)) =~= sel_sum(gm, sigma));
}

/// With every index below `k` excluded, nothing is kept.
proof fn lemma_kept_pool_all_excl(gm: Seq<Seq<u64>>, excl: Seq<usize>, k: int)
    requires
        gm.len() <= usize::MAX,
        k <= gm.len(),
        crate::permutator::is_index_perm(excl, gm.len()),
    ensures
        kept_pool(gm, excl, k) == Multiset::<u64>::empty(),
    decreases k,
{
    broadcast use vstd::multiset::group_multiset_axioms;

    if k > 0 {
        lemma_kept_pool_all_excl(gm, excl, k - 1);
        crate::permutator::lemma_perm_contains(excl, gm.len(), (k - 1) as usize);
        assert(kept_pool(gm, excl, k) =~= Multiset::<u64>::empty());
    }
}

/// Appending a group to the pool leaves shorter prefixes unchanged.
proof fn lemma_pool_upto_push(m: Seq<Seq<u64>>, g: Seq<u64>, k: int)
    requires
        k <= m.len(),
    ensures
        pool_ids_upto(m.push(g), k) == pool_ids_upto(m, k),
    decreases k,
{
    if k > 0 {
        lemma_pool_upto_push(m, g, k - 1);
        assert(m.push(g)[k - 1] == m[k - 1]);
    }
}

/// A pool of singleton groups carries exactly the listed ids.
proof fn lemma_singleton_pool(ids: Seq<u64>, gm: Seq<Seq<u64>>, k: int)
    requires
        gm.len() == ids.len(),
        forall|i: int| 0 <= i < gm.len() ==> gm[i] == seq![ids[i]],
        0 <= k <= ids.len(),
    ensures
        pool_ids_upto(gm, k) == ids.subrange(0, k).to_multiset(),
    decreases k,
{
    broadcast use vstd::multiset::group_multiset_axioms;

    if k == 0 {
        let e = ids.subrange(0, 0);
        e.to_multiset_ensures();
        vstd::multiset::lemma_multiset_empty_len(e.to_multiset());
        assert(pool_ids_upto(gm, 0) =~= e.to_multiset());
    } else {
        lemma_singleton_pool(ids, gm, k - 1);
        let pre = ids.subrange(0, k - 1);
        let cur = ids.subrange(0, k);
        pre.to_multiset_ensures();
        assert(cur =~= pre.push(ids[k - 1]));
        assert(cur.to_multiset() =~= pre.to_multiset().insert(ids[k - 1]));
        let single = seq![ids[k - 1]];
        assert(single =~= Seq::<u64>::empty().push(ids[k - 1]));
        Seq::<u64>::empty().to_multiset_ensures();
        vstd::multiset::lemma_multiset_empty_len(Seq::<u64>::empty().to_multiset());
        assert(single.to_multiset() =~= Multiset::<u64>::empty().insert(ids[k - 1]));
        assert(pool_ids_upto(gm, k) =~= cur.to_multiset());
    }
}

/// `sigma` is a total ordering of the whole pool that begins with
/// `prefix`.
pub open spec fn completes(gm: Seq<Seq<u64>>, sigma: Seq<usize>, prefix: Seq<usize>) -> bool {
    &&& crate::permutator::is_index_perm(sigma, gm.len())
    &&& sigma.subrange(0, prefix.len() as int) == prefix
}

/// No total ordering of the pool that begins with `prefix` keeps every
/// reached state accepted and policy-clean.
pub open spec fn no_valid_completion(
    gm: Seq<Seq<u64>>,
    rej: Seq<Seq<u64>>,
    vm: PolicyModel,
    prefix: Seq<usize>,
) -> bool {
    forall|sigma: Seq<usize>|
        completes(gm, sigma, prefix) ==> !all_states_ok(
            rej,
            vm,
            Seq::<u64>::empty(),
            #[trigger] concat_ids(gm, sigma),
        )
}

/// Concatenating one more group extends the concatenation of the prefix.
proof fn lemma_concat_take(gm: Seq<Seq<u64>>, order: Seq<usize>, k: int)
    requires
        0 <= k < order.len(),
    ensures
        concat_ids(gm, order.subrange(0, k + 1)) == concat_ids(gm, order.subrange(0, k))
            + gm[order[k] as int],
{
    let a = order.subrange(0, k + 1);
    assert(a.drop_last() =~= order.subrange(0, k));
    assert(a.last() == order[k]);
}

/// A clean run over a concatenation is clean over its two parts.
proof fn lemma_all_ok_split(rej: Seq<Seq<u64>>, vm: PolicyModel, a: Seq<u64>, b: Seq<u64>)
    requires
        all_states_ok(rej, vm, Seq::<u64>::empty(), a + b),
    ensures
        all_states_ok(rej, vm, Seq::<u64>::empty(), a),
        all_states_ok(rej, vm, a, b),
{
    assert forall|k: int| 1 <= k <= a.len() implies !rejects_state(
        rej,
        #[trigger] state_after(Seq::<u64>::empty(), a, k),
    ) && find_verdict(vm, state_after(Seq::<u64>::empty(), a, k)) is None by {
        assert(state_after(Seq::<u64>::empty(), a, k) =~= state_after(
            Seq::<u64>::empty(),
            a + b,
            k,
        ));
    }
    assert forall|k: int| 1 <= k <= b.len() implies !rejects_state(
        rej,
        #[trigger] state_after(a, b, k),
    ) && find_verdict(vm, state_after(a, b, k)) is None by {
        assert(state_after(a, b, k) =~= state_after(Seq::<u64>::empty(), a + b, k + a.len()));
    }
}

/// In a clean total run, each group applies cleanly at its position.
proof fn lemma_all_ok_at_position(
    gm: Seq<Seq<u64>>,
    rej: Seq<Seq<u64>>,
    vm: PolicyModel,
    order: Seq<usize>,
    k: int,
)
    requires
        0 <= k < order.len(),
        all_states_ok(rej, vm, Seq::<u64>::empty(), concat_ids(gm, order)),
    ensures
        all_states_ok(rej, vm, concat_ids(gm, order.subrange(0, k)), gm[order[k] as int]),
    decreases order.len(),
{
    let m = order.len() - 1;
    if k == m {
        assert(order.subrange(0, m + 1) =~= order);
        lemma_concat_take(gm, order, k);
        lemma_all_ok_split(rej, vm, concat_ids(gm, order.subrange(0, k)), gm[order[k] as int]);
    } else {
        let shorter = order.subrange(0, m);
        assert(order.subrange(0, m + 1) =~= order);
        lemma_concat_take(gm, order, m);
        lemma_all_ok_split(rej, vm, concat_ids(gm, shorter), gm[order[m] as int]);
        assert(shorter.subrange(0, k) =~= order.subrange(0, k));
        assert(shorter[k] == order[k]);
        lemma_all_ok_at_position(gm, rej, vm, shorter, k);
    }
}

/// A group that fails right after `prefix` dooms every completion that
/// goes through it.
proof fn lemma_fail_no_completion(
    gm: Seq<Seq<u64>>,
    rej: Seq<Seq<u64>>,
    vm: PolicyModel,
    prefix: Seq<usize>,
    g: usize,
)
    requires
        prefix.len() < gm.len(),
        !all_states_ok(rej, vm, concat_ids(gm, prefix), gm[g as int]),
    ensures
        no_valid_completion(gm, rej, vm, prefix.push(g)),
{
    assert forall|sigma: Seq<usize>|
        completes(gm, sigma, prefix.push(g)) implies !all_states_ok(
        rej,
        vm,
        Seq::<u64>::empty(),
        #[trigger] concat_ids(gm, sigma),
    ) by {
        if all_states_ok(rej, vm, Seq::<u64>::empty(), concat_ids(gm, sigma)) {
            let k = prefix.len() as int;
            assert(sigma.subrange(0, k + 1) == prefix.push(g));
            assert(sigma.subrange(0, k) =~= prefix) by {
                assert forall|t: int| 0 <= t < k implies sigma[t] == prefix[t] by {
                    assert(sigma.subrange(0, k + 1)[t] == sigma[t]);
                    assert(prefix.push(g)[t] == prefix[t]);
                }
            }
            assert(sigma[k] == g) by {
                assert(sigma.subrange(0, k + 1)[k] == sigma[k]);
                assert(prefix.push(g)[k] == g);
            }
            lemma_all_ok_at_position(gm, rej, vm, sigma, k);
            assert(false);
        }
    }
}

/// A partition of the pool indices accounts for every index once.
proof fn lemma_partition_len(cs: Seq<usize>, rem: Seq<usize>, n: nat)
    requires
        cs.to_multiset().add(rem.to_multiset()) == crate::permutator::identity_perm(
            n,
        ).to_multiset(),
    ensures
        cs.len() + rem.len() == n,
{
    broadcast use vstd::multiset::group_multiset_axioms;

    cs.to_multiset_ensures();
    rem.to_multiset_ensures();
    crate::permutator::identity_perm(n).to_multiset_ensures();
    assert(cs.to_multiset().add(rem.to_multiset()).len() == cs.to_multiset().len()
        + rem.to_multiset().len());
}

/// A frame whose candidates are all doomed dooms its own prefix.
proof fn lemma_exhausted_frame(
    gm: Seq<Seq<u64>>,
    rej: Seq<Seq<u64>>,
    vm: PolicyModel,
    cs: Seq<usize>,
    rem: Seq<usize>,
)
    requires
        gm.len() <= usize::MAX,
        rem.len() > 0,
        cs.to_multiset().add(rem.to_multiset()) == crate::permutator::identity_perm(
            gm.len(),
        ).to_multiset(),
        forall|p: int| 0 <= p < rem.len() ==> no_valid_completion(
            gm,
            rej,
            vm,
            cs.push(#[trigger] rem[p]),
        ),
    ensures
        no_valid_completion(gm, rej, vm, cs),
{
    broadcast use vstd::multiset::group_multiset_axioms;

    lemma_partition_no_dup(cs, rem, gm.len());
    cs.to_multiset_ensures();
    rem.to_multiset_ensures();
    assert(cs.len() + rem.len() == gm.len()) by {
        assert(cs.to_multiset().add(rem.to_multiset()).len() == cs.to_multiset().len()
            + rem.to_multiset().len());
        crate::permutator::identity_perm(gm.len()).to_multiset_ensures();
    }
    assert forall|sigma: Seq<usize>| completes(gm, sigma, cs) implies !all_states_ok(
        rej,
        vm,
        Seq::<u64>::empty(),
        #[trigger] concat_ids(gm, sigma),
    ) by {
        if all_states_ok(rej, vm, Seq::<u64>::empty(), concat_ids(gm, sigma)) {
            let i = cs.len() as int;
            assert(i < sigma.len());
            let g = sigma[i];
            assert(!cs.contains(g)) by {
                if cs.contains(g) {
                    let q = choose|q: int| 0 <= q < cs.len() && cs[q] == g;
                    assert(sigma.subrange(0, i)[q] == sigma[q]);
                    assert(sigma[q] == g && sigma[i] == g);
                }
            }
            assert(rem.contains(g)) by {
                assert(g < gm.len());
                let idp = crate::permutator::identity_perm(gm.len());
                idp.to_multiset_ensures();
                assert(idp[g as int] == g);
                assert(idp.contains(g));
                assert(idp.to_multiset().count(g) >= 1);
                assert(cs.to_multiset().count(g) == 0);
                assert(cs.to_multiset().add(rem.to_multiset()).count(g) == cs.to_multiset()
                    .count(g) + rem.to_multiset().count(g));
                assert(rem.to_multiset().count(g) >= 1);
            }
            let p = choose|p: int| 0 <= p < rem.len() && rem[p] == g;
            assert(sigma.subrange(0, i + 1) =~= cs.push(g)) by {
                assert forall|t: int| 0 <= t < i + 1 implies sigma.subrange(0, i + 1)[t]
                    == cs.push(g)[t] by {
                    if t < i {
                        assert(sigma.subrange(0, i)[t] == sigma[t]);
                    }
                }
            }
            assert(no_valid_completion(gm, rej, vm, cs.push(rem[p])));
            assert(completes(gm, sigma, cs.push(g)));
            assert(false);
        }
    }
}

/// Clean runs compose: a clean continuation of a clean run is clean.
proof fn lemma_all_ok_concat(rej: Seq<Seq<u64>>, vm: PolicyModel, a: Seq<u64>, b: Seq<u64>)
    requires
        all_states_ok(rej, vm, Seq::<u64>::empty(), a),
        all_states_ok(rej, vm, a, b),
    ensures
        all_states_ok(rej, vm, Seq::<u64>::empty(), a + b),
{
    assert forall|k: int| 1 <= k <= (a + b).len() implies !rejects_state(
        rej,
        #[trigger] state_after(Seq::<u64>::empty(), a + b, k),
    ) && find_verdict(vm, state_after(Seq::<u64>::empty(), a + b, k)) is None by {
        if k <= a.len() {
            assert(state_after(Seq::<u64>::empty(), a + b, k) =~= state_after(
                Seq::<u64>::empty(),
                a,
                k,
            ));
        } else {
            assert(state_after(Seq::<u64>::empty(), a + b, k) =~= state_after(a, b, k - a.len()));
        }
    }
}

/// A first bad step is unique.
proof fn lemma_fails_at_unique(
    rej: Seq<Seq<u64>>,
    vm: PolicyModel,
    base: Seq<u64>,
    ids: Seq<u64>,
    k1: int,
    k2: int,
)
    requires
        fails_at(rej, vm, base, ids, k1),
        fails_at(rej, vm, base, ids, k2),
    ensures
        k1 == k2,
{
    if k1 < k2 {
        assert(!rejects_state(rej, state_after(base, ids, k1)) && find_verdict(
            vm,
            state_after(base, ids, k1),
        ) is None);
    } else if k2 < k1 {
        assert(!rejects_state(rej, state_after(base, ids, k2)) && find_verdict(
            vm,
            state_after(base, ids, k2),
        ) is None);
    }
}

/// A copy of `v` without the element at position `i`.
fn remove_at(v: &Vec<usize>, i: usize) -> (r: Vec<usize>)
    requires
        i < v@.len(),
    ensures
        r@ == v@.subrange(0, i as int) + v@.subrange(i + 1, v@.len() as int),
        r@.len() == v@.len() - 1,
        forall|x: usize| r@.contains(x) ==> v@.contains(x),
        v@.no_duplicates() ==> r@.no_duplicates(),
        v@.no_duplicates() ==> !r@.contains(v@[i as int]),
{
    let mut r: Vec<usize> = Vec::new();
    let mut k: usize = 0;
    while k < v.len()
        invariant
            k <= v@.len(),
            i < v@.len(),
            r@ == if k <= i {
                v@.subrange(0, k as int)
            } else {
                v@.subrange(0, i as int) + v@.subrange(i + 1, k as int)
            },
        decreases v@.len() - k,
    {
        if k != i {
            r.push(v[k]);
        }
        proof {
            if k + 1 <= i {
                assert(r@ =~= v@.subrange(0, k + 1));
            } else if k == i {
                assert(r@ =~= v@.subrange(0, i as int) + v@.subrange(i + 1, k + 1));
            } else {
                assert(r@ =~= v@.subrange(0, i as int) + v@.subrange(i + 1, k + 1));
            }
        }
        k += 1;
    }
    proof {
        assert(r@ =~= v@.subrange(0, i as int) + v@.subrange(i + 1, v@.len() as int));
        assert forall|x: usize| r@.contains(x) implies v@.contains(x) by {
            let k2 = choose|k2: int| 0 <= k2 < r@.len() && r@[k2] == x;
            if k2 < i {
                assert(v@[k2] == x);
            } else {
                assert(v@[k2 + 1] == x);
            }
        }
        if v@.no_duplicates() {
            assert forall|a: int, b: int|
                0 <= a < r@.len() && 0 <= b < r@.len() && a != b implies r@[a] != r@[b] by {
                let a2: int = if a < i {
                    a
                } else {
                    a + 1
                };
                let b2: int = if b < i {
                    b
                } else {
                    b + 1
                };
                assert(r@[a] == v@[a2] && r@[b] == v@[b2]);
            }
            assert forall|k2: int| 0 <= k2 < r@.len() implies r@[k2] != v@[i as int] by {
                let k3: int = if k2 < i {
                    k2
                } else {
                    k2 + 1
                };
                assert(r@[k2] == v@[k3]);
            }
            assert(!r@.contains(v@[i as int]));
        }
    }
    r
}

/// A copy of the first `n` elements of `v`.
fn truncate_to(v: &Vec<usize>, n: usize) -> (r: Vec<usize>)
    requires
        n <= v@.len(),
    ensures
        r@ == v@.subrange(0, n as int),
        forall|x: usize| r@.contains(x) ==> v@.contains(x),
        v@.no_duplicates() ==> r@.no_duplicates(),
{
    let mut r: Vec<usize> = Vec::new();
    let mut k: usize = 0;
    while k < n
        invariant
            k <= n <= v@.len(),
            r@ == v@.subrange(0, k as int),
        decreases n - k,
    {
        r.push(v[k]);
        proof {
            assert(r@ =~= v@.subrange(0, k + 1));
        }
        k += 1;
    }
    proof {
        assert forall|x: usize| r@.contains(x) implies v@.contains(x) by {
            let k2 = choose|k2: int| 0 <= k2 < r@.len() && r@[k2] == x;
            assert(v@[k2] == x);
        }
    }
    r
}

/// A copy of `v` with `x` put in front.
fn prepend(x: usize, v: &Vec<usize>) -> (r: Vec<usize>)
    ensures
        r@ == seq![x] + v@,
        r@.len() == v@.len() + 1,
        forall|y: usize| r@.contains(y) ==> (y == x || v@.contains(y)),
        v@.no_duplicates() && !v@.contains(x) ==> r@.no_duplicates(),
{
    let mut r: Vec<usize> = Vec::new();
    r.push(x);
    let mut k: usize = 0;
    while k < v.len()
        invariant
            k <= v@.len(),
            r@ == seq![x] + v@.subrange(0, k as int),
        decreases v@.len() - k,
    {
        r.push(v[k]);
        proof {
            assert(r@ =~= seq![x] + v@.subrange(0, k + 1));
        }
        k += 1;
    }
    proof {
        assert(r@ =~= seq![x] + v@);
        assert forall|y: usize| r@.contains(y) implies (y == x || v@.contains(y)) by {
            let k2 = choose|k2: int| 0 <= k2 < r@.len() && r@[k2] == y;
            if k2 > 0 {
                assert(v@[k2 - 1] == y);
            }
        }
        if v@.no_duplicates() && !v@.contains(x) {
            assert forall|a: int, b: int|
                0 <= a < r@.len() && 0 <= b < r@.len() && a != b implies r@[a] != r@[b] by {
                if a > 0 && b > 0 {
                    assert(r@[a] == v@[a - 1] && r@[b] == v@[b - 1]);
                } else if a == 0 && b > 0 {
                    assert(r@[b] == v@[b - 1] && v@.contains(v@[b - 1]));
                } else if b == 0 && a > 0 {
                    assert(r@[a] == v@[a - 1] && v@.contains(v@[a - 1]));
                }
            }
        }
    }
    r
}

/// A copy of `v` with `x` inserted at position `i`.
fn insert_at(v: &Vec<usize>, i: usize, x: usize) -> (r: Vec<usize>)
    requires
        i <= v@.len(),
    ensures
        r@ == v@.subrange(0, i as int) + seq![x] + v@.subrange(i as int, v@.len() as int),
        r@.len() == v@.len() + 1,
        forall|y: usize| r@.contains(y) ==> (y == x || v@.contains(y)),
        v@.no_duplicates() && !v@.contains(x) ==> r@.no_duplicates(),
{
    let mut r: Vec<usize> = Vec::new();
    let mut k: usize = 0;
    while k < i
        invariant
            k <= i <= v@.len(),
            r@ == v@.subrange(0, k as int),
        decreases i - k,
    {
        r.push(v[k]);
        proof {
            assert(r@ =~= v@.subrange(0, k + 1));
        }
        k += 1;
    }
    r.push(x);
    let mut k2: usize = i;
    while k2 < v.len()
        invariant
            i <= k2 <= v@.len(),
            r@ == v@.subrange(0, i as int) + seq![x] + v@.subrange(i as int, k2 as int),
        decreases v@.len() - k2,
    {
        r.push(v[k2]);
        proof {
            assert(r@ =~= v@.subrange(0, i as int) + seq![x] + v@.subrange(i as int, k2 + 1));
        }
        k2 += 1;
    }
    proof {
        assert(r@ =~= v@.subrange(0, i as int) + seq![x] + v@.subrange(i as int, v@.len() as int));
        assert forall|y: usize| r@.contains(y) implies (y == x || v@.contains(y)) by {
            let j = choose|j: int| 0 <= j < r@.len() && r@[j] == y;
            if j < i {
                assert(v@[j] == y);
            } else if j > i {
                assert(v@[j - 1] == y);
            }
        }
        if v@.no_duplicates() && !v@.contains(x) {
            assert forall|a: int, b: int|
                0 <= a < r@.len() && 0 <= b < r@.len() && a != b implies r@[a] != r@[b] by {
                let a2: int = if a < i {
                    a
                } else {
                    a - 1
                };
                let b2: int = if b < i {
                    b
                } else {
                    b - 1
                };
                if a != i && b != i {
                    assert(r@[a] == v@[a2] && r@[b] == v@[b2]);
                } else if a == i {
                    assert(r@[a] == x && r@[b] == v@[b2] && v@.contains(v@[b2]));
                } else {
                    assert(r@[b] == x && r@[a] == v@[a2] && v@.contains(v@[a2]));
                }
            }
        }
    }
    r
}

/// A copy of `v` with `x` appended.
fn append_idx(v: &Vec<usize>, x: usize) -> (r: Vec<usize>)
    ensures
        r@ == v@.push(x),
        forall|y: usize| r@.contains(y) ==> (y == x || v@.contains(y)),
        v@.no_duplicates() && !v@.contains(x) ==> r@.no_duplicates(),
{
    let mut r = copy_indices_vec(v);
    r.push(x);
    proof {
        assert forall|y: usize| r@.contains(y) implies (y == x || v@.contains(y)) by {
            let j = choose|j: int| 0 <= j < r@.len() && r@[j] == y;
            if j < v@.len() {
                assert(v@[j] == y);
            }
        }
        if v@.no_duplicates() && !v@.contains(x) {
            assert forall|a: int, b: int|
                0 <= a < r@.len() && 0 <= b < r@.len() && a != b implies r@[a] != r@[b] by {
                if a < v@.len() && b < v@.len() {
                } else if a == v@.len() {
                    assert(r@[b] == v@[b] && v@.contains(v@[b]));
                } else {
                    assert(r@[a] == v@[a] && v@.contains(v@[a]));
                }
            }
        }
    }
    r
}

/// A plain copy of an index vector.
fn copy_indices_vec(v: &Vec<usize>) -> (r: Vec<usize>)
    ensures
        r@ == v@,
{
    let mut r: Vec<usize> = Vec::new();
    let mut k: usize = 0;
    while k < v.len()
        invariant
            k <= v@.len(),
            r@ == v@.subrange(0, k as int),
        decreases v@.len() - k,
    {
        r.push(v[k]);
        proof {
            assert(r@ =~= v@.subrange(0, k + 1));
        }
        k += 1;
    }
    proof {
        assert(r@ =~= v@);
    }
    r
}

/// Index sequences drawn from a valid one are valid.
proof fn lemma_subset_valid(gm: Seq<Seq<u64>>, a: Seq<usize>, b: Seq<usize>)
    requires
        forall|p: int| 0 <= p < b.len() ==> (#[trigger] b[p]) < gm.len(),
        forall|x: usize| a.contains(x) ==> b.contains(x),
    ensures
        forall|p: int| 0 <= p < a.len() ==> (#[trigger] a[p]) < gm.len(),
{
    assert forall|p: int| 0 <= p < a.len() implies (#[trigger] a[p]) < gm.len() by {
        assert(a.contains(a[p]));
        let j = choose|j: int| 0 <= j < b.len() && b[j] == a[p];
    }
}

/// Whether `v` holds `x`.
pub(crate) fn contains_idx(v: &Vec<usize>, x: usize) -> (r: bool)
    ensures
        r == v@.contains(x),
{
    let mut k: usize = 0;
    while k < v.len()
        invariant
            k <= v@.len(),
            forall|j: int| 0 <= j < k ==> v@[j] != x,
        decreases v@.len() - k,
    {
        if v[k] == x {
            return true;
        }
        k += 1;
    }
    false
}

/// The visited forwarding states decompose along a split of the applied
/// sequence.
proof fn lemma_prefix_states_concat(a: Seq<u64>, b: Seq<u64>)
    ensures
        prefix_states(Seq::<u64>::empty(), a + b) == prefix_states(Seq::<u64>::empty(), a)
            + prefix_states(a, b),
{
    let lhs = prefix_states(Seq::<u64>::empty(), a + b);
    let rhs = prefix_states(Seq::<u64>::empty(), a) + prefix_states(a, b);
    assert forall|k: int| 0 <= k < lhs.len() implies lhs[k] == rhs[k] by {
        if k < a.len() {
            assert(Seq::<u64>::empty() + (a + b).subrange(0, k + 1) =~= Seq::<u64>::empty()
                + a.subrange(0, k + 1));
        } else {
            assert(Seq::<u64>::empty() + (a + b).subrange(0, k + 1) =~= a + b.subrange(
                0,
                k + 1 - a.len(),
            ));
        }
    }
    assert(lhs =~= rhs);
}

/// A sequence pair whose multisets partition the index multiset `0 .. n`
/// has no duplicates on either side, no common element, and only elements
/// below `n`.
proof fn lemma_partition_no_dup(cs: Seq<usize>, rem: Seq<usize>, n: nat)
    requires
        n <= usize::MAX,
        cs.to_multiset().add(rem.to_multiset()) == crate::permutator::identity_perm(
            n,
        ).to_multiset(),
    ensures
        cs.no_duplicates(),
        rem.no_duplicates(),
        forall|x: usize| cs.contains(x) ==> !rem.contains(x),
        forall|x: usize| cs.contains(x) ==> x < n,
        forall|x: usize| rem.contains(x) ==> x < n,
{
    broadcast use vstd::multiset::group_multiset_axioms;

    let idp = crate::permutator::identity_perm(n);
    cs.to_multiset_ensures();
    rem.to_multiset_ensures();
    idp.to_multiset_ensures();
    assert(idp.no_duplicates()) by {
        assert forall|a: int, b: int|
            0 <= a < idp.len() && 0 <= b < idp.len() && a != b implies idp[a] != idp[b] by {
            assert(idp[a] == a as usize && idp[b] == b as usize);
        }
    }
    idp.lemma_multiset_has_no_duplicates();
    assert forall|x: usize| idp.to_multiset().count(x) <= 1 by {
        if idp.to_multiset().count(x) > 0 {
            assert(idp.to_multiset().contains(x));
        }
    }
    assert forall|x: usize| cs.to_multiset().count(x) <= 1 && rem.to_multiset().count(x)
        <= 1 by {
        assert(cs.to_multiset().add(rem.to_multiset()).count(x) == cs.to_multiset().count(x)
            + rem.to_multiset().count(x));
        assert(idp.to_multiset().count(x) <= 1);
    }
    assert forall|x: usize| cs.to_multiset().contains(x) implies cs.to_multiset().count(x)
        == 1 by {}
    cs.lemma_multiset_has_no_duplicates_conv();
    assert forall|x: usize| rem.to_multiset().contains(x) implies rem.to_multiset().count(x)
        == 1 by {}
    rem.lemma_multiset_has_no_duplicates_conv();
    assert forall|x: usize| cs.contains(x) implies !rem.contains(x) by {
        if rem.contains(x) {
            assert(cs.to_multiset().count(x) >= 1 && rem.to_multiset().count(x) >= 1);
            assert(idp.to_multiset().count(x) >= 2);
        }
    }
    assert forall|x: usize| cs.contains(x) implies x < n by {
        assert(cs.to_multiset().count(x) >= 1);
        assert(idp.to_multiset().count(x) >= 1);
        assert(idp.to_multiset().contains(x));
        assert(idp.contains(x));
        let j = choose|j: int| 0 <= j < idp.len() && idp[j] == x;
    }
    assert forall|x: usize| rem.contains(x) implies x < n by {
        assert(rem.to_multiset().count(x) >= 1);
        assert(idp.to_multiset().count(x) >= 1);
        assert(idp.to_multiset().contains(x));
        assert(idp.contains(x));
        let j = choose|j: int| 0 <= j < idp.len() && idp[j] == x;
    }
}

/// A plain copy of a modifier group.
fn copy_group(g: &Vec<ConfigModifier>) -> (r: Vec<ConfigModifier>)
    ensures
        r@ == g@,
{
    let mut r: Vec<ConfigModifier> = Vec::new();
    let mut k: usize = 0;
    while k < g.len()
        invariant
            k <= g@.len(),
            r@ == g@.subrange(0, k as int),
        decreases g@.len() - k,
    {
        r.push(g[k].duplicate());
        proof {
            assert(r@ =~= g@.subrange(0, k + 1));
        }
        k += 1;
    }
    proof {
        assert(r@ =~= g@);
    }
    r
}

/// An empty applied prefix together with a full candidate list partitions
/// the pool.
proof fn lemma_root_partition(rem: Seq<usize>, n: nat)
    requires
        rem.to_multiset() == crate::permutator::identity_perm(n).to_multiset(),
    ensures
        Seq::<usize>::empty().to_multiset().add(rem.to_multiset())
            == crate::permutator::identity_perm(n).to_multiset(),
{
    broadcast use vstd::multiset::group_multiset_axioms;

    let e = Seq::<usize>::empty();
    e.to_multiset_ensures();
    vstd::multiset::lemma_multiset_empty_len(e.to_multiset());
    assert(e.to_multiset() =~= Multiset::<usize>::empty());
    assert(e.to_multiset().add(rem.to_multiset()) =~= rem.to_multiset());
}

/// The external LTL satisfiability oracle: hands back the text answer for
/// a formula. Implementations live outside the library (in the usual
/// deployment, a child process); the search states what holds of its own
/// behaviour whatever answer comes back.
pub trait LtlOracle {
    fn query(&mut self, formula: &Vec<u8>) -> Vec<u8>;
}

/// Keep of `indices` the first occurrence of each value below `n`: a
/// frontier the search can explore safely.
/// The first occurrence, in input order, of each value of `s` below `n`.
pub open spec fn first_hits(s: Seq<usize>, n: nat) -> Seq<usize>
    decreases s.len(),
{
    if s.len() == 0 {
        Seq::<usize>::empty()
    } else {
        let pre = first_hits(s.drop_last(), n);
        if s.last() < n && !pre.contains(s.last()) {
            pre.push(s.last())
        } else {
            pre
        }
    }
}

pub fn sanitize_frontier(indices: &Vec<usize>, n: usize) -> (r: Vec<usize>)
    ensures
        r@ == first_hits(indices@, n as nat),
        r@.no_duplicates(),
        forall|p: int| 0 <= p < r@.len() ==> (#[trigger] r@[p]) < n,
{
    let mut r: Vec<usize> = Vec::new();
    let mut k: usize = 0;
    proof {
        assert(indices@.subrange(0, 0) =~= Seq::<usize>::empty());
    }
    while k < indices.len()
        invariant
            k <= indices@.len(),
            r@ == first_hits(indices@.subrange(0, k as int), n as nat),
            r@.no_duplicates(),
            forall|p: int| 0 <= p < r@.len() ==> (#[trigger] r@[p]) < n,
        decreases indices@.len() - k,
    {
        let x = indices[k];
        proof {
            assert(indices@.subrange(0, k + 1).drop_last() =~= indices@.subrange(0, k as int));
            assert(indices@.subrange(0, k + 1).last() == indices@[k as int]);
        }
        if x < n && !contains_idx(&r, x) {
            let ghost pre = r@;
            r.push(x);
            proof {
                assert forall|a: int, b: int|
                    0 <= a < r@.len() && 0 <= b < r@.len() && a != b implies r@[a] != r@[b] by {
                    if a < pre.len() && b < pre.len() {
                    } else if a == pre.len() {
                        assert(pre.contains(pre[b]));
                    } else {
                        assert(pre.contains(pre[a]));
                    }
                }
            }
        }
        k += 1;
    }
    proof {
        assert(indices@.subrange(0, indices@.len() as int) =~= indices@);
    }
    r
}

/// The shape of one stack frame at depth `i` in the oracle-driven search:
/// its probing cursor is in range, its candidates are distinct pool
/// indices disjoint from the applied prefix, and its undo count is the
/// length of the group whose application produced it. Unlike the learner
/// path, a frame's candidates need not cover the whole remaining pool: the
/// oracle may suggest a partial frontier.
spec fn o_frame_ok(gm: Seq<Seq<u64>>, cs: Seq<usize>, f: StackFrame, i: int) -> bool {
    &&& f.idx <= f.rem_groups@.len()
    &&& 0 <= i <= cs.len()
    &&& f.rem_groups@.no_duplicates()
    &&& (forall|p: int| 0 <= p < f.rem_groups@.len() ==> (#[trigger] f.rem_groups@[p]) < gm.len())
    &&& (forall|x: usize| f.rem_groups@.contains(x) ==> !cs.subrange(0, i).contains(x))
    &&& (if i == 0 {
        f.num_undo == 0
    } else {
        f.num_undo == gm[cs[i - 1] as int].len()
    })
}

/// What exploration has settled about one frame at depth `i`: every
/// candidate strictly before the frame's cursor leads to no valid
/// completion of the applied prefix. For a frame below the top the most
/// recent choice is still being explored, so only the candidates before it
/// are settled.
spec fn frame_explored(
    gm: Seq<Seq<u64>>,
    rej: Seq<Seq<u64>>,
    vm: PolicyModel,
    cs: Seq<usize>,
    f: StackFrame,
    i: int,
    is_top: bool,
) -> bool {
    forall|p: int|
        0 <= p < (if is_top {
            f.idx as int
        } else {
            f.idx as int - 1
        }) ==> no_valid_completion(gm, rej, vm, cs.subrange(0, i).push(#[trigger] f.rem_groups@[p]))
}

/// A frame below the top has committed its most recent choice: the group
/// applied to reach the frame above it.
spec fn frame_link(cs: Seq<usize>, f: StackFrame, i: int) -> bool {
    &&& f.idx >= 1
    &&& 0 <= i < cs.len()
    &&& f.rem_groups@[f.idx - 1] == cs[i]
}

/// The shape of one stack frame at depth `i`: its probing cursor is in
/// range, the frame's candidates together with the applied prefix make up
/// the whole pool exactly once, and its undo count is the length of the
/// group whose application produced it.
spec fn frame_ok(gm: Seq<Seq<u64>>, cs: Seq<usize>, f: StackFrame, i: int) -> bool {
    &&& f.idx <= f.rem_groups@.len()
    &&& 0 <= i <= cs.len()
    &&& cs.subrange(0, i).to_multiset().add(f.rem_groups@.to_multiset())
        == crate::permutator::identity_perm(gm.len()).to_multiset()
    &&& (if i == 0 {
        f.num_undo == 0
    } else {
        f.num_undo == gm[cs[i - 1] as int].len()
    })
}

/// Relies on rand::seq::SliceRandom::shuffle with rand::thread_rng: an
/// in-place, uniformly random permutation of the vector. Which permutation
/// comes out depends on the generator, so only the contents as a multiset
/// are promised.
#[verifier::external_body]
fn shuffle_indices(v: &mut Vec<usize>)
    ensures
        final(v)@.to_multiset() == old(v)@.to_multiset(),
        final(v)@.len() == old(v)@.len(),
{
    let mut rng = rand::thread_rng();
    v.shuffle(&mut rng);
}

/// One frame of the exploration stack.
pub struct StackFrame {
    /// How many simulator and policy undo operations revert the group
    /// application that produced this frame.
    pub num_undo: usize,
    /// The candidate group indices still to try at this depth.
    pub rem_groups: Vec<usize>,
    /// The next position of `rem_groups` to probe.
    pub idx: usize,
}

impl StackFrame {
    /// A frame over the given candidates, shuffled uniformly at random.
    pub fn new(options: Vec<usize>, num_undo: usize) -> (r: StackFrame)
        ensures
            r.rem_groups@.to_multiset() == options@.to_multiset(),
            r.rem_groups@.len() == options@.len(),
            r.idx == 0,
            r.num_undo == num_undo,
    {
        let mut rem_groups = options;
        shuffle_indices(&mut rem_groups);
        StackFrame { num_undo, rem_groups, idx: 0 }
    }
}

/// What a failed probe reports: the black-hole router set, when the first
/// bad step was of that kind, and the violation itself.
pub struct ProbeFailure {
    pub nodes: Option<Vec<u64>>,
    pub error: PolicyError,
}

/// What the expansion phase of the learner hands back.
enum ExpandResult {
    /// The expanded ordering applies cleanly: it is the learned group.
    Finished(Vec<usize>),
    /// A new problem ordering to hand back to the solving phase.
    Retry(Vec<usize>),
    /// No candidate changed the stuck point.
    Exhausted,
}

/// Bound on the permutations tried in one solving attempt.
pub const SOLVE_FUEL: u64 = 1000000;

/// Bound on the solve/expand rounds of one learning attempt.
pub const LEARN_FUEL: u64 = 4096;

/// Undo `n` partial applications of `gids` on `base`, restoring the
/// simulator and the policy evaluator to the pre-probe state.
#[verifier::loop_isolation(false)]
fn rollback(
    net: &mut Network,
    hard_policy: &mut HardPolicy,
    n: usize,
    Ghost(base): Ghost<Seq<u64>>,
    Ghost(gids): Ghost<Seq<u64>>,
    Ghost(tr0): Ghost<Seq<Seq<u64>>>,
)
    requires
        n <= gids.len(),
        old(net).applied() == state_after(base, gids, n as int),
        old(hard_policy).trace() == tr0 + prefix_states(base, gids).subrange(0, n as int),
    ensures
        final(net).applied() == base,
        final(net).reject_model() == old(net).reject_model(),
        final(hard_policy).trace() == tr0,
        final(hard_policy).model() == old(hard_policy).model(),
        final(hard_policy).num_mods() == old(hard_policy).num_mods(),
{
    let mut u: usize = 0;
    while u < n
        invariant
            u <= n,
            n <= gids.len(),
            net.applied() == state_after(base, gids, n - u),
            net.reject_model() == old(net).reject_model(),
        decreases n - u,
    {
        proof {
            assert(state_after(base, gids, n - u).len() == base.len() + n - u > 0);
            assert(state_after(base, gids, n - u).drop_last() =~= state_after(
                base,
                gids,
                n - u - 1,
            ));
        }
        net.undo_action();
        u += 1;
    }
    let mut up: usize = 0;
    while up < n
        invariant
            up <= n,
            n <= gids.len(),
            hard_policy.trace() == tr0 + prefix_states(base, gids).subrange(0, n - up),
            hard_policy.model() == old(hard_policy).model(),
            hard_policy.num_mods() == old(hard_policy).num_mods(),
        decreases n - up,
    {
        proof {
            assert(hard_policy.trace().len() > 0);
            assert(hard_policy.trace().drop_last() =~= tr0 + prefix_states(base, gids).subrange(
                0,
                n - up - 1,
            ));
        }
        hard_policy.undo();
        up += 1;
    }
    proof {
        assert(net.applied() =~= base);
        assert(hard_policy.trace() =~= tr0);
    }
}

/// The fraction of the total budget granted to each solving attempt of the
/// dependency learner.
pub const TIME_FRACTION: u64 = 10;

/// The search driver: owns the pool of modifier groups, the pristine
/// simulator and policy evaluator, and the search budget.
pub struct StrategyTRTA {
    net: Network,
    groups: Vec<Vec<ConfigModifier>>,
    hard_policy: HardPolicy,
    start: Option<std::time::Instant>,
    budget_ms: u64,
    max_group_solve_time: Option<u64>,
    num_states: usize,
    seen_difficult_dependency: bool,
}

impl StrategyTRTA {
    /// The pool of groups, as sequences of modifier ids.
    pub closed spec fn groups_model(&self) -> Seq<Seq<u64>> {
        self.groups@.map_values(|g: Vec<ConfigModifier>| group_ids(g@))
    }

    /// The pristine simulator held for resets.
    pub closed spec fn sim(&self) -> Network {
        self.net
    }

    /// The policy evaluator held for resets.
    pub closed spec fn pol(&self) -> HardPolicy {
        self.hard_policy
    }

    /// Whether a wall-clock budget was configured.
    pub closed spec fn timed(&self) -> bool {
        self.start is Some
    }

    /// The configured budget in milliseconds.
    pub closed spec fn budget(&self) -> u64 {
        self.budget_ms
    }

    /// The pristine simulator has nothing applied, and the pristine
    /// evaluator has stepped exactly the initial state: resets and fresh
    /// simulations start from the initial configuration.
    pub closed spec fn wf(&self) -> bool {
        &&& self.net.applied().len() == 0
        &&& self.hard_policy.trace() == seq![Seq::<u64>::empty()]
    }

    /// Build the search over `modifiers`: validate the initial
    /// configuration, wrap every modification in its own singleton group,
    /// and fix the wall-clock budget, given in milliseconds.
    pub fn new(
        net: Network,
        modifiers: Vec<ConfigModifier>,
        hard_policy: HardPolicy,
        time_budget: Option<u64>,
    ) -> (r: Result<Box<StrategyTRTA>, Error>)
        requires
            net.applied().len() == 0,
            hard_policy.trace().len() == 0,
        ensures
            match r {
                Ok(s) => {
                    &&& s.wf()
                    &&& find_verdict(hard_policy.model(), Seq::<u64>::empty()) is None
                    &&& s.groups_model() == modifiers@.map_values(
                        |m: ConfigModifier| seq![m.id],
                    )
                    &&& s.sim().reject_model() == net.reject_model()
                    &&& s.pol().model() == hard_policy.model()
                    &&& s.timed() == (time_budget is Some)
                    &&& (time_budget matches Some(b) ==> s.budget() == b)
                    &&& pool_ids(s.groups_model()) == group_ids(modifiers@).to_multiset()
                    &&& s.states_explored() == 0
                    &&& !s.difficult_dependency_seen()
                },
                Err(e) => {
                    &&& e == Error::InvalidInitialState
                    &&& find_verdict(hard_policy.model(), Seq::<u64>::empty()) is Some
                },
            },
    {
        let mut net = net;
        let mut hard_policy = hard_policy;
        hard_policy.set_num_mods_if_none(modifiers.len());
        proof {
            assert(net.applied() =~= Seq::<u64>::empty());
            assert(hard_policy.trace() =~= Seq::<Seq<u64>>::empty());
        }
        let fw_state = net.get_forwarding_state();
        let _ = hard_policy.step(fw_state);
        proof {
            assert(hard_policy.trace() =~= seq![Seq::<u64>::empty()]);
            assert(hard_policy.trace().last() == Seq::<u64>::empty());
        }
        if !hard_policy.check() {
            return Err(Error::InvalidInitialState);
        }
        let mut groups: Vec<Vec<ConfigModifier>> = Vec::new();
        let mut k: usize = 0;
        while k < modifiers.len()
            invariant
                k <= modifiers@.len(),
                groups@.len() == k,
                forall|i: int| 0 <= i < k ==> #[trigger] groups@[i]@ =~= seq![modifiers@[i]],
            decreases modifiers@.len() - k,
        {
            let mut g: Vec<ConfigModifier> = Vec::new();
            g.push(modifiers[k].duplicate());
            proof {
                assert(g@ =~= seq![modifiers@[k as int]]);
            }
            groups.push(g);
            k += 1;
        }
        let max_group_solve_time = match time_budget {
            Some(b) => Some(b / TIME_FRACTION),
            None => None,
        };
        let budget_ms = match time_budget {
            Some(b) => b,
            None => 0,
        };
        let start = match time_budget {
            Some(_) => Some(instant_now()),
            None => None,
        };
        let s = StrategyTRTA {
            net,
            groups,
            hard_policy,
            start,
            budget_ms,
            max_group_solve_time,
            num_states: 0,
            seen_difficult_dependency: false,
        };
        proof {
            assert(s.hard_policy.trace() =~= seq![Seq::<u64>::empty()]);
            let target = modifiers@.map_values(|m: ConfigModifier| seq![m.id]);
            assert forall|i: int| 0 <= i < s.groups_model().len() implies s.groups_model()[i]
                == target[i] by {
                assert(s.groups@[i]@ == seq![modifiers@[i]]);
                assert(group_ids(s.groups@[i]@).len() == 1);
                assert(group_ids(s.groups@[i]@)[0] == modifiers@[i].id);
                assert(group_ids(s.groups@[i]@) =~= seq![modifiers@[i].id]);
            }
            assert(s.groups_model() =~= target);
            let ids = group_ids(modifiers@);
            assert(s.groups_model().len() == ids.len());
            assert forall|i: int| 0 <= i < s.groups_model().len() implies s.groups_model()[i]
                == seq![ids[i]] by {
                assert(target[i] == seq![modifiers@[i].id]);
                assert(ids[i] == modifiers@[i].id);
            }
            lemma_singleton_pool(ids, s.groups_model(), ids.len() as int);
            assert(ids.subrange(0, ids.len() as int) =~= ids);
            assert(pool_ids(s.groups_model()) == ids.to_multiset());
        }
        Ok(Box::new(s))
    }

    /// The number of simulator states visited so far: one per modifier
    /// application attempted while probing or learning, saturating at the
    /// largest representable count.
    pub closed spec fn states_explored(&self) -> nat {
        self.num_states as nat
    }

    /// Whether some earlier learner-path search (`work`) on this strategy
    /// hit a stuck point: a frame none of whose remaining candidates
    /// applied cleanly, so that dependency learning was called for.
    pub closed spec fn difficult_dependency_seen(&self) -> bool {
        self.seen_difficult_dependency
    }

    /// The number of simulator states visited so far.
    pub fn num_states(&self) -> (r: usize)
        ensures
            r == self.states_explored(),
    {
        self.num_states
    }

    /// Whether exploration hit a stuck point that called for dependency
    /// learning.
    pub fn seen_dependency_without_immediage_effect(&self) -> (r: bool)
        ensures
            r == self.difficult_dependency_seen(),
    {
        self.seen_difficult_dependency
    }

    /// Apply the modifiers of group `group_idx` one at a time, stepping and
    /// checking the policy evaluator after each successful application. On
    /// success the simulator and evaluator stay in the reached state; on the
    /// first bad step everything applied so far is rolled back, and the
    /// router set of a black-hole violation, if that is what went wrong, is
    /// carried out.
    #[verifier::loop_isolation(false)]
    fn probe_group(
        &mut self,
        net: &mut Network,
        hard_policy: &mut HardPolicy,
        group_idx: usize,
    ) -> (r: Result<(), ProbeFailure>)
        requires
            group_idx < old(self).groups_model().len(),
        ensures
            final(self).groups@ == old(self).groups@,
            final(self).net == old(self).net,
            final(self).hard_policy == old(self).hard_policy,
            final(self).start == old(self).start,
            final(self).budget_ms == old(self).budget_ms,
            final(self).max_group_solve_time == old(self).max_group_solve_time,
            final(self).num_states >= old(self).num_states,
            old(self).seen_difficult_dependency ==> final(self).seen_difficult_dependency,
            final(net).reject_model() == old(net).reject_model(),
            final(hard_policy).model() == old(hard_policy).model(),
            final(hard_policy).num_mods() == old(hard_policy).num_mods(),
            match r {
                Ok(_) => {
                    &&& all_states_ok(
                        old(net).reject_model(),
                        old(hard_policy).model(),
                        old(net).applied(),
                        old(self).groups_model()[group_idx as int],
                    )
                    &&& final(net).applied() == old(net).applied() + old(
                        self,
                    ).groups_model()[group_idx as int]
                    &&& final(hard_policy).trace() == old(hard_policy).trace() + prefix_states(
                        old(net).applied(),
                        old(self).groups_model()[group_idx as int],
                    )
                },
                Err(pf) => {
                    &&& !all_states_ok(
                        old(net).reject_model(),
                        old(hard_policy).model(),
                        old(net).applied(),
                        old(self).groups_model()[group_idx as int],
                    )
                    &&& final(net).applied() == old(net).applied()
                    &&& final(hard_policy).trace() == old(hard_policy).trace()
                    &&& err_view(pf.error) == fail_error_view(
                        old(net).reject_model(),
                        old(hard_policy).model(),
                        old(net).applied(),
                        old(self).groups_model()[group_idx as int],
                    )
                    &&& (match pf.nodes {
                        Some(c) => probe_captures(
                            old(net).reject_model(),
                            old(hard_policy).model(),
                            old(net).applied(),
                            old(self).groups_model()[group_idx as int],
                        ) && c@ == probe_nodes(
                            old(net).reject_model(),
                            old(hard_policy).model(),
                            old(net).applied(),
                            old(self).groups_model()[group_idx as int],
                        ),
                        None => !probe_captures(
                            old(net).reject_model(),
                            old(hard_policy).model(),
                            old(net).applied(),
                            old(self).groups_model()[group_idx as int],
                        ),
                    })
                },
            },
    {
        let ghost base = old(net).applied();
        let ghost gids = old(self).groups_model()[group_idx as int];
        let ghost tr0 = old(hard_policy).trace();
        let glen = self.groups[group_idx].len();
        proof {
            assert(gids == group_ids(self.groups@[group_idx as int]@));
            assert(gids.len() == glen);
            assert(hard_policy.trace() =~= tr0 + prefix_states(base, gids).subrange(0, 0));
        }
        let mut mi: usize = 0;
        while mi < glen
            invariant
                0 <= mi <= glen,
                group_idx < self.groups@.len(),
                self.groups@ == old(self).groups@,
                self.net == old(self).net,
                self.hard_policy == old(self).hard_policy,
                self.start == old(self).start,
                self.budget_ms == old(self).budget_ms,
                self.max_group_solve_time == old(self).max_group_solve_time,
                self.num_states >= old(self).num_states,
                old(self).seen_difficult_dependency ==> self.seen_difficult_dependency,
                glen == gids.len(),
                gids == group_ids(self.groups@[group_idx as int]@),
                net.applied() == state_after(base, gids, mi as int),
                net.reject_model() == old(net).reject_model(),
                hard_policy.trace() == tr0 + prefix_states(base, gids).subrange(0, mi as int),
                hard_policy.model() == old(hard_policy).model(),
                hard_policy.num_mods() == old(hard_policy).num_mods(),
                forall|j: int| 1 <= j <= mi ==> !old(net).sim_rejects(
                    #[trigger] state_after(base, gids, j),
                ) && !old(hard_policy).violates(state_after(base, gids, j)),
            decreases glen - mi,
        {
            proof {
                assert(self.groups@[group_idx as int]@.map_values(|m: ConfigModifier| m.id)[
                    mi as int] == self.groups@[group_idx as int]@[mi as int].id);
            }
            let modifier = self.groups[group_idx][mi].duplicate();
            self.num_states = if self.num_states == usize::MAX {
                usize::MAX
            } else {
                self.num_states + 1
            };
            let apply_ok = match net.apply_modifier(&modifier) {
                Ok(_) => true,
                Err(_) => false,
            };
            proof {
                assert(state_after(base, gids, mi as int).push(gids[mi as int]) =~= state_after(
                    base,
                    gids,
                    mi + 1,
                ));
            }
            if !apply_ok {
                proof {
                    assert(old(net).sim_rejects(state_after(base, gids, mi + 1)));
                    assert(fails_at(old(net).reject_model(), old(hard_policy).model(), base, gids, mi + 1));
                    let kc = choose|k2: int|
                        fails_at(old(net).reject_model(), old(hard_policy).model(), base, gids, k2);
                    lemma_fails_at_unique(old(net).reject_model(), old(hard_policy).model(), base, gids, kc, mi + 1);
                    assert(!all_states_ok(old(net).reject_model(), old(hard_policy).model(), base, gids));
                    assert(!probe_captures(old(net).reject_model(), old(hard_policy).model(), base, gids));
                }
                rollback(net, hard_policy, mi, Ghost(base), Ghost(gids), Ghost(tr0));
                return Err(ProbeFailure { nodes: None, error: PolicyError::NoConvergence });
            }
            let fw_state = net.get_forwarding_state();
            let step_res = hard_policy.step(fw_state);
            proof {
                assert(hard_policy.trace() =~= tr0 + prefix_states(base, gids).subrange(
                    0,
                    mi + 1,
                ));
            }
            if let Err(e) = step_res {
                proof {
                    let s1 = state_after(base, gids, mi + 1);
                    assert(old(hard_policy).violates(s1));
                    assert(fails_at(old(net).reject_model(), old(hard_policy).model(), base, gids, mi + 1));
                    let kc = choose|k2: int|
                        fails_at(old(net).reject_model(), old(hard_policy).model(), base, gids, k2);
                    lemma_fails_at_unique(old(net).reject_model(), old(hard_policy).model(), base, gids, kc, mi + 1);
                    assert(!all_states_ok(old(net).reject_model(), old(hard_policy).model(), base, gids));
                    assert(Some(err_view(e)) == old(hard_policy).verdict(s1));
                }
                rollback(net, hard_policy, mi + 1, Ghost(base), Ghost(gids), Ghost(tr0));
                let error = clone_error(&e);
                if let PolicyError::ForwardingBlackHole(node_indices) = e {
                    proof {
                        assert(err_view(e).0 == 0 && err_view(e).1 == node_indices@);
                        assert(probe_captures(old(net).reject_model(), old(hard_policy).model(), base, gids));
                        assert(node_indices@ == probe_nodes(
                            old(net).reject_model(),
                            old(hard_policy).model(),
                            base,
                            gids,
                        ));
                    }
                    return Err(ProbeFailure { nodes: Some(node_indices), error });
                }
                proof {
                    assert(err_view(e).0 != 0);
                    assert(!probe_captures(old(net).reject_model(), old(hard_policy).model(), base, gids));
                }
                return Err(ProbeFailure { nodes: None, error });
            }
            mi += 1;
        }
        proof {
            assert(net.applied() =~= base + gids);
            assert(hard_policy.trace() =~= tr0 + prefix_states(base, gids));
            assert(all_states_ok(old(net).reject_model(), old(hard_policy).model(), base, gids));
        }
        Ok(())
    }

    /// Check all remaining candidates of `frame`, starting at `frame.idx`.
    /// The first group that applies cleanly is returned as `Ok` with its
    /// position, and the simulator and evaluator are left in the state it
    /// produced. If every candidate fails, `Err` carries the router set of
    /// the last failing candidate that black-holed traffic, and the
    /// simulator and evaluator are restored exactly (rollback fidelity).
    #[verifier::loop_isolation(false)]
    fn get_next_option(
        &mut self,
        net: &mut Network,
        hard_policy: &mut HardPolicy,
        frame: &StackFrame,
    ) -> (r: Result<usize, Vec<u64>>)
        requires
            frame.idx < frame.rem_groups@.len(),
            forall|p: int| frame.idx <= p < frame.rem_groups@.len()
                ==> #[trigger] frame.rem_groups@[p] < old(self).groups_model().len(),
        ensures
            final(self).groups@ == old(self).groups@,
            final(self).net == old(self).net,
            final(self).hard_policy == old(self).hard_policy,
            final(self).start == old(self).start,
            final(self).budget_ms == old(self).budget_ms,
            final(self).max_group_solve_time == old(self).max_group_solve_time,
            final(self).num_states >= old(self).num_states,
            old(self).seen_difficult_dependency ==> final(self).seen_difficult_dependency,
            final(net).reject_model() == old(net).reject_model(),
            final(hard_policy).model() == old(hard_policy).model(),
            final(hard_policy).num_mods() == old(hard_policy).num_mods(),
            match r {
                Ok(p) => {
                    &&& frame.idx <= p < frame.rem_groups@.len()
                    &&& all_states_ok(
                        old(net).reject_model(),
                        old(hard_policy).model(),
                        old(net).applied(),
                        old(self).groups_model()[frame.rem_groups@[p as int] as int],
                    )
                    &&& (forall|q: int| frame.idx <= q < p ==> !all_states_ok(
                        old(net).reject_model(),
                        old(hard_policy).model(),
                        old(net).applied(),
                        old(self).groups_model()[#[trigger] frame.rem_groups@[q] as int],
                    ))
                    &&& final(net).applied() == old(net).applied() + old(
                        self,
                    ).groups_model()[frame.rem_groups@[p as int] as int]
                    &&& final(hard_policy).trace() == old(hard_policy).trace() + prefix_states(
                        old(net).applied(),
                        old(self).groups_model()[frame.rem_groups@[p as int] as int],
                    )
                },
                Err(nodes) => {
                    &&& final(net).applied() == old(net).applied()
                    &&& final(hard_policy).trace() == old(hard_policy).trace()
                    &&& (forall|q: int| frame.idx <= q < frame.rem_groups@.len()
                        ==> !all_states_ok(
                        old(net).reject_model(),
                        old(hard_policy).model(),
                        old(net).applied(),
                        old(self).groups_model()[#[trigger] frame.rem_groups@[q] as int],
                    ))
                    &&& nodes@ == last_captured(
                        old(net).reject_model(),
                        old(hard_policy).model(),
                        old(net).applied(),
                        frame.rem_groups@.map_values(
                            |i: usize| old(self).groups_model()[i as int],
                        ).subrange(frame.idx as int, frame.rem_groups@.len() as int),
                    )
                },
            },
    {
        let ghost base = old(net).applied();
        let ghost gm = old(self).groups_model();
        let ghost cands = frame.rem_groups@.map_values(|i: usize| old(self).groups_model()[i as int]);
        let mut nodes: Vec<u64> = Vec::new();
        let mut group_pos = frame.idx;
        proof {
            assert(cands.subrange(frame.idx as int, frame.idx as int) =~= Seq::<Seq<u64>>::empty());
        }
        while group_pos < frame.rem_groups.len()
            invariant
                frame.idx <= group_pos <= frame.rem_groups@.len(),
                self.groups@ == old(self).groups@,
                self.net == old(self).net,
                self.hard_policy == old(self).hard_policy,
                self.start == old(self).start,
                self.budget_ms == old(self).budget_ms,
                self.max_group_solve_time == old(self).max_group_solve_time,
                self.num_states >= old(self).num_states,
                old(self).seen_difficult_dependency ==> self.seen_difficult_dependency,
                net.applied() == base,
                net.reject_model() == old(net).reject_model(),
                hard_policy.trace() == old(hard_policy).trace(),
                hard_policy.model() == old(hard_policy).model(),
                hard_policy.num_mods() == old(hard_policy).num_mods(),
                forall|q: int| frame.idx <= q < group_pos ==> !all_states_ok(
                    old(net).reject_model(),
                    old(hard_policy).model(),
                    base,
                    gm[#[trigger] frame.rem_groups@[q] as int],
                ),
                nodes@ == last_captured(
                    old(net).reject_model(),
                    old(hard_policy).model(),
                    base,
                    cands.subrange(frame.idx as int, group_pos as int),
                ),
            decreases frame.rem_groups@.len() - group_pos,
        {
            let group_idx = frame.rem_groups[group_pos];
            let ghost gids = gm[group_idx as int];
            let r = self.probe_group(net, hard_policy, group_idx);
            match r {
                Ok(_) => {
                    return Ok(group_pos);
                },
                Err(pf) => {
                    proof {
                        let seg0 = cands.subrange(frame.idx as int, group_pos as int);
                        let seg1 = cands.subrange(frame.idx as int, group_pos + 1);
                        assert(seg1.last() == cands[group_pos as int]);
                        assert(cands[group_pos as int] == gids);
                        assert(seg1.drop_last() =~= seg0);
                    }
                    if let Some(c) = pf.nodes {
                        nodes = c;
                    }
                    proof {
                        let seg1 = cands.subrange(frame.idx as int, group_pos + 1);
                        assert(nodes@ == last_captured(old(net).reject_model(), old(hard_policy).model(), base, seg1));
                    }
                },
            }
            group_pos += 1;
        }
        proof {
            assert(cands.subrange(frame.idx as int, frame.rem_groups@.len() as int)
                == cands.subrange(frame.idx as int, group_pos as int));
        }
        Err(nodes)
    }

    /// Simulate the group ordering `order` from the initial state, on fresh
    /// copies of the simulator and the evaluator. `Ok` when every group
    /// applies cleanly; otherwise the position of the first failing group
    /// and the violation observed there.
    #[verifier::loop_isolation(false)]
    fn check_ordering(&mut self, order: &Vec<usize>) -> (r: Result<(), (usize, PolicyError)>)
        requires
            old(self).wf(),
            forall|p: int| 0 <= p < order@.len() ==> (#[trigger] order@[p]) < old(
                self,
            ).groups_model().len(),
        ensures
            final(self).groups@ == old(self).groups@,
            final(self).net == old(self).net,
            final(self).hard_policy == old(self).hard_policy,
            final(self).start == old(self).start,
            final(self).budget_ms == old(self).budget_ms,
            final(self).max_group_solve_time == old(self).max_group_solve_time,
            final(self).num_states >= old(self).num_states,
            old(self).seen_difficult_dependency ==> final(self).seen_difficult_dependency,
            match r {
                Ok(_) => all_states_ok(
                    old(self).sim().reject_model(),
                    old(self).pol().model(),
                    Seq::<u64>::empty(),
                    concat_ids(old(self).groups_model(), order@),
                ),
                Err(f) => {
                    &&& order_fails_at(
                        old(self).groups_model(),
                        old(self).sim().reject_model(),
                        old(self).pol().model(),
                        order@,
                        f.0 as int,
                    )
                    &&& err_view(f.1) == fail_error_view(
                        old(self).sim().reject_model(),
                        old(self).pol().model(),
                        concat_ids(old(self).groups_model(), order@.subrange(0, f.0 as int)),
                        old(self).groups_model()[order@[f.0 as int] as int],
                    )
                },
            },
    {
        let ghost gm = old(self).groups_model();
        let ghost rej = old(self).sim().reject_model();
        let ghost vm = old(self).pol().model();
        let mut net = self.net.duplicate();
        let mut pol = self.hard_policy.duplicate();
        let mut p: usize = 0;
        proof {
            assert(concat_ids(gm, order@.subrange(0, 0)) =~= Seq::<u64>::empty());
            assert(net.applied().len() == 0);
            assert(net.applied() =~= concat_ids(gm, order@.subrange(0, 0)));
        }
        while p < order.len()
            invariant
                p <= order@.len(),
                self.groups@ == old(self).groups@,
                self.net == old(self).net,
                self.hard_policy == old(self).hard_policy,
                self.start == old(self).start,
                self.budget_ms == old(self).budget_ms,
                self.max_group_solve_time == old(self).max_group_solve_time,
                self.num_states >= old(self).num_states,
                old(self).seen_difficult_dependency ==> self.seen_difficult_dependency,
                net.reject_model() == rej,
                pol.model() == vm,
                net.applied() == concat_ids(gm, order@.subrange(0, p as int)),
                all_states_ok(rej, vm, Seq::<u64>::empty(), net.applied()),
            decreases order@.len() - p,
        {
            let gidx = order[p];
            let ghost base = net.applied();
            let r = self.probe_group(&mut net, &mut pol, gidx);
            match r {
                Ok(_) => {
                    proof {
                        let pre = order@.subrange(0, p as int);
                        let cur = order@.subrange(0, p + 1);
                        assert(cur.drop_last() =~= pre);
                        assert(cur.last() == order@[p as int]);
                        assert(net.applied() =~= concat_ids(gm, cur));
                        lemma_all_ok_concat(rej, vm, base, gm[gidx as int]);
                        assert(all_states_ok(rej, vm, Seq::<u64>::empty(), net.applied()));
                    }
                    p += 1;
                },
                Err(pf) => {
                    proof {
                        assert(order_fails_at(gm, rej, vm, order@, p as int));
                    }
                    return Err((p, pf.error));
                },
            }
        }
        proof {
            assert(order@.subrange(0, order@.len() as int) =~= order@);
        }
        Ok(())
    }

    /// The modifiers of the groups that `order` names, concatenated in that
    /// order: the final ordering handed back to the caller.
    #[verifier::loop_isolation(false)]
    fn finalize_ordering(&self, order: &Vec<usize>) -> (r: Vec<ConfigModifier>)
        requires
            forall|p: int| 0 <= p < order@.len() ==> (#[trigger] order@[p])
                < self.groups_model().len(),
        ensures
            group_ids(r@) == concat_ids(self.groups_model(), order@),
    {
        let ghost gm = self.groups_model();
        let mut out: Vec<ConfigModifier> = Vec::new();
        let mut p: usize = 0;
        proof {
            assert(group_ids(out@) =~= concat_ids(gm, order@.subrange(0, 0)));
        }
        while p < order.len()
            invariant
                p <= order@.len(),
                group_ids(out@) == concat_ids(gm, order@.subrange(0, p as int)),
            decreases order@.len() - p,
        {
            let gidx = order[p];
            let glen = self.groups[gidx].len();
            let ghost out_before = out@;
            let mut mi: usize = 0;
            while mi < glen
                invariant
                    mi <= glen,
                    gidx < self.groups@.len(),
                    glen == self.groups@[gidx as int]@.len(),
                    group_ids(out@) == group_ids(out_before) + group_ids(
                        self.groups@[gidx as int]@,
                    ).subrange(0, mi as int),
                decreases glen - mi,
            {
                let ghost out_mid = out@;
                let m = self.groups[gidx][mi].duplicate();
                out.push(m);
                proof {
                    let gseq = group_ids(self.groups@[gidx as int]@);
                    assert(m.id == self.groups@[gidx as int]@[mi as int].id);
                    assert(gseq[mi as int] == m.id);
                    assert(group_ids(out@) =~= group_ids(out_mid).push(m.id));
                    assert(gseq.subrange(0, mi + 1) =~= gseq.subrange(0, mi as int).push(m.id));
                    assert(group_ids(out@) =~= group_ids(out_before) + gseq.subrange(0, mi + 1));
                }
                mi += 1;
            }
            proof {
                let pre = order@.subrange(0, p as int);
                let cur = order@.subrange(0, p + 1);
                assert(cur.drop_last() =~= pre);
                assert(cur.last() == order@[p as int]);
                assert(group_ids(self.groups@[gidx as int]@).subrange(
                    0,
                    glen as int,
                ) =~= group_ids(self.groups@[gidx as int]@));
                assert(group_ids(out@) =~= concat_ids(gm, cur));
            }
            p += 1;
        }
        proof {
            assert(order@.subrange(0, order@.len() as int) =~= order@);
        }
        out
    }

    /// Explore orderings until one covers the whole pool. At a stuck point,
    /// try to learn a dependency group, replace the groups it covers and
    /// restart; otherwise backtrack. `Ok` carries the modifiers in an order
    /// whose every prefix keeps the simulator accepting and the policies
    /// satisfied; it is a concatenation of the final pool's groups along
    /// some permutation of the pool. The no-ordering error is returned only
    /// once the exploration tree is exhausted: it proves that no ordering of
    /// the final pool applies cleanly. A run that exhausts the iteration
    /// allowance — beyond physical reach — gives up as `Abort`.
    #[verifier::loop_isolation(false)]
    #[verifier::rlimit(100)]
    pub fn work(&mut self, abort: Stopper) -> (r: Result<Vec<ConfigModifier>, Error>)
        requires
            old(self).wf(),
        ensures
            final(self).wf(),
            final(self).sim() == old(self).sim(),
            final(self).pol() == old(self).pol(),
            final(self).timed() == old(self).timed(),
            final(self).budget() == old(self).budget(),
            match r {
                Ok(sol) => {
                    &&& all_states_ok(
                        old(self).sim().reject_model(),
                        old(self).pol().model(),
                        Seq::<u64>::empty(),
                        group_ids(sol@),
                    )
                    &&& exists|sigma: Seq<usize>|
                        crate::permutator::is_index_perm(
                            sigma,
                            final(self).groups_model().len(),
                        ) && group_ids(sol@) == concat_ids(final(self).groups_model(), sigma)
                },
                Err(e) => e == Error::Timeout || e == Error::Abort
                    || e == Error::ProbablyNoSafeOrdering,
            },
            !old(self).timed() ==> r != Err::<Vec<ConfigModifier>, Error>(Error::Timeout),
            old(self).timed() && old(self).budget() == 0 && old(self).groups_model().len() > 0
                ==> r == Err::<Vec<ConfigModifier>, Error>(Error::Timeout),
            pool_ids(final(self).groups_model()) == pool_ids(old(self).groups_model()),
            final(self).states_explored() >= old(self).states_explored(),
            old(self).difficult_dependency_seen() ==> final(self).difficult_dependency_seen(),
            r == Err::<Vec<ConfigModifier>, Error>(Error::ProbablyNoSafeOrdering)
                ==> no_valid_completion(
                final(self).groups_model(),
                old(self).sim().reject_model(),
                old(self).pol().model(),
                Seq::<usize>::empty(),
            ),
    {
        broadcast use vstd::multiset::group_multiset_axioms;

        let ghost rej = self.net.reject_model();
        let ghost vm = self.hard_policy.model();
        if self.groups.len() == 0 {
            let empty_sol: Vec<ConfigModifier> = Vec::new();
            proof {
                let sigma = Seq::<usize>::empty();
                assert(crate::permutator::is_index_perm(sigma, self.groups_model().len()));
                assert(group_ids(empty_sol@) =~= concat_ids(self.groups_model(), sigma));
            }
            return Ok(empty_sol);
        }
        let n0 = self.groups.len();
        let mut options: Vec<usize> = Vec::new();
        let mut oi: usize = 0;
        while oi < n0
            invariant
                oi <= n0,
                options@ == crate::permutator::identity_perm(oi as nat),
            decreases n0 - oi,
        {
            options.push(oi);
            proof {
                assert(options@ =~= crate::permutator::identity_perm((oi + 1) as nat));
            }
            oi += 1;
        }
        let mut stack: Vec<StackFrame> = Vec::new();
        stack.push(StackFrame::new(options, 0));
        let mut current_sequence: Vec<usize> = Vec::new();
        let mut net = self.net.duplicate();
        let mut hard_policy = self.hard_policy.duplicate();
        proof {
            assert(net.applied() =~= Seq::<u64>::empty());
            assert(net.applied() =~= concat_ids(self.groups_model(), current_sequence@));
            assert(prefix_states(Seq::<u64>::empty(), net.applied()) =~= Seq::<Seq<u64>>::empty());
            assert(hard_policy.trace() =~= seq![Seq::<u64>::empty()] + prefix_states(
                Seq::<u64>::empty(),
                net.applied(),
            ));
            assert(current_sequence@.subrange(0, 0) =~= Seq::<usize>::empty());
            assert(self.groups_model().len() == n0 as nat);
            assert(stack@[0].rem_groups@.to_multiset() == crate::permutator::identity_perm(
                self.groups_model().len(),
            ).to_multiset());
            lemma_root_partition(stack@[0].rem_groups@, self.groups_model().len());
            assert(frame_ok(self.groups_model(), current_sequence@, stack@[0], 0));
            assert(frame_explored(
                self.groups_model(),
                rej,
                vm,
                current_sequence@,
                stack@[0],
                0,
                true,
            ));
            assert(stack@[0].rem_groups@.len() > 0);
        }
        let mut fuel: u64 = u64::MAX;
        while fuel > 0
            invariant
                old(self).timed() && old(self).budget_ms == 0 ==> fuel == u64::MAX,
                pool_ids(self.groups_model()) == pool_ids(old(self).groups_model()),
                self.net == old(self).net,
                self.hard_policy == old(self).hard_policy,
                self.start == old(self).start,
                self.budget_ms == old(self).budget_ms,
                self.max_group_solve_time == old(self).max_group_solve_time,
                self.num_states >= old(self).num_states,
                old(self).seen_difficult_dependency ==> self.seen_difficult_dependency,
                net.reject_model() == rej,
                hard_policy.model() == vm,
                net.applied() == concat_ids(self.groups_model(), current_sequence@),
                all_states_ok(rej, vm, Seq::<u64>::empty(), net.applied()),
                hard_policy.trace() == seq![Seq::<u64>::empty()] + prefix_states(
                    Seq::<u64>::empty(),
                    net.applied(),
                ),
                stack@.len() == current_sequence@.len() + 1 || (stack@.len() == 0
                    && current_sequence@.len() == 0),
                forall|i: int| 0 <= i < stack@.len() ==> #[trigger] frame_ok(
                    self.groups_model(),
                    current_sequence@,
                    stack@[i],
                    i,
                ),
                forall|i: int| 0 <= i < stack@.len() ==> (#[trigger] stack@[i].rem_groups@.len())
                    > 0,
                forall|i: int| 0 <= i < stack@.len() ==> frame_explored(
                    self.groups_model(),
                    rej,
                    vm,
                    current_sequence@,
                    #[trigger] stack@[i],
                    i,
                    i == stack@.len() - 1,
                ),
                forall|i: int| 0 <= i < stack@.len() - 1 ==> frame_link(
                    current_sequence@,
                    #[trigger] stack@[i],
                    i,
                ),
                stack@.len() == 0 ==> no_valid_completion(
                    self.groups_model(),
                    rej,
                    vm,
                    Seq::<usize>::empty(),
                ),
            decreases fuel,
        {
            fuel -= 1;
            let expired = match &self.start {
                Some(st) => elapsed_millis(st) >= self.budget_ms,
                None => false,
            };
            if expired {
                return Err(Error::Timeout);
            }
            if abort.is_stop() {
                return Err(Error::Abort);
            }
            if stack.len() == 0 {
                proof {
                    assert(no_valid_completion(
                        self.groups_model(),
                        rej,
                        vm,
                        Seq::<usize>::empty(),
                    ));
                }
                return Err(Error::ProbablyNoSafeOrdering);
            }
            let ghost gm = self.groups_model();
            let ghost cs0 = current_sequence@;
            let ng = self.groups.len();
            proof {
                assert(gm.len() == ng as nat);
            }
            let mut frame = stack.pop().unwrap();
            let ghost depth = cs0.len() as int;
            let ghost frame0 = frame;
            proof {
                assert(frame_ok(gm, cs0, frame, depth));
                lemma_partition_no_dup(
                    cs0.subrange(0, depth),
                    frame.rem_groups@,
                    gm.len(),
                );
                assert(cs0.subrange(0, depth) =~= cs0);
                assert(frame_explored(gm, rej, vm, cs0, frame, depth, true));
                lemma_partition_len(cs0, frame.rem_groups@, gm.len());
            }
            if frame.idx >= frame.rem_groups.len() {
                // this frame is exhausted: every candidate is doomed, so no
                // completion of the current prefix is valid either
                proof {
                    assert(frame_explored(gm, rej, vm, cs0, frame, depth, true));
                    assert(frame.rem_groups@.len() > 0);
                    assert forall|p: int|
                        0 <= p < frame.rem_groups@.len() implies no_valid_completion(
                        gm,
                        rej,
                        vm,
                        cs0.push(#[trigger] frame.rem_groups@[p]),
                    ) by {
                        assert(no_valid_completion(
                            gm,
                            rej,
                            vm,
                            cs0.subrange(0, depth).push(frame.rem_groups@[p]),
                        ));
                        assert(cs0.subrange(0, depth).push(frame.rem_groups@[p]) == cs0.push(
                            frame.rem_groups@[p],
                        ));
                    }
                    lemma_exhausted_frame(gm, rej, vm, cs0, frame.rem_groups@);
                    assert(no_valid_completion(gm, rej, vm, cs0));
                }
                // undo the group application that produced the frame and
                // drop it
                if current_sequence.len() > 0 {
                    let ghost base2 = concat_ids(gm, cs0.drop_last());
                    let ghost gids2 = gm[cs0.last() as int];
                    proof {
                        assert(cs0.last() < gm.len()) by {
                            assert(cs0.contains(cs0.last()));
                        }
                        assert(frame.num_undo == gids2.len());
                        assert(net.applied() == concat_ids(gm, cs0));
                        assert(cs0.drop_last() =~= cs0.subrange(0, cs0.len() - 1));
                        assert(concat_ids(gm, cs0) == base2 + gids2);
                        assert(state_after(base2, gids2, gids2.len() as int) =~= base2 + gids2);
                        lemma_prefix_states_concat(base2, gids2);
                        assert(prefix_states(base2, gids2).subrange(
                            0,
                            gids2.len() as int,
                        ) =~= prefix_states(base2, gids2));
                        assert(hard_policy.trace() =~= (seq![Seq::<u64>::empty()]
                            + prefix_states(Seq::<u64>::empty(), base2)) + prefix_states(
                            base2,
                            gids2,
                        ));
                    }
                    rollback(
                        &mut net,
                        &mut hard_policy,
                        frame.num_undo,
                        Ghost(base2),
                        Ghost(gids2),
                        Ghost(
                            seq![Seq::<u64>::empty()] + prefix_states(
                                Seq::<u64>::empty(),
                                base2,
                            ),
                        ),
                    );
                    let _ = current_sequence.pop();
                    proof {
                        assert(current_sequence@ =~= cs0.drop_last());
                        assert(net.applied() == concat_ids(gm, current_sequence@));
                        assert(all_states_ok(rej, vm, Seq::<u64>::empty(), net.applied())) by {
                            assert forall|k: int| 1 <= k <= base2.len() implies !rejects_state(
                                rej,
                                #[trigger] state_after(Seq::<u64>::empty(), base2, k),
                            ) && find_verdict(
                                vm,
                                state_after(Seq::<u64>::empty(), base2, k),
                            ) is None by {
                                assert(state_after(Seq::<u64>::empty(), base2, k)
                                    =~= state_after(
                                    Seq::<u64>::empty(),
                                    base2 + gids2,
                                    k,
                                ));
                            }
                        }
                        assert forall|i: int| 0 <= i < stack@.len() implies #[trigger] frame_ok(
                            gm,
                            current_sequence@,
                            stack@[i],
                            i,
                        ) by {
                            assert(frame_ok(gm, cs0, stack@[i], i));
                            assert(current_sequence@.subrange(0, i) =~= cs0.subrange(0, i));
                            if i > 0 {
                                assert(current_sequence@[i - 1] == cs0[i - 1]);
                            }
                        }
                        // the newly exposed top frame regains its pending
                        // choice as a settled, doomed candidate
                        let csn = current_sequence@;
                        assert(csn.push(cs0.last()) =~= cs0);
                        assert forall|i: int|
                            0 <= i < stack@.len() implies frame_explored(
                            gm,
                            rej,
                            vm,
                            csn,
                            #[trigger] stack@[i],
                            i,
                            i == stack@.len() - 1,
                        ) by {
                            let f = stack@[i];
                            assert(frame_explored(gm, rej, vm, cs0, f, i, false));
                            assert(csn.subrange(0, i) =~= cs0.subrange(0, i));
                            if i == stack@.len() - 1 {
                                assert(frame_link(cs0, f, i));
                                assert forall|p: int|
                                    0 <= p < f.idx as int implies no_valid_completion(
                                    gm,
                                    rej,
                                    vm,
                                    csn.subrange(0, i).push(#[trigger] f.rem_groups@[p]),
                                ) by {
                                    if p < f.idx as int - 1 {
                                        assert(no_valid_completion(
                                            gm,
                                            rej,
                                            vm,
                                            cs0.subrange(0, i).push(f.rem_groups@[p]),
                                        ));
                                        assert(csn.subrange(0, i) == cs0.subrange(0, i));
                                    } else {
                                        assert(f.rem_groups@[p] == cs0[i]);
                                        assert(csn.subrange(0, i) =~= csn);
                                        assert(cs0[i] == cs0.last());
                                        assert(csn.subrange(0, i).push(f.rem_groups@[p])
                                            == cs0);
                                    }
                                }
                            }
                        }
                        assert forall|i: int|
                            0 <= i < stack@.len() - 1 implies frame_link(
                            csn,
                            #[trigger] stack@[i],
                            i,
                        ) by {
                            assert(frame_link(cs0, stack@[i], i));
                            assert(csn[i] == cs0[i]);
                        }
                    }
                } else {
                    proof {
                        assert(frame.num_undo == 0);
                        assert(cs0 =~= Seq::<usize>::empty());
                        assert(no_valid_completion(gm, rej, vm, Seq::<usize>::empty()));
                    }
                }
            } else {
                proof {
                    assert forall|p: int|
                        frame.idx <= p < frame.rem_groups@.len() implies #[trigger] frame
                            .rem_groups@[p] < gm.len() by {
                        assert(frame.rem_groups@.contains(frame.rem_groups@[p]));
                    }
                }
                let bad_pos = frame.idx;
                let probe_res = self.get_next_option(&mut net, &mut hard_policy, &frame);
                match probe_res {
                    Ok(next_idx) => {
                        let next_group_idx = frame.rem_groups[next_idx];
                        let ghost gids2 = gm[next_group_idx as int];
                        let ghost base2 = concat_ids(gm, cs0);
                        frame.idx = next_idx + 1;
                        current_sequence.push(next_group_idx);
                        proof {
                            let cs1 = current_sequence@;
                            assert(cs1 == cs0.push(next_group_idx));
                            assert(cs1.drop_last() =~= cs0);
                            assert(cs1.last() == next_group_idx);
                            assert(net.applied() == base2 + gids2);
                            assert(net.applied() == concat_ids(gm, cs1));
                            lemma_all_ok_concat(rej, vm, base2, gids2);
                            lemma_prefix_states_concat(base2, gids2);
                            assert(hard_policy.trace() =~= seq![Seq::<u64>::empty()]
                                + prefix_states(Seq::<u64>::empty(), net.applied()));
                        }
                        if current_sequence.len() == self.groups.len() {
                            proof {
                                let cs1 = current_sequence@;
                                let idp = crate::permutator::identity_perm(gm.len());
                                frame.rem_groups@.to_multiset_ensures();
                                assert(frame.rem_groups@.to_multiset().count(next_group_idx)
                                    >= 1) by {
                                    assert(frame.rem_groups@.contains(next_group_idx));
                                }
                                cs0.to_multiset_ensures();
                                cs1.to_multiset_ensures();
                                idp.to_multiset_ensures();
                                assert(cs1.to_multiset() =~= cs0.to_multiset().insert(
                                    next_group_idx,
                                ));
                                // every pool index occurs at most once in
                                // the extended sequence
                                assert forall|x: usize| cs1.to_multiset().count(x)
                                    <= idp.to_multiset().count(x) by {
                                    assert(cs0.to_multiset().add(
                                        frame.rem_groups@.to_multiset(),
                                    ).count(x) == idp.to_multiset().count(x));
                                }
                                assert(idp.no_duplicates()) by {
                                    assert forall|a: int, b: int|
                                        0 <= a < idp.len() && 0 <= b < idp.len() && a
                                            != b implies idp[a] != idp[b] by {
                                        assert(idp[a] == a as usize && idp[b] == b as usize);
                                    }
                                }
                                idp.lemma_multiset_has_no_duplicates();
                                assert forall|x: usize| idp.to_multiset().count(x) <= 1 by {
                                    if idp.to_multiset().count(x) > 0 {
                                        assert(idp.to_multiset().contains(x));
                                    }
                                }
                                assert forall|x: usize|
                                    cs1.to_multiset().contains(x) implies cs1.to_multiset()
                                    .count(x) == 1 by {}
                                cs1.lemma_multiset_has_no_duplicates_conv();
                                assert(crate::permutator::in_range(cs1, gm.len())) by {
                                    assert forall|i: int| 0 <= i < cs1.len() implies cs1[i]
                                        < gm.len() by {
                                        assert(cs1.to_multiset().count(cs1[i]) >= 1) by {
                                            assert(cs1.contains(cs1[i]));
                                        }
                                        assert(idp.to_multiset().contains(cs1[i]));
                                        assert(idp.contains(cs1[i]));
                                        let j = choose|j: int|
                                            0 <= j < idp.len() && idp[j] == cs1[i];
                                    }
                                }
                                assert(crate::permutator::is_index_perm(cs1, gm.len()));
                            }
                            let sol = self.finalize_ordering(&current_sequence);
                            proof {
                                let cs1 = current_sequence@;
                                assert(group_ids(sol@) == concat_ids(gm, cs1));
                                assert(group_ids(sol@) == net.applied());
                            }
                            return Ok(sol);
                        }
                        let new_rem = remove_at(&frame.rem_groups, next_idx);
                        proof {
                            frame.rem_groups@.to_multiset_ensures();
                            assert(new_rem@ =~= frame.rem_groups@.remove(next_idx as int));
                            assert(new_rem@.to_multiset() =~= frame.rem_groups@.to_multiset()
                                .remove(next_group_idx));
                        }
                        let glen = self.groups[next_group_idx].len();
                        let child = StackFrame::new(new_rem, glen);
                        proof {
                            let cs1 = current_sequence@;
                            // the updated frame keeps its shape one level up
                            assert(cs1.subrange(0, depth) =~= cs0);
                            assert(frame_ok(gm, cs1, frame, depth));
                            // the child frame partitions the pool with the
                            // longer prefix
                            assert(cs1.subrange(0, depth + 1) =~= cs1);
                            assert(frame.rem_groups@.to_multiset().count(next_group_idx)
                                >= 1) by {
                                frame.rem_groups@.to_multiset_ensures();
                                assert(frame.rem_groups@.contains(next_group_idx));
                            }
                            cs0.to_multiset_ensures();
                            cs1.to_multiset_ensures();
                            assert(cs1.to_multiset() =~= cs0.to_multiset().insert(
                                next_group_idx,
                            ));
                            assert(cs1.to_multiset().add(child.rem_groups@.to_multiset())
                                =~= cs0.to_multiset().add(frame.rem_groups@.to_multiset()));
                            assert(frame_ok(gm, cs1, child, depth + 1));
                            // every candidate before the chosen one failed
                            // its probe and is settled as doomed
                            assert(cs0.len() < gm.len());
                            assert forall|p: int|
                                0 <= p < frame.idx as int - 1 implies no_valid_completion(
                                gm,
                                rej,
                                vm,
                                cs1.subrange(0, depth).push(#[trigger] frame.rem_groups@[p]),
                            ) by {
                                assert(cs1.subrange(0, depth) == cs0);
                                if p < bad_pos as int {
                                    assert(frame_explored(gm, rej, vm, cs0, frame0, depth, true));
                                    assert(no_valid_completion(
                                        gm,
                                        rej,
                                        vm,
                                        cs0.subrange(0, depth).push(frame0.rem_groups@[p]),
                                    ));
                                    assert(cs0.subrange(0, depth) == cs0);
                                } else {
                                    assert(!all_states_ok(
                                        rej,
                                        vm,
                                        concat_ids(gm, cs0),
                                        gm[frame.rem_groups@[p] as int],
                                    ));
                                    lemma_fail_no_completion(
                                        gm,
                                        rej,
                                        vm,
                                        cs0,
                                        frame.rem_groups@[p],
                                    );
                                }
                            }
                            assert(frame_explored(gm, rej, vm, cs1, frame, depth, false));
                            assert(frame_link(cs1, frame, depth));
                            assert(frame_explored(gm, rej, vm, cs1, child, depth + 1, true));
                            lemma_partition_len(cs1, child.rem_groups@, gm.len());
                            assert(child.rem_groups@.len() > 0);
                        }
                        stack.push(frame);
                        stack.push(child);
                        proof {
                            let cs1 = current_sequence@;
                            assert forall|i: int|
                                0 <= i < stack@.len() implies #[trigger] frame_ok(
                                gm,
                                cs1,
                                stack@[i],
                                i,
                            ) by {
                                if i < depth {
                                    assert(frame_ok(gm, cs0, stack@[i], i));
                                    assert(cs1.subrange(0, i) =~= cs0.subrange(0, i));
                                    if i > 0 {
                                        assert(cs1[i - 1] == cs0[i - 1]);
                                    }
                                }
                            }
                            assert forall|i: int|
                                0 <= i < stack@.len() implies frame_explored(
                                gm,
                                rej,
                                vm,
                                cs1,
                                #[trigger] stack@[i],
                                i,
                                i == stack@.len() - 1,
                            ) by {
                                if i < depth {
                                    assert(frame_explored(gm, rej, vm, cs0, stack@[i], i, false));
                                    assert(cs1.subrange(0, i) =~= cs0.subrange(0, i));
                                }
                            }
                            assert forall|i: int|
                                0 <= i < stack@.len() - 1 implies frame_link(
                                cs1,
                                #[trigger] stack@[i],
                                i,
                            ) by {
                                if i < depth {
                                    assert(frame_link(cs0, stack@[i], i));
                                    assert(cs1[i] == cs0[i]);
                                }
                            }
                            assert forall|i: int|
                                0 <= i < stack@.len() implies (#[trigger] stack@[i]).rem_groups@
                                .len() > 0 by {}
                        }
                    },
                    Err(_nodes) => {
                        // no candidate works here: remember the stuck group,
                        // mark the frame exhausted, and try to learn
                        let bad_group = frame.rem_groups[bad_pos];
                        frame.idx = frame.rem_groups.len();
                        proof {
                            assert(frame_ok(gm, cs0, frame, depth));
                            // every remaining candidate failed its probe:
                            // the frame is fully settled
                            assert(cs0.len() < gm.len());
                            assert forall|p: int|
                                0 <= p < frame.idx as int implies no_valid_completion(
                                gm,
                                rej,
                                vm,
                                cs0.subrange(0, depth).push(#[trigger] frame.rem_groups@[p]),
                            ) by {
                                assert(cs0.subrange(0, depth) == cs0);
                                if p < bad_pos as int {
                                    assert(frame_explored(gm, rej, vm, cs0, frame0, depth, true));
                                    assert(no_valid_completion(
                                        gm,
                                        rej,
                                        vm,
                                        cs0.subrange(0, depth).push(frame0.rem_groups@[p]),
                                    ));
                                } else {
                                    assert(!all_states_ok(
                                        rej,
                                        vm,
                                        concat_ids(gm, cs0),
                                        gm[frame.rem_groups@[p] as int],
                                    ));
                                    lemma_fail_no_completion(
                                        gm,
                                        rej,
                                        vm,
                                        cs0,
                                        frame.rem_groups@[p],
                                    );
                                }
                            }
                            assert(frame_explored(gm, rej, vm, cs0, frame, depth, true));
                        }
                        stack.push(frame);
                        proof {
                            assert forall|i: int|
                                0 <= i < stack@.len() implies #[trigger] frame_ok(
                                gm,
                                cs0,
                                stack@[i],
                                i,
                            ) by {}
                            assert forall|i: int|
                                0 <= i < stack@.len() implies frame_explored(
                                gm,
                                rej,
                                vm,
                                cs0,
                                #[trigger] stack@[i],
                                i,
                                i == stack@.len() - 1,
                            ) by {
                                if i < depth {
                                    assert(frame_explored(gm, rej, vm, cs0, stack@[i], i, false));
                                }
                            }
                            assert forall|i: int|
                                0 <= i < stack@.len() - 1 implies frame_link(
                                cs0,
                                #[trigger] stack@[i],
                                i,
                            ) by {
                                assert(frame_link(cs0, stack@[i], i));
                            }
                            assert forall|i: int|
                                0 <= i < stack@.len() implies (#[trigger] stack@[i]).rem_groups@
                                .len() > 0 by {}
                            assert(!cs0.contains(bad_group)) by {
                                assert(stack@[depth].rem_groups@.contains(bad_group));
                            }
                            assert(bad_group < gm.len()) by {
                                assert(stack@[depth].rem_groups@.contains(bad_group));
                            }
                            assert forall|p: int|
                                0 <= p < cs0.len() implies (#[trigger] cs0[p]) < gm.len() by {
                                assert(cs0.contains(cs0[p]));
                            }
                        }
                        self.seen_difficult_dependency = true;
                        let learned = self.find_dependency(&current_sequence, bad_group, &abort);
                        match learned {
                            Some(dep) => {
                                let (new_group, old_groups) = dep;
                                // replace the covered groups by the one
                                // learned group and restart the search
                                let ghost gm2 = self.groups_model();
                                let mut new_groups: Vec<Vec<ConfigModifier>> = Vec::new();
                                let mut gi: usize = 0;
                                proof {
                                    broadcast use vstd::multiset::group_multiset_axioms;

                                }
                                while gi < self.groups.len()
                                    invariant
                                        gi <= self.groups@.len(),
                                        self.net == old(self).net,
                                        self.hard_policy == old(self).hard_policy,
                                        self.start == old(self).start,
                                        self.budget_ms == old(self).budget_ms,
                                        self.max_group_solve_time == old(self)
                                            .max_group_solve_time,
                                        self.num_states >= old(self).num_states,
                                        old(self).seen_difficult_dependency
                                            ==> self.seen_difficult_dependency,
                                        gm2 == self.groups_model(),
                                        new_groups@.len() <= gi,
                                        pool_ids_upto(
                                            new_groups@.map_values(
                                                |g: Vec<ConfigModifier>| group_ids(g@),
                                            ),
                                            new_groups@.len() as int,
                                        ) == kept_pool(gm2, old_groups@, gi as int),
                                    decreases self.groups@.len() - gi,
                                {
                                    let ghost nm = new_groups@.map_values(
                                        |g: Vec<ConfigModifier>| group_ids(g@),
                                    );
                                    if !contains_idx(&old_groups, gi) {
                                        let kept = copy_group(&self.groups[gi]);
                                        new_groups.push(kept);
                                        proof {
                                            broadcast use vstd::multiset::group_multiset_axioms;

                                            let nm2 = new_groups@.map_values(
                                                |g: Vec<ConfigModifier>| group_ids(g@),
                                            );
                                            assert(nm2 =~= nm.push(gm2[gi as int]));
                                            lemma_pool_upto_push(
                                                nm,
                                                gm2[gi as int],
                                                nm.len() as int,
                                            );
                                            assert(pool_ids_upto(nm2, nm2.len() as int)
                                                == pool_ids_upto(nm2, nm.len() as int).add(
                                                gm2[gi as int].to_multiset(),
                                            ));
                                        }
                                    } else {
                                        proof {
                                            broadcast use vstd::multiset::group_multiset_axioms;

                                            assert(kept_pool(gm2, old_groups@, gi + 1)
                                                =~= kept_pool(gm2, old_groups@, gi as int));
                                        }
                                    }
                                    gi += 1;
                                }
                                proof {
                                    broadcast use vstd::multiset::group_multiset_axioms;

                                    let nm = new_groups@.map_values(
                                        |g: Vec<ConfigModifier>| group_ids(g@),
                                    );
                                    assert(pool_ids_upto(nm, nm.len() as int) == kept_pool(
                                        gm2,
                                        old_groups@,
                                        gm2.len() as int,
                                    ));
                                }
                                let ghost nm_kept = new_groups@.map_values(
                                    |g: Vec<ConfigModifier>| group_ids(g@),
                                );
                                new_groups.push(new_group);
                                proof {
                                    broadcast use vstd::multiset::group_multiset_axioms;

                                    let nm2 = new_groups@.map_values(
                                        |g: Vec<ConfigModifier>| group_ids(g@),
                                    );
                                    assert(nm2 =~= nm_kept.push(group_ids(new_group@)));
                                    lemma_pool_upto_push(
                                        nm_kept,
                                        group_ids(new_group@),
                                        nm_kept.len() as int,
                                    );
                                    assert(pool_ids_upto(nm2, nm2.len() as int)
                                        == pool_ids_upto(nm2, nm_kept.len() as int).add(
                                        group_ids(new_group@).to_multiset(),
                                    ));
                                    lemma_concat_multiset(gm2, old_groups@);
                                    assert(gm2.len() <= usize::MAX) by {
                                        assert(gm2.len() == ng as nat);
                                    }
                                    lemma_pool_split(gm2, old_groups@);
                                    assert(pool_ids_upto(nm2, nm2.len() as int) == pool_ids(
                                        gm2,
                                    ));
                                }
                                self.groups = new_groups;
                                proof {
                                    assert(pool_ids(self.groups_model()) == pool_ids(gm2));
                                }
                                let n1 = self.groups.len();
                                let mut options1: Vec<usize> = Vec::new();
                                let mut oi1: usize = 0;
                                while oi1 < n1
                                    invariant
                                        oi1 <= n1,
                                        options1@ == crate::permutator::identity_perm(
                                            oi1 as nat,
                                        ),
                                        self.net == old(self).net,
                                        self.hard_policy == old(self).hard_policy,
                                        self.start == old(self).start,
                                        self.budget_ms == old(self).budget_ms,
                                        self.max_group_solve_time == old(self)
                                            .max_group_solve_time,
                                        self.num_states >= old(self).num_states,
                                        old(self).seen_difficult_dependency
                                            ==> self.seen_difficult_dependency,
                                        n1 == self.groups@.len(),
                                    decreases n1 - oi1,
                                {
                                    options1.push(oi1);
                                    proof {
                                        assert(options1@ =~= crate::permutator::identity_perm(
                                            (oi1 + 1) as nat,
                                        ));
                                    }
                                    oi1 += 1;
                                }
                                stack = Vec::new();
                                stack.push(StackFrame::new(options1, 0));
                                current_sequence = Vec::new();
                                net = self.net.duplicate();
                                hard_policy = self.hard_policy.duplicate();
                                proof {
                                    assert(net.applied() =~= Seq::<u64>::empty());
                                    assert(net.applied() =~= concat_ids(
                                        self.groups_model(),
                                        current_sequence@,
                                    ));
                                    assert(prefix_states(Seq::<u64>::empty(), net.applied())
                                        =~= Seq::<Seq<u64>>::empty());
                                    assert(hard_policy.trace() =~= seq![Seq::<u64>::empty()]
                                        + prefix_states(Seq::<u64>::empty(), net.applied()));
                                    assert(current_sequence@.subrange(0, 0)
                                        =~= Seq::<usize>::empty());
                                    assert(self.groups_model().len() == n1 as nat);
                                    assert(stack@[0].rem_groups@.to_multiset()
                                        == crate::permutator::identity_perm(
                                        self.groups_model().len(),
                                    ).to_multiset());
                                    lemma_root_partition(
                                        stack@[0].rem_groups@,
                                        self.groups_model().len(),
                                    );
                                    assert(frame_ok(
                                        self.groups_model(),
                                        current_sequence@,
                                        stack@[0],
                                        0,
                                    ));
                                    assert forall|i: int|
                                        0 <= i < stack@.len() implies #[trigger] frame_ok(
                                        self.groups_model(),
                                        current_sequence@,
                                        stack@[i],
                                        i,
                                    ) by {}
                                    assert(stack@[0].rem_groups@.len() > 0);
                                    assert forall|i: int|
                                        0 <= i < stack@.len() implies frame_explored(
                                        self.groups_model(),
                                        rej,
                                        vm,
                                        current_sequence@,
                                        #[trigger] stack@[i],
                                        i,
                                        i == stack@.len() - 1,
                                    ) by {}
                                }
                            },
                            None => {
                                // nothing learned: the exhausted frame will
                                // be unwound by backtracking
                            },
                        }
                    },
                }
            }
        }
        Err(Error::Abort)
    }

    /// The (source, target) router pair that each group's first
    /// modification exposes, if it is a peering-session change; `None` for
    /// every other kind of group.
    fn session_pairs(&self) -> (r: Vec<Option<(u64, u64)>>)
        ensures
            r@.len() == self.groups@.len(),
            forall|k: int| 0 <= k < r@.len() ==> #[trigger] r@[k] == (if self.groups@[k]@.len()
                > 0 {
                self.groups@[k]@[0].session
            } else {
                None::<(u64, u64)>
            }),
    {
        let mut r: Vec<Option<(u64, u64)>> = Vec::new();
        let mut k: usize = 0;
        while k < self.groups.len()
            invariant
                r@.len() == k,
                k <= self.groups@.len(),
                forall|i: int| 0 <= i < k ==> #[trigger] r@[i] == (if self.groups@[i]@.len()
                    > 0 {
                    self.groups@[i]@[0].session
                } else {
                    None::<(u64, u64)>
                }),
            decreases self.groups@.len() - k,
        {
            if self.groups[k].len() > 0 {
                r.push(self.groups[k][0].session);
            } else {
                r.push(None);
            }
            k += 1;
        }
        r
    }

    /// The oracle-driven variant of the search: at a stuck point, instead
    /// of learning a dependency group, extend the cumulative LTL formula
    /// with the stuck point's constraints, ask the satisfiability oracle,
    /// and restart on the frontier its witnessing trace suggests. The pool
    /// itself never changes on this path. Because a suggested frontier may
    /// cover only part of the pool, exhausting it does not exhaust the
    /// whole tree: the no-ordering answer of this variant stays a
    /// "probably", unlike `work`'s.
    #[verifier::loop_isolation(false)]
    #[verifier::rlimit(100)]
    pub fn work_oracle<O: LtlOracle>(&mut self, abort: Stopper, oracle: &mut O) -> (r: Result<
        Vec<ConfigModifier>,
        Error,
    >)
        requires
            old(self).wf(),
        ensures
            final(self).wf(),
            final(self).sim() == old(self).sim(),
            final(self).pol() == old(self).pol(),
            final(self).timed() == old(self).timed(),
            final(self).budget() == old(self).budget(),
            match r {
                Ok(sol) => {
                    &&& all_states_ok(
                        old(self).sim().reject_model(),
                        old(self).pol().model(),
                        Seq::<u64>::empty(),
                        group_ids(sol@),
                    )
                    &&& exists|sigma: Seq<usize>|
                        crate::permutator::is_index_perm(
                            sigma,
                            final(self).groups_model().len(),
                        ) && group_ids(sol@) == concat_ids(final(self).groups_model(), sigma)
                },
                Err(e) => e == Error::Timeout || e == Error::Abort
                    || e == Error::ProbablyNoSafeOrdering,
            },
            !old(self).timed() ==> r != Err::<Vec<ConfigModifier>, Error>(Error::Timeout),
            old(self).timed() && old(self).budget() == 0 && old(self).groups_model().len() > 0
                ==> r == Err::<Vec<ConfigModifier>, Error>(Error::Timeout),
            pool_ids(final(self).groups_model()) == pool_ids(old(self).groups_model()),
            final(self).states_explored() >= old(self).states_explored(),
            old(self).difficult_dependency_seen() ==> final(self).difficult_dependency_seen(),
    {
        let ghost rej = self.net.reject_model();
        let ghost vm = self.hard_policy.model();
        if self.groups.len() == 0 {
            let empty_sol: Vec<ConfigModifier> = Vec::new();
            proof {
                let sigma = Seq::<usize>::empty();
                assert(crate::permutator::is_index_perm(sigma, self.groups_model().len()));
                assert(group_ids(empty_sol@) =~= concat_ids(self.groups_model(), sigma));
            }
            return Ok(empty_sol);
        }
        let n0 = self.groups.len();
        let pairs = self.session_pairs();
        let mut formula = crate::ltl::initial_formula(n0);
        let mut options: Vec<usize> = Vec::new();
        let mut oi: usize = 0;
        while oi < n0
            invariant
                oi <= n0,
                options@ == crate::permutator::identity_perm(oi as nat),
            decreases n0 - oi,
        {
            options.push(oi);
            proof {
                assert(options@ =~= crate::permutator::identity_perm((oi + 1) as nat));
            }
            oi += 1;
        }
        let mut stack: Vec<StackFrame> = Vec::new();
        stack.push(StackFrame::new(options, 0));
        let mut current_sequence: Vec<usize> = Vec::new();
        let mut net = self.net.duplicate();
        let mut hard_policy = self.hard_policy.duplicate();
        proof {
            assert(net.applied() =~= Seq::<u64>::empty());
            assert(net.applied() =~= concat_ids(self.groups_model(), current_sequence@));
            assert(prefix_states(Seq::<u64>::empty(), net.applied()) =~= Seq::<Seq<u64>>::empty());
            assert(hard_policy.trace() =~= seq![Seq::<u64>::empty()] + prefix_states(
                Seq::<u64>::empty(),
                net.applied(),
            ));
            assert(current_sequence@.subrange(0, 0) =~= Seq::<usize>::empty());
            assert(self.groups_model().len() == n0 as nat);
            assert(stack@[0].rem_groups@.no_duplicates() && forall|p: int|
                0 <= p < stack@[0].rem_groups@.len() ==> (#[trigger] stack@[0].rem_groups@[p])
                    < self.groups_model().len()) by {
                assert(stack@[0].rem_groups@.to_multiset()
                    == crate::permutator::identity_perm(
                    self.groups_model().len(),
                ).to_multiset());
                lemma_root_partition(stack@[0].rem_groups@, self.groups_model().len());
                lemma_partition_no_dup(
                    Seq::<usize>::empty(),
                    stack@[0].rem_groups@,
                    self.groups_model().len(),
                );
                assert forall|p: int|
                    0 <= p < stack@[0].rem_groups@.len() implies (
                #[trigger] stack@[0].rem_groups@[p]) < self.groups_model().len() by {
                    assert(stack@[0].rem_groups@.contains(stack@[0].rem_groups@[p]));
                }
            }
            assert(o_frame_ok(self.groups_model(), current_sequence@, stack@[0], 0));
        }
        let mut fuel: u64 = u64::MAX;
        while fuel > 0
            invariant
                old(self).timed() && old(self).budget_ms == 0 ==> fuel == u64::MAX,
                pool_ids(self.groups_model()) == pool_ids(old(self).groups_model()),
                self.net == old(self).net,
                self.hard_policy == old(self).hard_policy,
                self.start == old(self).start,
                self.budget_ms == old(self).budget_ms,
                self.max_group_solve_time == old(self).max_group_solve_time,
                self.num_states >= old(self).num_states,
                old(self).seen_difficult_dependency ==> self.seen_difficult_dependency,
                self.groups@ == old(self).groups@,
                net.reject_model() == rej,
                hard_policy.model() == vm,
                net.applied() == concat_ids(self.groups_model(), current_sequence@),
                all_states_ok(rej, vm, Seq::<u64>::empty(), net.applied()),
                hard_policy.trace() == seq![Seq::<u64>::empty()] + prefix_states(
                    Seq::<u64>::empty(),
                    net.applied(),
                ),
                current_sequence@.no_duplicates(),
                forall|p: int| 0 <= p < current_sequence@.len() ==> (
                #[trigger] current_sequence@[p]) < self.groups_model().len(),
                stack@.len() == current_sequence@.len() + 1 || (stack@.len() == 0
                    && current_sequence@.len() == 0),
                forall|i: int| 0 <= i < stack@.len() ==> #[trigger] o_frame_ok(
                    self.groups_model(),
                    current_sequence@,
                    stack@[i],
                    i,
                ),
            decreases fuel,
        {
            fuel -= 1;
            let expired = match &self.start {
                Some(st) => elapsed_millis(st) >= self.budget_ms,
                None => false,
            };
            if expired {
                return Err(Error::Timeout);
            }
            if abort.is_stop() {
                return Err(Error::Abort);
            }
            if stack.len() == 0 {
                return Err(Error::ProbablyNoSafeOrdering);
            }
            let ghost gm = self.groups_model();
            let ghost cs0 = current_sequence@;
            let mut frame = stack.pop().unwrap();
            let ghost depth = cs0.len() as int;
            proof {
                assert(o_frame_ok(gm, cs0, frame, depth));
                assert(cs0.subrange(0, depth) =~= cs0);
            }
            if frame.idx >= frame.rem_groups.len() {
                // this frame is exhausted: undo the group application that
                // produced it and drop it
                if current_sequence.len() > 0 {
                    let ghost base2 = concat_ids(gm, cs0.drop_last());
                    let ghost gids2 = gm[cs0.last() as int];
                    proof {
                        assert(cs0.last() < gm.len()) by {
                            assert(cs0[cs0.len() - 1] < gm.len());
                        }
                        assert(frame.num_undo == gids2.len());
                        assert(cs0.drop_last() =~= cs0.subrange(0, cs0.len() - 1));
                        assert(concat_ids(gm, cs0) == base2 + gids2);
                        assert(state_after(base2, gids2, gids2.len() as int) =~= base2 + gids2);
                        lemma_prefix_states_concat(base2, gids2);
                        assert(prefix_states(base2, gids2).subrange(
                            0,
                            gids2.len() as int,
                        ) =~= prefix_states(base2, gids2));
                        assert(hard_policy.trace() =~= (seq![Seq::<u64>::empty()]
                            + prefix_states(Seq::<u64>::empty(), base2)) + prefix_states(
                            base2,
                            gids2,
                        ));
                    }
                    rollback(
                        &mut net,
                        &mut hard_policy,
                        frame.num_undo,
                        Ghost(base2),
                        Ghost(gids2),
                        Ghost(
                            seq![Seq::<u64>::empty()] + prefix_states(
                                Seq::<u64>::empty(),
                                base2,
                            ),
                        ),
                    );
                    let _ = current_sequence.pop();
                    proof {
                        assert(current_sequence@ =~= cs0.drop_last());
                        assert(net.applied() == concat_ids(gm, current_sequence@));
                        assert(all_states_ok(rej, vm, Seq::<u64>::empty(), net.applied())) by {
                            assert forall|k: int| 1 <= k <= base2.len() implies !rejects_state(
                                rej,
                                #[trigger] state_after(Seq::<u64>::empty(), base2, k),
                            ) && find_verdict(
                                vm,
                                state_after(Seq::<u64>::empty(), base2, k),
                            ) is None by {
                                assert(state_after(Seq::<u64>::empty(), base2, k)
                                    =~= state_after(
                                    Seq::<u64>::empty(),
                                    base2 + gids2,
                                    k,
                                ));
                            }
                        }
                        assert forall|i: int|
                            0 <= i < stack@.len() implies #[trigger] o_frame_ok(
                            gm,
                            current_sequence@,
                            stack@[i],
                            i,
                        ) by {
                            assert(o_frame_ok(gm, cs0, stack@[i], i));
                            assert(current_sequence@.subrange(0, i) =~= cs0.subrange(0, i));
                            if i > 0 {
                                assert(current_sequence@[i - 1] == cs0[i - 1]);
                            }
                        }
                    }
                } else {
                    proof {
                        assert(frame.num_undo == 0);
                    }
                }
            } else {
                proof {
                    assert forall|p: int|
                        frame.idx <= p < frame.rem_groups@.len() implies #[trigger] frame
                            .rem_groups@[p] < gm.len() by {}
                }
                let bad_pos = frame.idx;
                let probe_res = self.get_next_option(&mut net, &mut hard_policy, &frame);
                match probe_res {
                    Ok(next_idx) => {
                        let next_group_idx = frame.rem_groups[next_idx];
                        let ghost gids2 = gm[next_group_idx as int];
                        let ghost base2 = concat_ids(gm, cs0);
                        frame.idx = next_idx + 1;
                        current_sequence.push(next_group_idx);
                        proof {
                            let cs1 = current_sequence@;
                            assert(cs1 == cs0.push(next_group_idx));
                            assert(cs1.drop_last() =~= cs0);
                            assert(cs1.last() == next_group_idx);
                            assert(net.applied() == base2 + gids2);
                            assert(net.applied() == concat_ids(gm, cs1));
                            lemma_all_ok_concat(rej, vm, base2, gids2);
                            lemma_prefix_states_concat(base2, gids2);
                            assert(hard_policy.trace() =~= seq![Seq::<u64>::empty()]
                                + prefix_states(Seq::<u64>::empty(), net.applied()));
                            // the chosen group is new to the sequence
                            assert(frame.rem_groups@.contains(next_group_idx));
                            assert(!cs0.contains(next_group_idx));
                            assert forall|a: int, b: int|
                                0 <= a < cs1.len() && 0 <= b < cs1.len() && a != b implies cs1[a]
                                != cs1[b] by {
                                if a < cs0.len() && b < cs0.len() {
                                } else if a == cs0.len() {
                                    assert(cs0.contains(cs0[b]));
                                } else if b == cs0.len() {
                                    assert(cs0.contains(cs0[a]));
                                }
                            }
                        }
                        if current_sequence.len() == self.groups.len() {
                            proof {
                                let cs1 = current_sequence@;
                                assert(crate::permutator::in_range(cs1, gm.len()));
                                assert(crate::permutator::is_index_perm(cs1, gm.len()));
                            }
                            let sol = self.finalize_ordering(&current_sequence);
                            proof {
                                let cs1 = current_sequence@;
                                assert(group_ids(sol@) == concat_ids(gm, cs1));
                                assert(group_ids(sol@) == net.applied());
                            }
                            return Ok(sol);
                        }
                        let new_rem = remove_at(&frame.rem_groups, next_idx);
                        let glen = self.groups[next_group_idx].len();
                        let child = StackFrame { num_undo: glen, rem_groups: new_rem, idx: 0 };
                        proof {
                            let cs1 = current_sequence@;
                            assert(cs1.subrange(0, depth) =~= cs0);
                            assert(o_frame_ok(gm, cs1, frame, depth));
                            assert(cs1.subrange(0, depth + 1) =~= cs1);
                            assert forall|p: int|
                                0 <= p < child.rem_groups@.len() implies (
                            #[trigger] child.rem_groups@[p]) < gm.len() by {
                                assert(child.rem_groups@.contains(child.rem_groups@[p]));
                                let q = choose|q: int|
                                    0 <= q < frame.rem_groups@.len() && frame.rem_groups@[q]
                                        == child.rem_groups@[p];
                            }
                            assert forall|x: usize|
                                child.rem_groups@.contains(x) implies !cs1.contains(x) by {
                                assert(frame.rem_groups@.contains(x));
                                assert(!cs0.contains(x));
                                assert(x != next_group_idx);
                                if cs1.contains(x) {
                                    let q = choose|q: int| 0 <= q < cs1.len() && cs1[q] == x;
                                    if q < cs0.len() {
                                        assert(cs0[q] == x);
                                    }
                                }
                            }
                            assert(o_frame_ok(gm, cs1, child, depth + 1));
                        }
                        stack.push(frame);
                        stack.push(child);
                        proof {
                            let cs1 = current_sequence@;
                            assert forall|i: int|
                                0 <= i < stack@.len() implies #[trigger] o_frame_ok(
                                gm,
                                cs1,
                                stack@[i],
                                i,
                            ) by {
                                if i < depth {
                                    assert(o_frame_ok(gm, cs0, stack@[i], i));
                                    assert(cs1.subrange(0, i) =~= cs0.subrange(0, i));
                                    if i > 0 {
                                        assert(cs1[i - 1] == cs0[i - 1]);
                                    }
                                }
                            }
                        }
                    },
                    Err(nodes) => {
                        // stuck: constrain the future orderings and consult
                        // the oracle
                        let bad_group = frame.rem_groups[bad_pos];
                        frame.idx = frame.rem_groups.len();
                        proof {
                            assert(o_frame_ok(gm, cs0, frame, depth));
                        }
                        stack.push(frame);
                        proof {
                            assert forall|i: int|
                                0 <= i < stack@.len() implies #[trigger] o_frame_ok(
                                gm,
                                cs0,
                                stack@[i],
                                i,
                            ) by {}
                        }
                        let constraints = crate::ltl::node_constraints(
                            &pairs,
                            &current_sequence,
                            bad_group,
                            &nodes,
                        );
                        if let Some(c) = constraints {
                            let p = crate::ltl::prefix_formula(&current_sequence);
                            formula = crate::ltl::Ltl::And(
                                Box::new(
                                    crate::ltl::Ltl::Implies(Box::new(p), Box::new(c)),
                                ),
                                Box::new(formula),
                            );
                        }
                        let text = crate::ltl::render_formula(&formula);
                        let response = oracle.query(&text);
                        let parsed = if response.len() < usize::MAX {
                            crate::ltl::parse_oracle_response(&response)
                        } else {
                            None
                        };
                        match parsed {
                            Some(indices) => {
                                let frontier = sanitize_frontier(&indices, n0);
                                if frontier.len() > 0 {
                                    // restart on the suggested frontier
                                    stack = Vec::new();
                                    current_sequence = Vec::new();
                                    net = self.net.duplicate();
                                    hard_policy = self.hard_policy.duplicate();
                                    let root = StackFrame {
                                        num_undo: 0,
                                        rem_groups: frontier,
                                        idx: 0,
                                    };
                                    stack.push(root);
                                    proof {
                                        assert(net.applied() =~= Seq::<u64>::empty());
                                        assert(net.applied() =~= concat_ids(
                                            self.groups_model(),
                                            current_sequence@,
                                        ));
                                        assert(prefix_states(
                                            Seq::<u64>::empty(),
                                            net.applied(),
                                        ) =~= Seq::<Seq<u64>>::empty());
                                        assert(hard_policy.trace() =~= seq![
                                            Seq::<u64>::empty()
                                        ] + prefix_states(Seq::<u64>::empty(), net.applied()));
                                        assert(current_sequence@.subrange(0, 0)
                                            =~= Seq::<usize>::empty());
                                        assert(self.groups_model().len() == n0 as nat);
                                        assert(o_frame_ok(
                                            self.groups_model(),
                                            current_sequence@,
                                            stack@[0],
                                            0,
                                        ));
                                        assert forall|i: int|
                                            0 <= i < stack@.len() implies #[trigger] o_frame_ok(
                                            self.groups_model(),
                                            current_sequence@,
                                            stack@[i],
                                            i,
                                        ) by {}
                                    }
                                }
                            },
                            None => {
                                // unsat or unreadable: no progress; the
                                // exhausted frame will be unwound
                            },
                        }
                    },
                }
            }
        }
        Err(Error::ProbablyNoSafeOrdering)
    }

    /// Reduction phase of the learner: drop from `ordering` every group
    /// whose removal leaves the observed failure (`pos`, `err`) unchanged;
    /// when a removal moves the failure to an earlier position, recurse on
    /// the shorter prefix. Returns the reduced ordering together with the
    /// groups dropped as independent.
    #[verifier::loop_isolation(false)]
    fn reduce(&mut self, ordering: Vec<usize>, pos: usize, err: PolicyError, abort: &Stopper) -> (r:
        (Vec<usize>, Vec<usize>))
        requires
            old(self).wf(),
            ordering@.no_duplicates(),
            forall|p: int| 0 <= p < ordering@.len() ==> (#[trigger] ordering@[p]) < old(
                self,
            ).groups_model().len(),
        ensures
            final(self).groups@ == old(self).groups@,
            final(self).net == old(self).net,
            final(self).hard_policy == old(self).hard_policy,
            final(self).start == old(self).start,
            final(self).budget_ms == old(self).budget_ms,
            final(self).max_group_solve_time == old(self).max_group_solve_time,
            final(self).num_states >= old(self).num_states,
            old(self).seen_difficult_dependency ==> final(self).seen_difficult_dependency,
            r.0@.no_duplicates(),
            forall|x: usize| r.0@.contains(x) ==> ordering@.contains(x),
            forall|p: int| 0 <= p < r.0@.len() ==> (#[trigger] r.0@[p]) < old(
                self,
            ).groups_model().len(),
        decreases ordering@.len(),
    {
        let ghost gm = old(self).groups_model();
        let ghost orig = ordering@;
        let mut ord = ordering;
        let mut removed: Vec<usize> = Vec::new();
        let mut i: usize = 0;
        while ord.len() >= 2 && i < ord.len() - 1
            invariant
                i <= ord@.len(),
                self.groups@ == old(self).groups@,
                self.net == old(self).net,
                self.hard_policy == old(self).hard_policy,
                self.start == old(self).start,
                self.budget_ms == old(self).budget_ms,
                self.max_group_solve_time == old(self).max_group_solve_time,
                self.num_states >= old(self).num_states,
                old(self).seen_difficult_dependency ==> self.seen_difficult_dependency,
                ord@.no_duplicates(),
                ord@.len() <= orig.len(),
                forall|x: usize| ord@.contains(x) ==> orig.contains(x),
                forall|p: int| 0 <= p < ord@.len() ==> (#[trigger] ord@[p]) < gm.len(),
            decreases ord@.len() - i,
        {
            if abort.is_stop() {
                break ;
            }
            let probe_group_idx = ord[i];
            let probe_ord = remove_at(&ord, i);
            proof {
                lemma_subset_valid(gm, probe_ord@, ord@);
            }
            let check = self.check_ordering(&probe_ord);
            match check {
                Ok(_) => {
                    // removing this group solves the problem: it is part of
                    // the dependency, so it stays
                    i += 1;
                },
                Err((new_pos, new_err)) => {
                    if new_pos != pos {
                        // the failure moved: recurse on the shorter prefix
                        let prefix = truncate_to(&probe_ord, new_pos + 1);
                        proof {
                            lemma_subset_valid(gm, prefix@, probe_ord@);
                            assert(prefix@.len() < orig.len());
                        }
                        let sub = self.reduce(prefix, new_pos, new_err, abort);
                        let (mut sub_ord, sub_removed) = sub;
                        if sub_ord.len() == new_pos + 1 {
                            // the recursion did not shrink its input:
                            // re-insert the probed group at the front
                            if !contains_idx(&sub_ord, probe_group_idx) {
                                sub_ord = prepend(probe_group_idx, &sub_ord);
                            }
                        }
                        proof {
                            assert forall|x: usize| sub_ord@.contains(x) implies orig.contains(
                                x,
                            ) by {
                                assert(ord@.contains(x) || x == probe_group_idx);
                            }
                            lemma_subset_valid(gm, sub_ord@, ord@);
                        }
                        return (sub_ord, sub_removed);
                    }
                    let identical = errors_equal(&new_err, &err);
                    if identical {
                        // no effect at all: the group is independent
                        removed.push(probe_group_idx);
                        ord = probe_ord;
                    } else {
                        // same position, different error: dependent
                        i += 1;
                    }
                },
            }
        }
        (ord, removed)
    }

    /// Solving phase of the learner: search the permutations of `reduced`
    /// with the tree permutator, pruning each failing subtree by its failure
    /// position, under the per-attempt time budget and the cancellation
    /// handle.
    #[verifier::loop_isolation(false)]
    fn solve_ordering(&mut self, reduced: &Vec<usize>, abort: &Stopper) -> (r: Option<Vec<usize>>)
        requires
            old(self).wf(),
            reduced@.no_duplicates(),
            forall|p: int| 0 <= p < reduced@.len() ==> (#[trigger] reduced@[p]) < old(
                self,
            ).groups_model().len(),
        ensures
            final(self).groups@ == old(self).groups@,
            final(self).net == old(self).net,
            final(self).hard_policy == old(self).hard_policy,
            final(self).start == old(self).start,
            final(self).budget_ms == old(self).budget_ms,
            final(self).max_group_solve_time == old(self).max_group_solve_time,
            final(self).num_states >= old(self).num_states,
            old(self).seen_difficult_dependency ==> final(self).seen_difficult_dependency,
            match r {
                Some(sol) => {
                    &&& all_states_ok(
                        old(self).sim().reject_model(),
                        old(self).pol().model(),
                        Seq::<u64>::empty(),
                        concat_ids(old(self).groups_model(), sol@),
                    )
                    &&& sol@.no_duplicates()
                    &&& forall|p: int| 0 <= p < sol@.len() ==> (#[trigger] sol@[p]) < old(
                        self,
                    ).groups_model().len()
                },
                None => true,
            },
    {
        let ghost gm = old(self).groups_model();
        let start = instant_now();
        let limit = match self.max_group_solve_time {
            Some(ms) => ms,
            None => u64::MAX,
        };
        let input = copy_indices_vec(reduced);
        let mut tp = crate::permutator::TreePermutator::new(input);
        let mut fuel: u64 = SOLVE_FUEL;
        while fuel > 0
            invariant
                tp.wf(),
                tp.items() == reduced@,
                tp.n() == reduced@.len(),
                self.groups@ == old(self).groups@,
                self.net == old(self).net,
                self.hard_policy == old(self).hard_policy,
                self.start == old(self).start,
                self.budget_ms == old(self).budget_ms,
                self.max_group_solve_time == old(self).max_group_solve_time,
                self.num_states >= old(self).num_states,
                old(self).seen_difficult_dependency ==> self.seen_difficult_dependency,
            decreases fuel,
        {
            fuel -= 1;
            if abort.is_stop() {
                return None;
            }
            if elapsed_millis(&start) >= limit {
                return None;
            }
            let perm = match tp.next() {
                None => {
                    return None;
                },
                Some(p) => p,
            };
            let ghost sigma = tp.cur();
            proof {
                assert(perm@ == crate::permutator::select_seq(reduced@, sigma));
                assert forall|p: int| 0 <= p < perm@.len() implies (#[trigger] perm@[p])
                    < gm.len() by {
                    assert(perm@[p] == reduced@[sigma[p] as int]);
                }
            }
            let check = self.check_ordering(&perm);
            match check {
                Ok(_) => {
                    proof {
                        assert forall|a: int, b: int|
                            0 <= a < perm@.len() && 0 <= b < perm@.len() && a != b implies perm@[a]
                            != perm@[b] by {
                            assert(perm@[a] == reduced@[sigma[a] as int]);
                            assert(perm@[b] == reduced@[sigma[b] as int]);
                            assert(sigma[a] != sigma[b]);
                        }
                    }
                    return Some(perm);
                },
                Err((pos, _)) => {
                    tp.fail_pos(pos);
                },
            }
        }
        None
    }

    /// Expansion phase of the learner: try to add one group, not yet in the
    /// ordering and not dropped as independent, at each position; keep the
    /// first placement that changes the stuck point.
    #[verifier::loop_isolation(false)]
    fn expand_ordering(
        &mut self,
        ordering: &Vec<usize>,
        removed: &Vec<usize>,
        pos: usize,
        err: &PolicyError,
        abort: &Stopper,
    ) -> (r: ExpandResult)
        requires
            old(self).wf(),
            ordering@.no_duplicates(),
            forall|p: int| 0 <= p < ordering@.len() ==> (#[trigger] ordering@[p]) < old(
                self,
            ).groups_model().len(),
        ensures
            final(self).groups@ == old(self).groups@,
            final(self).net == old(self).net,
            final(self).hard_policy == old(self).hard_policy,
            final(self).start == old(self).start,
            final(self).budget_ms == old(self).budget_ms,
            final(self).max_group_solve_time == old(self).max_group_solve_time,
            final(self).num_states >= old(self).num_states,
            old(self).seen_difficult_dependency ==> final(self).seen_difficult_dependency,
            match r {
                ExpandResult::Finished(sol) => {
                    &&& all_states_ok(
                        old(self).sim().reject_model(),
                        old(self).pol().model(),
                        Seq::<u64>::empty(),
                        concat_ids(old(self).groups_model(), sol@),
                    )
                    &&& sol@.no_duplicates()
                    &&& forall|p2: int| 0 <= p2 < sol@.len() ==> (#[trigger] sol@[p2]) < old(
                        self,
                    ).groups_model().len()
                },
                ExpandResult::Retry(o2) => {
                    &&& o2@.no_duplicates()
                    &&& forall|p2: int| 0 <= p2 < o2@.len() ==> (#[trigger] o2@[p2]) < old(
                        self,
                    ).groups_model().len()
                },
                ExpandResult::Exhausted => true,
            },
    {
        let ghost gm = old(self).groups_model();
        let n_groups = self.groups.len();
        let mut c: usize = 0;
        while c < n_groups
            invariant
                n_groups == gm.len(),
                self.groups@ == old(self).groups@,
                self.net == old(self).net,
                self.hard_policy == old(self).hard_policy,
                self.start == old(self).start,
                self.budget_ms == old(self).budget_ms,
                self.max_group_solve_time == old(self).max_group_solve_time,
                self.num_states >= old(self).num_states,
                old(self).seen_difficult_dependency ==> self.seen_difficult_dependency,
            decreases n_groups - c,
        {
            if abort.is_stop() {
                return ExpandResult::Exhausted;
            }
            if !contains_idx(ordering, c) && !contains_idx(removed, c) {
                let mut i: usize = 0;
                while i <= ordering.len()
                    invariant
                        i <= ordering@.len() + 1,
                        c < gm.len(),
                        !ordering@.contains(c),
                        self.groups@ == old(self).groups@,
                        self.net == old(self).net,
                        self.hard_policy == old(self).hard_policy,
                        self.start == old(self).start,
                        self.budget_ms == old(self).budget_ms,
                        self.max_group_solve_time == old(self).max_group_solve_time,
                        self.num_states >= old(self).num_states,
                        old(self).seen_difficult_dependency ==> self.seen_difficult_dependency,
                    decreases ordering@.len() + 1 - i,
                {
                    let probe = insert_at(ordering, i, c);
                    let probe_len = probe.len();
                    proof {
                        assert forall|p2: int| 0 <= p2 < probe@.len() implies (
                        #[trigger] probe@[p2]) < gm.len() by {
                            assert(probe@.contains(probe@[p2]));
                        }
                    }
                    let check = self.check_ordering(&probe);
                    match check {
                        Ok(_) => {
                            return ExpandResult::Finished(probe);
                        },
                        Err((new_pos, new_err)) => {
                            if new_pos != pos {
                                // the failure moved: make the problem
                                // smaller again
                                proof {
                                    assert(new_pos < probe_len);
                                }
                                let prefix = truncate_to(&probe, new_pos + 1);
                                proof {
                                    lemma_subset_valid(gm, prefix@, probe@);
                                }
                                let sub = self.reduce(prefix, new_pos, new_err, abort);
                                return ExpandResult::Retry(sub.0);
                            }
                            let identical = errors_equal(&new_err, err);
                            if !identical {
                                // the error changed: the candidate belongs
                                // to the dependency
                                return ExpandResult::Retry(probe);
                            }
                        },
                    }
                    if i == ordering.len() {
                        break ;
                    }
                    i += 1;
                }
            }
            c += 1;
        }
        ExpandResult::Exhausted
    }

    /// Try to learn a dependency group for the stuck point: the good prefix
    /// `good_ordering` followed by the failing `bad_group`. On success,
    /// returns the learned group's modifiers in their internal order,
    /// together with the indices of the groups it replaces.
    #[verifier::loop_isolation(false)]
    fn find_dependency(
        &mut self,
        good_ordering: &Vec<usize>,
        bad_group: usize,
        abort: &Stopper,
    ) -> (r: Option<(Vec<ConfigModifier>, Vec<usize>)>)
        requires
            old(self).wf(),
            good_ordering@.no_duplicates(),
            !good_ordering@.contains(bad_group),
            bad_group < old(self).groups_model().len(),
            forall|p: int| 0 <= p < good_ordering@.len() ==> (#[trigger] good_ordering@[p]) < old(
                self,
            ).groups_model().len(),
        ensures
            final(self).groups@ == old(self).groups@,
            final(self).net == old(self).net,
            final(self).hard_policy == old(self).hard_policy,
            final(self).start == old(self).start,
            final(self).budget_ms == old(self).budget_ms,
            final(self).max_group_solve_time == old(self).max_group_solve_time,
            final(self).num_states >= old(self).num_states,
            old(self).seen_difficult_dependency ==> final(self).seen_difficult_dependency,
            match r {
                Some(f) => {
                    &&& all_states_ok(
                        old(self).sim().reject_model(),
                        old(self).pol().model(),
                        Seq::<u64>::empty(),
                        group_ids(f.0@),
                    )
                    &&& group_ids(f.0@) == concat_ids(old(self).groups_model(), f.1@)
                    &&& f.1@.no_duplicates()
                    &&& forall|p: int| 0 <= p < f.1@.len() ==> (#[trigger] f.1@[p]) < old(
                        self,
                    ).groups_model().len()
                },
                None => true,
            },
            all_states_ok(
                old(self).sim().reject_model(),
                old(self).pol().model(),
                Seq::<u64>::empty(),
                concat_ids(old(self).groups_model(), good_ordering@.push(bad_group)),
            ) ==> r is None,
    {
        let ghost gm = old(self).groups_model();
        let ghost rej = old(self).sim().reject_model();
        let ghost vm = old(self).pol().model();
        let full = append_idx(good_ordering, bad_group);
        proof {
            assert forall|p: int| 0 <= p < full@.len() implies (#[trigger] full@[p])
                < gm.len() by {
                assert(full@.contains(full@[p]));
            }
        }
        let first = self.check_ordering(&full);
        let (pos0, err0) = match first {
            Err(f) => f,
            Ok(_) => {
                // the stuck group applies cleanly from the initial state:
                // nothing to learn here
                return None;
            },
        };
        proof {
            // the full ordering through the stuck group is not clean, so
            // every later return may be a learned group
            if all_states_ok(rej, vm, Seq::<u64>::empty(), concat_ids(gm, full@)) {
                lemma_all_ok_at_position(gm, rej, vm, full@, pos0 as int);
                assert(false);
            }
        }
        let red = self.reduce(full, pos0, err0, abort);
        let (mut ord, mut removed) = red;
        let mut fuel: u64 = LEARN_FUEL;
        while fuel > 0
            invariant
                ord@.no_duplicates(),
                forall|p: int| 0 <= p < ord@.len() ==> (#[trigger] ord@[p]) < gm.len(),
                self.groups@ == old(self).groups@,
                self.net == old(self).net,
                self.hard_policy == old(self).hard_policy,
                self.start == old(self).start,
                self.budget_ms == old(self).budget_ms,
                self.max_group_solve_time == old(self).max_group_solve_time,
                self.num_states >= old(self).num_states,
                old(self).seen_difficult_dependency ==> self.seen_difficult_dependency,
            decreases fuel,
        {
            fuel -= 1;
            if abort.is_stop() {
                return None;
            }
            let expired = match &self.start {
                Some(s) => elapsed_millis(s) >= self.budget_ms,
                None => false,
            };
            if expired {
                return None;
            }
            let solved = self.solve_ordering(&ord, abort);
            if let Some(sol) = solved {
                let mods = self.finalize_ordering(&sol);
                return Some((mods, sol));
            }
            let stuck = self.check_ordering(&ord);
            let (pos, err) = match stuck {
                Err(f) => f,
                Ok(_) => {
                    // the current problem ordering itself applies cleanly:
                    // it is the learned group
                    let mods = self.finalize_ordering(&ord);
                    return Some((mods, ord));
                },
            };
            let expanded = self.expand_ordering(&ord, &removed, pos, &err, abort);
            match expanded {
                ExpandResult::Finished(sol) => {
                    let mods = self.finalize_ordering(&sol);
                    return Some((mods, sol));
                },
                ExpandResult::Retry(o2) => {
                    ord = o2;
                },
                ExpandResult::Exhausted => {
                    return None;
                },
            }
        }
        None
    }
}

} // verus!
