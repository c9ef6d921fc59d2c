//! Tree permutator: emits the permutations of its input in lexicographic
//! order over the element indices, and supports pruning a whole subtree of
//! the permutation tree by position.

use vstd::prelude::*;

verus! {

/// Every value of `s` lies below `n`.
pub open spec fn in_range(s: Seq<usize>, n: nat) -> bool {
    forall|i: int| 0 <= i < s.len() ==> s[i] < n
}

/// `s` is a permutation of the indices `0 .. n`.
pub open spec fn is_index_perm(s: Seq<usize>, n: nat) -> bool {
    s.len() == n && in_range(s, n) && s.no_duplicates()
}

/// The identity index sequence `0, 1, .., n-1`.
pub open spec fn identity_perm(n: nat) -> Seq<usize> {
    Seq::new(n, |k: int| k as usize)
}

/// The elements of `data` selected at the positions listed in `idx`.
pub open spec fn select_seq<T>(data: Seq<T>, idx: Seq<usize>) -> Seq<T> {
    Seq::new(idx.len(), |k: int| data[idx[k] as int])
}

/// Strict lexicographic order on two index sequences of equal length.
pub open spec fn lex_lt(a: Seq<usize>, b: Seq<usize>) -> bool
    decreases a.len(),
{
    &&& a.len() > 0
    &&& b.len() > 0
    &&& (a[0] < b[0] || (a[0] == b[0] && lex_lt(a.drop_first(), b.drop_first())))
}

/// Non-strict lexicographic order.
pub open spec fn lex_le(a: Seq<usize>, b: Seq<usize>) -> bool {
    a == b || lex_lt(a, b)
}

/// `x` occurs in `s` at or after position `lo`.
pub open spec fn range_has(s: Seq<usize>, lo: int, x: usize) -> bool {
    exists|j: int| lo <= j < s.len() && s[j] == x
}

/// `x` occurs in `s` strictly after position `i`.
pub open spec fn tail_has(s: Seq<usize>, i: int, x: usize) -> bool {
    exists|j: int| i < j < s.len() && s[j] == x
}

/// `r` is strictly descending.
pub open spec fn desc_sorted(r: Seq<usize>) -> bool {
    forall|a: int, b: int| 0 <= a < b < r.len() ==> r[a] > r[b]
}

/// `r` is exactly the descending list of values that occur in `state` after
/// position `i` and exceed `state[i]`: the choices still open at depth `i`.
pub open spec fn canon_at(state: Seq<usize>, r: Seq<usize>, i: int) -> bool {
    &&& desc_sorted(r)
    &&& forall|x: usize| #[trigger] r.contains(x) <==> (tail_has(state, i, x) && x > state[i])
}

/// Lexicographic permutation generator over an ordered input.
///
/// `new` takes the input in its reference order; iteration then emits all
/// permutations of the input in lexicographic order over the element
/// indices, as the ghost emission log certifies. `fail_pos(p)` prunes
/// every permutation that shares the current prefix of length `p + 1`.
pub struct TreePermutator<T: Copy> {
    data: Vec<T>,
    state: Vec<usize>,
    /// Remaining choices at each depth, in descending order, so that popping
    /// from the back yields the smallest (next in ascending order) choice.
    remaining: Vec<Vec<usize>>,
    len: usize,
    started: bool,
    /// The index permutations emitted so far, in order.
    emitted: Ghost<Seq<Seq<usize>>>,
    /// Whether `fail_pos` has ever been called.
    pruned: Ghost<bool>,
}

impl<T: Copy> TreePermutator<T> {
    /// The input elements, in their reference order.
    pub closed spec fn items(&self) -> Seq<T> {
        self.data@
    }

    /// The number of input elements.
    pub closed spec fn n(&self) -> nat {
        self.len as nat
    }

    /// The current index permutation.
    pub closed spec fn cur(&self) -> Seq<usize> {
        self.state@
    }

    /// Whether the first permutation has been emitted.
    pub closed spec fn has_started(&self) -> bool {
        self.started
    }

    /// The index permutations emitted so far, in order.
    pub closed spec fn emitted(&self) -> Seq<Seq<usize>> {
        self.emitted@
    }

    /// Whether `fail_pos` has never been called: the iteration is the full,
    /// unpruned enumeration.
    pub closed spec fn unpruned(&self) -> bool {
        !self.pruned@
    }

    /// The choices still open at depth `i`, in descending order: the values
    /// that later calls may still place there.
    pub closed spec fn open_at(&self, i: int) -> Seq<usize> {
        self.remaining@[i]@
    }

    /// Whether depth `i` still has an open choice.
    pub open spec fn live(&self, i: int) -> bool {
        self.open_at(i).len() > 0
    }

    /// Whether any depth still has an open choice.
    pub open spec fn any_live(&self) -> bool {
        exists|i: int| 0 <= i < self.n() && self.live(i)
    }

    /// The open choices recorded at depth `i` are exactly the values of the
    /// current state after `i` that exceed the value at `i`, or the depth has
    /// been exhausted or pruned and records none.
    spec fn slot_ok(&self, i: int) -> bool {
        self.remaining@[i]@.len() == 0 || canon_at(self.state@, self.remaining@[i]@, i)
    }

    /// Depths before `d` record all of their open choices; depths from `d` on
    /// record none. Pruning moves `d` up; advancing restores it to `n`.
    spec fn frontier_slot(&self, d: int, i: int) -> bool {
        if i < d {
            canon_at(self.state@, self.remaining@[i]@, i)
        } else {
            self.remaining@[i]@.len() == 0
        }
    }

    spec fn frontier_at(&self, d: int) -> bool {
        forall|i: int| 0 <= i < self.len ==> #[trigger] self.frontier_slot(d, i)
    }

    /// The shape of the sequence and state fields alone.
    spec fn state_ok(&self) -> bool {
        &&& self.len == self.data@.len()
        &&& self.state@.len() == self.len
        &&& self.remaining@.len() == self.len
        &&& is_index_perm(self.state@, self.len as nat)
    }

    /// While no prune has happened, the emission log is exactly the set of
    /// permutations up to the current one, each once, and the tree is
    /// canonical.
    spec fn enum_ok(&self) -> bool {
        if !self.started {
            &&& self.emitted@ == Seq::<Seq<usize>>::empty()
            &&& self.cur() == identity_perm(self.n())
            &&& self.complete()
        } else {
            &&& self.complete()
            &&& self.emitted@.no_duplicates()
            &&& (forall|q: Seq<usize>| #[trigger] self.emitted@.contains(q) ==> is_index_perm(
                q,
                self.n(),
            ) && lex_le(q, self.cur()))
            &&& (forall|q: Seq<usize>|
                is_index_perm(q, self.n()) && lex_le(q, self.cur())
                    ==> #[trigger] self.emitted@.contains(q))
        }
    }

    /// Structural invariant of the permutator.
    pub closed spec fn wf(&self) -> bool {
        &&& self.state_ok()
        &&& forall|i: int| 0 <= i < self.len ==> #[trigger] self.slot_ok(i)
        &&& exists|d: int| 0 <= d <= self.len && self.frontier_at(d)
        &&& (self.pruned@ || self.enum_ok())
    }

    /// No subtree has been pruned: at every depth the open choices are
    /// exactly the canonical ones for the current permutation. This holds
    /// from construction, is restored by every advance, and is broken only
    /// by `fail_pos`.
    pub open spec fn complete(&self) -> bool {
        forall|i: int| 0 <= i < self.n() ==> canon_at(self.cur(), #[trigger] self.open_at(i), i)
    }

    /// Build a permutator over `input`; the first emitted permutation is
    /// `input` itself.
    pub fn new(input: Vec<T>) -> (r: Self)
        ensures
            r.wf(),
            r.complete(),
            !r.has_started(),
            r.items() == input@,
            r.n() == input@.len(),
            r.cur() == identity_perm(input@.len()),
            r.emitted() == Seq::<Seq<usize>>::empty(),
            r.unpruned(),
    {
        let input_len = input.len();
        let mut state: Vec<usize> = Vec::new();
        let mut remaining: Vec<Vec<usize>> = Vec::new();
        for i in 0..input_len
            invariant
                state@.len() == i,
                remaining@.len() == i,
                forall|k: int| 0 <= k < i ==> state@[k] == k,
                forall|k: int| 0 <= k < i ==> canon_at(
                    identity_perm(input_len as nat),
                    #[trigger] remaining@[k]@,
                    k,
                ),
        {
            state.push(i);
            let mut rem: Vec<usize> = Vec::new();
            let mut j = input_len;
            while j > i + 1
                invariant
                    i < input_len,
                    i + 1 <= j <= input_len,
                    rem@.len() == input_len - j,
                    forall|k: int| 0 <= k < rem@.len() ==> rem@[k] == input_len - 1 - k,
                decreases j,
            {
                j -= 1;
                rem.push(j);
            }
            proof {
                let idp = identity_perm(input_len as nat);
                assert forall|x: usize| #[trigger] rem@.contains(x) implies (tail_has(idp, i as int, x)
                    && x > idp[i as int]) by {
                    let k = choose|k: int| 0 <= k < rem@.len() && rem@[k] == x;
                    assert(idp[x as int] == x);
                };
                assert forall|x: usize| tail_has(idp, i as int, x) && x > idp[i as int] implies
                    #[trigger] rem@.contains(x) by {
                    let j2 = choose|j2: int| i < j2 < idp.len() && idp[j2] == x;
                    assert(rem@[input_len - 1 - x] == x);
                };
            }
            remaining.push(rem);
        }
        let r = TreePermutator {
            data: input,
            state,
            remaining,
            len: input_len,
            started: false,
            emitted: Ghost(Seq::empty()),
            pruned: Ghost(false),
        };
        proof {
            assert(r.state@ =~= identity_perm(input_len as nat));
            assert forall|i: int| 0 <= i < r.len implies canon_at(
                r.state@,
                #[trigger] r.remaining@[i]@,
                i,
            ) by {}
            assert forall|i: int| 0 <= i < r.len implies #[trigger] r.slot_ok(i) by {}
            assert forall|i: int| 0 <= i < r.len implies #[trigger] r.frontier_slot(
                r.len as int,
                i,
            ) by {}
            assert(r.frontier_at(r.len as int));
        }
        r
    }

    /// Prune the subtree rooted at the current prefix of length `pos + 1`:
    /// no permutation sharing that prefix will be emitted after this call.
    pub fn fail_pos(&mut self, pos: usize)
        requires
            old(self).wf(),
        ensures
            final(self).wf(),
            final(self).items() == old(self).items(),
            final(self).n() == old(self).n(),
            final(self).cur() == old(self).cur(),
            final(self).has_started() == old(self).has_started(),
            forall|i: int| 0 <= i <= pos && i < final(self).n() ==> final(self).open_at(i)
                == old(self).open_at(i),
            forall|i: int| pos < i < final(self).n() ==> final(self).open_at(i)
                == Seq::<usize>::empty(),
            final(self).emitted() == old(self).emitted(),
            !final(self).unpruned(),
    {
        proof {
            self.pruned@ = true;
            let d0 = choose|d: int| 0 <= d <= old(self).len && old(self).frontier_at(d);
            assert forall|i: int| 0 <= i < self.len implies #[trigger] self.frontier_slot(
                d0,
                i,
            ) by {
                assert(old(self).frontier_slot(d0, i));
            }
            assert(self.frontier_at(d0));
            assert forall|i: int| 0 <= i < self.len implies #[trigger] self.slot_ok(i) by {
                assert(old(self).slot_ok(i));
            }
        }
        if pos >= self.len {
            return ;
        }
        let mut i = pos + 1;
        while i < self.len
            invariant
                old(self).wf(),
                self.pruned@,
                self.emitted@ == old(self).emitted@,
                pos < self.len,
                pos + 1 <= i,
                self.data@ == old(self).data@,
                self.state@ == old(self).state@,
                self.len == old(self).len,
                self.started == old(self).started,
                self.remaining@.len() == self.len,
                forall|k: int| pos < k < i && k < self.len ==> self.remaining@[k]@.len() == 0,
                forall|k: int| 0 <= k <= pos && k < self.len ==> self.remaining@[k]@
                    == old(self).remaining@[k]@,
                forall|k: int| i <= k < self.len ==> self.remaining@[k]@ == old(self).remaining@[k]@,
            decreases self.len - i,
        {
            let empty: Vec<usize> = Vec::new();
            self.remaining.set(i, empty);
            i += 1;
        }
        proof {
            assert forall|k: int| 0 <= k < self.len implies #[trigger] self.slot_ok(k) by {
                if k <= pos {
                    assert(old(self).slot_ok(k));
                    assert(self.remaining@[k]@ == old(self).remaining@[k]@);
                }
            }
            let d0 = choose|d: int| 0 <= d <= old(self).len && old(self).frontier_at(d);
            let dn = if d0 <= pos + 1 {
                d0
            } else {
                pos + 1
            };
            assert forall|k: int| 0 <= k < self.len implies #[trigger] self.frontier_slot(
                dn,
                k,
            ) by {
                assert(old(self).frontier_slot(d0, k));
                if k <= pos {
                    assert(self.remaining@[k]@ == old(self).remaining@[k]@);
                }
            }
            assert(self.frontier_at(dn));
        }
    }

    /// The deepest position that still has an open choice, if any.
    fn deepest_live(&self) -> (r: Option<usize>)
        requires
            self.state_ok(),
        ensures
            match r {
                Some(c) => {
                    &&& c < self.n()
                    &&& self.live(c as int)
                    &&& forall|i: int| c < i < self.n() ==> !self.live(i)
                },
                None => forall|i: int| 0 <= i < self.n() ==> !self.live(i),
            },
    {
        let mut i = self.len;
        while i > 0
            invariant
                self.remaining@.len() == self.len,
                i <= self.len,
                forall|k: int| i <= k < self.len ==> !self.live(k),
            decreases i,
        {
            i -= 1;
            if self.remaining[i].len() > 0 {
                return Some(i);
            }
        }
        None
    }

    /// The current permutation of the input elements.
    fn emit(&self) -> (r: Vec<T>)
        requires
            self.state_ok(),
        ensures
            r@ == select_seq(self.items(), self.cur()),
    {
        let mut out: Vec<T> = Vec::new();
        let mut k: usize = 0;
        while k < self.len
            invariant
                self.state_ok(),
                k <= self.len,
                out@.len() == k,
                forall|j: int| 0 <= j < k ==> out@[j] == self.data@[self.state@[j] as int],
            decreases self.len - k,
        {
            let idx = self.state[k];
            proof {
                assert(self.state@[k as int] < self.len);
            }
            out.push(self.data[idx]);
            k += 1;
        }
        proof {
            assert(out@ =~= select_seq(self.items(), self.cur()));
        }
        out
    }

    /// Whether `x` occurs in the current state at or after position `lo`.
    fn state_range_has(&self, lo: usize, x: usize) -> (r: bool)
        requires
            self.state_ok(),
            lo <= self.len,
        ensures
            r == range_has(self.state@, lo as int, x),
    {
        let mut j = lo;
        while j < self.len
            invariant
                self.state_ok(),
                lo <= j <= self.len,
                forall|t: int| lo <= t < j ==> self.state@[t] != x,
            decreases self.len - j,
        {
            if self.state[j] == x {
                return true;
            }
            j += 1;
        }
        false
    }

    /// The values occurring in the state at or after `from`, except
    /// `exclude`, in descending order.
    fn collect_pool(&self, from: usize, exclude: usize) -> (r: Vec<usize>)
        requires
            self.state_ok(),
            from < self.len,
            range_has(self.state@, from as int, exclude),
        ensures
            desc_sorted(r@),
            r@.no_duplicates(),
            forall|x: usize| #[trigger] r@.contains(x) <==> (range_has(
                self.state@,
                from as int,
                x,
            ) && x != exclude),
            r@.len() == self.n() - from - 1,
    {
        let mut r: Vec<usize> = Vec::new();
        let mut v = self.len;
        while v > 0
            invariant
                self.state_ok(),
                from < self.len,
                v <= self.len,
                desc_sorted(r@),
                forall|x: usize| #[trigger] r@.contains(x) <==> (v <= x && range_has(
                    self.state@,
                    from as int,
                    x,
                ) && x != exclude),
            decreases v,
        {
            v -= 1;
            let ghost r_before = r@;
            if v != exclude && self.state_range_has(from, v) {
                proof {
                    assert forall|k: int| 0 <= k < r@.len() implies r@[k] > v by {
                        assert(r@.contains(r@[k]));
                    }
                }
                r.push(v);
                proof {
                    assert forall|x: usize| #[trigger] r@.contains(x) implies (v <= x && range_has(
                        self.state@,
                        from as int,
                        x,
                    ) && x != exclude) by {
                        let k = choose|k: int| 0 <= k < r@.len() && r@[k] == x;
                        if k < r@.len() - 1 {
                            assert(r_before.contains(x));
                        }
                    }
                    assert forall|x: usize| (v <= x && range_has(self.state@, from as int, x)
                        && x != exclude) implies #[trigger] r@.contains(x) by {
                        if x != v {
                            assert(r_before.contains(x));
                            let k = choose|k: int| 0 <= k < r_before.len() && r_before[k] == x;
                            assert(r@[k] == x);
                        } else {
                            assert(r@[r@.len() - 1] == x);
                        }
                    }
                }
            } else {
                proof {
                    assert forall|x: usize| (v <= x && range_has(self.state@, from as int, x)
                        && x != exclude) implies #[trigger] r@.contains(x) by {
                        if x == v {
                            assert(!range_has(self.state@, from as int, v) || v == exclude);
                        }
                    }
                }
            }
        }
        proof {
            let tail = self.state@.subrange(from as int, self.len as int);
            assert(r@.no_duplicates()) by {
                assert forall|a: int, b: int|
                    0 <= a < r@.len() && 0 <= b < r@.len() && a != b implies r@[a] != r@[b] by {
                    if a < b {
                        assert(r@[a] > r@[b]);
                    } else {
                        assert(r@[b] > r@[a]);
                    }
                }
            }
            assert(tail.no_duplicates()) by {
                assert forall|a: int, b: int|
                    0 <= a < tail.len() && 0 <= b < tail.len() && a != b implies tail[a]
                    != tail[b] by {
                    assert(tail[a] == self.state@[from + a]);
                    assert(tail[b] == self.state@[from + b]);
                }
            }
            r@.unique_seq_to_set();
            tail.unique_seq_to_set();
            assert forall|x: usize| #[trigger] tail.contains(x) == range_has(
                self.state@,
                from as int,
                x,
            ) by {
                if tail.contains(x) {
                    let k = choose|k: int| 0 <= k < tail.len() && tail[k] == x;
                    assert(self.state@[from + k] == x);
                }
                if range_has(self.state@, from as int, x) {
                    let j = choose|j: int|
                        from <= j < self.state@.len() && self.state@[j] == x;
                    assert(tail[j - from] == x);
                }
            }
            assert(r@.to_set() =~= tail.to_set().remove(exclude));
            assert(tail.contains(exclude));
            assert(tail.to_set().remove(exclude).len() == tail.to_set().len() - 1);
        }
        r
    }

    /// Advance to the next permutation and return it, or return `None` when
    /// the (possibly pruned) tree is exhausted. The first call returns the
    /// input order itself. Every later successful call moves strictly
    /// forward in lexicographic index order: the deepest position with an
    /// open choice takes its least one, and the deeper positions restart in
    /// ascending order. A ghost log records every emitted index
    /// permutation; when an unpruned run ends, the log holds each
    /// permutation of the indices exactly once.
    #[verifier::loop_isolation(false)]
    #[verifier::rlimit(100)]
    pub fn next(&mut self) -> (r: Option<Vec<T>>)
        requires
            old(self).wf(),
        ensures
            final(self).wf(),
            final(self).items() == old(self).items(),
            final(self).n() == old(self).n(),
            final(self).has_started(),
            (r is Some) == (!old(self).has_started() || old(self).any_live()),
            r is Some ==> is_index_perm(final(self).cur(), final(self).n()) && r.unwrap()@
                == select_seq(final(self).items(), final(self).cur()),
            !old(self).has_started() ==> final(self).cur() == old(self).cur() && forall|i: int|
                0 <= i < final(self).n() ==> final(self).open_at(i) == old(self).open_at(i),
            !old(self).has_started() && old(self).complete() ==> final(self).complete(),
            old(self).has_started() && !old(self).any_live() ==> *final(self) == *old(self),
            old(self).has_started() && old(self).any_live() ==> lex_lt(
                old(self).cur(),
                final(self).cur(),
            ) && final(self).complete() && exists|c: int|
                {
                    &&& 0 <= c < old(self).n()
                    &&& old(self).live(c)
                    &&& (forall|i: int| c < i < old(self).n() ==> !old(self).live(i))
                    &&& final(self).cur().subrange(0, c) == old(self).cur().subrange(0, c)
                    &&& final(self).cur()[c] > old(self).cur()[c]
                    &&& old(self).open_at(c).contains(final(self).cur()[c])
                    &&& (forall|x: usize| old(self).open_at(c).contains(x)
                        ==> final(self).cur()[c] <= x)
                    &&& (forall|i: int, j: int| c < i < j < old(self).n()
                        ==> final(self).cur()[i] < final(self).cur()[j])
                },
            old(self).has_started() && old(self).any_live() && old(self).complete()
                ==> forall|q: Seq<usize>|
                is_index_perm(q, old(self).n()) && lex_lt(old(self).cur(), q) ==> lex_le(
                    final(self).cur(),
                    q,
                ),
            old(self).has_started() && !old(self).any_live() && old(self).complete()
                ==> forall|q: Seq<usize>|
                is_index_perm(q, old(self).n()) ==> lex_le(q, final(self).cur()),
            final(self).unpruned() == old(self).unpruned(),
            r is Some ==> final(self).emitted() == old(self).emitted().push(final(self).cur()),
            r is None ==> final(self).emitted() == old(self).emitted(),
            old(self).has_started() && !old(self).any_live() && old(self).unpruned() ==> (forall|
                q: Seq<usize>,
            |
                is_index_perm(q, old(self).n()) <==> final(self).emitted().contains(q))
                && final(self).emitted().no_duplicates(),
    {
        if !self.started {
            self.started = true;
            proof {
                self.emitted@ = self.emitted@.push(self.state@);
                let d0 = choose|d: int| 0 <= d <= old(self).len && old(self).frontier_at(d);
                assert forall|i: int| 0 <= i < self.len implies #[trigger] self.frontier_slot(
                    d0,
                    i,
                ) by {
                    assert(old(self).frontier_slot(d0, i));
                }
                assert(self.frontier_at(d0));
                assert forall|i: int| 0 <= i < self.len implies #[trigger] self.slot_ok(i) by {
                    assert(old(self).slot_ok(i));
                }
                if old(self).complete() {
                    assert forall|i: int| 0 <= i < self.n() implies canon_at(
                        self.cur(),
                        #[trigger] self.open_at(i),
                        i,
                    ) by {
                        assert(canon_at(old(self).cur(), old(self).open_at(i), i));
                    }
                }
                if !self.pruned@ {
                    // the log starts exact: its one entry is the least
                    // permutation
                    assert(old(self).enum_ok());
                    let idp = identity_perm(self.len as nat);
                    assert(self.state@ == idp);
                    assert(is_index_perm(idp, self.len as nat)) by {
                        assert forall|i: int| 0 <= i < idp.len() implies idp[i]
                            < self.len as nat by {
                            assert(idp[i] == i as usize);
                        }
                        assert forall|a: int, b: int|
                            0 <= a < idp.len() && 0 <= b < idp.len() && a != b implies idp[a]
                            != idp[b] by {
                            assert(idp[a] == a as usize && idp[b] == b as usize);
                        }
                    }
                    assert(self.emitted@ =~= seq![idp]);
                    assert forall|q: Seq<usize>| #[trigger] self.emitted@.contains(
                        q,
                    ) implies is_index_perm(q, self.n()) && lex_le(q, self.cur()) by {
                        assert(q == idp);
                    }
                    assert forall|q: Seq<usize>|
                        is_index_perm(q, self.n()) && lex_le(q, self.cur())
                            implies #[trigger] self.emitted@.contains(q) by {
                        lemma_identity_least(self.len as nat, q);
                        lemma_lex_antisymmetric(q, idp);
                        assert(self.emitted@[0] == q);
                    }
                    assert(self.enum_ok());
                }
            }
            let out = self.emit();
            return Some(out);
        }
        let c = match self.deepest_live() {
            None => {
                proof {
                    if self.complete() {
                        let s0 = self.state@;
                        let n = self.len as int;
                        let nn = self.len as nat;
                        assert forall|i: int, j: int| 0 <= i < j < n implies s0[j] < s0[i] by {
                            let ri = self.open_at(i);
                            assert(canon_at(s0, ri, i));
                            assert(!self.live(i));
                            assert(ri.len() == 0);
                            assert(!ri.contains(s0[j]));
                            assert(tail_has(s0, i, s0[j]));
                            assert(s0[j] != s0[i]);
                        }
                        assert forall|q: Seq<usize>|
                            is_index_perm(q, nn) implies lex_le(q, s0) by {
                            if q != s0 {
                                lemma_first_diff(q, s0);
                                let j = choose|j: int|
                                    0 <= j < q.len() && q.subrange(0, j) == s0.subrange(0, j)
                                        && q[j] != #[trigger] s0[j];
                                assert forall|t: int| 0 <= t < j implies q[t] == s0[t] by {
                                    assert(q.subrange(0, j)[t] == q[t]);
                                    assert(s0.subrange(0, j)[t] == s0[t]);
                                }
                                assert(q[j] < nn);
                                lemma_perm_contains(s0, nn, q[j]);
                                let m = choose|m: int| 0 <= m < s0.len() && s0[m] == q[j];
                                if m < j {
                                    assert(q[m] == s0[m]);
                                    assert(q[m] == q[j]);
                                    assert(false);
                                }
                                assert(m > j);
                                assert(s0[m] < s0[j]);
                                lemma_lex_from_diff(q, s0, j);
                            }
                        }
                    }
                    if !self.pruned@ {
                        // the unpruned run has reached the greatest
                        // permutation: the log holds them all
                        assert(self.enum_ok());
                        assert(self.complete());
                        assert forall|q: Seq<usize>|
                            is_index_perm(q, self.len as nat)
                                implies #[trigger] self.emitted@.contains(q) by {
                            assert(lex_le(q, self.state@));
                        }
                    }
                }
                return None;
            },
            Some(c) => c,
        };
        let ghost s0 = self.state@;
        let ghost n = self.len as int;
        let ghost rc0 = self.remaining@[c as int]@;
        proof {
            assert(forall|i: int| c < i < old(self).n() ==> !old(self).live(i));
            assert(old(self).live(c as int));
        }
        proof {
            assert(self.slot_ok(c as int));
            assert(canon_at(s0, rc0, c as int));
        }
        // take the smallest open choice at depth c
        let e = self.remaining[c].pop().unwrap();
        proof {
            assert(rc0[rc0.len() - 1] == e);
            assert(rc0.contains(e));
            assert(tail_has(s0, c as int, e) && e > s0[c as int]);
            assert(range_has(s0, c as int, e));
        }
        // the values to redistribute over the deeper positions
        let mut pool = self.collect_pool(c, e);
        let ghost pool0 = pool@;
        proof {
            assert(s0[c as int] != e);
            assert(range_has(s0, c as int, s0[c as int]));
            assert(pool0.contains(s0[c as int]));
        }
        self.state.set(c, e);
        let mut pos = c + 1;
        while pos < self.len
            invariant
                c < pos <= self.len,
                self.state@.len() == self.len,
                self.remaining@.len() == self.len,
                self.data@ == old(self).data@,
                self.len == old(self).len,
                self.started == old(self).started,
                self.pruned@ == old(self).pruned@,
                self.emitted@ == old(self).emitted@,
                forall|i: int| 0 <= i < c ==> self.state@[i] == s0[i],
                self.state@[c as int] == e,
                forall|i: int| pos <= i < self.len ==> self.state@[i] == s0[i],
                forall|i: int| 0 <= i < c ==> self.remaining@[i]@ == old(self).remaining@[i]@,
                self.remaining@[c as int]@ == rc0.subrange(0, rc0.len() - 1),
                pool@ == pool0.subrange(0, pool0.len() - (pos - c - 1)),
                forall|i: int| c < i < pos ==> #[trigger] self.state@[i] == pool0[pool0.len() - (i
                    - c)],
                forall|i: int| c < i < pos ==> #[trigger] self.remaining@[i]@ == pool0.subrange(
                    0,
                    pool0.len() - (i - c),
                ),
            decreases self.len - pos,
        {
            proof {
                assert(pool@.len() == pool0.len() - (pos - c - 1));
            }
            let x = pool.pop().unwrap();
            self.state.set(pos, x);
            let xs = copy_indices(&pool);
            self.remaining.set(pos, xs);
            proof {
                assert(pool@ =~= pool0.subrange(0, pool0.len() - (pos + 1 - c - 1)));
                assert(x == pool0[pool0.len() - (pos - c)]);
            }
            pos += 1;
        }
        proof {
            self.emitted@ = self.emitted@.push(self.state@);
        }
        proof {
            let sf = self.state@;
            assert(s0 == old(self).state@);
            assert(is_index_perm(s0, self.len as nat));
            assert(pool0.len() == n - c - 1);
            // values at and after c are exactly e plus the pool
            assert(forall|i: int| c < i < n ==> #[trigger] sf[i] == pool0[pool0.len() - (i - c)]);
            assert forall|i: int| c < i < n implies #[trigger] pool0.contains(sf[i]) by {
                assert(sf[i] == pool0[pool0.len() - (i - c)]);
            }
            assert forall|i: int| c < i < n implies sf[i] < self.len && sf[i] != e by {
                assert(pool0.contains(sf[i]));
                assert(range_has(s0, c as int, sf[i]));
                let j2 = choose|j2: int| c <= j2 < n && s0[j2] == sf[i];
                assert(s0[j2] < self.len);
            }
            assert(sf[c as int] == e);
            assert(e < self.len) by {
                let j2 = choose|j2: int| (c as int) < j2 < n && s0[j2] == e;
                assert(s0[j2] < self.len);
            }
            assert forall|x: usize| range_has(sf, c as int, x) implies (x == e || pool0.contains(
                x,
            )) by {
                let j = choose|j: int| c <= j < n && sf[j] == x;
                if j > c {
                    assert(sf[j] == pool0[pool0.len() - (j - c)]);
                    assert(pool0.contains(x));
                }
            }
            assert forall|x: usize| pool0.contains(x) implies tail_has(sf, c as int, x) by {
                let k = choose|k: int| 0 <= k < pool0.len() && pool0[k] == x;
                let i = c + (pool0.len() - k);
                assert(sf[i] == pool0[k]);
            }
            // membership in the old and the new tail agree before c
            assert forall|i: int, x: usize| 0 <= i < c implies tail_has(s0, i, x) == tail_has(
                sf,
                i,
                x,
            ) by {
                if tail_has(s0, i, x) {
                    let j = choose|j: int| i < j < n && s0[j] == x;
                    if j < c {
                        assert(sf[j] == x);
                    } else {
                        assert(range_has(s0, c as int, x));
                        if x == e {
                            assert(sf[c as int] == x);
                        } else {
                            assert(pool0.contains(x));
                        }
                    }
                }
                if tail_has(sf, i, x) {
                    let j = choose|j: int| i < j < n && sf[j] == x;
                    if j < c {
                        assert(s0[j] == x);
                    } else if j == c {
                        assert(x == e);
                        assert(tail_has(s0, c as int, e));
                        let j2 = choose|j2: int| (c as int) < j2 < n && s0[j2] == e;
                        assert(s0[j2] == x);
                    } else {
                        assert(pool0.contains(x));
                        assert(range_has(s0, c as int, x));
                        let j2 = choose|j2: int| c <= j2 < n && s0[j2] == x;
                        if j2 == c {
                            assert(s0[c as int] < e);
                            assert(x > e || x == e || x < e);
                            assert(pool0.contains(x) ==> x != e);
                            // x == s0[c] occurs deeper in sf, fine: position j2 == c
                            // still witnesses i < c < ... wait, need j2 > i
                        }
                        assert(j2 > i);
                    }
                }
            }
            // the final state is a permutation
            assert(in_range(sf, self.len as nat)) by {
                assert forall|i: int| 0 <= i < sf.len() implies sf[i] < self.len by {
                    if i < c {
                        assert(sf[i] == s0[i]);
                        assert(s0[i] < self.len);
                    } else if i == c {
                        assert(sf[i] == e);
                    }
                }
            }
            assert(sf.no_duplicates()) by {
                assert forall|a: int, b: int|
                    0 <= a < sf.len() && 0 <= b < sf.len() && a != b implies sf[a] != sf[b] by {
                    let lo = if a < b {
                        a
                    } else {
                        b
                    };
                    let hi = if a < b {
                        b
                    } else {
                        a
                    };
                    if hi < c {
                        assert(sf[lo] == s0[lo] && sf[hi] == s0[hi]);
                    } else if hi == c {
                        assert(sf[lo] == s0[lo]);
                        assert(sf[hi] == e);
                        let j2 = choose|j2: int| (c as int) < j2 < n && s0[j2] == e;
                        assert(s0[lo] != s0[j2]);
                    } else {
                        // sf[hi] is a pool value: it sits after c in s0 and differs from e
                        assert(pool0.contains(sf[hi]));
                        assert(range_has(s0, c as int, sf[hi]) && sf[hi] != e);
                        let j2 = choose|j2: int| c <= j2 < n && s0[j2] == sf[hi];
                        if lo < c {
                            assert(sf[lo] == s0[lo]);
                            assert(s0[lo] != s0[j2]);
                        } else if lo == c {
                            assert(sf[lo] == e && sf[hi] != e);
                        } else {
                            assert(sf[lo] == pool0[pool0.len() - (lo - c)]);
                            assert(sf[hi] == pool0[pool0.len() - (hi - c)]);
                            assert(pool0.len() - (hi - c) < pool0.len() - (lo - c));
                            assert(desc_sorted(pool0));
                            assert(pool0[pool0.len() - (hi - c)] > pool0[pool0.len() - (lo - c)]);
                        }
                    }
                }
            }
            assert(is_index_perm(sf, self.len as nat));
            // every depth is canonical again
            assert forall|i: int| 0 <= i < self.len implies canon_at(
                sf,
                #[trigger] self.remaining@[i]@,
                i,
            ) by {
                if i < c {
                    let d0 = choose|d: int| 0 <= d <= old(self).len && old(self).frontier_at(d);
                    assert(old(self).frontier_slot(d0, c as int));
                    assert(old(self).frontier_slot(d0, i));
                    assert(c < d0);
                    let ri = self.remaining@[i]@;
                    assert(canon_at(s0, ri, i));
                    assert forall|x: usize| #[trigger] ri.contains(x) implies (tail_has(sf, i, x)
                        && x > sf[i]) by {}
                    assert forall|x: usize| tail_has(sf, i, x) && x > sf[i] implies #[trigger] ri
                        .contains(x) by {}
                } else if i == c {
                    let ri = self.remaining@[i]@;
                    assert(ri == rc0.subrange(0, rc0.len() - 1));
                    assert forall|x: usize| #[trigger] ri.contains(x) implies (tail_has(sf, i, x)
                        && x > sf[i]) by {
                        let k = choose|k: int| 0 <= k < ri.len() && ri[k] == x;
                        assert(rc0[k] == x);
                        assert(rc0.contains(x));
                        assert(x > rc0[rc0.len() - 1]);
                        assert(x > e);
                        assert(tail_has(s0, c as int, x) && x > s0[c as int]);
                        assert(x != e);
                        assert(range_has(s0, c as int, x));
                        assert(pool0.contains(x));
                    }
                    assert forall|x: usize| tail_has(sf, i, x) && x > sf[i] implies #[trigger] ri
                        .contains(x) by {
                        let j = choose|j: int| i < j < n && sf[j] == x;
                        assert(sf[j] == pool0[pool0.len() - (j - c)]);
                        assert(pool0.contains(x));
                        assert(range_has(s0, c as int, x) && x != e);
                        let j2 = choose|j2: int| c <= j2 < n && s0[j2] == x;
                        assert(x > e > s0[c as int]);
                        assert(j2 != c);
                        assert(tail_has(s0, c as int, x));
                        assert(rc0.contains(x));
                        let k = choose|k: int| 0 <= k < rc0.len() && rc0[k] == x;
                        assert(k < rc0.len() - 1);
                        assert(ri[k] == x);
                    }
                } else {
                    let ri = self.remaining@[i]@;
                    assert(ri == pool0.subrange(0, pool0.len() - (i - c)));
                    assert(sf[i] == pool0[pool0.len() - (i - c)]);
                    assert forall|x: usize| #[trigger] ri.contains(x) implies (tail_has(sf, i, x)
                        && x > sf[i]) by {
                        let k = choose|k: int| 0 <= k < ri.len() && ri[k] == x;
                        assert(pool0[k] == x);
                        assert(x > pool0[pool0.len() - (i - c)]);
                        let jx = c + (pool0.len() - k);
                        assert(sf[jx] == pool0[k]);
                        assert(jx > i);
                    }
                    assert forall|x: usize| tail_has(sf, i, x) && x > sf[i] implies #[trigger] ri
                        .contains(x) by {
                        let j = choose|j: int| i < j < n && sf[j] == x;
                        let k = pool0.len() - (j - c);
                        assert(sf[j] == pool0[k]);
                        assert(k < pool0.len() - (i - c));
                        assert(ri[k] == x);
                    }
                }
            }
            assert forall|i: int| 0 <= i < self.len implies #[trigger] self.slot_ok(i) by {}
            assert forall|i: int| 0 <= i < self.len implies #[trigger] self.frontier_slot(
                self.len as int,
                i,
            ) by {}
            assert(self.frontier_at(self.len as int));
            assert(self.complete());
            // the move is strictly forward in lexicographic order
            assert(s0[c as int] < e);
            lemma_lex_from_diff(s0, sf, c as int);
            assert(sf.subrange(0, c as int) =~= s0.subrange(0, c as int));
            assert((forall|i: int| (c as int) < i < old(self).n() ==> !old(self).live(i))
                && old(self).live(c as int));
            if old(self).complete() {
                let nn = self.len as nat;
                // past the change position, the old state was descending:
                // every deeper depth had no open choice left
                assert forall|i: int, j: int| c < i < j < n implies s0[j] < s0[i] by {
                    let ri = old(self).open_at(i);
                    assert(canon_at(s0, ri, i));
                    assert(!old(self).live(i));
                    assert(ri.len() == 0);
                    assert(!ri.contains(s0[j]));
                    assert(tail_has(s0, i, s0[j]));
                    assert(s0[j] != s0[i]);
                }
                // the chosen value is the least open choice at the change
                // position
                assert forall|x: usize| tail_has(s0, c as int, x) && x > s0[c as int] implies x
                    >= e by {
                    assert(rc0.contains(x));
                    let k = choose|k: int| 0 <= k < rc0.len() && rc0[k] == x;
                    if k < rc0.len() - 1 {
                        assert(rc0[k] > rc0[rc0.len() - 1]);
                    }
                }
                // the new suffix is ascending
                assert forall|i: int, j: int| c < i < j < n implies sf[i] < sf[j] by {
                    assert(sf[i] == pool0[pool0.len() - (i - c)]);
                    assert(sf[j] == pool0[pool0.len() - (j - c)]);
                    assert(desc_sorted(pool0));
                }
                assert forall|q: Seq<usize>|
                    is_index_perm(q, nn) && lex_lt(s0, q) implies lex_le(sf, q) by {
                    lemma_lex_first_diff(s0, q);
                    let j = choose|j: int|
                        0 <= j < s0.len() && s0.subrange(0, j) == q.subrange(0, j) && s0[j] < #[trigger] q[j];
                    assert forall|t: int| 0 <= t < j implies s0[t] == q[t] by {
                        assert(s0.subrange(0, j)[t] == s0[t] && q.subrange(0, j)[t] == q[t]);
                    }
                    if j < c {
                        assert forall|t: int| 0 <= t < j implies sf[t] == q[t] by {
                            assert(sf[t] == s0[t]);
                        }
                        assert(sf[j] == s0[j]);
                        lemma_lex_from_diff(sf, q, j);
                    } else if j > c {
                        assert(q[j] < nn);
                        lemma_perm_contains(s0, nn, q[j]);
                        let m = choose|m: int| 0 <= m < s0.len() && s0[m] == q[j];
                        if m < j {
                            assert(q[m] == s0[m]);
                            assert(q[m] == q[j]);
                            assert(false);
                        } else if m == j {
                            assert(false);
                        } else {
                            assert(s0[m] < s0[j]);
                            assert(false);
                        }
                    } else {
                        // the difference sits at the change position
                        assert(q[c as int] < nn);
                        lemma_perm_contains(s0, nn, q[c as int]);
                        let m = choose|m: int| 0 <= m < s0.len() && s0[m] == q[c as int];
                        if m < c {
                            assert(q[m] == s0[m]);
                            assert(q[m] == q[c as int]);
                            assert(false);
                        }
                        assert(m > c);
                        assert(tail_has(s0, c as int, q[c as int]));
                        assert(q[c as int] >= e);
                        if q[c as int] > e {
                            assert forall|t: int| 0 <= t < c implies sf[t] == q[t] by {
                                assert(sf[t] == s0[t]);
                            }
                            assert(sf[c as int] == e);
                            lemma_lex_from_diff(sf, q, c as int);
                        } else {
                            // same head: the ascending new suffix is the
                            // least arrangement of the remaining values
                            broadcast use vstd::multiset::group_multiset_axioms;

                            let pre = sf.subrange(0, c + 1);
                            assert(q.subrange(0, c + 1) =~= pre) by {
                                assert forall|t: int| 0 <= t < c + 1 implies q.subrange(
                                    0,
                                    c + 1,
                                )[t] == pre[t] by {
                                    if t < c {
                                        assert(q[t] == s0[t] && sf[t] == s0[t]);
                                    } else {
                                        assert(q[t] == e && sf[t] == e);
                                    }
                                }
                            }
                            assert(sf =~= pre + sf.skip(c + 1));
                            assert(q =~= q.subrange(0, c + 1) + q.skip(c + 1));
                            vstd::seq_lib::lemma_multiset_commutative(pre, sf.skip(c + 1));
                            vstd::seq_lib::lemma_multiset_commutative(pre, q.skip(c + 1));
                            lemma_perm_multiset(sf, nn);
                            lemma_perm_multiset(q, nn);
                            assert(sf.skip(c + 1).to_multiset() =~= q.skip(c + 1)
                                .to_multiset()) by {
                                assert forall|v: usize|
                                    #[trigger] sf.skip(c + 1).to_multiset().count(v) == q.skip(
                                    c + 1,
                                ).to_multiset().count(v) by {
                                    assert(sf.to_multiset().count(v) == pre.to_multiset().count(
                                        v,
                                    ) + sf.skip(c + 1).to_multiset().count(v));
                                    assert(q.to_multiset().count(v) == pre.to_multiset().count(v)
                                        + q.skip(c + 1).to_multiset().count(v));
                                }
                            }
                            assert forall|i2: int, j2: int|
                                0 <= i2 < j2 < sf.skip(c + 1).len() implies #[trigger] sf.skip(
                                c + 1,
                            )[i2] < #[trigger] sf.skip(c + 1)[j2] by {
                                assert(sf.skip(c + 1)[i2] == sf[c + 1 + i2]);
                                assert(sf.skip(c + 1)[j2] == sf[c + 1 + j2]);
                            }
                            lemma_asc_lex_min(sf.skip(c + 1), q.skip(c + 1));
                            lemma_lex_le_with_prefix(sf, q, c + 1);
                        }
                    }
                }
            }
            if !self.pruned@ {
                // the unpruned run logs exactly the permutations seen
                assert(old(self).enum_ok());
                assert(old(self).complete());
                lemma_enum_step(old(self).emitted@, s0, sf, self.len as nat);
                assert(self.emitted@ == old(self).emitted@.push(sf));
                assert(self.enum_ok());
            }
        }
        let out = self.emit();
        Some(out)
    }
}

/// A plain copy of a vector of indices.
fn copy_indices(v: &Vec<usize>) -> (r: Vec<usize>)
    ensures
        r@ == v@,
{
    let mut r: Vec<usize> = Vec::new();
    let mut k: usize = 0;
    while k < v.len()
        invariant
            k <= v@.len(),
            r@ == v@.subrange(0, k as int),
        decreases v@.len() - k,
    {
        r.push(v[k]);
        proof {
            assert(r@ =~= v@.subrange(0, k + 1));
        }
        k += 1;
    }
    proof {
        assert(r@ =~= v@);
    }
    r
}

/// If `a` and `b` agree strictly before `c` and `a[c] < b[c]`, then `a`
/// precedes `b` lexicographically.
pub proof fn lemma_lex_from_diff(a: Seq<usize>, b: Seq<usize>, c: int)
    requires
        a.len() == b.len(),
        0 <= c < a.len(),
        forall|i: int| 0 <= i < c ==> a[i] == b[i],
        a[c] < b[c],
    ensures
        lex_lt(a, b),
    decreases c,
{
    if c == 0 {
    } else {
        lemma_lex_from_diff(a.drop_first(), b.drop_first(), c - 1);
    }
}

/// No sequence precedes itself: together with the strict lexicographic
/// advance of `next`, no permutation is ever emitted twice.
pub proof fn lemma_lex_irreflexive(a: Seq<usize>)
    ensures
        !lex_lt(a, a),
    decreases a.len(),
{
    if a.len() > 0 {
        lemma_lex_irreflexive(a.drop_first());
    }
}

/// The lexicographic order is transitive: with the strict advance of
/// `next`, every later output is larger than every earlier one.
pub proof fn lemma_lex_transitive(a: Seq<usize>, b: Seq<usize>, c: Seq<usize>)
    requires
        a.len() == b.len(),
        b.len() == c.len(),
        lex_lt(a, b),
        lex_lt(b, c),
    ensures
        lex_lt(a, c),
    decreases a.len(),
{
    if a[0] == b[0] && b[0] == c[0] {
        lemma_lex_transitive(a.drop_first(), b.drop_first(), c.drop_first());
    }
}

/// An order on two sequences carries over, at least non-strictly, to their
/// prefixes of any common length.
pub proof fn lemma_lex_prefix(a: Seq<usize>, b: Seq<usize>, m: int)
    requires
        a.len() == b.len(),
        0 <= m <= a.len(),
        lex_lt(a, b),
    ensures
        lex_le(a.subrange(0, m), b.subrange(0, m)),
    decreases m,
{
    if m == 0 {
        assert(a.subrange(0, 0) =~= b.subrange(0, 0));
    } else if a[0] < b[0] {
        assert(a.subrange(0, m)[0] == a[0] && b.subrange(0, m)[0] == b[0]);
    } else {
        lemma_lex_prefix(a.drop_first(), b.drop_first(), m - 1);
        assert(a.subrange(0, m).drop_first() =~= a.drop_first().subrange(0, m - 1));
        assert(b.subrange(0, m).drop_first() =~= b.drop_first().subrange(0, m - 1));
        if a.drop_first().subrange(0, m - 1) == b.drop_first().subrange(0, m - 1) {
            assert forall|k: int| 1 <= k < m implies a[k] == b[k] by {
                assert(a.drop_first().subrange(0, m - 1)[k - 1] == a[k]);
                assert(b.drop_first().subrange(0, m - 1)[k - 1] == b[k]);
            }
            assert(a.subrange(0, m) =~= b.subrange(0, m));
        } else {
            assert(a.subrange(0, m)[0] == a[0] && b.subrange(0, m)[0] == b[0]);
            assert(lex_lt(a.subrange(0, m), b.subrange(0, m)));
        }
    }
}

/// An index permutation of `0 .. n` holds every index below `n`.
pub proof fn lemma_perm_contains(s: Seq<usize>, n: nat, v: usize)
    requires
        n <= usize::MAX,
        is_index_perm(s, n),
        v < n,
    ensures
        s.contains(v),
{
    broadcast use vstd::set::group_set_axioms;
    broadcast use vstd::seq_lib::seq_to_set_is_finite;

    let idp = identity_perm(n);
    assert(idp.no_duplicates()) by {
        assert forall|a: int, b: int|
            0 <= a < idp.len() && 0 <= b < idp.len() && a != b implies idp[a] != idp[b] by {
            assert(idp[a] == a as usize && idp[b] == b as usize);
        }
    }
    s.unique_seq_to_set();
    idp.unique_seq_to_set();
    assert(s.to_set().subset_of(idp.to_set())) by {
        assert forall|x: usize| s.to_set().contains(x) implies idp.to_set().contains(x) by {
            assert(s.contains(x));
            let k = choose|k: int| 0 <= k < s.len() && s[k] == x;
            assert(x < n);
            assert(idp[x as int] == x);
            assert(idp.contains(x));
        }
    }
    vstd::set_lib::lemma_subset_equality(s.to_set(), idp.to_set());
    assert(idp[v as int] == v);
    assert(idp.contains(v));
    assert(idp.to_set().contains(v));
    assert(s.to_set().contains(v));
}

/// All index permutations of `0 .. n` hold the same values, each once.
pub proof fn lemma_perm_multiset(s: Seq<usize>, n: nat)
    requires
        n <= usize::MAX,
        is_index_perm(s, n),
    ensures
        s.to_multiset() == identity_perm(n).to_multiset(),
{
    broadcast use vstd::multiset::group_multiset_axioms;

    let idp = identity_perm(n);
    assert(idp.no_duplicates()) by {
        assert forall|a: int, b: int|
            0 <= a < idp.len() && 0 <= b < idp.len() && a != b implies idp[a] != idp[b] by {
            assert(idp[a] == a as usize && idp[b] == b as usize);
        }
    }
    s.to_multiset_ensures();
    idp.to_multiset_ensures();
    s.lemma_multiset_has_no_duplicates();
    idp.lemma_multiset_has_no_duplicates();
    assert forall|v: usize| s.to_multiset().count(v) == idp.to_multiset().count(v) by {
        if v < n {
            lemma_perm_contains(s, n, v);
            assert(s.to_multiset().count(v) == 1);
            assert(idp[v as int] == v);
            assert(idp.contains(v));
            assert(idp.to_multiset().count(v) == 1);
        } else {
            assert(!s.contains(v)) by {
                if s.contains(v) {
                    let k = choose|k: int| 0 <= k < s.len() && s[k] == v;
                }
            }
            assert(!idp.contains(v)) by {
                if idp.contains(v) {
                    let k = choose|k: int| 0 <= k < idp.len() && idp[k] == v;
                }
            }
            assert(s.to_multiset().count(v) == 0 && idp.to_multiset().count(v) == 0);
        }
    }
    assert(s.to_multiset() =~= idp.to_multiset());
}

/// A strictly ascending sequence precedes, or equals, every rearrangement
/// of its values.
pub proof fn lemma_asc_lex_min(a: Seq<usize>, b: Seq<usize>)
    requires
        a.to_multiset() == b.to_multiset(),
        forall|i: int, j: int| 0 <= i < j < a.len() ==> a[i] < a[j],
    ensures
        lex_le(a, b),
    decreases a.len(),
{
    broadcast use vstd::multiset::group_multiset_axioms;

    a.to_multiset_ensures();
    b.to_multiset_ensures();
    if a.len() == 0 {
        assert(b.len() == 0);
        assert(a =~= b);
    } else {
        assert(b.len() == a.len());
        assert(b.contains(b[0]));
        assert(a.to_multiset().count(b[0]) > 0);
        assert(a.contains(b[0]));
        let k = choose|k: int| 0 <= k < a.len() && a[k] == b[0];
        assert(a[0] <= b[0]);
        if a[0] < b[0] {
            assert(lex_lt(a, b));
        } else {
            let at = a.drop_first();
            let bt = b.drop_first();
            assert(a.remove(0) =~= at);
            assert(b.remove(0) =~= bt);
            assert(at.to_multiset() =~= a.to_multiset().remove(a[0]));
            assert(bt.to_multiset() =~= b.to_multiset().remove(b[0]));
            assert(at.to_multiset() == bt.to_multiset());
            assert forall|i: int, j: int| 0 <= i < j < at.len() implies at[i] < at[j] by {
                assert(at[i] == a[i + 1] && at[j] == a[j + 1]);
            }
            lemma_asc_lex_min(at, bt);
            if at == bt {
                assert forall|t: int| 0 <= t < a.len() implies a[t] == b[t] by {
                    if t > 0 {
                        assert(at[t - 1] == a[t] && bt[t - 1] == b[t]);
                    }
                }
                assert(a =~= b);
            } else {
                assert(lex_lt(at, bt));
                assert(lex_lt(a, b));
            }
        }
    }
}

/// A non-strict order on the suffixes carries over to sequences that agree
/// on the complementary prefix.
pub proof fn lemma_lex_le_with_prefix(a: Seq<usize>, b: Seq<usize>, m: int)
    requires
        a.len() == b.len(),
        0 <= m <= a.len(),
        a.subrange(0, m) == b.subrange(0, m),
        lex_le(a.skip(m), b.skip(m)),
    ensures
        lex_le(a, b),
    decreases m,
{
    if m == 0 {
        assert(a.skip(0) =~= a);
        assert(b.skip(0) =~= b);
    } else {
        assert(a[0] == b[0]) by {
            assert(a.subrange(0, m)[0] == a[0] && b.subrange(0, m)[0] == b[0]);
        }
        let at = a.drop_first();
        let bt = b.drop_first();
        assert(at.subrange(0, m - 1) =~= a.subrange(0, m).subrange(1, m));
        assert(bt.subrange(0, m - 1) =~= b.subrange(0, m).subrange(1, m));
        assert(at.skip(m - 1) =~= a.skip(m));
        assert(bt.skip(m - 1) =~= b.skip(m));
        lemma_lex_le_with_prefix(at, bt, m - 1);
        if at == bt {
            assert forall|t: int| 0 <= t < a.len() implies a[t] == b[t] by {
                if t > 0 {
                    assert(at[t - 1] == a[t] && bt[t - 1] == b[t]);
                }
            }
            assert(a =~= b);
        } else {
            assert(lex_lt(at, bt));
            assert(lex_lt(a, b));
        }
    }
}

/// A strict lexicographic order pins down a first position of difference,
/// where the larger sequence is larger.
pub proof fn lemma_lex_first_diff(a: Seq<usize>, b: Seq<usize>)
    requires
        a.len() == b.len(),
        lex_lt(a, b),
    ensures
        exists|j: int|
            0 <= j < a.len() && a.subrange(0, j) == b.subrange(0, j) && a[j] < #[trigger] b[j],
    decreases a.len(),
{
    if a[0] < b[0] {
        assert(a.subrange(0, 0) =~= b.subrange(0, 0));
        assert(a[0] < b[0]);
    } else {
        lemma_lex_first_diff(a.drop_first(), b.drop_first());
        let j2 = choose|j2: int|
            0 <= j2 < a.drop_first().len() && a.drop_first().subrange(0, j2) == b.drop_first()
                .subrange(0, j2) && a.drop_first()[j2] < #[trigger] b.drop_first()[j2];
        let j = j2 + 1;
        assert(a.subrange(0, j) =~= b.subrange(0, j)) by {
            assert forall|t: int| 0 <= t < j implies a[t] == b[t] by {
                if t > 0 {
                    assert(a.drop_first().subrange(0, j2)[t - 1] == a[t]);
                    assert(b.drop_first().subrange(0, j2)[t - 1] == b[t]);
                }
            }
        }
        assert(a[j] < b[j]);
    }
}

/// One step of the unpruned enumeration keeps the emission log exact:
/// appending the immediate successor of the last permutation preserves
/// "the log holds, once each, exactly the permutations up to the newest".
proof fn lemma_enum_step(e0: Seq<Seq<usize>>, s0: Seq<usize>, sf: Seq<usize>, n: nat)
    requires
        is_index_perm(sf, n),
        s0.len() == n,
        lex_lt(s0, sf),
        e0.no_duplicates(),
        forall|q: Seq<usize>| #[trigger] e0.contains(q) ==> is_index_perm(q, n) && lex_le(q, s0),
        forall|q: Seq<usize>| is_index_perm(q, n) && lex_le(q, s0) ==> #[trigger] e0.contains(q),
        forall|q: Seq<usize>| is_index_perm(q, n) && lex_lt(s0, q) ==> lex_le(sf, q),
    ensures
        e0.push(sf).no_duplicates(),
        forall|q: Seq<usize>| #[trigger] e0.push(sf).contains(q) ==> is_index_perm(q, n)
            && lex_le(q, sf),
        forall|q: Seq<usize>| is_index_perm(q, n) && lex_le(q, sf) ==> #[trigger] e0.push(
            sf,
        ).contains(q),
{
    let e1 = e0.push(sf);
    // nothing in the log equals the newcomer: everything is at most the
    // old permutation, which precedes it strictly
    assert forall|q: Seq<usize>| #[trigger] e0.contains(q) implies lex_lt(q, sf) && q != sf by {
        if q == s0 {
        } else {
            lemma_lex_transitive(q, s0, sf);
        }
        if q == sf {
            lemma_lex_irreflexive(q);
        }
    }
    assert forall|a: int, b: int|
        0 <= a < e1.len() && 0 <= b < e1.len() && a != b implies e1[a] != e1[b] by {
        if a < e0.len() && b < e0.len() {
        } else if a == e0.len() {
            assert(e0.contains(e0[b]));
        } else {
            assert(e0.contains(e0[a]));
        }
    }
    assert forall|q: Seq<usize>| #[trigger] e1.contains(q) implies is_index_perm(q, n) && lex_le(
        q,
        sf,
    ) by {
        let k = choose|k: int| 0 <= k < e1.len() && e1[k] == q;
        if k < e0.len() {
            assert(e0.contains(q));
        }
    }
    assert forall|q: Seq<usize>| is_index_perm(q, n) && lex_le(q, sf) implies #[trigger] e1
        .contains(q) by {
        if q == sf {
            assert(e1[e1.len() - 1] == q);
        } else if lex_le(q, s0) {
            assert(e0.contains(q));
            let k = choose|k: int| 0 <= k < e0.len() && e0[k] == q;
            assert(e1[k] == q);
        } else {
            // past the old permutation but at most the newcomer: it can
            // only be the newcomer, already excluded
            lemma_lex_total(q, s0);
            assert(lex_lt(s0, q));
            assert(lex_le(sf, q));
            lemma_lex_antisymmetric(sf, q);
            assert(false);
        }
    }
}

/// The lexicographic order is antisymmetric.
pub proof fn lemma_lex_antisymmetric(a: Seq<usize>, b: Seq<usize>)
    requires
        a.len() == b.len(),
        lex_le(a, b),
        lex_le(b, a),
    ensures
        a == b,
{
    if a != b {
        lemma_lex_transitive(a, b, a);
        lemma_lex_irreflexive(a);
    }
}

/// The lexicographic order is total on sequences of one length.
pub proof fn lemma_lex_total(a: Seq<usize>, b: Seq<usize>)
    requires
        a.len() == b.len(),
        a != b,
    ensures
        lex_lt(a, b) || lex_lt(b, a),
{
    lemma_first_diff(a, b);
    let j = choose|j: int|
        0 <= j < a.len() && a.subrange(0, j) == b.subrange(0, j) && a[j] != #[trigger] b[j];
    assert forall|t: int| 0 <= t < j implies a[t] == b[t] by {
        assert(a.subrange(0, j)[t] == a[t]);
        assert(b.subrange(0, j)[t] == b[t]);
    }
    if a[j] < b[j] {
        lemma_lex_from_diff(a, b, j);
    } else {
        lemma_lex_from_diff(b, a, j);
    }
}

/// Two distinct sequences of one length have a first position of
/// difference.
proof fn lemma_first_diff(a: Seq<usize>, b: Seq<usize>)
    requires
        a.len() == b.len(),
        a != b,
    ensures
        exists|j: int|
            0 <= j < a.len() && a.subrange(0, j) == b.subrange(0, j) && a[j] != #[trigger] b[j],
    decreases a.len(),
{
    if a.len() == 0 {
        assert(a =~= b);
    } else if a[0] != b[0] {
        assert(a.subrange(0, 0) =~= b.subrange(0, 0));
        assert(a[0] != b[0]);
    } else {
        assert(a.drop_first() != b.drop_first()) by {
            if a.drop_first() == b.drop_first() {
                assert forall|t: int| 0 <= t < a.len() implies a[t] == b[t] by {
                    if t > 0 {
                        assert(a.drop_first()[t - 1] == a[t]);
                        assert(b.drop_first()[t - 1] == b[t]);
                    }
                }
                assert(a =~= b);
            }
        }
        lemma_first_diff(a.drop_first(), b.drop_first());
        let j2 = choose|j2: int|
            0 <= j2 < a.drop_first().len() && a.drop_first().subrange(0, j2) == b.drop_first()
                .subrange(0, j2) && a.drop_first()[j2] != #[trigger] b.drop_first()[j2];
        let j = j2 + 1;
        assert(a.subrange(0, j) =~= b.subrange(0, j)) by {
            assert forall|t: int| 0 <= t < j implies a[t] == b[t] by {
                if t > 0 {
                    assert(a.drop_first().subrange(0, j2)[t - 1] == a[t]);
                    assert(b.drop_first().subrange(0, j2)[t - 1] == b[t]);
                }
            }
        }
        assert(a[j] != b[j]);
    }
}

/// The identity order is the least permutation: iteration starts at the
/// lexicographic minimum.
pub proof fn lemma_identity_least(n: nat, q: Seq<usize>)
    requires
        n <= usize::MAX,
        is_index_perm(q, n),
    ensures
        lex_le(identity_perm(n), q),
{
    let idp = identity_perm(n);
    assert(idp.no_duplicates()) by {
        assert forall|a: int, b: int|
            0 <= a < idp.len() && 0 <= b < idp.len() && a != b implies idp[a] != idp[b] by {
            assert(idp[a] == a as usize && idp[b] == b as usize);
        }
    }
    assert(is_index_perm(idp, n)) by {
        assert forall|i: int| 0 <= i < idp.len() implies idp[i] < n by {
            assert(idp[i] == i as usize);
        }
    }
    lemma_perm_multiset(idp, n);
    lemma_perm_multiset(q, n);
    assert forall|i: int, j: int| 0 <= i < j < idp.len() implies idp[i] < idp[j] by {
        assert(idp[i] == i as usize && idp[j] == j as usize);
    }
    lemma_asc_lex_min(idp, q);
}

/// Pruning is sound. Suppose the output `t` follows the output `s` after a
/// `fail_pos(p)` request at `s`, so that `t` differs from `s` within the
/// first `p + 1` positions (as `next` ensures for the first advance after
/// the pruning), and let `u` be any output from `t` onwards. Then `u` does
/// not share the pruned length-`(p + 1)` prefix of `s` either.
pub proof fn lemma_prune_excludes_prefix(s: Seq<usize>, t: Seq<usize>, u: Seq<usize>, p: int)
    requires
        s.len() == t.len(),
        t.len() == u.len(),
        0 <= p < s.len(),
        lex_lt(s, t),
        t.subrange(0, p + 1) != s.subrange(0, p + 1),
        lex_le(t, u),
    ensures
        u.subrange(0, p + 1) != s.subrange(0, p + 1),
{
    let sp = s.subrange(0, p + 1);
    let tp = t.subrange(0, p + 1);
    let up = u.subrange(0, p + 1);
    lemma_lex_prefix(s, t, p + 1);
    assert(lex_lt(sp, tp));
    if t == u {
        assert(up == tp);
    } else {
        lemma_lex_prefix(t, u, p + 1);
    }
    if up == sp {
        if tp == up {
            lemma_lex_irreflexive(sp);
        } else {
            assert(lex_lt(tp, up));
            lemma_lex_transitive(sp, tp, up);
            lemma_lex_irreflexive(sp);
        }
    }
}

} // verus!
