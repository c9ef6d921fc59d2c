//! LTL constraint building and oracle-answer parsing.
//!
//! At a stuck point the search describes the admissible future orderings as
//! a linear-temporal-logic formula over atoms `xN`, one per pool group, and
//! asks an external satisfiability oracle for a witnessing trace. The
//! formula is built here as a syntax tree and rendered to ASCII; the
//! oracle's text answer is parsed back into an index sequence.

use vstd::prelude::*;

verus! {

/// A linear-temporal-logic formula over atoms `xN`.
pub enum Ltl {
    True,
    Atom(usize),
    Not(Box<Ltl>),
    And(Box<Ltl>, Box<Ltl>),
    Or(Box<Ltl>, Box<Ltl>),
    Implies(Box<Ltl>, Box<Ltl>),
    Globally(Box<Ltl>),
    Finally(Box<Ltl>),
    Next(Box<Ltl>),
    Until(Box<Ltl>, Box<Ltl>),
}

/// The height of a formula tree.
pub open spec fn height(f: Ltl) -> nat
    decreases f,
{
    match f {
        Ltl::True => 1,
        Ltl::Atom(_) => 1,
        Ltl::Not(a) => 1 + height(*a),
        Ltl::And(a, b) => 1 + height(*a) + height(*b),
        Ltl::Or(a, b) => 1 + height(*a) + height(*b),
        Ltl::Implies(a, b) => 1 + height(*a) + height(*b),
        Ltl::Globally(a) => 1 + height(*a),
        Ltl::Finally(a) => 1 + height(*a),
        Ltl::Next(a) => 1 + height(*a),
        Ltl::Until(a, b) => 1 + height(*a) + height(*b),
    }
}

/// The decimal digits of `n`, most significant first.
pub open spec fn spec_digits(n: nat) -> Seq<u8>
    decreases n,
{
    if n < 10 {
        seq![(48 + n) as u8]
    } else {
        spec_digits(n / 10).push((48 + n % 10) as u8)
    }
}

/// The ASCII rendering of a formula: atoms as `xN`, unary operators
/// applied to parenthesized arguments, binary operators parenthesized.
pub open spec fn spec_render(f: Ltl) -> Seq<u8>
    decreases f,
{
    match f {
        Ltl::True => seq![84, 114, 117, 101],
        Ltl::Atom(i) => seq![120] + spec_digits(i as nat),
        Ltl::Not(a) => seq![33] + paren(spec_render(*a)),
        Ltl::And(a, b) => binop(spec_render(*a), seq![38], spec_render(*b)),
        Ltl::Or(a, b) => binop(spec_render(*a), seq![124], spec_render(*b)),
        Ltl::Implies(a, b) => binop(spec_render(*a), seq![45, 62], spec_render(*b)),
        Ltl::Globally(a) => seq![71] + paren(spec_render(*a)),
        Ltl::Finally(a) => seq![70] + paren(spec_render(*a)),
        Ltl::Next(a) => seq![88] + paren(spec_render(*a)),
        Ltl::Until(a, b) => binop(spec_render(*a), seq![85], spec_render(*b)),
    }
}

/// `( body )` without spaces.
pub open spec fn paren(body: Seq<u8>) -> Seq<u8> {
    seq![40] + body + seq![41]
}

/// `( a op b )` with single spaces around the operator.
pub open spec fn binop(a: Seq<u8>, op: Seq<u8>, b: Seq<u8>) -> Seq<u8> {
    seq![40] + a + seq![32] + op + seq![32] + b + seq![41]
}

/// The decimal rendering of `n`.
pub fn fmt_usize(n: usize) -> (r: Vec<u8>)
    ensures
        r@ == spec_digits(n as nat),
    decreases n,
{
    if n < 10 {
        let mut r: Vec<u8> = Vec::new();
        r.push(48 + (n as u8));
        proof {
            assert(r@ =~= spec_digits(n as nat));
        }
        r
    } else {
        let mut r = fmt_usize(n / 10);
        r.push(48 + ((n % 10) as u8));
        r
    }
}

/// Append the rendering of `f` to `out`.
fn render_into(f: &Ltl, out: &mut Vec<u8>)
    ensures
        final(out)@ == old(out)@ + spec_render(*f),
    decreases height(*f),
{
    let ghost pre = out@;
    match f {
        Ltl::True => {
            out.push(84);
            out.push(114);
            out.push(117);
            out.push(101);
            proof {
                assert(out@ =~= pre + spec_render(*f));
            }
        },
        Ltl::Atom(i) => {
            out.push(120);
            let mut ds = fmt_usize(*i);
            out.append(&mut ds);
            proof {
                assert(out@ =~= pre + spec_render(*f));
            }
        },
        Ltl::Not(a) => {
            out.push(33);
            out.push(40);
            render_into(a, out);
            out.push(41);
            proof {
                assert(out@ =~= pre + spec_render(*f));
            }
        },
        Ltl::And(a, b) => {
            render_binop(a, 38, 0, b, out);
            proof {
                assert(out@ =~= pre + spec_render(*f));
            }
        },
        Ltl::Or(a, b) => {
            render_binop(a, 124, 0, b, out);
            proof {
                assert(out@ =~= pre + spec_render(*f));
            }
        },
        Ltl::Implies(a, b) => {
            render_binop(a, 45, 62, b, out);
            proof {
                assert(out@ =~= pre + spec_render(*f));
            }
        },
        Ltl::Globally(a) => {
            out.push(71);
            out.push(40);
            render_into(a, out);
            out.push(41);
            proof {
                assert(out@ =~= pre + spec_render(*f));
            }
        },
        Ltl::Finally(a) => {
            out.push(70);
            out.push(40);
            render_into(a, out);
            out.push(41);
            proof {
                assert(out@ =~= pre + spec_render(*f));
            }
        },
        Ltl::Next(a) => {
            out.push(88);
            out.push(40);
            render_into(a, out);
            out.push(41);
            proof {
                assert(out@ =~= pre + spec_render(*f));
            }
        },
        Ltl::Until(a, b) => {
            render_binop(a, 85, 0, b, out);
            proof {
                assert(out@ =~= pre + spec_render(*f));
            }
        },
    }
}

/// Append `( a op b )`, where the operator is one byte, or two when `op2`
/// is not zero.
fn render_binop(a: &Ltl, op1: u8, op2: u8, b: &Ltl, out: &mut Vec<u8>)
    ensures
        final(out)@ == old(out)@ + seq![40] + spec_render(*a) + seq![32]
            + (if op2 == 0 {
                seq![op1]
            } else {
                seq![op1, op2]
            }) + seq![32] + spec_render(*b) + seq![41],
    decreases height(*a) + height(*b),
{
    out.push(40);
    render_into(a, out);
    out.push(32);
    out.push(op1);
    if op2 != 0 {
        out.push(op2);
    }
    out.push(32);
    render_into(b, out);
    out.push(41);
}

/// The ASCII text of a formula, newline-terminated, ready to hand to the
/// oracle.
pub fn render_formula(f: &Ltl) -> (r: Vec<u8>)
    ensures
        r@ == spec_render(*f) + seq![10],
{
    let mut out: Vec<u8> = Vec::new();
    render_into(f, &mut out);
    out.push(10);
    proof {
        assert(out@ =~= spec_render(*f) + seq![10]);
    }
    out
}

/// The conjunction, over every atom `j` other than `i` below `n`, of
/// `!xj`: no other modification fires in a step that fires `xi`.
pub open spec fn spec_others(i: int, j: int, n: int) -> Ltl
    decreases n - j,
{
    if j >= n {
        Ltl::True
    } else if j == i {
        spec_others(i, j + 1, n)
    } else {
        Ltl::And(
            Box::new(Ltl::Not(Box::new(Ltl::Atom(j as usize)))),
            Box::new(spec_others(i, j + 1, n)),
        )
    }
}

/// The conjunction, over atoms from `i` below `n`, of
/// `G(xi -> spec_others)`: each step activates at most one modification.
pub open spec fn spec_mutex(i: int, n: int) -> Ltl
    decreases n - i,
{
    if i >= n {
        Ltl::True
    } else {
        Ltl::And(
            Box::new(
                Ltl::Globally(
                    Box::new(
                        Ltl::Implies(
                            Box::new(Ltl::Atom(i as usize)),
                            Box::new(spec_others(i, 0, n)),
                        ),
                    ),
                ),
            ),
            Box::new(spec_mutex(i + 1, n)),
        )
    }
}

/// The conjunction, over atoms from `i` below `n`, of `F xi`: every
/// modification eventually occurs.
pub open spec fn spec_eventually(i: int, n: int) -> Ltl
    decreases n - i,
{
    if i >= n {
        Ltl::True
    } else {
        Ltl::And(Box::new(Ltl::Finally(Box::new(Ltl::Atom(i as usize)))), Box::new(
            spec_eventually(i + 1, n),
        ))
    }
}

/// The initial formula over a pool of `n` modifications: truth, each step
/// activates exactly one modification, and every modification eventually
/// occurs.
pub open spec fn spec_initial(n: int) -> Ltl {
    Ltl::And(
        Box::new(Ltl::True),
        Box::new(Ltl::And(Box::new(spec_mutex(0, n)), Box::new(spec_eventually(0, n)))),
    )
}

fn build_others(i: usize, j: usize, n: usize) -> (r: Ltl)
    requires
        j <= n,
    ensures
        r == spec_others(i as int, j as int, n as int),
    decreases n - j,
{
    if j >= n {
        Ltl::True
    } else if j == i {
        build_others(i, j + 1, n)
    } else {
        Ltl::And(Box::new(Ltl::Not(Box::new(Ltl::Atom(j)))), Box::new(build_others(i, j + 1, n)))
    }
}

fn build_mutex(i: usize, n: usize) -> (r: Ltl)
    requires
        i <= n,
    ensures
        r == spec_mutex(i as int, n as int),
    decreases n - i,
{
    if i >= n {
        Ltl::True
    } else {
        Ltl::And(
            Box::new(
                Ltl::Globally(
                    Box::new(Ltl::Implies(Box::new(Ltl::Atom(i)), Box::new(build_others(i, 0, n)))),
                ),
            ),
            Box::new(build_mutex(i + 1, n)),
        )
    }
}

fn build_eventually(i: usize, n: usize) -> (r: Ltl)
    requires
        i <= n,
    ensures
        r == spec_eventually(i as int, n as int),
    decreases n - i,
{
    if i >= n {
        Ltl::True
    } else {
        Ltl::And(Box::new(Ltl::Finally(Box::new(Ltl::Atom(i)))), Box::new(
            build_eventually(i + 1, n),
        ))
    }
}

/// The initial formula over a pool of `n` modifications.
pub fn initial_formula(n: usize) -> (r: Ltl)
    ensures
        r == spec_initial(n as int),
{
    Ltl::And(
        Box::new(Ltl::True),
        Box::new(Ltl::And(Box::new(build_mutex(0, n)), Box::new(build_eventually(0, n)))),
    )
}

/// Whether the session pair at index `m` involves router `r`.
pub open spec fn pair_matches(pairs: Seq<Option<(u64, u64)>>, m: int, r: u64) -> bool {
    pairs[m] matches Some(p) && (p.0 == r || p.1 == r)
}

/// The disjunction, over modifications `m` from `m0` that involve router
/// `r`, are not in the applied prefix and differ from the stuck group `b`,
/// of `!(!xm U xb)`: the stuck group must not fire strictly before `xm`.
/// `None` when no such modification exists.
pub open spec fn spec_router_disj(
    pairs: Seq<Option<(u64, u64)>>,
    prefix: Seq<usize>,
    b: usize,
    r: u64,
    m0: int,
) -> Option<Ltl>
    decreases pairs.len() - m0,
{
    if m0 < 0 || m0 >= pairs.len() {
        None
    } else {
        let rest = spec_router_disj(pairs, prefix, b, r, m0 + 1);
        if pair_matches(pairs, m0, r) && !prefix.contains(m0 as usize) && m0 as usize != b {
            let lit = Ltl::Not(
                Box::new(
                    Ltl::Until(
                        Box::new(Ltl::Not(Box::new(Ltl::Atom(m0 as usize)))),
                        Box::new(Ltl::Atom(b)),
                    ),
                ),
            );
            match rest {
                None => Some(lit),
                Some(d) => Some(Ltl::Or(Box::new(lit), Box::new(d))),
            }
        } else {
            rest
        }
    }
}

/// The conjunction of the per-router disjunctions over the black-holing
/// routers from `k0`: `None` when no router contributes one.
pub open spec fn spec_node_constraints(
    pairs: Seq<Option<(u64, u64)>>,
    prefix: Seq<usize>,
    b: usize,
    nodes: Seq<u64>,
    k0: int,
) -> Option<Ltl>
    decreases nodes.len() - k0,
{
    if k0 < 0 || k0 >= nodes.len() {
        None
    } else {
        let here = spec_router_disj(pairs, prefix, b, nodes[k0], 0);
        let rest = spec_node_constraints(pairs, prefix, b, nodes, k0 + 1);
        match here {
            None => rest,
            Some(h) => match rest {
                None => Some(h),
                Some(t) => Some(Ltl::And(Box::new(h), Box::new(t))),
            },
        }
    }
}

/// The prefix formula: `x_{p0} ∧ XF(x_{p1} ∧ XF(... x_{pL-1}))`, truth for
/// an empty prefix.
pub open spec fn spec_prefix(prefix: Seq<usize>, k: int) -> Ltl
    decreases prefix.len() - k,
{
    if k < 0 || k >= prefix.len() {
        Ltl::True
    } else if k == prefix.len() - 1 {
        Ltl::Atom(prefix[k])
    } else {
        Ltl::And(
            Box::new(Ltl::Atom(prefix[k])),
            Box::new(Ltl::Next(Box::new(Ltl::Finally(Box::new(spec_prefix(prefix, k + 1)))))),
        )
    }
}

fn build_router_disj(
    pairs: &Vec<Option<(u64, u64)>>,
    prefix: &Vec<usize>,
    b: usize,
    r: u64,
    m0: usize,
) -> (res: Option<Ltl>)
    requires
        m0 <= pairs@.len(),
    ensures
        res == spec_router_disj(pairs@, prefix@, b, r, m0 as int),
    decreases pairs@.len() - m0,
{
    if m0 >= pairs.len() {
        None
    } else {
        let rest = build_router_disj(pairs, prefix, b, r, m0 + 1);
        let matches_here = match &pairs[m0] {
            Some(p) => p.0 == r || p.1 == r,
            None => false,
        };
        if matches_here && !crate::strategy_trta::contains_idx(prefix, m0) && m0 != b {
            let lit = Ltl::Not(
                Box::new(
                    Ltl::Until(Box::new(Ltl::Not(Box::new(Ltl::Atom(m0)))), Box::new(Ltl::Atom(b))),
                ),
            );
            match rest {
                None => Some(lit),
                Some(d) => Some(Ltl::Or(Box::new(lit), Box::new(d))),
            }
        } else {
            rest
        }
    }
}

/// The constraint added for a stuck point: the conjunction over the
/// black-holing routers of their disjunctions, or truth when none
/// contributes.
pub fn node_constraints(
    pairs: &Vec<Option<(u64, u64)>>,
    prefix: &Vec<usize>,
    b: usize,
    nodes: &Vec<u64>,
) -> (res: Option<Ltl>)
    ensures
        res == spec_node_constraints(pairs@, prefix@, b, nodes@, 0),
{
    node_constraints_from(pairs, prefix, b, nodes, 0)
}

fn node_constraints_from(
    pairs: &Vec<Option<(u64, u64)>>,
    prefix: &Vec<usize>,
    b: usize,
    nodes: &Vec<u64>,
    k0: usize,
) -> (res: Option<Ltl>)
    requires
        k0 <= nodes@.len(),
    ensures
        res == spec_node_constraints(pairs@, prefix@, b, nodes@, k0 as int),
    decreases nodes@.len() - k0,
{
    if k0 >= nodes.len() {
        None
    } else {
        let here = build_router_disj(pairs, prefix, b, nodes[k0], 0);
        let rest = node_constraints_from(pairs, prefix, b, nodes, k0 + 1);
        match here {
            None => rest,
            Some(h) => match rest {
                None => Some(h),
                Some(t) => Some(Ltl::And(Box::new(h), Box::new(t))),
            },
        }
    }
}

/// The prefix formula for the applied good prefix.
pub fn prefix_formula(prefix: &Vec<usize>) -> (r: Ltl)
    ensures
        r == spec_prefix(prefix@, 0),
{
    prefix_formula_from(prefix, 0)
}

fn prefix_formula_from(prefix: &Vec<usize>, k: usize) -> (r: Ltl)
    requires
        k <= prefix@.len(),
    ensures
        r == spec_prefix(prefix@, k as int),
    decreases prefix@.len() - k,
{
    if k >= prefix.len() {
        Ltl::True
    } else if k == prefix.len() - 1 {
        Ltl::Atom(prefix[k])
    } else {
        Ltl::And(
            Box::new(Ltl::Atom(prefix[k])),
            Box::new(Ltl::Next(Box::new(Ltl::Finally(Box::new(prefix_formula_from(prefix, k + 1)))))),
        )
    }
}

/// An ASCII decimal digit.
pub open spec fn is_digit(c: u8) -> bool {
    48 <= c <= 57
}

/// Space, tab or carriage return.
pub open spec fn is_ws(c: u8) -> bool {
    c == 32 || c == 9 || c == 13
}

/// A byte after which an `xN` token may begin: the very start, a
/// separator, or an opening parenthesis. A token beginning with `!` is a
/// negated literal and is skipped.
pub open spec fn sep_before(b: Seq<u8>, i: int) -> bool {
    i == 0 || is_ws(b[i - 1]) || b[i - 1] == 44 || b[i - 1] == 40 || b[i - 1] == 10
}

/// The position of the first byte at or after `i` that is not a digit.
pub open spec fn digits_end(b: Seq<u8>, i: int) -> int
    decreases b.len() - i,
{
    if 0 <= i < b.len() && is_digit(b[i]) {
        digits_end(b, i + 1)
    } else {
        i
    }
}

/// The value of the decimal digits of `b` in `[i, j)`.
pub open spec fn digits_val(b: Seq<u8>, i: int, j: int) -> nat
    decreases j - i,
{
    if i >= j {
        0
    } else {
        digits_val(b, i, j - 1) * 10 + (b[j - 1] - 48) as nat
    }
}

/// A digit run never ends before it starts, nor after the text ends.
pub proof fn lemma_digits_end_ge(b: Seq<u8>, i: int)
    ensures
        digits_end(b, i) >= i,
        i <= b.len() ==> digits_end(b, i) <= b.len(),
    decreases b.len() - i,
{
    if 0 <= i < b.len() && is_digit(b[i]) {
        lemma_digits_end_ge(b, i + 1);
    }
}

/// The indices asserted positively in the trace text from position `i`
/// on: the values of the maximal digit runs that follow an `x` standing
/// at a token start, skipping runs whose value does not fit the index
/// type.
pub open spec fn spec_indices(b: Seq<u8>, i: int) -> Seq<usize>
    decreases b.len() - i,
    via spec_indices_decreases
{
    if i < 0 || i >= b.len() {
        Seq::<usize>::empty()
    } else if b[i] == 120 && sep_before(b, i) && i + 1 < b.len() && is_digit(b[i + 1]) {
        let j = digits_end(b, i + 1);
        let v = digits_val(b, i + 1, j);
        if v <= usize::MAX as nat {
            seq![v as usize] + spec_indices(b, j)
        } else {
            spec_indices(b, j)
        }
    } else {
        spec_indices(b, i + 1)
    }
}

#[via_fn]
proof fn spec_indices_decreases(b: Seq<u8>, i: int) {
    if 0 <= i < b.len() && b[i] == 120 && sep_before(b, i) && i + 1 < b.len() && is_digit(
        b[i + 1],
    ) {
        lemma_digits_end_ge(b, i + 1);
        assert(i < digits_end(b, i + 1) <= b.len());
    }
}

/// The position of the first newline at or after `i`, or the length.
pub open spec fn line_end(b: Seq<u8>, i: int) -> int
    decreases b.len() - i,
{
    if 0 <= i < b.len() && b[i] != 10 {
        line_end(b, i + 1)
    } else {
        i
    }
}

/// Whether the oracle's answer reports satisfiability: its second line,
/// trimmed of surrounding blanks, is exactly `sat`.
pub open spec fn is_sat_answer(b: Seq<u8>) -> bool {
    let e1 = line_end(b, 0);
    if e1 >= b.len() {
        false
    } else {
        let s2 = e1 + 1;
        let e2 = line_end(b, s2);
        let lo = trim_fwd(b, s2, e2);
        let hi = trim_back(b, lo, e2);
        hi - lo == 3 && b[lo] == 115 && b[lo + 1] == 97 && b[lo + 2] == 116
    }
}

/// The first non-blank position in `[i, j)`, or `j`.
pub open spec fn trim_fwd(b: Seq<u8>, i: int, j: int) -> int
    decreases j - i,
{
    if i < j && 0 <= i < b.len() && is_ws(b[i]) {
        trim_fwd(b, i + 1, j)
    } else {
        i
    }
}

/// One past the last non-blank position in `[i, j)`, or `i`.
pub open spec fn trim_back(b: Seq<u8>, i: int, j: int) -> int
    decreases j - i,
{
    if i < j && 0 <= j - 1 < b.len() && is_ws(b[j - 1]) {
        trim_back(b, i, j - 1)
    } else {
        j
    }
}

/// The position of the first newline at or after `from`, or the length.
fn find_line_end(b: &Vec<u8>, from: usize) -> (r: usize)
    requires
        from <= b@.len(),
    ensures
        r == line_end(b@, from as int),
        from <= r <= b@.len(),
{
    let mut i = from;
    while i < b.len()
        invariant
            from <= i <= b@.len(),
            line_end(b@, from as int) == line_end(b@, i as int),
        decreases b@.len() - i,
    {
        if b[i] == 10 {
            return i;
        }
        i += 1;
    }
    i
}

/// Parse the oracle's text answer. `Some`, with the positively asserted
/// indices in trace order, exactly when the answer reports satisfiability.
#[verifier::loop_isolation(false)]
pub fn parse_oracle_response(b: &Vec<u8>) -> (r: Option<Vec<usize>>)
    requires
        b@.len() < usize::MAX,
    ensures
        (r is Some) == is_sat_answer(b@),
        r matches Some(v) ==> v@ == spec_indices(b@, line_end(b@, line_end(b@, 0) + 1) + 1),
{
    let e1 = find_line_end(b, 0);
    if e1 >= b.len() {
        return None;
    }
    let s2 = e1 + 1;
    let e2 = find_line_end(b, s2);
    // trim the status line
    let mut lo = s2;
    while lo < e2 && (b[lo] == 32 || b[lo] == 9 || b[lo] == 13)
        invariant
            s2 <= lo <= e2,
            trim_fwd(b@, s2 as int, e2 as int) == trim_fwd(b@, lo as int, e2 as int),
        decreases e2 - lo,
    {
        lo += 1;
    }
    let mut hi = e2;
    while hi > lo && (b[hi - 1] == 32 || b[hi - 1] == 9 || b[hi - 1] == 13)
        invariant
            lo <= hi <= e2,
            trim_back(b@, lo as int, e2 as int) == trim_back(b@, lo as int, hi as int),
        decreases hi,
    {
        hi -= 1;
    }
    proof {
        assert(lo == trim_fwd(b@, s2 as int, e2 as int));
        assert(hi == trim_back(b@, lo as int, e2 as int));
    }
    let sat = hi - lo == 3 && b[lo] == 115 && b[lo + 1] == 97 && b[lo + 2] == 116;
    if !sat {
        proof {
            assert(!is_sat_answer(b@));
        }
        return None;
    }
    proof {
        assert(is_sat_answer(b@));
    }
    // scan the trace lines for positively asserted atoms
    let start = e2 + 1;
    let mut i = start;
    let mut out: Vec<usize> = Vec::new();
    proof {
        if start > b@.len() {
            assert(spec_indices(b@, start as int) =~= Seq::<usize>::empty());
        }
    }
    while i < b.len()
        invariant
            start <= i,
            i <= b@.len() || i == start,
            out@ + spec_indices(b@, i as int) == spec_indices(b@, start as int),
        decreases b@.len() - i,
    {
        let sep = i == 0 || {
            let c = b[i - 1];
            c == 32 || c == 9 || c == 13 || c == 44 || c == 40 || c == 10
        };
        let starts_atom = b[i] == 120 && sep && i + 1 < b.len() && 48 <= b[i + 1] && b[i + 1]
            <= 57;
        if starts_atom {
            let mut j = i + 1;
            let mut val: usize = 0;
            let mut over = false;
            while j < b.len() && 48 <= b[j] && b[j] <= 57
                invariant
                    i + 1 <= j <= b@.len(),
                    digits_end(b@, i + 1) == digits_end(b@, j as int),
                    !over ==> val == digits_val(b@, i + 1, j as int),
                    over ==> digits_val(b@, i + 1, j as int) > usize::MAX,
                decreases b@.len() - j,
            {
                let d = (b[j] - 48) as usize;
                proof {
                    assert(digits_val(b@, i + 1, j + 1) == digits_val(b@, i + 1, j as int) * 10
                        + (b@[j as int] - 48));
                }
                if !over {
                    if val > (usize::MAX - d) / 10 {
                        proof {
                            assert(val * 10 + d > usize::MAX) by (nonlinear_arith)
                                requires
                                    val > (usize::MAX - d) / 10,
                                    d <= 9,
                            ;
                        }
                        over = true;
                    } else {
                        proof {
                            assert(val * 10 + d <= usize::MAX) by (nonlinear_arith)
                                requires
                                    val <= (usize::MAX - d) / 10,
                                    d <= 9,
                            ;
                        }
                        val = val * 10 + d;
                    }
                } else {
                    proof {
                        assert(digits_val(b@, i + 1, j as int) * 10 + (b@[j as int] - 48)
                            >= digits_val(b@, i + 1, j as int));
                    }
                }
                j += 1;
            }
            proof {
                assert(digits_end(b@, j as int) == j);
                assert(digits_end(b@, i + 1) == j);
            }
            let ghost pre_out = out@;
            if !over {
                out.push(val);
            }
            proof {
                if !over {
                    assert(spec_indices(b@, i as int) == seq![val] + spec_indices(b@, j as int));
                    assert(out@ + spec_indices(b@, j as int) =~= pre_out + spec_indices(
                        b@,
                        i as int,
                    ));
                } else {
                    assert(spec_indices(b@, i as int) == spec_indices(b@, j as int));
                }
            }
            i = j;
        } else {
            proof {
                assert(spec_indices(b@, i as int) == spec_indices(b@, i + 1));
            }
            i += 1;
        }
    }
    proof {
        assert(spec_indices(b@, i as int) =~= Seq::<usize>::empty());
        assert(out@ =~= spec_indices(b@, start as int));
    }
    Some(out)
}

} // verus!
