use vstd::prelude::*;
use crate::planning::classical::state::{
    applicable, holds, lits_in_range, Lit, Op, OperatorView, Operators, State, SV,
};

verus! {

/// Estimated number of actions needed to reach something.
pub type Cost = u64;

/// Cost of what cannot be reached.
pub const INFTY: Cost = 0x1_0000_0000_0000u64;

/// Position of the literal `l` in a table of literal costs: two slots per
/// variable, the negative literal first.
pub open spec fn lit_index(l: Lit) -> int {
    2 * l.sv.0 + if l.positive {
        1int
    } else {
        0int
    }
}

/// Cost of the literal `l` in the table `costs`. A literal about a variable
/// outside the table is free when negative (such a variable is false) and
/// unreachable when positive.
pub open spec fn lit_cost_of(costs: Seq<Cost>, l: Lit) -> int {
    if l.sv.0 < costs.len() / 2 {
        costs[lit_index(l)] as int
    } else if l.positive {
        INFTY as int
    } else {
        0
    }
}

/// Sum of the costs of the literals of `lits`.
pub open spec fn cost_sum(costs: Seq<Cost>, lits: Seq<Lit>) -> int
    decreases lits.len(),
{
    if lits.len() == 0 {
        0
    } else {
        cost_sum(costs, lits.drop_last()) + lit_cost_of(costs, lits.last())
    }
}

/// Sum of all entries of a cost table.
pub open spec fn total(costs: Seq<Cost>) -> int
    decreases costs.len(),
{
    if costs.len() == 0 {
        0
    } else {
        total(costs.drop_last()) + costs.last()
    }
}

/// The costs are those of the state `s`: a literal that holds in `s` costs 0,
/// every other costs between 1 and [`INFTY`].
pub open spec fn grounded_in(costs: Seq<Cost>, s: Seq<bool>) -> bool {
    &&& costs.len() == 2 * s.len()
    &&& forall|i: int| 0 <= i < costs.len() ==> #[trigger] costs[i] <= INFTY
    &&& forall|l: Lit|
        l.sv.0 < s.len() ==> (holds(s, l) <==> #[trigger] lit_cost_of(costs, l) == 0)
}

/// No operator offers a cheaper way to reach one of its effects: the cost of
/// each effect is at most one plus the sum of the costs of the preconditions.
pub open spec fn relaxed(costs: Seq<Cost>, ops: Seq<OperatorView>) -> bool {
    forall|k: int, j: int|
        0 <= k < ops.len() && 0 <= j < ops[k].effects.len() ==> lit_cost_of(
            costs,
            #[trigger] ops[k].effects[j],
        ) <= 1 + cost_sum(costs, ops[k].precond)
}

/// Each finite cost of a literal that does not hold in `s` is justified by an
/// operator that achieves it: the cost is at least one plus the sum of the
/// costs of that operator's preconditions.
pub open spec fn supported(costs: Seq<Cost>, s: Seq<bool>, ops: Seq<OperatorView>) -> bool {
    forall|l: Lit|
        l.sv.0 < s.len() && !holds(s, l) && #[trigger] lit_cost_of(costs, l) < INFTY ==> exists|
            k: int,
            j: int,
        |
            0 <= k < ops.len() && 0 <= j < ops[k].effects.len() && #[trigger] ops[k].effects[j]
                == l && lit_cost_of(costs, l) >= 1 + cost_sum(costs, ops[k].precond)
}

/// The operators among the first `m` that are applicable in `s`, in order.
pub open spec fn applicable_upto(ops: Seq<OperatorView>, s: Seq<bool>, m: nat) -> Seq<Op>
    decreases m,
{
    if m == 0 {
        Seq::empty()
    } else {
        let j = (m - 1) as nat;
        applicable_upto(ops, s, j) + if applicable(ops, s, Op(j as usize)) {
            seq![Op(j as usize)]
        } else {
            Seq::empty()
        }
    }
}

/// Every operator of `seq` is applicable in `s`, and every operator applicable
/// in `s` is in `seq`.
pub proof fn lemma_applicable_upto(ops: Seq<OperatorView>, s: Seq<bool>, m: nat)
    requires
        m <= ops.len(),
        m <= usize::MAX,
    ensures
        forall|i: int|
            0 <= i < applicable_upto(ops, s, m).len() ==> {
                &&& applicable(ops, s, #[trigger] applicable_upto(ops, s, m)[i])
                &&& applicable_upto(ops, s, m)[i].0 < m
            },
        forall|o: Op|
            o.0 < m && applicable(ops, s, o) ==> #[trigger] applicable_upto(ops, s, m).contains(o),
    decreases m,
{
    if m > 0 {
        let j = (m - 1) as nat;
        lemma_applicable_upto(ops, s, j);
        let prev = applicable_upto(ops, s, j);
        assert forall|o: Op|
            o.0 < m && applicable(ops, s, o) implies #[trigger] applicable_upto(ops, s, m).contains(o) by {
            if o.0 < j {
                assert(prev.contains(o));
                let i = choose|i: int| 0 <= i < prev.len() && prev[i] == o;
                assert(applicable_upto(ops, s, m)[i] == o);
            } else {
                assert(applicable_upto(ops, s, m)[prev.len() as int] == o);
            }
        }
    }
}

proof fn lemma_cost_sum_mono(a: Seq<Cost>, b: Seq<Cost>, lits: Seq<Lit>)
    requires
        a.len() == b.len(),
        forall|i: int| 0 <= i < a.len() ==> a[i] <= b[i],
    ensures
        cost_sum(a, lits) <= cost_sum(b, lits),
    decreases lits.len(),
{
    if lits.len() > 0 {
        lemma_cost_sum_mono(a, b, lits.drop_last());
    }
}

proof fn lemma_cost_sum_nonneg(costs: Seq<Cost>, lits: Seq<Lit>)
    ensures
        cost_sum(costs, lits) >= 0,
    decreases lits.len(),
{
    if lits.len() > 0 {
        lemma_cost_sum_nonneg(costs, lits.drop_last());
    }
}

proof fn lemma_cost_sum_prefix(costs: Seq<Cost>, lits: Seq<Lit>, j: int)
    requires
        0 <= j <= lits.len(),
    ensures
        cost_sum(costs, lits.take(j)) <= cost_sum(costs, lits),
    decreases lits.len(),
{
    if j < lits.len() {
        assert(lits.drop_last().take(j) =~= lits.take(j));
        lemma_cost_sum_prefix(costs, lits.drop_last(), j);
        assert(lit_cost_of(costs, lits.last()) >= 0);
    } else {
        assert(lits.take(j) =~= lits);
    }
}

proof fn lemma_total_update(costs: Seq<Cost>, i: int, v: Cost)
    requires
        0 <= i < costs.len(),
    ensures
        total(costs.update(i, v)) == total(costs) - costs[i] + v,
    decreases costs.len(),
{
    if i < costs.len() - 1 {
        assert(costs.update(i, v).drop_last() =~= costs.drop_last().update(i, v));
        lemma_total_update(costs.drop_last(), i, v);
    } else {
        assert(costs.update(i, v).drop_last() =~= costs.drop_last());
    }
}

proof fn lemma_total_nonneg(costs: Seq<Cost>)
    ensures
        total(costs) >= 0,
    decreases costs.len(),
{
    if costs.len() > 0 {
        lemma_total_nonneg(costs.drop_last());
    }
}

/// The h_add costs of the literals in the state `s`: the table that is
/// grounded in `s`, relaxed and supported (there is exactly one, see
/// [`lemma_hadd_unique`]).
pub open spec fn hadd_costs(s: Seq<bool>, ops: Seq<OperatorView>) -> Seq<Cost> {
    choose|c: Seq<Cost>| grounded_in(c, s) && relaxed(c, ops) && supported(c, s, ops)
}

proof fn lemma_cost_sum_mono_on(a: Seq<Cost>, b: Seq<Cost>, lits: Seq<Lit>)
    requires
        forall|i: int| 0 <= i < lits.len() ==> lit_cost_of(a, #[trigger] lits[i]) <= lit_cost_of(b, lits[i]),
    ensures
        cost_sum(a, lits) <= cost_sum(b, lits),
    decreases lits.len(),
{
    if lits.len() > 0 {
        assert forall|i: int| 0 <= i < lits.drop_last().len() implies lit_cost_of(
            a,
            #[trigger] lits.drop_last()[i],
        ) <= lit_cost_of(b, lits.drop_last()[i]) by {
            assert(lits.drop_last()[i] == lits[i]);
        }
        lemma_cost_sum_mono_on(a, b, lits.drop_last());
        assert(lits.last() == lits[lits.len() - 1]);
    }
}

proof fn lemma_cost_sum_term(costs: Seq<Cost>, lits: Seq<Lit>, i: int)
    requires
        0 <= i < lits.len(),
        forall|j: int| 0 <= j < lits.len() ==> lit_cost_of(costs, #[trigger] lits[j]) >= 0,
    ensures
        lit_cost_of(costs, lits[i]) <= cost_sum(costs, lits),
    decreases lits.len(),
{
    lemma_cost_sum_nonneg(costs, lits.drop_last());
    if i < lits.len() - 1 {
        assert(lits.drop_last()[i] == lits[i]);
        assert forall|j: int| 0 <= j < lits.drop_last().len() implies lit_cost_of(
            costs,
            #[trigger] lits.drop_last()[j],
        ) >= 0 by {
            assert(lits.drop_last()[j] == lits[j]);
        }
        lemma_cost_sum_term(costs, lits.drop_last(), i);
        assert(lit_cost_of(costs, lits[lits.len() - 1]) >= 0);
    }
}

/// Below any bound `v`, the costs of a supported table are at least those of
/// a relaxed one.
proof fn lemma_hadd_le(c1: Seq<Cost>, c2: Seq<Cost>, s: Seq<bool>, ops: Seq<OperatorView>, v: nat)
    requires
        grounded_in(c1, s),
        relaxed(c1, ops),
        grounded_in(c2, s),
        supported(c2, s, ops),
    ensures
        forall|l: Lit| l.sv.0 < s.len() && lit_cost_of(c2, l) < v ==> #[trigger] lit_cost_of(c1, l) <= lit_cost_of(c2, l),
    decreases v,
{
    if v > 0 {
        let w = (v - 1) as nat;
        lemma_hadd_le(c1, c2, s, ops, w);
        assert forall|l: Lit| l.sv.0 < s.len() && lit_cost_of(c2, l) < v implies #[trigger] lit_cost_of(c1, l)
            <= lit_cost_of(c2, l) by {
            if lit_cost_of(c2, l) == w && lit_cost_of(c1, l) > lit_cost_of(c2, l) {
                let i = lit_index(l);
                assert(c1[i] <= INFTY);
                if holds(s, l) {
                    assert(lit_cost_of(c1, l) == 0);
                } else {
                    let (k, j) = choose|k: int, j: int|
                        0 <= k < ops.len() && 0 <= j < ops[k].effects.len() && #[trigger] ops[k].effects[j] == l
                            && lit_cost_of(c2, l) >= 1 + cost_sum(c2, ops[k].precond);
                    assert(lit_cost_of(c1, ops[k].effects[j]) <= 1 + cost_sum(c1, ops[k].precond));
                    let pre = ops[k].precond;
                    if forall|t: int| 0 <= t < pre.len() ==> lit_cost_of(c1, #[trigger] pre[t]) <= lit_cost_of(c2, pre[t]) {
                        lemma_cost_sum_mono_on(c1, c2, pre);
                    } else {
                        let t = choose|t: int| 0 <= t < pre.len() && !(lit_cost_of(c1, #[trigger] pre[t]) <= lit_cost_of(c2, pre[t]));
                        assert forall|u: int| 0 <= u < pre.len() implies lit_cost_of(c2, #[trigger] pre[u]) >= 0 by {
                            lemma_lit_cost_nonneg(c2, pre[u]);
                        }
                        lemma_cost_sum_term(c2, pre, t);
                        let p = pre[t];
                        if p.sv.0 < s.len() {
                            assert(lit_cost_of(c2, p) < w);
                        }
                    }
                }
            }
        }
    }
}

proof fn lemma_lit_cost_nonneg(costs: Seq<Cost>, l: Lit)
    ensures
        lit_cost_of(costs, l) >= 0,
{
}

/// The h_add cost table of a state is unique: two tables that are both
/// grounded in `s`, relaxed and supported are equal.
pub proof fn lemma_hadd_unique(c1: Seq<Cost>, c2: Seq<Cost>, s: Seq<bool>, ops: Seq<OperatorView>)
    requires
        grounded_in(c1, s) && relaxed(c1, ops) && supported(c1, s, ops),
        grounded_in(c2, s) && relaxed(c2, ops) && supported(c2, s, ops),
        s.len() < usize::MAX / 2,
    ensures
        c1 == c2,
{
    lemma_hadd_le(c1, c2, s, ops, (INFTY + 1) as nat);
    lemma_hadd_le(c2, c1, s, ops, (INFTY + 1) as nat);
    assert forall|i: int| 0 <= i < c1.len() implies c1[i] == c2[i] by {
        let h = i / 2;
        assert(i == 2 * h + i % 2);
        assert(0 <= h < s.len());
        let l = Lit { sv: SV(h as usize), positive: i % 2 == 1 };
        assert(l.sv.0 == h);
        assert(lit_index(l) == i);
        assert(c1[i] <= INFTY && c2[i] <= INFTY);
        assert(lit_cost_of(c1, l) == c1[i]);
        assert(lit_cost_of(c2, l) == c2[i]);
    }
    assert(c1 =~= c2);
}

/// Result of the h_add heuristic in a state: the cost of each literal and the
/// operators applicable in that state.
pub struct HAddResult {
    lit_costs: Vec<Cost>,
    applicable: Vec<Op>,
}

impl HAddResult {
    /// Cost of each literal, at [`lit_index`].
    pub closed spec fn costs(&self) -> Seq<Cost> {
        self.lit_costs@
    }

    /// The applicable operators, in order.
    pub closed spec fn applicable_ops(&self) -> Seq<Op> {
        self.applicable@
    }

    /// Estimated cost of reaching the literal `lit`.
    pub fn lit_cost(&self, lit: Lit) -> (r: Cost)
        ensures
            r == lit_cost_of(self.costs(), lit),
    {
        if lit.sv.0 < self.lit_costs.len() / 2 {
            let i = index_of(lit.sv.0, lit.positive);
            self.lit_costs[i]
        } else if lit.positive {
            INFTY
        } else {
            0
        }
    }

    /// Estimated cost of reaching all literals of `conjunction`: the sum of
    /// their costs (saturated at `u64::MAX`).
    pub fn conjunction_cost(&self, conjunction: &[Lit]) -> (r: Cost)
        ensures
            r == if cost_sum(self.costs(), conjunction@) < u64::MAX {
                cost_sum(self.costs(), conjunction@)
            } else {
                u64::MAX as int
            },
    {
        let mut acc: Cost = 0;
        for i in 0..conjunction.len()
            invariant
                acc == if cost_sum(self.costs(), conjunction@.take(i as int)) < u64::MAX {
                    cost_sum(self.costs(), conjunction@.take(i as int))
                } else {
                    u64::MAX as int
                },
        {
            assert(conjunction@.take(i + 1).drop_last() =~= conjunction@.take(i as int));
            proof {
                lemma_cost_sum_nonneg(self.costs(), conjunction@.take(i as int));
            }
            acc = acc.saturating_add(self.lit_cost(conjunction[i]));
        }
        assert(conjunction@.take(conjunction@.len() as int) =~= conjunction@);
        acc
    }

    /// The operators applicable in the evaluated state, in order.
    pub fn applicable_operators(&self) -> (r: &[Op])
        ensures
            r@ == self.applicable_ops(),
    {
        self.applicable.as_slice()
    }
}

/// Index of the literal `(sv, positive)` in a table of literal costs.
fn index_of(sv: usize, positive: bool) -> (r: usize)
    requires
        sv < usize::MAX / 2,
    ensures
        r == lit_index(Lit { sv: SV(sv), positive }),
{
    if positive {
        2 * sv + 1
    } else {
        2 * sv
    }
}

/// Sum of the costs of the preconditions `pre`, or some value at least
/// [`INFTY`] when that sum reaches [`INFTY`].
fn precondition_cost(costs: &Vec<Cost>, pre: &[Lit]) -> (r: Cost)
    requires
        forall|i: int| 0 <= i < costs@.len() ==> costs@[i] <= INFTY,
    ensures
        r < INFTY ==> r == cost_sum(costs@, pre@),
        r >= INFTY ==> cost_sum(costs@, pre@) >= INFTY,
{
    let mut acc: Cost = 0;
    let mut j: usize = 0;
    while j < pre.len() && acc < INFTY
        invariant
            j <= pre@.len(),
            acc == cost_sum(costs@, pre@.take(j as int)),
            acc <= 2 * INFTY,
            forall|i: int| 0 <= i < costs@.len() ==> costs@[i] <= INFTY,
        decreases pre@.len() - j,
    {
        assert(pre@.take(j + 1).drop_last() =~= pre@.take(j as int));
        let l = pre[j];
        let c = if l.sv.0 < costs.len() / 2 {
            let i = index_of(l.sv.0, l.positive);
            costs[i]
        } else if l.positive {
            INFTY
        } else {
            0
        };
        acc = acc + c;
        j = j + 1;
    }
    proof {
        lemma_cost_sum_prefix(costs@, pre@, j as int);
        if j == pre@.len() {
            assert(pre@.take(j as int) =~= pre@);
        }
    }
    acc
}

/// The h_add heuristic in the state `state`: each literal that holds costs 0;
/// the cost of any other literal is the smallest, over the operators that
/// achieve it, of one plus the sum of the costs of their preconditions
/// ([`INFTY`] when none can be reached). Also gives the operators applicable in `state`.
pub fn hadd(state: &State, ops: &Operators) -> (res: HAddResult)
    requires
        state@.len() < usize::MAX / 2,
        forall|k: int| 0 <= k < ops@.len() ==> lits_in_range(#[trigger] ops@[k].effects, state@.len()),
    ensures
        grounded_in(res.costs(), state@),
        relaxed(res.costs(), ops@),
        supported(res.costs(), state@, ops@),
        res.applicable_ops() == applicable_upto(ops@, state@, ops@.len()),
        res.costs() == hadd_costs(state@, ops@),
{
    let n = state.size();
    let ghost s = state@;
    let mut costs: Vec<Cost> = Vec::new();
    for i in 0..n
        invariant
            n == s.len(),
            n < usize::MAX / 2,
            s == state@,
            costs@.len() == 2 * i,
            forall|j: int| 0 <= j < costs@.len() ==> #[trigger] costs@[j] <= INFTY,
            forall|v: int|
                0 <= v < i ==> {
                    &&& costs@[2 * v] == if s[v] {
                        INFTY
                    } else {
                        0
                    }
                    &&& costs@[2 * v + 1] == if s[v] {
                        0
                    } else {
                        INFTY
                    }
                },
    {
        let v = state.is_set(SV(i));
        let ghost prev = costs@;
        costs.push(if v { INFTY } else { 0 });
        costs.push(if v { 0 } else { INFTY });
        assert forall|w: int| 0 <= w < i + 1 implies {
            &&& costs@[2 * w] == if s[w] {
                INFTY
            } else {
                0
            }
            &&& costs@[2 * w + 1] == if s[w] {
                0
            } else {
                INFTY
            }
        } by {
            if w < i {
                assert(costs@[2 * w] == prev[2 * w]);
                assert(costs@[2 * w + 1] == prev[2 * w + 1]);
            }
        }
    }
    assert(grounded_index(costs@, s)) by {
        assert forall|v: int| 0 <= v < s.len() implies #[trigger] costs@[2 * v] <= INFTY && costs@[2 * v
            + 1] <= INFTY && (costs@[2 * v] == 0 <==> !s[v]) && (costs@[2 * v + 1] == 0 <==> s[v]) by {}
    }
    assert(supported(costs@, s, ops@)) by {
        assert forall|l: Lit|
            l.sv.0 < s.len() && !holds(s, l) && #[trigger] lit_cost_of(costs@, l) < INFTY implies false by {}
    }
    let nops = ops.size();
    let mut changed = true;
    while changed
        invariant
            nops == ops@.len(),
            n == s.len(),
            n < usize::MAX / 2,
            grounded_index(costs@, s),
            supported(costs@, s, ops@),
            !changed ==> relaxed(costs@, ops@),
            forall|k: int| 0 <= k < ops@.len() ==> lits_in_range(#[trigger] ops@[k].effects, s.len()),
        decreases total(costs@) + if changed {
            1int
        } else {
            0int
        },
    {
        let ghost start = costs@;
        proof {
            lemma_total_nonneg(costs@);
        }
        changed = false;
        for k in 0..nops
            invariant
                nops == ops@.len(),
                n == s.len(),
                n < usize::MAX / 2,
                grounded_index(costs@, s),
                supported(costs@, s, ops@),
                forall|k: int| 0 <= k < ops@.len() ==> lits_in_range(#[trigger] ops@[k].effects, s.len()),
                changed ==> total(costs@) < total(start),
                !changed ==> costs@ == start,
                !changed ==> forall|k2: int, j: int|
                    0 <= k2 < k && 0 <= j < ops@[k2].effects.len() ==> lit_cost_of(
                        costs@,
                        #[trigger] ops@[k2].effects[j],
                    ) <= 1 + cost_sum(costs@, ops@[k2].precond),
        {
            proof {
                assert(lits_in_range(ops@[k as int].effects, s.len()));
            }
            let ch = relax_op(&mut costs, ops, k, Ghost(s));
            changed = changed || ch;
        }
        proof {
            lemma_total_nonneg(costs@);
        }
    }
    let mut applicable: Vec<Op> = Vec::new();
    for k in 0..nops
        invariant
            nops == ops@.len(),
            s == state@,
            applicable@ == applicable_upto(ops@, s, k as nat),
    {
        if state.entails_all(ops.preconditions(Op(k))) {
            applicable.push(Op(k));
        }
    }
    proof {
        grounded_from_index(costs@, s);
        let c = hadd_costs(s, ops@);
        assert(grounded_in(costs@, s) && relaxed(costs@, ops@) && supported(costs@, s, ops@));
        lemma_hadd_unique(c, costs@, s, ops@);
    }
    HAddResult { lit_costs: costs, applicable }
}

/// Lowers the cost of the effects of the operator `k` to one plus the cost of
/// its preconditions, where that is cheaper. Returns whether a cost changed.
fn relax_op(costs: &mut Vec<Cost>, ops: &Operators, k: usize, Ghost(s): Ghost<Seq<bool>>) -> (changed: bool)
    requires
        k < ops@.len(),
        s.len() < usize::MAX / 2,
        grounded_index(old(costs)@, s),
        supported(old(costs)@, s, ops@),
        lits_in_range(ops@[k as int].effects, s.len()),
    ensures
        grounded_index(final(costs)@, s),
        supported(final(costs)@, s, ops@),
        changed ==> total(final(costs)@) < total(old(costs)@),
        !changed ==> final(costs)@ == old(costs)@,
        !changed ==> forall|j: int|
            0 <= j < ops@[k as int].effects.len() ==> lit_cost_of(
                final(costs)@,
                #[trigger] ops@[k as int].effects[j],
            ) <= 1 + cost_sum(final(costs)@, ops@[k as int].precond),
{
    let ghost before_op = costs@;
    let n = costs.len() / 2;
    let pre = ops.preconditions(Op(k));
    let effects = ops.effects(Op(k));
    let acc = precondition_cost(&costs, pre);
    let mut changed = false;
    if acc < INFTY {
        let c = acc + 1;
        for j in 0..effects.len()
            invariant
                k < ops@.len(),
                n == s.len(),
                n < usize::MAX / 2,
                effects@ == ops@[k as int].effects,
                pre@ == ops@[k as int].precond,
                lits_in_range(effects@, s.len()),
                c == 1 + cost_sum(before_op, pre@),
                c >= 1,
                c <= INFTY,
                costs@.len() == before_op.len(),
                forall|i: int| 0 <= i < costs@.len() ==> costs@[i] <= before_op[i],
                grounded_index(costs@, s),
                supported(costs@, s, ops@),
                forall|j2: int| 0 <= j2 < j ==> lit_cost_of(costs@, #[trigger] effects@[j2]) <= c,
                changed ==> total(costs@) < total(before_op),
                !changed ==> costs@ == before_op,
        {
            let e = effects[j];
            assert(effects@[j as int].sv.0 < s.len());
            let idx = index_of(e.sv.0, e.positive);
            if c < costs[idx] {
                let ghost old_costs = costs@;
                proof {
                    lemma_cost_sum_mono(old_costs, before_op, pre@);
                    update_preserves(old_costs, s, ops@, k as int, j as int, c);
                    lemma_total_update(old_costs, idx as int, c);
                }
                costs.set(idx, c);
                changed = true;
            }
            assert forall|j2: int| 0 <= j2 < j + 1 implies lit_cost_of(
                costs@,
                #[trigger] effects@[j2],
            ) <= c by {
                if j2 < j {
                }
            }
        }
        proof {
            if !changed {
                assert forall|j: int| 0 <= j < ops@[k as int].effects.len() implies lit_cost_of(
                    costs@,
                    #[trigger] ops@[k as int].effects[j],
                ) <= 1 + cost_sum(costs@, ops@[k as int].precond) by {
                    assert(effects@[j] == ops@[k as int].effects[j]);
                }
            }
        }
    } else {
        proof {
            assert forall|j: int| 0 <= j < ops@[k as int].effects.len() implies lit_cost_of(
                costs@,
                #[trigger] ops@[k as int].effects[j],
            ) <= 1 + cost_sum(costs@, ops@[k as int].precond) by {
                lemma_lit_cost_bounded(costs@, s, ops@[k as int].effects[j]);
            }
        }
    }
    changed
}

/// Index form of [`grounded_in`].
spec fn grounded_index(costs: Seq<Cost>, s: Seq<bool>) -> bool {
    &&& costs.len() == 2 * s.len()
    &&& forall|i: int| 0 <= i < costs.len() ==> #[trigger] costs[i] <= INFTY
    &&& forall|v: int|
        0 <= v < s.len() ==> (#[trigger] costs[2 * v] == 0 <==> !s[v]) && (costs[2 * v + 1] == 0
            <==> s[v])
}

proof fn grounded_from_index(costs: Seq<Cost>, s: Seq<bool>)
    requires
        grounded_index(costs, s),
    ensures
        grounded_in(costs, s),
{
    assert forall|l: Lit| l.sv.0 < s.len() implies (holds(s, l) <==> #[trigger] lit_cost_of(costs, l)
        == 0) by {
        let v = l.sv.0 as int;
        assert(costs[2 * v] == 0 <==> !s[v]);
    }
}

proof fn lemma_lit_cost_bounded(costs: Seq<Cost>, s: Seq<bool>, l: Lit)
    requires
        grounded_index(costs, s),
    ensures
        0 <= lit_cost_of(costs, l) <= INFTY,
{
}

/// Lowering the cost of the effect `j` of the operator `k` to `c`, one plus
/// the cost of its preconditions at some earlier point, keeps the costs
/// grounded in `s` and supported.
proof fn update_preserves(costs: Seq<Cost>, s: Seq<bool>, ops: Seq<OperatorView>, k: int, j: int, c: Cost)
    requires
        grounded_index(costs, s),
        supported(costs, s, ops),
        0 <= k < ops.len(),
        0 <= j < ops[k].effects.len(),
        ops[k].effects[j].sv.0 < s.len(),
        1 <= c,
        c < costs[lit_index(ops[k].effects[j])],
        c >= 1 + cost_sum(costs, ops[k].precond),
    ensures
        ({
            let new = costs.update(lit_index(ops[k].effects[j]), c);
            &&& grounded_index(new, s)
            &&& supported(new, s, ops)
        }),
{
    let e = ops[k].effects[j];
    let idx = lit_index(e);
    let new = costs.update(idx, c);
    assert forall|i: int| 0 <= i < new.len() implies new[i] <= costs[i] by {}
    assert forall|v: int|
        0 <= v < s.len() implies (#[trigger] new[2 * v] == 0 <==> !s[v]) && (new[2 * v + 1] == 0
        <==> s[v]) by {
        assert(costs[2 * v] == 0 <==> !s[v]);
    }
    assert forall|i: int| 0 <= i < new.len() implies #[trigger] new[i] <= INFTY by {}
    assert(grounded_index(new, s));
    assert forall|l: Lit|
        l.sv.0 < s.len() && !holds(s, l) && #[trigger] lit_cost_of(new, l) < INFTY implies exists|
        k2: int,
        j2: int,
    |
        0 <= k2 < ops.len() && 0 <= j2 < ops[k2].effects.len() && #[trigger] ops[k2].effects[j2] == l
            && lit_cost_of(new, l) >= 1 + cost_sum(new, ops[k2].precond) by {
        lemma_cost_sum_mono(new, costs, ops[k].precond);
        if l == e {
            assert(ops[k].effects[j] == l);
        } else {
            assert(lit_index(l) != idx);
            assert(lit_cost_of(new, l) == lit_cost_of(costs, l));
            let (k2, j2) = choose|k2: int, j2: int|
                0 <= k2 < ops.len() && 0 <= j2 < ops[k2].effects.len() && #[trigger] ops[k2].effects[j2]
                    == l && lit_cost_of(costs, l) >= 1 + cost_sum(costs, ops[k2].precond);
            lemma_cost_sum_mono(new, costs, ops[k2].precond);
            assert(ops[k2].effects[j2] == l);
        }
    }
}

} // verus!
