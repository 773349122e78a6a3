use vstd::prelude::*;
use crate::planning::classical::heuristics::{cost_sum, hadd, hadd_costs, lemma_applicable_upto, applicable_upto, Cost};
use crate::planning::classical::state::{
    applicable, default_resume, last_assignment, lemma_last_assignment, defaultresume, holds_all, lemma_apply_lits, newresume, successor,
    lits_in_range, valid_op, Lit, Op, OperatorView, Operators, Resume, State, SV,
};

verus! {

/// The state reached from `s` by applying the operators of `plan` in order.
pub open spec fn run(ops: Seq<OperatorView>, s: Seq<bool>, plan: Seq<Op>) -> Seq<bool>
    decreases plan.len(),
{
    if plan.len() == 0 {
        s
    } else {
        successor(ops, run(ops, s, plan.drop_last()), plan.last())
    }
}

/// Every operator of `plan` exists, only touches variables of the state, and its
/// preconditions hold when it is applied, starting from `s`.
pub open spec fn executable(ops: Seq<OperatorView>, s: Seq<bool>, plan: Seq<Op>) -> bool {
    forall|k: int|
        0 <= k < plan.len() ==> {
            &&& valid_op(ops, #[trigger] plan[k], s.len())
            &&& applicable(ops, run(ops, s, plan.take(k)), plan[k])
        }
}

/// `plan` solves the problem: it is executable from `s` and reaches a state
/// where every goal holds.
pub open spec fn is_solution(ops: Seq<OperatorView>, s: Seq<bool>, goals: Seq<Lit>, plan: Seq<Op>) -> bool {
    &&& executable(ops, s, plan)
    &&& holds_all(run(ops, s, plan), goals)
}

/// The history after one step: a variable whose value changed now records
/// `op` and the step number, the others keep their record.
pub open spec fn history_step(
    before: Seq<bool>,
    after: Seq<bool>,
    histo: Seq<Resume>,
    op: Op,
    numstep: i32,
) -> Seq<Resume> {
    Seq::new(
        before.len(),
        |i: int|
            if before[i] != after[i] {
                Resume { opkey: Some(op), etape: numstep }
            } else {
                histo[i]
            },
    )
}

/// The history after the first `k` steps of `plan` applied from `s`: for each
/// variable, the last operator that changed its value and the step at which it did.
pub open spec fn history(ops: Seq<OperatorView>, s: Seq<bool>, plan: Seq<Op>, k: nat) -> Seq<Resume>
    decreases k,
{
    if k == 0 {
        Seq::new(s.len(), |i: int| default_resume())
    } else {
        let j = (k - 1) as nat;
        history_step(
            run(ops, s, plan.take(j as int)),
            run(ops, s, plan.take(k as int)),
            history(ops, s, plan, j),
            plan[j as int],
            j as i32,
        )
    }
}

/// The records of `r` that a precondition list asks for about the variable `i`:
/// one copy of `r` per literal of `pre` about `i`.
pub open spec fn matches_of(r: Resume, pre: Seq<Lit>, i: int) -> Seq<Resume>
    decreases pre.len(),
{
    if pre.len() == 0 {
        Seq::empty()
    } else {
        matches_of(r, pre.drop_last(), i) + if pre.last().sv.0 == i {
            seq![r]
        } else {
            Seq::empty()
        }
    }
}

/// The records of the variables `0..m` that the preconditions `pre` read, variable
/// after variable, one per precondition.
pub open spec fn causal_links(histo: Seq<Resume>, pre: Seq<Lit>, m: nat) -> Seq<Resume>
    decreases m,
{
    if m == 0 {
        Seq::empty()
    } else {
        let j = (m - 1) as nat;
        causal_links(histo, pre, j) + matches_of(histo[j as int], pre, j as int)
    }
}

/// Counting changes is symmetric, finds none between a state and itself, at
/// most one per variable, and one per variable where the states all differ.
pub proof fn lemma_count_changes_laws(a: Seq<bool>, b: Seq<bool>, m: nat)
    ensures
        count_changes(a, b, m) == count_changes(b, a, m),
        count_changes(a, a, m) == 0,
        count_changes(a, b, m) <= m,
        (forall|i: int| 0 <= i < m ==> a[i] != b[i]) ==> count_changes(a, b, m) == m,
        (forall|i: int| 0 <= i < m ==> a[i] == b[i]) ==> count_changes(a, b, m) == 0,
    decreases m,
{
    if m > 0 {
        lemma_count_changes_laws(a, b, (m - 1) as nat);
    }
}

/// Number of literals of `pre` about the variable `i`.
pub open spec fn count_on(pre: Seq<Lit>, i: int) -> nat
    decreases pre.len(),
{
    if pre.len() == 0 {
        0
    } else {
        count_on(pre.drop_last(), i) + if pre.last().sv.0 == i {
            1nat
        } else {
            0nat
        }
    }
}

/// Number of literals of `pre` about a variable below `m`.
pub open spec fn count_below(pre: Seq<Lit>, m: nat) -> nat
    decreases pre.len(),
{
    if pre.len() == 0 {
        0
    } else {
        count_below(pre.drop_last(), m) + if pre.last().sv.0 < m {
            1nat
        } else {
            0nat
        }
    }
}

proof fn lemma_count_below_step(pre: Seq<Lit>, m: nat)
    ensures
        count_below(pre, m + 1) == count_below(pre, m) + count_on(pre, m as int),
        count_below(pre, 0) == 0,
    decreases pre.len(),
{
    if pre.len() > 0 {
        lemma_count_below_step(pre.drop_last(), m);
    }
}

proof fn lemma_matches_of(r: Resume, pre: Seq<Lit>, i: int)
    ensures
        matches_of(r, pre, i).len() == count_on(pre, i),
        forall|k: int| 0 <= k < matches_of(r, pre, i).len() ==> #[trigger] matches_of(r, pre, i)[k] == r,
        count_on(pre, i) > 0 ==> exists|j: int| 0 <= j < pre.len() && (#[trigger] pre[j]).sv.0 == i,
    decreases pre.len(),
{
    if pre.len() > 0 {
        let p = pre.drop_last();
        lemma_matches_of(r, p, i);
        if count_on(p, i) > 0 {
            let j = choose|j: int| 0 <= j < p.len() && (#[trigger] p[j]).sv.0 == i;
            assert(pre[j] == p[j]);
        }
        if pre.last().sv.0 == i {
            assert(pre[pre.len() - 1] == pre.last());
        }
    }
}

/// `links` holds one record per precondition of `pre` about a variable below
/// `m`, each the record in `histo` of the variable of such a precondition.
pub open spec fn links_are_records(links: Seq<Resume>, histo: Seq<Resume>, pre: Seq<Lit>, m: nat) -> bool {
    &&& links.len() == count_below(pre, m)
    &&& forall|k: int|
        0 <= k < links.len() ==> exists|j: int|
            0 <= j < pre.len() && (#[trigger] pre[j]).sv.0 < m && #[trigger] links[k] == histo[pre[j].sv.0 as int]
}

/// The causal links of the preconditions `pre` over the variables `0..m`:
/// one per precondition about such a variable, each the record of the
/// variable of a precondition.
pub proof fn lemma_causal_links_records(histo: Seq<Resume>, pre: Seq<Lit>, m: nat)
    ensures
        links_are_records(causal_links(histo, pre, m), histo, pre, m),
    decreases m,
{
    lemma_count_below_step(pre, 0);
    if m > 0 {
        let j0 = (m - 1) as nat;
        lemma_causal_links_records(histo, pre, j0);
        lemma_count_below_step(pre, j0);
        lemma_matches_of(histo[j0 as int], pre, j0 as int);
        let a = causal_links(histo, pre, j0);
        let b = matches_of(histo[j0 as int], pre, j0 as int);
        let c = causal_links(histo, pre, m);
        assert(c == a + b);
        assert forall|k: int| 0 <= k < c.len() implies exists|j: int|
            0 <= j < pre.len() && (#[trigger] pre[j]).sv.0 < m && #[trigger] c[k] == histo[pre[j].sv.0 as int] by {
            if k < a.len() {
                assert(c[k] == a[k]);
                let j = choose|j: int| 0 <= j < pre.len() && (#[trigger] pre[j]).sv.0 < j0 && a[k] == histo[pre[j].sv.0 as int];
                assert(pre[j].sv.0 < m);
            } else {
                assert(c[k] == b[k - a.len()]);
                let j = choose|j: int| 0 <= j < pre.len() && (#[trigger] pre[j]).sv.0 == j0;
                assert(pre[j].sv.0 < m);
            }
        }
    }
}

/// The causal links depend on the variables of the preconditions only, not
/// on the values they ask for.
pub proof fn lemma_causal_links_polarity(histo: Seq<Resume>, pre: Seq<Lit>, pre2: Seq<Lit>, m: nat)
    requires
        pre.len() == pre2.len(),
        forall|j: int| 0 <= j < pre.len() ==> (#[trigger] pre[j]).sv == pre2[j].sv,
    ensures
        causal_links(histo, pre, m) == causal_links(histo, pre2, m),
    decreases m,
{
    if m > 0 {
        let j0 = (m - 1) as nat;
        lemma_causal_links_polarity(histo, pre, pre2, j0);
        lemma_matches_of_polarity(histo[j0 as int], pre, pre2, j0 as int);
    }
}

proof fn lemma_matches_of_polarity(r: Resume, pre: Seq<Lit>, pre2: Seq<Lit>, i: int)
    requires
        pre.len() == pre2.len(),
        forall|j: int| 0 <= j < pre.len() ==> (#[trigger] pre[j]).sv == pre2[j].sv,
    ensures
        matches_of(r, pre, i) == matches_of(r, pre2, i),
    decreases pre.len(),
{
    if pre.len() > 0 {
        let p = pre.drop_last();
        let p2 = pre2.drop_last();
        assert forall|j: int| 0 <= j < p.len() implies (#[trigger] p[j]).sv == p2[j].sv by {
            assert(p[j] == pre[j]);
            assert(p2[j] == pre2[j]);
        }
        lemma_matches_of_polarity(r, p, p2, i);
        assert(pre[pre.len() - 1].sv == pre2[pre.len() - 1].sv);
    }
}

/// Index of the last step among the first `k` steps of `plan` (applied from
/// `s`) that changed the value of the variable `i`, or -1 when none did.
pub open spec fn last_change(ops: Seq<OperatorView>, s: Seq<bool>, plan: Seq<Op>, k: nat, i: int) -> int
    decreases k,
{
    if k == 0 {
        -1
    } else {
        let j = (k - 1) as nat;
        if run(ops, s, plan.take(j as int))[i] != run(ops, s, plan.take(k as int))[i] {
            j as int
        } else {
            last_change(ops, s, plan, j, i)
        }
    }
}

/// Every prefix of an executable plan is executable: in particular each step
/// of a plan found by [`plan_search`] can be given to [`causalite`].
pub proof fn lemma_executable_prefix(ops: Seq<OperatorView>, s: Seq<bool>, plan: Seq<Op>, k: int)
    requires
        executable(ops, s, plan),
        0 <= k <= plan.len(),
    ensures
        executable(ops, s, plan.take(k)),
{
    assert forall|j: int| 0 <= j < plan.take(k).len() implies {
        &&& valid_op(ops, #[trigger] plan.take(k)[j], s.len())
        &&& applicable(ops, run(ops, s, plan.take(k).take(j)), plan.take(k)[j])
    } by {
        assert(plan.take(k).take(j) =~= plan.take(j));
        assert(plan.take(k)[j] == plan[j]);
    }
}

/// Running a plan keeps the number of state variables.
pub proof fn lemma_run_len(ops: Seq<OperatorView>, s: Seq<bool>, plan: Seq<Op>)
    ensures
        run(ops, s, plan).len() == s.len(),
    decreases plan.len(),
{
    if plan.len() > 0 {
        lemma_run_len(ops, s, plan.drop_last());
        lemma_apply_lits(run(ops, s, plan.drop_last()), ops[plan.last().0 as int].effects);
    }
}

/// The history records, for each variable, the operator and the step of the
/// last change of its value, or the default record when it never changed.
pub proof fn lemma_history_last_change(ops: Seq<OperatorView>, s: Seq<bool>, plan: Seq<Op>, k: nat, i: int)
    requires
        k <= plan.len(),
        k <= i32::MAX,
        0 <= i < s.len(),
    ensures
        history(ops, s, plan, k).len() == s.len(),
        -1 <= last_change(ops, s, plan, k, i) < k,
        history(ops, s, plan, k)[i] == if last_change(ops, s, plan, k, i) >= 0 {
            Resume {
                opkey: Some(plan[last_change(ops, s, plan, k, i)]),
                etape: last_change(ops, s, plan, k, i) as i32,
            }
        } else {
            default_resume()
        },
        last_change(ops, s, plan, k, i) >= 0 ==> run(
            ops,
            s,
            plan.take(last_change(ops, s, plan, k, i)),
        )[i] != run(ops, s, plan.take(last_change(ops, s, plan, k, i) + 1))[i],
        forall|j: int|
            last_change(ops, s, plan, k, i) < j < k ==> run(ops, s, #[trigger] plan.take(j))[i] == run(
                ops,
                s,
                plan.take(j + 1),
            )[i],
    decreases k,
{
    if k > 0 {
        let j = (k - 1) as nat;
        lemma_history_last_change(ops, s, plan, j, i);
        lemma_run_len(ops, s, plan.take(j as int));
        lemma_run_len(ops, s, plan.take(k as int));
    }
}

/// Number of variables among the first `m` to which the two states give different values.
pub open spec fn count_changes(a: Seq<bool>, b: Seq<bool>, m: nat) -> nat
    decreases m,
{
    if m == 0 {
        0
    } else {
        let j = (m - 1) as nat;
        count_changes(a, b, j) + if a[j as int] != b[j as int] {
            1nat
        } else {
            0nat
        }
    }
}

/// A state does not differ from itself, and the count of differences does
/// not depend on the order of the two states.
pub proof fn lemma_count_changes(a: Seq<bool>, b: Seq<bool>, m: nat)
    ensures
        count_changes(a, a, m) == 0,
        count_changes(a, b, m) == count_changes(b, a, m),
        count_changes(a, b, m) <= m,
    decreases m,
{
    if m > 0 {
        lemma_count_changes(a, b, (m - 1) as nat);
    }
}

/// Applying an operator twice in a row has the effect of applying it once.
pub proof fn lemma_step_idempotent(ops: Seq<OperatorView>, s: Seq<bool>, op: Op)
    ensures
        successor(ops, successor(ops, s, op), op) == successor(ops, s, op),
{
    let e = ops[op.0 as int].effects;
    let s1 = successor(ops, s, op);
    lemma_apply_lits(s, e);
    lemma_apply_lits(s1, e);
    assert(successor(ops, s1, op) =~= s1);
}

/// Two operators whose effects are about different variables can be applied
/// in either order: the state reached is the same.
pub proof fn lemma_step_commute(ops: Seq<OperatorView>, s: Seq<bool>, a: Op, b: Op)
    requires
        forall|i: int, j: int|
            0 <= i < ops[a.0 as int].effects.len() && 0 <= j < ops[b.0 as int].effects.len() ==> (
            #[trigger] ops[a.0 as int].effects[i]).sv != (#[trigger] ops[b.0 as int].effects[j]).sv,
    ensures
        successor(ops, successor(ops, s, a), b) == successor(ops, successor(ops, s, b), a),
{
    let ea = ops[a.0 as int].effects;
    let eb = ops[b.0 as int].effects;
    let sa = successor(ops, s, a);
    let sb = successor(ops, s, b);
    lemma_apply_lits(s, ea);
    lemma_apply_lits(s, eb);
    lemma_apply_lits(sa, eb);
    lemma_apply_lits(sb, ea);
    assert forall|v: int| 0 <= v < s.len() implies successor(ops, sa, b)[v] == successor(ops, sb, a)[v] by {
        lemma_last_assignment(ea, v);
        lemma_last_assignment(eb, v);
        if last_assignment(ea, v) >= 0 && last_assignment(eb, v) >= 0 {
            assert(ea[last_assignment(ea, v)].sv != eb[last_assignment(eb, v)].sv);
        }
    }
    assert(successor(ops, sa, b) =~= successor(ops, sb, a));
}

/// The state reached by applying `op` in `initial_state`.
pub fn step(initial_state: &State, op: &Op, ops: &Operators) -> (res: State)
    requires
        valid_op(ops@, *op, initial_state@.len()),
        applicable(ops@, initial_state@, *op),
    ensures
        res@ == successor(ops@, initial_state@, *op),
        res@.len() == initial_state@.len(),
{
    let mut suivant = initial_state.clone();
    let effect = ops.effects(*op);
    suivant.set_all(effect);
    proof {
        lemma_apply_lits(initial_state@, effect@);
    }
    suivant
}

/// Number of variables to which the two states give different values (over the
/// variables both states have).
pub fn compare(initial_state: &State, inter_state: &State) -> (diff: usize)
    ensures
        diff == count_changes(
            initial_state@,
            inter_state@,
            if initial_state@.len() <= inter_state@.len() {
                initial_state@.len()
            } else {
                inter_state@.len()
            },
        ),
{
    let n = if initial_state.size() <= inter_state.size() {
        initial_state.size()
    } else {
        inter_state.size()
    };
    let mut diff: usize = 0;
    for i in 0..n
        invariant
            n <= initial_state@.len(),
            n <= inter_state@.len(),
            diff == count_changes(initial_state@, inter_state@, i as nat),
            diff <= i,
    {
        if initial_state.is_set(SV(i)) != inter_state.is_set(SV(i)) {
            diff = diff + 1;
        }
    }
    diff
}

/// Applies `op` in `initial_state` (step `numstep` of a plan) and updates the
/// history `histo`: the variables that change now record `op` and `numstep`.
pub fn h_step(initial_state: &State, op: &Op, ops: &Operators, numstep: i32, histo: Vec<Resume>) -> (res: (
    State,
    Vec<Resume>,
))
    requires
        valid_op(ops@, *op, initial_state@.len()),
        applicable(ops@, initial_state@, *op),
        forall|i: int|
            0 <= i < initial_state@.len() && histo@.len() <= i ==> initial_state@[i] != successor(
                ops@,
                initial_state@,
                *op,
            )[i],
    ensures
        res.0@ == successor(ops@, initial_state@, *op),
        res.0@.len() == initial_state@.len(),
        res.1@ == history_step(initial_state@, res.0@, histo@, *op, numstep),
{
    let etat = step(initial_state, op, ops);
    let n = initial_state.size();
    let mut newhisto: Vec<Resume> = Vec::new();
    for count in 0..n
        invariant
            n == initial_state@.len(),
            etat@.len() == n,
            etat@ == successor(ops@, initial_state@, *op),
            forall|i: int| 0 <= i < n && histo@.len() <= i ==> initial_state@[i] != etat@[i],
            newhisto@ == history_step(initial_state@, etat@, histo@, *op, numstep).take(
                count as int,
            ),
    {
        if initial_state.is_set(SV(count)) != etat.is_set(SV(count)) {
            newhisto.push(newresume(*op, numstep));
        } else {
            newhisto.push(histo[count]);
        }
        assert(newhisto@ =~= history_step(initial_state@, etat@, histo@, *op, numstep).take(
            count + 1,
        ));
    }
    assert(newhisto@ =~= history_step(initial_state@, etat@, histo@, *op, numstep));
    (etat, newhisto)
}

/// The operators that the preconditions of step `etape` of `plan` depend on:
/// for each variable, in order, and each precondition about it, the record of
/// the last change of that variable before the step.
pub fn causalite(etape: i32, plan: Vec<Op>, initial_state: &State, ops: &Operators) -> (link: Vec<
    Resume,
>)
    requires
        0 <= etape < plan@.len(),
        plan@[etape as int].0 < ops@.len(),
        executable(ops@, initial_state@, plan@.take(etape as int)),
    ensures
        link@ == causal_links(
            history(ops@, initial_state@, plan@, etape as nat),
            ops@[plan@[etape as int].0 as int].precond,
            initial_state@.len(),
        ),
        links_are_records(
            link@,
            history(ops@, initial_state@, plan@, etape as nat),
            ops@[plan@[etape as int].0 as int].precond,
            initial_state@.len(),
        ),
{
    let num = etape as usize;
    let op = plan[num];
    let mut etat = initial_state.clone();
    let n = initial_state.size();
    let mut histo: Vec<Resume> = Vec::new();
    for i in 0..n
        invariant
            histo@ == Seq::new(i as nat, |j: int| default_resume()),
    {
        histo.push(defaultresume());
        assert(histo@ =~= Seq::new((i + 1) as nat, |j: int| default_resume()));
    }
    let mut count: i32 = 0;
    while count < etape
        invariant
            0 <= count <= etape,
            etape < plan@.len(),
            n == initial_state@.len(),
            executable(ops@, initial_state@, plan@.take(etape as int)),
            etat@ == run(ops@, initial_state@, plan@.take(count as int)),
            etat@.len() == n,
            histo@ == history(ops@, initial_state@, plan@, count as nat),
            histo@.len() == n,
        decreases etape - count,
    {
        let ghost k = count as int;
        let opt = plan[count as usize];
        assert(plan@.take(etape as int)[k] == plan@[k]);
        assert(plan@.take(etape as int).take(k) =~= plan@.take(k));
        assert(plan@.take(k + 1).drop_last() =~= plan@.take(k));
        let (e, h) = h_step(&etat, &opt, ops, count, histo);
        etat = e;
        histo = h;
        count = count + 1;
    }
    let precond = ops.preconditions(op);
    let mut link: Vec<Resume> = Vec::new();
    for count2 in 0..n
        invariant
            n == initial_state@.len(),
            histo@.len() == n,
            link@ == causal_links(histo@, precond@, count2 as nat),
    {
        let ghost before = link@;
        for j in 0..precond.len()
            invariant
                count2 < n,
                histo@.len() == n,
                link@ == before + matches_of(histo@[count2 as int], precond@.take(j as int), count2 as int),
        {
            assert(precond@.take(j + 1).drop_last() =~= precond@.take(j as int));
            if precond[j].var().0 == count2 {
                link.push(histo[count2]);
            }
            assert(link@ =~= before + matches_of(histo@[count2 as int], precond@.take(j + 1), count2 as int));
        }
        assert(precond@.take(precond@.len() as int) =~= precond@);
    }
    proof {
        lemma_causal_links_records(histo@, precond@, n as nat);
    }
    link
}


/// A node of the search: a state, the plan that reaches it and its priority
/// (the lower, the sooner it is expanded).
struct Node {
    s: State,
    plan: Vec<Op>,
    f: Cost,
}

/// Weight of the heuristic in the priority of a node.
pub const WEIGHT: Cost = 3;

/// Priority of a node whose plan has `len` steps and whose goals cost `h`:
/// `len + WEIGHT * h`, saturated at `u64::MAX`.
fn priority(len: usize, h: Cost) -> (f: Cost)
    ensures
        f == if len + WEIGHT * h < u64::MAX {
            len + WEIGHT * h
        } else {
            u64::MAX as int
        },
{
    let weighted = if h <= u64::MAX / WEIGHT {
        WEIGHT * h
    } else {
        u64::MAX
    };
    (len as Cost).saturating_add(weighted)
}

/// A node of the search, as a value: a state, the plan that reaches it, and
/// its priority.
pub struct SearchNode {
    pub s: Seq<bool>,
    pub plan: Seq<Op>,
    pub f: u64,
}

/// Index of the first node of lowest priority (0 for an empty queue).
pub open spec fn first_min(heap: Seq<SearchNode>) -> int
    decreases heap.len(),
{
    if heap.len() <= 1 {
        0
    } else {
        let j = first_min(heap.drop_last());
        if heap.last().f < heap[j].f {
            heap.len() - 1
        } else {
            j
        }
    }
}

/// The first node of lowest priority is found by [`first_min`].
proof fn lemma_first_min(heap: Seq<SearchNode>, r: int)
    requires
        0 <= r < heap.len(),
        forall|i: int| 0 <= i < heap.len() ==> heap[r].f <= #[trigger] heap[i].f,
        forall|i: int| 0 <= i < r ==> heap[r].f < #[trigger] heap[i].f,
    ensures
        first_min(heap) == r,
    decreases heap.len(),
{
    if heap.len() > 1 {
        let pre = heap.drop_last();
        if r < heap.len() - 1 {
            lemma_first_min(pre, r);
            assert(heap[r] == pre[r]);
        } else {
            lemma_first_min_range(pre);
            let j = first_min(pre);
            assert(heap[j] == pre[j]);
        }
    }
}

/// The first node of lowest priority is a node of the queue.
pub proof fn lemma_first_min_range(heap: Seq<SearchNode>)
    ensures
        heap.len() > 0 ==> 0 <= first_min(heap) < heap.len(),
    decreases heap.len(),
{
    if heap.len() > 1 {
        lemma_first_min_range(heap.drop_last());
    }
}

/// Priority of a node whose plan has `len` steps and whose goals cost `h`.
pub open spec fn priority_of(len: int, h: int) -> u64 {
    if len + WEIGHT * h < u64::MAX {
        (len + WEIGHT * h) as u64
    } else {
        u64::MAX
    }
}

/// The h_add cost of the goals in the state `s`, saturated at `u64::MAX`.
pub open spec fn goal_cost(ops: Seq<OperatorView>, s: Seq<bool>, goals: Seq<Lit>) -> int {
    let c = cost_sum(hadd_costs(s, ops), goals);
    if c < u64::MAX {
        c
    } else {
        u64::MAX as int
    }
}

/// The node reached from the node `(x, plan)` by the operator `op`.
pub open spec fn child(ops: Seq<OperatorView>, goals: Seq<Lit>, x: Seq<bool>, plan: Seq<Op>, op: Op) -> SearchNode {
    let s2 = successor(ops, x, op);
    SearchNode { s: s2, plan: plan.push(op), f: priority_of(plan.len() + 1int, goal_cost(ops, s2, goals)) }
}

/// Expansion of the node `(x, plan)` by the operators `apps`, in order: the
/// plan that ends the search when a successor satisfies the goals, or else
/// the queue `heap` with the successors added.
pub open spec fn expand(
    ops: Seq<OperatorView>,
    goals: Seq<Lit>,
    x: Seq<bool>,
    plan: Seq<Op>,
    apps: Seq<Op>,
    heap: Seq<SearchNode>,
) -> Result<Seq<SearchNode>, Seq<Op>>
    decreases apps.len(),
{
    if apps.len() == 0 {
        Ok(heap)
    } else {
        match expand(ops, goals, x, plan, apps.drop_last(), heap) {
            Err(p) => Err(p),
            Ok(h) => {
                let o = apps.last();
                if holds_all(successor(ops, x, o), goals) {
                    Err(plan.push(o))
                } else {
                    Ok(h.push(child(ops, goals, x, plan, o)))
                }
            },
        }
    }
}

/// The result of the best-first search from the queue `heap`, the states of
/// `closed` being already expanded: take the first node of lowest priority;
/// skip it if its state was expanded; else expand it with its applicable
/// operators in order.
pub open spec fn search(
    ops: Seq<OperatorView>,
    goals: Seq<Lit>,
    n: nat,
    heap: Seq<SearchNode>,
    closed: Set<Seq<bool>>,
) -> Option<Seq<Op>>
    decreases all_states(n).difference(closed).len(), heap.len(),
    when all_states(n).finite() && closed.subset_of(all_states(n)) && forall|i: int|
        0 <= i < heap.len() ==> (#[trigger] heap[i]).s.len() == n
{
    if heap.len() == 0 {
        None
    } else {
        let i = first_min(heap);
        let nd = heap[i];
        proof {
            lemma_first_min_range(heap);
        }
        if closed.contains(nd.s) {
            search(ops, goals, n, heap.remove(i), closed)
        } else {
            proof {
                assert(all_states(n).contains(nd.s));
                all_states(n).lemma_set_insert_diff_decreases(closed, nd.s);
            }
            match expand(ops, goals, nd.s, nd.plan, applicable_upto(ops, nd.s, ops.len()), heap.remove(i)) {
                Err(p) => Some(p),
                Ok(h) => search(ops, goals, n, h, closed.insert(nd.s)),
            }
        }
    }
}

/// The plan that [`plan_search`] returns from `init`, if any.
pub open spec fn plan_search_result(ops: Seq<OperatorView>, init: Seq<bool>, goals: Seq<Lit>) -> Option<Seq<Op>> {
    search(ops, goals, init.len(), seq![SearchNode { s: init, plan: Seq::empty(), f: 0 }], Set::empty())
}

/// The search after expanding a node: the plan found, or the search from the
/// new queue.
spec fn after_expand(
    ops: Seq<OperatorView>,
    goals: Seq<Lit>,
    n: nat,
    e: Result<Seq<SearchNode>, Seq<Op>>,
    closed: Set<Seq<bool>>,
) -> Option<Seq<Op>> {
    match e {
        Err(p) => Some(p),
        Ok(h) => search(ops, goals, n, h, closed),
    }
}

/// One step of the search that skips a node whose state was expanded.
proof fn lemma_search_skip(
    ops: Seq<OperatorView>,
    goals: Seq<Lit>,
    n: nat,
    heap: Seq<SearchNode>,
    closed: Set<Seq<bool>>,
    i: int,
)
    requires
        all_states(n).finite(),
        closed.subset_of(all_states(n)),
        forall|t: int| 0 <= t < heap.len() ==> (#[trigger] heap[t]).s.len() == n,
        0 <= i < heap.len(),
        first_min(heap) == i,
        closed.contains(heap[i].s),
    ensures
        search(ops, goals, n, heap, closed) == search(ops, goals, n, heap.remove(i), closed),
{
}

/// One step of the search that expands a node.
proof fn lemma_search_expand(
    ops: Seq<OperatorView>,
    goals: Seq<Lit>,
    n: nat,
    heap: Seq<SearchNode>,
    closed: Set<Seq<bool>>,
    i: int,
)
    requires
        all_states(n).finite(),
        closed.subset_of(all_states(n)),
        forall|t: int| 0 <= t < heap.len() ==> (#[trigger] heap[t]).s.len() == n,
        0 <= i < heap.len(),
        first_min(heap) == i,
        !closed.contains(heap[i].s),
    ensures
        search(ops, goals, n, heap, closed) == after_expand(
            ops,
            goals,
            n,
            expand(ops, goals, heap[i].s, heap[i].plan, applicable_upto(ops, heap[i].s, ops.len()), heap.remove(i)),
            closed.insert(heap[i].s),
        ),
{
    let nd = heap[i];
    let e = expand(ops, goals, nd.s, nd.plan, applicable_upto(ops, nd.s, ops.len()), heap.remove(i));
    lemma_first_min_range(heap);
    assert(all_states(n).contains(nd.s));
    all_states(n).lemma_set_insert_diff_decreases(closed, nd.s);
    let rest = heap.remove(i);
    assert forall|t: int| 0 <= t < rest.len() implies (#[trigger] rest[t]).s.len() == n by {
        if t < i {
            assert(rest[t] == heap[t]);
        } else {
            assert(rest[t] == heap[t + 1]);
        }
    }
    lemma_expand_lens(ops, goals, nd.s, nd.plan, applicable_upto(ops, nd.s, ops.len()), rest, n);
}

/// The states of the queue after an expansion all have `n` variables, when
/// those of the queue before and the expanded state have.
proof fn lemma_expand_lens(
    ops: Seq<OperatorView>,
    goals: Seq<Lit>,
    x: Seq<bool>,
    plan: Seq<Op>,
    apps: Seq<Op>,
    heap: Seq<SearchNode>,
    n: nat,
)
    requires
        x.len() == n,
        forall|t: int| 0 <= t < heap.len() ==> (#[trigger] heap[t]).s.len() == n,
    ensures
        expand(ops, goals, x, plan, apps, heap) matches Ok(h) ==> forall|t: int|
            0 <= t < h.len() ==> (#[trigger] h[t]).s.len() == n,
    decreases apps.len(),
{
    if apps.len() > 0 {
        lemma_expand_lens(ops, goals, x, plan, apps.drop_last(), heap, n);
        lemma_apply_lits(x, ops[apps.last().0 as int].effects);
    }
}

/// The queue `heap` as values.
spec fn model(heap: Seq<Node>) -> Seq<SearchNode> {
    heap.map_values(|nd: Node| SearchNode { s: nd.s@, plan: nd.plan@, f: nd.f })
}

/// Once the expansion by a prefix of the operators ends the search, the
/// expansion by all of them ends it with the same plan.
proof fn lemma_expand_err(
    ops: Seq<OperatorView>,
    goals: Seq<Lit>,
    x: Seq<bool>,
    plan: Seq<Op>,
    apps: Seq<Op>,
    heap: Seq<SearchNode>,
    m: int,
)
    requires
        0 <= m <= apps.len(),
        expand(ops, goals, x, plan, apps.take(m), heap) is Err,
    ensures
        expand(ops, goals, x, plan, apps, heap) == expand(ops, goals, x, plan, apps.take(m), heap),
    decreases apps.len(),
{
    if m == apps.len() {
        assert(apps.take(m) =~= apps);
    } else {
        assert(apps.drop_last().take(m) =~= apps.take(m));
        lemma_expand_err(ops, goals, x, plan, apps.drop_last(), heap, m);
    }
}

/// The node is reached from `init` by its plan, which is executable.
spec fn node_ok(ops: Seq<OperatorView>, init: Seq<bool>, node: Node) -> bool {
    &&& executable(ops, init, node.plan@)
    &&& run(ops, init, node.plan@) == node.s@
    &&& node.s@.len() == init.len()
}

/// The states met along `plan` before its end are expanded and pairwise
/// distinct, and no state reached after one step or more satisfies the goals.
spec fn path_ok(ops: Seq<OperatorView>, init: Seq<bool>, goals: Seq<Lit>, closed: Seq<State>, plan: Seq<Op>) -> bool {
    &&& forall|i: int| 0 <= i < plan.len() ==> in_closed(closed, run(ops, init, #[trigger] plan.take(i)))
    &&& distinct_path(ops, init, plan)
    &&& forall|k: int| 1 <= k <= plan.len() ==> !holds_all(run(ops, init, #[trigger] plan.take(k)), goals)
}

/// The states reached along `plan`, before its last step, are pairwise distinct.
pub open spec fn distinct_path(ops: Seq<OperatorView>, init: Seq<bool>, plan: Seq<Op>) -> bool {
    forall|i: int, j: int|
        0 <= i < j < plan.len() ==> run(ops, init, #[trigger] plan.take(i)) != run(ops, init, #[trigger] plan.take(j))
}

/// [`path_ok`] survives when every expanded state stays expanded.
proof fn lemma_path_mono(
    ops: Seq<OperatorView>,
    init: Seq<bool>,
    goals: Seq<Lit>,
    c1: Seq<State>,
    c2: Seq<State>,
    plan: Seq<Op>,
)
    requires
        path_ok(ops, init, goals, c1, plan),
        forall|x: Seq<bool>| in_closed(c1, x) ==> in_closed(c2, x),
    ensures
        path_ok(ops, init, goals, c2, plan),
{
    assert forall|i: int| 0 <= i < plan.len() implies in_closed(c2, run(ops, init, #[trigger] plan.take(i))) by {
        assert(in_closed(c1, run(ops, init, plan.take(i))));
    }
}

/// Extending the plan of a node whose state was not yet expanded, once that
/// state is expanded, keeps the states along the plan expanded and distinct.
proof fn lemma_path_extend(
    ops: Seq<OperatorView>,
    init: Seq<bool>,
    goals: Seq<Lit>,
    old_closed: Seq<State>,
    closed: Seq<State>,
    plan: Seq<Op>,
    op: Op,
)
    requires
        path_ok(ops, init, goals, old_closed, plan),
        !in_closed(old_closed, run(ops, init, plan)),
        in_closed(closed, run(ops, init, plan)),
        forall|x: Seq<bool>| in_closed(old_closed, x) ==> in_closed(closed, x),
    ensures
        forall|i: int| 0 <= i < plan.push(op).len() ==> in_closed(closed, run(ops, init, #[trigger] plan.push(op).take(i))),
        distinct_path(ops, init, plan.push(op)),
        forall|k: int| 1 <= k < plan.push(op).len() ==> !holds_all(run(ops, init, #[trigger] plan.push(op).take(k)), goals),
{
    let p2 = plan.push(op);
    assert forall|i: int| 0 <= i <= plan.len() implies #[trigger] p2.take(i) == plan.take(i) by {
        assert(p2.take(i) =~= plan.take(i));
    }
    assert(plan.take(plan.len() as int) =~= plan);
    assert forall|i: int| 0 <= i < p2.len() implies in_closed(closed, run(ops, init, #[trigger] p2.take(i))) by {
        assert(p2.take(i) == plan.take(i));
        if i < plan.len() {
            assert(in_closed(old_closed, run(ops, init, plan.take(i))));
        }
    }
    assert forall|i: int, j: int| 0 <= i < j < p2.len() implies run(ops, init, #[trigger] p2.take(i)) != run(
        ops,
        init,
        #[trigger] p2.take(j),
    ) by {
        assert(p2.take(i) == plan.take(i));
        assert(p2.take(j) == plan.take(j));
        if j == plan.len() {
            assert(in_closed(old_closed, run(ops, init, plan.take(i))));
        }
    }
    assert forall|k: int| 1 <= k < p2.len() implies !holds_all(run(ops, init, #[trigger] p2.take(k)), goals) by {
        assert(p2.take(k) == plan.take(k));
    }
}

/// Some node of `heap` is at the state `x`.
spec fn in_heap(heap: Seq<Node>, x: Seq<bool>) -> bool {
    exists|i: int| 0 <= i < heap.len() && (#[trigger] heap[i]).s@ == x
}

/// Some state of `closed` is `x`.
spec fn in_closed(closed: Seq<State>, x: Seq<bool>) -> bool {
    exists|i: int| 0 <= i < closed.len() && (#[trigger] closed[i])@ == x
}

/// Every successor of an expanded state `x` misses the goals and is either
/// expanded or waiting in the queue.
spec fn expanded_ok(
    ops: Seq<OperatorView>,
    goals: Seq<Lit>,
    closed: Seq<State>,
    heap: Seq<Node>,
    x: Seq<bool>,
) -> bool {
    forall|o: Op|
        #[trigger] applicable(ops, x, o) ==> {
            &&& !holds_all(successor(ops, x, o), goals)
            &&& (in_closed(closed, successor(ops, x, o)) || in_heap(heap, successor(ops, x, o)))
        }
}

/// All states of `n` variables.
pub open spec fn all_states(n: nat) -> Set<Seq<bool>> {
    Set::new(|x: Seq<bool>| x.len() == n)
}

/// There are finitely many states of `n` variables.
pub proof fn lemma_all_states_finite(n: nat)
    ensures
        all_states(n).finite(),
    decreases n,
{
    broadcast use vstd::set::group_set_axioms;

    if n > 0 {
        let m = (n - 1) as nat;
        lemma_all_states_finite(m);
        let f = |x: Seq<bool>| x.push(false);
        let t = |x: Seq<bool>| x.push(true);
        all_states(m).lemma_map_finite(f);
        all_states(m).lemma_map_finite(t);
        assert forall|x: Seq<bool>| #[trigger] all_states(n).contains(x) implies all_states(m).map(
            f,
        ).contains(x) || all_states(m).map(t).contains(x) by {
            let y = x.drop_last();
            assert(all_states(m).contains(y));
            if x.last() {
                assert(x =~= t(y));
            } else {
                assert(x =~= f(y));
            }
        }
        assert(all_states(n).subset_of(all_states(m).map(f).union(all_states(m).map(t))));
        vstd::set_lib::lemma_set_subset_finite(all_states(m).map(f).union(all_states(m).map(t)), all_states(n));
    } else {
        let e = Set::<Seq<bool>>::empty().insert(Seq::<bool>::empty());
        assert forall|x: Seq<bool>| #[trigger] all_states(n).contains(x) implies e.contains(x) by {
            assert(x =~= Seq::<bool>::empty());
        }
        vstd::set_lib::lemma_set_subset_finite(e, all_states(n));
    }
}

/// Running a plan extended by one operator applies that operator last.
proof fn lemma_run_push(ops: Seq<OperatorView>, init: Seq<bool>, plan: Seq<Op>, op: Op)
    requires
        executable(ops, init, plan),
        valid_op(ops, op, init.len()),
        applicable(ops, run(ops, init, plan), op),
    ensures
        run(ops, init, plan.push(op)) == successor(ops, run(ops, init, plan), op),
        executable(ops, init, plan.push(op)),
{
    assert(plan.push(op).drop_last() =~= plan);
    assert forall|k: int| 0 <= k < plan.push(op).len() implies {
        &&& valid_op(ops, #[trigger] plan.push(op)[k], init.len())
        &&& applicable(ops, run(ops, init, plan.push(op).take(k)), plan.push(op)[k])
    } by {
        assert(plan.push(op).take(k) =~= if k < plan.len() {
            plan.take(k)
        } else {
            plan
        });
        if k < plan.len() {
            assert(plan.push(op)[k] == plan[k]);
        }
    }
}

/// Once the queue is empty, no plan of at least one step reaches the goals:
/// every state reached from the initial one has been expanded, and no successor
/// of an expanded state satisfies the goals.
proof fn lemma_exhausted(
    ops: Seq<OperatorView>,
    init: Seq<bool>,
    goals: Seq<Lit>,
    closed: Seq<State>,
    plan: Seq<Op>,
)
    requires
        in_closed(closed, init),
        forall|x: Seq<bool>| in_closed(closed, x) ==> expanded_ok(ops, goals, closed, Seq::empty(), x),
        executable(ops, init, plan),
        plan.len() >= 1,
    ensures
        !holds_all(run(ops, init, plan), goals),
{
    let last = (plan.len() - 1) as int;
    assert forall|k: int| 0 <= k <= last implies in_closed(closed, run(ops, init, #[trigger] plan.take(k))) by {
        lemma_reached_closed(ops, init, goals, closed, plan, k);
    }
    let x = run(ops, init, plan.take(last));
    assert(plan.take(last) == plan.drop_last());
    assert(applicable(ops, x, plan[last]));
    assert(expanded_ok(ops, goals, closed, Seq::empty(), x));
}

proof fn lemma_reached_closed(
    ops: Seq<OperatorView>,
    init: Seq<bool>,
    goals: Seq<Lit>,
    closed: Seq<State>,
    plan: Seq<Op>,
    k: int,
)
    requires
        in_closed(closed, init),
        forall|x: Seq<bool>| in_closed(closed, x) ==> expanded_ok(ops, goals, closed, Seq::empty(), x),
        executable(ops, init, plan),
        0 <= k < plan.len(),
    ensures
        in_closed(closed, run(ops, init, plan.take(k))),
    decreases k,
{
    if k == 0 {
        assert(plan.take(0) =~= Seq::<Op>::empty());
    } else {
        lemma_reached_closed(ops, init, goals, closed, plan, k - 1);
        let x = run(ops, init, plan.take(k - 1));
        assert(plan.take(k).drop_last() =~= plan.take(k - 1));
        assert(applicable(ops, x, plan[k - 1]));
        assert(expanded_ok(ops, goals, closed, Seq::empty(), x));
        assert(!in_heap(Seq::<Node>::empty(), successor(ops, x, plan[k - 1])));
    }
}

/// Removing the node at `i` from the queue loses nothing once its state is in `closed`.
proof fn lemma_pop_covered(heap: Seq<Node>, i: int, closed: Seq<State>, x: Seq<bool>)
    requires
        0 <= i < heap.len(),
        heap[i].s@ == x,
        in_closed(closed, x),
    ensures
        forall|y: Seq<bool>| in_heap(heap, y) ==> in_closed(closed, y) || in_heap(heap.remove(i), y),
{
    assert forall|y: Seq<bool>| in_heap(heap, y) implies in_closed(closed, y) || in_heap(heap.remove(i), y) by {
        let j = choose|j: int| 0 <= j < heap.len() && (#[trigger] heap[j]).s@ == y;
        if j < i {
            assert(heap.remove(i)[j] == heap[j]);
        } else if j > i {
            assert(heap.remove(i)[j - 1] == heap[j]);
        }
    }
}

/// [`expanded_ok`] survives when every state expanded or queued stays so.
proof fn lemma_expanded_mono(
    ops: Seq<OperatorView>,
    goals: Seq<Lit>,
    c1: Seq<State>,
    h1: Seq<Node>,
    c2: Seq<State>,
    h2: Seq<Node>,
    x: Seq<bool>,
)
    requires
        expanded_ok(ops, goals, c1, h1, x),
        forall|y: Seq<bool>| in_closed(c1, y) || in_heap(h1, y) ==> in_closed(c2, y) || in_heap(h2, y),
    ensures
        expanded_ok(ops, goals, c2, h2, x),
{
}

/// Index of the first node of lowest priority in a non-empty queue.
fn min_index(heap: &Vec<Node>) -> (r: usize)
    requires
        heap@.len() > 0,
    ensures
        r < heap@.len(),
        forall|i: int| 0 <= i < heap@.len() ==> heap@[r as int].f <= #[trigger] heap@[i].f,
        forall|i: int| 0 <= i < r ==> heap@[r as int].f < #[trigger] heap@[i].f,
{
    let mut best: usize = 0;
    for i in 1..heap.len()
        invariant
            best < heap@.len(),
            1 <= i,
            best < i,
            forall|j: int| 0 <= j < i ==> heap@[best as int].f <= #[trigger] heap@[j].f,
            forall|j: int| 0 <= j < best ==> heap@[best as int].f < #[trigger] heap@[j].f,
    {
        if heap[i].f < heap[best].f {
            best = i;
        }
    }
    best
}

/// Whether the state `s` is one of `closed`.
fn closed_contains(closed: &Vec<State>, s: &State) -> (r: bool)
    ensures
        r == in_closed(closed@, s@),
{
    for i in 0..closed.len()
        invariant
            forall|j: int| 0 <= j < i ==> closed@[j]@ != s@,
    {
        if closed[i].same_as(s) {
            return true;
        }
    }
    false
}

/// The plan `plan` followed by `op`.
fn extend_plan(plan: &Vec<Op>, op: Op) -> (r: Vec<Op>)
    ensures
        r@ == plan@.push(op),
{
    let mut r: Vec<Op> = Vec::new();
    for i in 0..plan.len()
        invariant
            r@ == plan@.take(i as int),
    {
        r.push(plan[i]);
        assert(r@ =~= plan@.take(i + 1));
    }
    r.push(op);
    assert(r@ =~= plan@.push(op));
    r
}

/// Best-first search for a plan from `initial_state` to a state where all
/// `goals` hold. Nodes are expanded by increasing `length + WEIGHT * h_add`,
/// each state at most once, the earliest queued node first among nodes of
/// equal priority; a successor that satisfies the goals ends the search. The
/// result is [`plan_search_result`]: a plan of at least one step, or `None`
/// when no plan of at least one step exists.
#[verifier::rlimit(60)]
pub fn plan_search(initial_state: &State, ops: &Operators, goals: &[Lit]) -> (res: Option<Vec<Op>>)
    requires
        initial_state@.len() < usize::MAX / 2,
        forall|k: int|
            0 <= k < ops@.len() ==> lits_in_range(#[trigger] ops@[k].effects, initial_state@.len()),
    ensures
        res matches Some(plan) ==> plan@.len() >= 1 && is_solution(ops@, initial_state@, goals@, plan@),
        res matches Some(plan) ==> forall|k: int|
            1 <= k < plan@.len() ==> !holds_all(run(ops@, initial_state@, #[trigger] plan@.take(k)), goals@),
        res matches Some(plan) ==> distinct_path(ops@, initial_state@, plan@),
        res matches Some(plan) ==> plan_search_result(ops@, initial_state@, goals@) == Some(plan@),
        res is None ==> plan_search_result(ops@, initial_state@, goals@) is None,
        res is None ==> forall|plan: Seq<Op>|
            plan.len() >= 1 && executable(ops@, initial_state@, plan) ==> !holds_all(
                #[trigger] run(ops@, initial_state@, plan),
                goals@,
            ),
{
    let ghost init = initial_state@;
    let ghost n = init.len();
    let mut heap: Vec<Node> = Vec::new();
    let mut closed: Vec<State> = Vec::new();
    let ghost mut cset: Set<Seq<bool>> = Set::empty();
    proof {
        lemma_all_states_finite(n);
    }
    let init_node = Node { s: initial_state.clone(), plan: Vec::new(), f: 0 };
    proof {
        assert(init_node.plan@ =~= Seq::<Op>::empty());
    }
    heap.push(init_node);
    assert(heap@[0].s@ == init);
    let ghost target = plan_search_result(ops@, init, goals@);
    assert(model(heap@) =~= seq![SearchNode { s: init, plan: Seq::empty(), f: 0 }]);
    loop
        invariant
            init == initial_state@,
            n == init.len(),
            n < usize::MAX / 2,
            all_states(n).finite(),
            forall|k: int| 0 <= k < ops@.len() ==> lits_in_range(#[trigger] ops@[k].effects, n),
            forall|i: int| 0 <= i < heap@.len() ==> node_ok(ops@, init, #[trigger] heap@[i]),
            forall|i: int| 0 <= i < heap@.len() ==> path_ok(ops@, init, goals@, closed@, (#[trigger] heap@[i]).plan@),
            forall|x: Seq<bool>| #[trigger] cset.contains(x) <==> in_closed(closed@, x),
            cset.subset_of(all_states(n)),
            in_closed(closed@, init) || in_heap(heap@, init),
            forall|x: Seq<bool>| in_closed(closed@, x) ==> expanded_ok(ops@, goals@, closed@, heap@, x),
            target == plan_search_result(ops@, init, goals@),
            search(ops@, goals@, n, model(heap@), cset) == target,
        decreases all_states(n).difference(cset).len(), heap@.len(),
    {
        proof {
            assert forall|t: int| 0 <= t < model(heap@).len() implies (#[trigger] model(heap@)[t]).s.len() == n by {
                assert(node_ok(ops@, init, heap@[t]));
            }
        }
        if heap.len() == 0 {
            proof {
                assert(model(heap@).len() == 0);
                assert forall|plan: Seq<Op>|
                    plan.len() >= 1 && executable(ops@, init, plan) implies !holds_all(
                    #[trigger] run(ops@, init, plan),
                    goals@,
                ) by {
                    assert(heap@ =~= Seq::<Node>::empty());
                    lemma_exhausted(ops@, init, goals@, closed@, plan);
                }
            }
            return None;
        }
        let i = min_index(&heap);
        let ghost old_heap = heap@;
        let ghost mh = model(heap@);
        let ghost old_cset = cset;
        proof {
            assert forall|t: int| 0 <= t < mh.len() implies mh[i as int].f <= #[trigger] mh[t].f by {
                assert(heap@[i as int].f <= heap@[t].f);
            }
            assert forall|t: int| 0 <= t < i implies mh[i as int].f < #[trigger] mh[t].f by {
                assert(heap@[i as int].f < heap@[t].f);
            }
            lemma_first_min(mh, i as int);
        }
        let node = heap.remove(i);
        assert(node_ok(ops@, init, old_heap[i as int]));
        assert(model(heap@) =~= mh.remove(i as int));
        assert(mh[i as int].s == node.s@);
        if closed_contains(&closed, &node.s) {
            proof {
                assert(cset.contains(node.s@));
                lemma_search_skip(ops@, goals@, n, mh, cset, i as int);
                lemma_pop_covered(old_heap, i as int, closed@, node.s@);
                assert forall|x: Seq<bool>| in_closed(closed@, x) implies expanded_ok(
                    ops@,
                    goals@,
                    closed@,
                    heap@,
                    x,
                ) by {
                    lemma_expanded_mono(ops@, goals@, closed@, old_heap, closed@, heap@, x);
                }
                assert forall|j: int| 0 <= j < heap@.len() implies node_ok(ops@, init, #[trigger] heap@[j])
                    && path_ok(ops@, init, goals@, closed@, heap@[j].plan@) by {
                    if j < i {
                        assert(heap@[j] == old_heap[j]);
                    } else {
                        assert(heap@[j] == old_heap[j + 1]);
                    }
                }
            }
            continue;
        }
        let num_ops = ops.size();
        let ghost old_closed = closed@;
        let ghost heap_mid = heap@;
        let ghost x0 = node.s@;
        proof {
            assert(!cset.contains(x0));
            assert(mh[i as int].plan == node.plan@);
            assert(model(heap_mid) == mh.remove(i as int));
            assert(first_min(mh) == i);
            assert(mh.len() > 0);
            assert(forall|t: int| 0 <= t < mh.len() ==> (#[trigger] mh[t]).s.len() == n);
            lemma_search_expand(ops@, goals@, n, mh, cset, i as int);
            assert(search(ops@, goals@, n, mh, cset) == after_expand(
                ops@,
                goals@,
                n,
                expand(ops@, goals@, x0, node.plan@, applicable_upto(ops@, x0, ops@.len()), model(heap_mid)),
                cset.insert(x0),
            ));
        }
        closed.push(node.s.clone());
        proof {
            assert(closed@.last()@ == x0);
            assert(all_states(n).contains(x0));
            all_states(n).lemma_set_insert_diff_decreases(cset, x0);
            cset = cset.insert(x0);
            assert forall|x: Seq<bool>| #[trigger] cset.contains(x) <==> in_closed(closed@, x) by {
                if in_closed(old_closed, x) {
                    let j = choose|j: int| 0 <= j < old_closed.len() && (#[trigger] old_closed[j])@ == x;
                    assert(closed@[j] == old_closed[j]);
                }
                if x == x0 {
                    assert(closed@[old_closed.len() as int]@ == x);
                }
                if in_closed(closed@, x) {
                    let j = choose|j: int| 0 <= j < closed@.len() && (#[trigger] closed@[j])@ == x;
                    if j < old_closed.len() {
                        assert(old_closed[j] == closed@[j]);
                    }
                }
            }
            lemma_pop_covered(old_heap, i as int, closed@, x0);
            assert(old_heap.remove(i as int) == heap_mid);
            assert(forall|x: Seq<bool>| in_closed(old_closed, x) ==> in_closed(closed@, x)) by {
                assert forall|x: Seq<bool>| in_closed(old_closed, x) implies in_closed(closed@, x) by {
                    let w = choose|w: int| 0 <= w < old_closed.len() && (#[trigger] old_closed[w])@ == x;
                    assert(closed@[w] == old_closed[w]);
                }
            }
            assert(path_ok(ops@, init, goals@, old_closed, node.plan@));
            assert forall|t: int| 0 <= t < heap_mid.len() implies path_ok(
                ops@,
                init,
                goals@,
                closed@,
                (#[trigger] heap_mid[t]).plan@,
            ) by {
                if t < i {
                    assert(heap_mid[t] == old_heap[t]);
                } else {
                    assert(heap_mid[t] == old_heap[t + 1]);
                }
                lemma_path_mono(ops@, init, goals@, old_closed, closed@, heap_mid[t].plan@);
            }
            assert(num_ops == ops@.len());
            lemma_applicable_upto(ops@, x0, ops@.len());
        }
        let hres = hadd(&node.s, ops);
        let app = hres.applicable_operators();
        assert(model(heap@) =~= model(heap_mid));
        assert(app@.take(0) =~= Seq::<Op>::empty());
        for j in 0..app.len()
            invariant
                init == initial_state@,
                n == init.len(),
                n < usize::MAX / 2,
                x0 == node.s@,
                app@ == applicable_upto(ops@, x0, ops@.len()),
                target == plan_search_result(ops@, init, goals@),
                target == after_expand(
                    ops@,
                    goals@,
                    n,
                    expand(ops@, goals@, x0, node.plan@, app@, model(heap_mid)),
                    cset,
                ),
                expand(ops@, goals@, x0, node.plan@, app@.take(j as int), model(heap_mid)) == Ok::<
                    Seq<SearchNode>,
                    Seq<Op>,
                >(model(heap@)),
                node_ok(ops@, init, node),
                forall|k: int| 0 <= k < ops@.len() ==> lits_in_range(#[trigger] ops@[k].effects, n),
                forall|t: int|
                    0 <= t < app@.len() ==> applicable(ops@, x0, #[trigger] app@[t]),
                forall|t: int| 0 <= t < heap@.len() ==> node_ok(ops@, init, #[trigger] heap@[t]),
                forall|t: int| 0 <= t < heap@.len() ==> path_ok(ops@, init, goals@, closed@, (#[trigger] heap@[t]).plan@),
                path_ok(ops@, init, goals@, old_closed, node.plan@),
                !in_closed(old_closed, x0),
                in_closed(closed@, x0),
                forall|x: Seq<bool>| in_closed(old_closed, x) ==> in_closed(closed@, x),
                heap@.len() >= heap_mid.len(),
                forall|t: int| 0 <= t < heap_mid.len() ==> heap@[t] == #[trigger] heap_mid[t],
                forall|t: int|
                    0 <= t < j ==> !holds_all(successor(ops@, x0, #[trigger] app@[t]), goals@) && in_heap(
                        heap@,
                        successor(ops@, x0, app@[t]),
                    ),
        {
            let op = app[j];
            assert(applicable(ops@, x0, app@[j as int]));
            let s2 = step(&node.s, &op, ops);
            let plan2 = extend_plan(&node.plan, op);
            proof {
                lemma_run_push(ops@, init, node.plan@, op);
                lemma_path_extend(ops@, init, goals@, old_closed, closed@, node.plan@, op);
                assert(app@.take(j + 1).drop_last() =~= app@.take(j as int));
                assert(app@.take(j + 1).last() == op);
            }
            if s2.entails_all(goals) {
                proof {
                    assert(expand(ops@, goals@, x0, node.plan@, app@.take(j + 1), model(heap_mid)) == Err::<
                        Seq<SearchNode>,
                        Seq<Op>,
                    >(plan2@));
                    lemma_expand_err(ops@, goals@, x0, node.plan@, app@, model(heap_mid), j + 1);
                }
                return Some(plan2);
            }
            let hres2 = hadd(&s2, ops);
            let f = priority(plan2.len(), hres2.conjunction_cost(goals));
            let ghost before = heap@;
            let ghost nd2 = child(ops@, goals@, x0, node.plan@, op);
            assert(f == nd2.f);
            heap.push(Node { s: s2, plan: plan2, f });
            proof {
                assert(model(heap@) =~= model(before).push(nd2));
                assert(heap@[before.len() as int].s@ == successor(ops@, x0, op));
                assert forall|t: int| 0 <= t < j + 1 implies !holds_all(
                    successor(ops@, x0, #[trigger] app@[t]),
                    goals@,
                ) && in_heap(heap@, successor(ops@, x0, app@[t])) by {
                    if t < j {
                        let w = choose|w: int| 0 <= w < before.len() && (#[trigger] before[w]).s@
                            == successor(ops@, x0, app@[t]);
                        assert(heap@[w] == before[w]);
                    }
                }
                assert(plan2@.take(plan2@.len() as int) =~= plan2@);
                assert forall|t: int| 0 <= t < heap@.len() implies node_ok(ops@, init, #[trigger] heap@[t])
                    && path_ok(ops@, init, goals@, closed@, heap@[t].plan@) by {
                    if t < before.len() {
                        assert(heap@[t] == before[t]);
                    }
                }
            }
        }
        proof {
            assert(app@.take(app@.len() as int) =~= app@);
            assert forall|x: Seq<bool>|
                in_closed(old_closed, x) || in_heap(old_heap, x) implies in_closed(closed@, x) || in_heap(
                heap@,
                x,
            ) by {
                if in_closed(old_closed, x) {
                    let w = choose|w: int| 0 <= w < old_closed.len() && (#[trigger] old_closed[w])@ == x;
                    assert(closed@[w] == old_closed[w]);
                } else if !in_closed(closed@, x) {
                    assert(in_heap(heap_mid, x));
                    let w = choose|w: int| 0 <= w < heap_mid.len() && (#[trigger] heap_mid[w]).s@ == x;
                    assert(heap@[w] == heap_mid[w]);
                }
            }
            assert forall|x: Seq<bool>| in_closed(closed@, x) implies expanded_ok(
                ops@,
                goals@,
                closed@,
                heap@,
                x,
            ) by {
                if x == x0 {
                    assert forall|o: Op| #[trigger] applicable(ops@, x, o) implies {
                        &&& !holds_all(successor(ops@, x, o), goals@)
                        &&& (in_closed(closed@, successor(ops@, x, o)) || in_heap(
                            heap@,
                            successor(ops@, x, o),
                        ))
                    } by {
                        assert(o.0 < ops@.len());
                        assert(app@.contains(o));
                        let t = choose|t: int| 0 <= t < app@.len() && app@[t] == o;
                        assert(!holds_all(successor(ops@, x0, app@[t]), goals@));
                    }
                } else {
                    let w = choose|w: int| 0 <= w < closed@.len() && (#[trigger] closed@[w])@ == x;
                    assert(w < old_closed.len());
                    assert(old_closed[w] == closed@[w]);
                    assert(in_closed(old_closed, x));
                    lemma_expanded_mono(ops@, goals@, old_closed, old_heap, closed@, heap@, x);
                }
            }
        }
    }
}

} // verus!
