use aries::planning::classical::heuristics::{hadd, INFTY};
use aries::planning::classical::search::{causalite, compare, h_step, plan_search, step};
use aries::planning::classical::state::{
    defaultresume, newresume, Lit, Op, Operator, Operators, Resume, State, SV,
};
use aries::planning::symbols::SymId;

fn lit(v: usize, b: bool) -> Lit {
    Lit::new(SV(v), b)
}

fn op(name: usize, precond: Vec<Lit>, effects: Vec<Lit>) -> Operator {
    Operator { name: vec![SymId(name)], precond, effects }
}

fn values(s: &State) -> Vec<bool> {
    s.literals().iter().map(|l| l.val()).collect()
}

/// Three variables; op0: v0 -> v1, op1: v1 -> v2, op2: v2 -> not v0.
fn chain() -> Operators {
    let mut ops = Operators::new();
    ops.push(op(0, vec![lit(0, true)], vec![lit(1, true)]));
    ops.push(op(1, vec![lit(1, true)], vec![lit(2, true)]));
    ops.push(op(2, vec![lit(2, true)], vec![lit(0, false)]));
    ops
}

#[test]
fn step_applies_effects() {
    let ops = chain();
    let s = State::from_values(vec![true, false, false]);
    let s2 = step(&s, &Op(0), &ops);
    assert_eq!(values(&s2), vec![true, true, false]);
    // the initial state is untouched
    assert_eq!(values(&s), vec![true, false, false]);
}

#[test]
fn step_last_effect_wins() {
    let mut ops = Operators::new();
    ops.push(op(0, vec![], vec![lit(0, true), lit(1, true), lit(0, false)]));
    let s = State::from_values(vec![true, false]);
    let s2 = step(&s, &Op(0), &ops);
    assert_eq!(values(&s2), vec![false, true]);
}

#[test]
fn compare_counts_changes() {
    let a = State::from_values(vec![true, false, false, true]);
    let b = State::from_values(vec![false, false, true, true]);
    assert_eq!(compare(&a, &b), 2);
    assert_eq!(compare(&b, &a), 2);
    assert_eq!(compare(&a, &a), 0);
    // only the variables both states have are compared
    let c = State::from_values(vec![false]);
    assert_eq!(compare(&a, &c), 1);
}

#[test]
fn h_step_records_changes() {
    let ops = chain();
    let s = State::from_values(vec![true, false, false]);
    let histo = vec![defaultresume(); 3];
    let (s2, h) = h_step(&s, &Op(0), &ops, 0, histo);
    assert_eq!(values(&s2), vec![true, true, false]);
    assert_eq!(h, vec![defaultresume(), newresume(Op(0), 0), defaultresume()]);
    let (s3, h2) = h_step(&s2, &Op(1), &ops, 1, h);
    assert_eq!(values(&s3), vec![true, true, true]);
    assert_eq!(h2, vec![defaultresume(), newresume(Op(0), 0), newresume(Op(1), 1)]);
}

#[test]
fn h_step_effect_already_true_is_no_change() {
    let ops = chain();
    let s = State::from_values(vec![true, true, false]);
    let (_, h) = h_step(&s, &Op(0), &ops, 4, vec![defaultresume(); 3]);
    assert_eq!(h, vec![defaultresume(); 3]);
}

#[test]
fn causalite_links_preconditions() {
    let ops = chain();
    let s = State::from_values(vec![true, false, false]);
    let plan = vec![Op(0), Op(1), Op(2)];
    // op2 needs v2, which op1 set at step 1
    assert_eq!(causalite(2, plan.clone(), &s, &ops), vec![newresume(Op(1), 1)]);
    // op1 needs v1, which op0 set at step 0
    assert_eq!(causalite(1, plan.clone(), &s, &ops), vec![newresume(Op(0), 0)]);
    // op0 needs v0, which holds from the start
    assert_eq!(causalite(0, plan, &s, &ops), vec![defaultresume()]);
}

#[test]
fn causalite_one_link_per_precondition() {
    let mut ops = Operators::new();
    ops.push(op(0, vec![], vec![lit(1, true)]));
    ops.push(op(1, vec![lit(1, true), lit(0, false), lit(1, true)], vec![]));
    let s = State::from_values(vec![false, false]);
    let links = causalite(1, vec![Op(0), Op(1)], &s, &ops);
    // variable 0 first (one precondition), then variable 1 (two preconditions)
    assert_eq!(links, vec![defaultresume(), newresume(Op(0), 0), newresume(Op(0), 0)]);
}

#[test]
fn resume_accessors() {
    let d: Resume = defaultresume();
    assert_eq!(d.op(), None);
    assert_eq!(d.numero(), -1);
    let r = newresume(Op(3), 7);
    assert_eq!(r.op(), Some(Op(3)));
    assert_eq!(r.numero(), 7);
}

#[test]
fn plan_search_finds_chain() {
    let ops = chain();
    let s = State::from_values(vec![true, false, false]);
    let goals = vec![lit(2, true)];
    let plan = plan_search(&s, &ops, &goals).expect("a plan exists");
    assert_eq!(plan, vec![Op(0), Op(1)]);
    // replaying the plan reaches the goals
    let mut cur = s.clone();
    for o in &plan {
        assert!(cur.entails_all(ops.preconditions(*o)));
        cur = step(&cur, o, &ops);
    }
    assert!(cur.entails_all(&goals));
}

#[test]
fn plan_search_reaches_negative_goal() {
    let ops = chain();
    let s = State::from_values(vec![true, false, false]);
    let plan = plan_search(&s, &ops, &[lit(0, false)]).expect("a plan exists");
    assert_eq!(plan, vec![Op(0), Op(1), Op(2)]);
}

#[test]
fn plan_search_infeasible() {
    let ops = chain();
    let s = State::from_values(vec![false, false, false]);
    assert_eq!(plan_search(&s, &ops, &[lit(2, true)]), None);
}

#[test]
fn plan_search_needs_at_least_one_step() {
    // the goal holds already, but the search only tests the states it generates
    let ops = Operators::new();
    let s = State::from_values(vec![true]);
    assert_eq!(plan_search(&s, &ops, &[lit(0, true)]), None);
    let mut ops = Operators::new();
    ops.push(op(0, vec![], vec![]));
    assert_eq!(plan_search(&s, &ops, &[lit(0, true)]), Some(vec![Op(0)]));
}

#[test]
fn plan_search_prefers_short_plans() {
    let mut ops = chain();
    // a shortcut: v0 -> v2 directly
    ops.push(op(3, vec![lit(0, true)], vec![lit(2, true)]));
    let s = State::from_values(vec![true, false, false]);
    assert_eq!(plan_search(&s, &ops, &[lit(2, true)]), Some(vec![Op(3)]));
}

#[test]
fn hadd_costs_along_chain() {
    let ops = chain();
    let s = State::from_values(vec![true, false, false]);
    let h = hadd(&s, &ops);
    assert_eq!(h.lit_cost(lit(0, true)), 0);
    assert_eq!(h.lit_cost(lit(1, false)), 0);
    assert_eq!(h.lit_cost(lit(1, true)), 1);
    assert_eq!(h.lit_cost(lit(2, true)), 2);
    assert_eq!(h.lit_cost(lit(0, false)), 3);
    assert_eq!(h.conjunction_cost(&[lit(1, true), lit(2, true)]), 3);
    assert_eq!(h.conjunction_cost(&[]), 0);
    assert_eq!(h.applicable_operators(), &[Op(0)][..]);
}

#[test]
fn hadd_unreachable_and_outside_literals() {
    let ops = chain();
    let s = State::from_values(vec![false, false, false]);
    let h = hadd(&s, &ops);
    assert_eq!(h.lit_cost(lit(2, true)), INFTY);
    assert_eq!(h.applicable_operators(), &[][..]);
    // a variable outside the state is false
    assert_eq!(h.lit_cost(lit(9, false)), 0);
    assert_eq!(h.lit_cost(lit(9, true)), INFTY);
}

#[test]
fn hadd_sums_preconditions() {
    let mut ops = Operators::new();
    ops.push(op(0, vec![], vec![lit(0, true)]));
    ops.push(op(1, vec![], vec![lit(1, true)]));
    ops.push(op(2, vec![lit(0, true), lit(1, true)], vec![lit(2, true)]));
    ops.push(op(3, vec![], vec![lit(2, true)]));
    let s = State::from_values(vec![false, false, false]);
    let h = hadd(&s, &ops);
    assert_eq!(h.lit_cost(lit(0, true)), 1);
    assert_eq!(h.lit_cost(lit(1, true)), 1);
    // min(1 + 1 + 1, 1)
    assert_eq!(h.lit_cost(lit(2, true)), 1);
    assert_eq!(h.applicable_operators(), &[Op(0), Op(1), Op(3)][..]);
}

#[test]
fn state_basics() {
    let mut s = State::all_false(3);
    assert_eq!(s.size(), 3);
    s.add(SV(1));
    assert!(s.is_set(SV(1)));
    assert!(!s.is_set(SV(7)));
    s.set(lit(2, true));
    s.del(SV(1));
    assert_eq!(values(&s), vec![false, false, true]);
    assert!(s.entails(lit(0, false)));
    assert!(s.entails_all(&[lit(0, false), lit(2, true)]));
    assert!(!s.entails_all(&[lit(0, true)]));
    assert!(s.entails(lit(5, false)));
    let t = s.clone();
    assert!(t.same_as(&s));
}

#[test]
fn causalite_on_found_plan() {
    let ops = chain();
    let s = State::from_values(vec![true, false, false]);
    let plan = plan_search(&s, &ops, &[lit(0, false)]).expect("a plan exists");
    let last = plan.len() - 1;
    let links = causalite(last as i32, plan.clone(), &s, &ops);
    // the last step (op2) needs v2, set by op1 at step 1
    assert_eq!(links, vec![newresume(Op(1), 1)]);
}

#[test]
fn found_plan_has_no_shorter_solution_and_no_repeated_state() {
    let mut ops = chain();
    // an operator that does nothing, always applicable
    ops.push(op(4, vec![], vec![]));
    let s = State::from_values(vec![true, false, false]);
    let goals = vec![lit(0, false)];
    let plan = plan_search(&s, &ops, &goals).expect("a plan exists");
    let mut states = vec![s.clone()];
    let mut cur = s.clone();
    for o in &plan {
        cur = step(&cur, o, &ops);
        states.push(cur.clone());
    }
    let last = plan.len();
    assert!(states[last].entails_all(&goals));
    for k in 1..last {
        assert!(!states[k].entails_all(&goals));
    }
    for i in 0..last {
        for j in (i + 1)..last {
            assert!(!states[i].same_as(&states[j]));
        }
    }
}

#[test]
fn step_twice_is_step_once() {
    let mut ops = Operators::new();
    ops.push(op(0, vec![], vec![lit(0, true), lit(1, false)]));
    let s = State::from_values(vec![false, true, true]);
    let once = step(&s, &Op(0), &ops);
    let twice = step(&once, &Op(0), &ops);
    assert!(once.same_as(&twice));
    assert_eq!(values(&once), vec![true, false, true]);
}

#[test]
fn steps_on_disjoint_variables_commute() {
    let mut ops = Operators::new();
    ops.push(op(0, vec![], vec![lit(0, true)]));
    ops.push(op(1, vec![], vec![lit(2, false), lit(1, true)]));
    let s = State::from_values(vec![false, false, true]);
    let ab = step(&step(&s, &Op(0), &ops), &Op(1), &ops);
    let ba = step(&step(&s, &Op(1), &ops), &Op(0), &ops);
    assert!(ab.same_as(&ba));
    assert_eq!(values(&ab), vec![true, true, false]);
}

#[test]
fn plan_search_same_inputs_same_plan() {
    let mut ops = Operators::new();
    ops.push(op(0, vec![], vec![lit(1, true)]));
    ops.push(op(1, vec![], vec![lit(1, true)]));
    let s = State::from_values(vec![false, false]);
    let first = plan_search(&s, &ops, &[lit(1, true)]);
    let second = plan_search(&s, &ops, &[lit(1, true)]);
    assert_eq!(first, second);
    // the operators are tried in order
    assert_eq!(first, Some(vec![Op(0)]));
}

#[test]
fn plan_search_breaks_ties_by_queue_order() {
    // two plans of two steps: op0 then op2, or op1 then op3; both first
    // successors have the same priority and the one queued first is expanded
    let mut ops = Operators::new();
    ops.push(op(0, vec![], vec![lit(0, true)]));
    ops.push(op(1, vec![], vec![lit(1, true)]));
    ops.push(op(2, vec![lit(0, true)], vec![lit(2, true)]));
    ops.push(op(3, vec![lit(1, true)], vec![lit(2, true)]));
    let s = State::from_values(vec![false, false, false]);
    assert_eq!(plan_search(&s, &ops, &[lit(2, true)]), Some(vec![Op(0), Op(2)]));
}
