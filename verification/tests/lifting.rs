use aries::planning::chronicles::{
    Atom, Chronicle, ChronicleInstance, ChronicleTemplate, Condition, Ctx, Effect, Holed, Problem, StateFun,
    Time, Type,
};
use aries::planning::classical::search::plan_search;
use aries::planning::classical::state::{Lit, Op, State, World, SV};
use aries::planning::classical::{
    from_chronicles, ground_action_schema, grounded_problem, is_groundable, is_readable, ActionSchema, LiftedProblem,
    ParameterizedPred,
};
use aries::planning::symbols::{SymId, SymbolTable, TypeId};
use aries::planning::utils::enumerate;

const TAUTOLOGY: Atom = Atom(0);
const CONTRADICTION: Atom = Atom(1);
const ORIGIN: Atom = Atom(2);
const HORIZON: Atom = Atom(3);
const AT: Atom = Atom(4);
const A: Atom = Atom(5);
const B: Atom = Atom(6);
const MOVE: Atom = Atom(7);
const START: Atom = Atom(8);

fn s(x: usize) -> SymId {
    SymId(x)
}

/// Symbols: at(0), a(1), b(2), move(3); type 0 = locations {a, b}.
fn table() -> SymbolTable {
    SymbolTable {
        names: vec!["at".to_string(), "a".to_string(), "b".to_string(), "move".to_string()],
        instances: vec![vec![s(1), s(2)]],
    }
}

fn at_fun() -> StateFun {
    StateFun { sym: s(0), tpe: vec![Type::Symbolic(TypeId(0)), Type::Boolean] }
}

fn ctx() -> Ctx {
    Ctx {
        symbols: table(),
        state_functions: vec![at_fun()],
        tautology: TAUTOLOGY,
        contradiction: CONTRADICTION,
        origin: ORIGIN,
        horizon: HORIZON,
        values: vec![None, None, None, None, Some(s(0)), Some(s(1)), Some(s(2)), Some(s(3)), None],
    }
}

fn t(a: Atom) -> Time<Atom> {
    Time::new(a)
}

/// Initial chronicle: at(a) holds from the origin; goal: at(b) at the horizon.
fn initial() -> ChronicleInstance {
    ChronicleInstance {
        chronicle: Chronicle {
            prez: TAUTOLOGY,
            start: t(ORIGIN),
            end: t(HORIZON),
            name: vec![],
            conditions: vec![Condition { start: t(HORIZON), end: t(HORIZON), sv: vec![AT, B], value: TAUTOLOGY }],
            effects: vec![Effect { transition_start: t(ORIGIN), persistence_start: t(ORIGIN), sv: vec![AT, A], value: TAUTOLOGY }],
        },
    }
}

fn ht(delay: i64) -> Time<Holed<Atom>> {
    Time { time_var: Holed::Param(2), delay }
}

/// move(?from, ?to): at(?from) at the start; at(?from) false and at(?to) true at the end.
fn move_template() -> ChronicleTemplate {
    ChronicleTemplate {
        params: vec![
            (Type::Symbolic(TypeId(0)), Some("from".to_string())),
            (Type::Symbolic(TypeId(0)), Some("to".to_string())),
            (Type::Time, None),
        ],
        chronicle: Chronicle {
            prez: Holed::Full(TAUTOLOGY),
            start: ht(0),
            end: ht(1),
            name: vec![Holed::Full(MOVE), Holed::Param(0), Holed::Param(1)],
            conditions: vec![Condition { start: ht(0), end: ht(0), sv: vec![Holed::Full(AT), Holed::Param(0)], value: Holed::Full(TAUTOLOGY) }],
            effects: vec![
                Effect { transition_start: ht(0), persistence_start: ht(1), sv: vec![Holed::Full(AT), Holed::Param(0)], value: Holed::Full(CONTRADICTION) },
                Effect { transition_start: ht(0), persistence_start: ht(1), sv: vec![Holed::Full(AT), Holed::Param(1)], value: Holed::Full(TAUTOLOGY) },
            ],
        },
    }
}

fn problem() -> Problem {
    Problem { context: ctx(), templates: vec![move_template()], chronicles: vec![initial()] }
}

fn values(s: &State) -> Vec<bool> {
    s.literals().iter().map(|l| l.val()).collect()
}

fn lifted_err(p: &Problem) -> String {
    match from_chronicles(p) {
        Ok(_) => panic!("expected an error"),
        Err(e) => e,
    }
}

fn lifted_ok(p: &Problem) -> LiftedProblem {
    match from_chronicles(p) {
        Ok(l) => l,
        Err(e) => panic!("unexpected error: {}", e),
    }
}

fn pred_parts(p: &ParameterizedPred) -> (bool, Vec<Holed<SymId>>) {
    (p.positive, p.sexpr.clone())
}

#[test]
fn enumerate_in_lexicographic_order() {
    let gens = vec![vec![s(1), s(2)], vec![s(3)], vec![s(4), s(5)]];
    let all = enumerate(&gens);
    assert_eq!(
        all,
        vec![
            vec![s(1), s(3), s(4)],
            vec![s(1), s(3), s(5)],
            vec![s(2), s(3), s(4)],
            vec![s(2), s(3), s(5)],
        ]
    );
    assert_eq!(enumerate(&vec![]), vec![Vec::<SymId>::new()]);
    assert_eq!(enumerate(&vec![vec![s(1)], vec![]]), Vec::<Vec<SymId>>::new());
}

#[test]
fn world_from_state_functions() {
    let w = World::new(table(), &[at_fun()]).ok().expect("a world");
    assert_eq!(w.num_svs(), 2);
    assert_eq!(w.sv_id(&[s(0), s(1)]), Some(SV(0)));
    assert_eq!(w.sv_id(&[s(0), s(2)]), Some(SV(1)));
    assert_eq!(w.sv_id(&[s(0), s(3)]), None);
    assert_eq!(w.sv_of(SV(1)), vec![s(0), s(2)]);
    assert_eq!(values(&w.make_new_state()), vec![false, false]);
}

#[test]
fn world_rejects_duplicates() {
    match World::new(table(), &[at_fun(), at_fun()]) {
        Ok(_) => panic!("expected an error"),
        Err(e) => assert_eq!(e, "duplicated instance"),
    }
}

#[test]
fn world_rejects_non_symbolic_arguments() {
    let f = StateFun { sym: s(0), tpe: vec![Type::Integer, Type::Boolean] };
    match World::new(table(), &[f]) {
        Ok(_) => panic!("expected an error"),
        Err(e) => assert_eq!(e, "Non symbolic argument type"),
    }
}

#[test]
fn bind_substitutes_parameters() {
    let w = World::new(table(), &[at_fun()]).ok().unwrap();
    let p = ParameterizedPred { positive: false, sexpr: vec![Holed::Full(s(0)), Holed::Param(1)] };
    let mut working = vec![s(9)];
    assert_eq!(p.bind(&w, &[s(1), s(2)], &mut working), Some(Lit::new(SV(1), false)));
    assert_eq!(working, vec![s(0), s(2)]);
    assert_eq!(p.bind(&w, &[s(1), s(3)], &mut working), None);
    assert_eq!(working, vec![s(0), s(3)]);
}

#[test]
fn from_chronicles_lifts_problem() {
    let l = lifted_ok(&problem());
    assert_eq!(l.world.num_svs(), 2);
    assert_eq!(values(&l.initial_state), vec![true, false]);
    assert_eq!(l.goals, vec![Lit::new(SV(1), true)]);
    assert_eq!(l.actions.len(), 1);
    let a: &ActionSchema = &l.actions[0];
    assert_eq!(a.name, s(3));
    assert_eq!(a.params, vec![(TypeId(0), Some("from".to_string())), (TypeId(0), Some("to".to_string()))]);
    assert_eq!(a.pre.iter().map(pred_parts).collect::<Vec<_>>(), vec![(true, vec![Holed::Full(s(0)), Holed::Param(0)])]);
    assert_eq!(
        a.eff.iter().map(pred_parts).collect::<Vec<_>>(),
        vec![(false, vec![Holed::Full(s(0)), Holed::Param(0)]), (true, vec![Holed::Full(s(0)), Holed::Param(1)])]
    );
}

#[test]
fn grounding_and_search_end_to_end() {
    let l = lifted_ok(&problem());
    let g = grounded_problem(&l).ok().expect("grounding succeeds");
    assert_eq!(g.operators.size(), 4);
    assert_eq!(g.operators.name(Op(1)), &[s(3), s(1), s(2)][..]);
    assert_eq!(g.operators.preconditions(Op(1)), &[Lit::new(SV(0), true)][..]);
    assert_eq!(g.operators.effects(Op(1)), &[Lit::new(SV(0), false), Lit::new(SV(1), true)][..]);
    assert_eq!(g.operators.name(Op(2)), &[s(3), s(2), s(1)][..]);
    assert_eq!(values(&g.initial_state), vec![true, false]);
    assert_eq!(g.goals, vec![Lit::new(SV(1), true)]);
    let plan = plan_search(&g.initial_state, &g.operators, &g.goals).expect("a plan");
    assert_eq!(plan, vec![Op(1)]);
}

#[test]
fn error_optional_instance() {
    let mut p = problem();
    p.chronicles[0].chronicle.prez = HORIZON;
    assert_eq!(lifted_err(&p), "A chronicle instance is optional");
}

#[test]
fn error_non_instantaneous_effect() {
    let mut p = problem();
    p.chronicles[0].chronicle.effects[0].persistence_start = Time { time_var: ORIGIN, delay: 1 };
    assert_eq!(lifted_err(&p), "Non instantaneous effect");
}

#[test]
fn error_effect_not_at_origin() {
    let mut p = problem();
    p.chronicles[0].chronicle.effects[0].transition_start = t(HORIZON);
    p.chronicles[0].chronicle.effects[0].persistence_start = t(HORIZON);
    assert_eq!(lifted_err(&p), "Effect not at start in initial chronicle");
}

#[test]
fn error_non_instantaneous_condition() {
    let mut p = problem();
    p.chronicles[0].chronicle.conditions[0].start = t(ORIGIN);
    assert_eq!(lifted_err(&p), "Non instantaneous condition");
}

#[test]
fn error_condition_not_final() {
    let mut p = problem();
    p.chronicles[0].chronicle.conditions[0].start = t(ORIGIN);
    p.chronicles[0].chronicle.conditions[0].end = t(ORIGIN);
    assert_eq!(lifted_err(&p), "Non final condition can not be interpreted as goal");
}

#[test]
fn error_not_a_symbolic_value() {
    let mut p = problem();
    p.chronicles[0].chronicle.effects[0].sv = vec![AT, START];
    assert_eq!(lifted_err(&p), "Not a symbolic value");
}

#[test]
fn error_unknown_state_variable() {
    let mut p = problem();
    p.chronicles[0].chronicle.effects[0].sv = vec![AT, MOVE];
    assert_eq!(lifted_err(&p), "No state variable identifed (maybe due to a typing error");
}

#[test]
fn error_value_not_boolean() {
    let mut p = problem();
    p.chronicles[0].chronicle.effects[0].value = A;
    assert_eq!(lifted_err(&p), "state variable is not bound to a constant boolean");
}

#[test]
fn negative_initial_effect_and_first_error_wins() {
    let mut p = problem();
    p.chronicles[0].chronicle.effects.push(Effect {
        transition_start: t(ORIGIN),
        persistence_start: t(ORIGIN),
        sv: vec![AT, A],
        value: CONTRADICTION,
    });
    let l = lifted_ok(&p);
    assert_eq!(values(&l.initial_state), vec![false, false]);
    // two faulty effects: the first one is reported
    p.chronicles[0].chronicle.effects[0].value = A;
    p.chronicles[0].chronicle.effects[1].persistence_start = t(HORIZON);
    assert_eq!(lifted_err(&p), "state variable is not bound to a constant boolean");
}

#[test]
fn error_unnamed_template() {
    let mut p = problem();
    p.templates[0].chronicle.name = vec![];
    assert_eq!(lifted_err(&p), "Unamed temlate");
    p.templates[0].chronicle.name = vec![Holed::Param(0)];
    assert_eq!(lifted_err(&p), "Unamed temlate");
}

#[test]
fn error_expected_action_symbol() {
    let mut p = problem();
    p.templates[0].chronicle.name[0] = Holed::Full(START);
    assert_eq!(lifted_err(&p), "Expected action symbol");
}

#[test]
fn error_action_start_not_free() {
    let mut p = problem();
    p.templates[0].chronicle.start = Time { time_var: Holed::Full(ORIGIN), delay: 3 };
    assert_eq!(lifted_err(&p), "action start is not free");
    let mut p = problem();
    p.templates[0].chronicle.start = Time { time_var: Holed::Full(HORIZON), delay: 0 };
    assert_eq!(lifted_err(&p), "action start is not free");
}

#[test]
fn error_more_than_one_timepoint() {
    let mut p = problem();
    p.templates[0].chronicle.end = ht(0);
    assert_eq!(lifted_err(&p), "More than one free timepoint in the action.");
    let mut p = problem();
    p.templates[0].chronicle.end = Time { time_var: Holed::Param(1), delay: 5 };
    assert_eq!(lifted_err(&p), "More than one free timepoint in the action.");
}

#[test]
fn error_non_symbolic_parameter() {
    let mut p = problem();
    p.templates[0].chronicle.name.push(Holed::Param(2));
    assert_eq!(lifted_err(&p), "Non symbolic parameter");
}

#[test]
fn error_expression_as_parameter() {
    let mut p = problem();
    p.templates[0].chronicle.name.push(Holed::Full(A));
    assert_eq!(lifted_err(&p), "Expected an action parameter but got an expression");
}

#[test]
fn error_template_conditions() {
    let mut p = problem();
    p.templates[0].chronicle.conditions[0].end = ht(1);
    assert_eq!(lifted_err(&p), "Non intantaneous condition");
    let mut p = problem();
    p.templates[0].chronicle.conditions[0].start = ht(1);
    p.templates[0].chronicle.conditions[0].end = ht(1);
    assert_eq!(lifted_err(&p), "Non final condition can not be interpreted as goal");
}

#[test]
fn error_template_effects() {
    let mut p = problem();
    p.templates[0].chronicle.effects[1].transition_start = ht(1);
    assert_eq!(lifted_err(&p), "Effect does not start condition with action's start");
    let mut p = problem();
    p.templates[0].chronicle.effects[1].persistence_start = ht(0);
    assert_eq!(lifted_err(&p), "Effect is not active at action's end");
}

#[test]
fn error_invalid_parameter() {
    let mut p = problem();
    p.templates[0].chronicle.conditions[0].sv = vec![Holed::Full(AT), Holed::Param(2)];
    assert_eq!(lifted_err(&p), "Invalid parameter");
    let mut p = problem();
    p.templates[0].chronicle.effects[0].sv = vec![Holed::Full(AT), Holed::Full(START)];
    assert_eq!(lifted_err(&p), "Not a symbolic value");
    let mut p = problem();
    p.templates[0].chronicle.effects[0].value = Holed::Param(0);
    assert_eq!(lifted_err(&p), "state variable is not bound to a constant boolean");
}

#[test]
fn world_error_comes_first() {
    let mut p = problem();
    p.context.state_functions.push(at_fun());
    p.chronicles[0].chronicle.prez = HORIZON;
    assert_eq!(lifted_err(&p), "duplicated instance");
}

#[test]
fn repeated_template_parameter_uses_last_position() {
    let mut p = problem();
    p.templates[0].chronicle.name = vec![Holed::Full(MOVE), Holed::Param(0), Holed::Param(1), Holed::Param(0)];
    let l = lifted_ok(&p);
    let a = &l.actions[0];
    assert_eq!(a.params.len(), 3);
    assert_eq!(pred_parts(&a.pre[0]), (true, vec![Holed::Full(s(0)), Holed::Param(2)]));
}

#[test]
fn format_symbols() {
    let tb = table();
    assert_eq!(tb.format(&[s(3), s(1), s(2)]), "(move a b)");
    assert_eq!(tb.format(&[]), "()");
    assert_eq!(tb.format(&[s(0), s(9)]), "(at ?)");
}

#[test]
fn groundable_problem() {
    let l = lifted_ok(&problem());
    assert!(is_groundable(&l));
    // a precondition whose parameter is outside the schema's parameters
    let mut l2 = lifted_ok(&problem());
    l2.actions[0].pre[0].sexpr = vec![Holed::Full(s(0)), Holed::Param(5)];
    assert!(!is_groundable(&l2));
    // a precondition that denotes no state variable
    let mut l3 = lifted_ok(&problem());
    l3.actions[0].pre[0].sexpr = vec![Holed::Full(s(3)), Holed::Param(0)];
    assert!(!is_groundable(&l3));
    // a parameter of an unknown type
    let mut l4 = lifted_ok(&problem());
    l4.actions[0].params[0].0 = TypeId(4);
    assert!(!is_groundable(&l4));
}

#[test]
fn ground_count_is_product_of_instances() {
    let mut p = problem();
    // a second schema with a single parameter: two more operators
    let mut t2 = move_template();
    t2.chronicle.name = vec![Holed::Full(MOVE), Holed::Param(0)];
    t2.chronicle.effects.pop();
    p.templates.push(t2);
    let l = lifted_ok(&p);
    let g = grounded_problem(&l).ok().expect("grounding succeeds");
    assert_eq!(g.operators.size(), 2 * 2 + 2);
}

#[test]
fn ground_action_schema_binds_in_order() {
    let l = lifted_ok(&problem());
    let ops = ground_action_schema(&l.actions[0], &l.world).ok().expect("grounding succeeds");
    // one operator per (from, to) pair, in lexicographic order of the instances
    let names: Vec<Vec<SymId>> = ops.iter().map(|o| o.name.clone()).collect();
    assert_eq!(
        names,
        vec![vec![s(3), s(1), s(1)], vec![s(3), s(1), s(2)], vec![s(3), s(2), s(1)], vec![s(3), s(2), s(2)]]
    );
    // preconditions and effects keep the order of the schema's
    assert_eq!(ops[1].precond, vec![Lit::new(SV(0), true)]);
    assert_eq!(ops[1].effects, vec![Lit::new(SV(0), false), Lit::new(SV(1), true)]);
    assert_eq!(ops[2].precond, vec![Lit::new(SV(1), true)]);
    assert_eq!(ops[2].effects, vec![Lit::new(SV(1), false), Lit::new(SV(0), true)]);
}

#[test]
fn readable_problems() {
    assert!(is_readable(&problem()));
    let mut p = problem();
    p.templates[0].chronicle.name.push(Holed::Param(7));
    assert!(!is_readable(&p));
    let mut p = problem();
    p.context.state_functions[0].tpe = vec![Type::Symbolic(TypeId(3)), Type::Boolean];
    assert!(!is_readable(&p));
    let mut p = problem();
    p.context.state_functions[0].tpe = vec![];
    assert!(!is_readable(&p));
}

#[test]
fn world_error_comes_before_templates() {
    // the template names a parameter it does not have, but building the
    // world fails first
    let mut p = problem();
    p.templates[0].chronicle.name.push(Holed::Param(7));
    p.context.state_functions.push(at_fun());
    assert_eq!(lifted_err(&p), "duplicated instance");
    // a state function after a failing one is not read
    let mut p = problem();
    p.context.state_functions =
        vec![StateFun { sym: s(0), tpe: vec![Type::Integer, Type::Boolean] }, StateFun { sym: s(3), tpe: vec![] }];
    assert_eq!(lifted_err(&p), "Non symbolic argument type");
}

#[test]
fn instance_error_comes_before_templates() {
    let mut p = problem();
    p.templates[0].chronicle.name.push(Holed::Param(7));
    p.chronicles[0].chronicle.prez = HORIZON;
    assert_eq!(lifted_err(&p), "A chronicle instance is optional");
}
