pub mod state;
pub mod search;
pub mod heuristics;
pub mod lifting;

use vstd::prelude::*;
use std::collections::HashMap;
use crate::planning::chronicles::{
    sym_value, Atom, ChronicleInstance, ChronicleTemplate, Condition, Ctx, Effect, Holed, Problem, StateFun, Time, Type,
};
use crate::planning::classical::state::{
    argument_types, lemma_first_index_of, lits_in_range, state_fun_readable, sv_of_expr, symbolic_args, world_exprs,
    well_typed_state_funs, Lit, Operator, OperatorView, Operators, State, World,
};
use crate::planning::classical::lifting::{lemma_lifted_reads, lifted_reads};
use crate::planning::symbols::{copy_syms, SymId, TypeId};
use crate::planning::utils::{enumerate, lemma_product_len, product, product_len};

verus! {

broadcast use vstd::std_specs::hash::group_hash_axioms;

/// A literal over a state variable whose expression may hold parameters.
pub struct ParameterizedPred {
    pub positive: bool,
    pub sexpr: Vec<Holed<SymId>>,
}

/// Abstract content of a [`ParameterizedPred`].
pub struct PredView {
    pub positive: bool,
    pub sexpr: Seq<Holed<SymId>>,
}

impl View for ParameterizedPred {
    type V = PredView;

    open spec fn view(&self) -> PredView {
        PredView { positive: self.positive, sexpr: self.sexpr@ }
    }
}

/// Every parameter of `sexpr` is an index into a list of `n` parameters.
pub open spec fn params_in_range(sexpr: Seq<Holed<SymId>>, n: nat) -> bool {
    forall|i: int| 0 <= i < sexpr.len() ==> (#[trigger] sexpr[i] matches Holed::Param(p) ==> p < n)
}

/// The expression `sexpr` with each parameter replaced by its value in `params`.
pub open spec fn substitute(sexpr: Seq<Holed<SymId>>, params: Seq<SymId>) -> Seq<SymId> {
    sexpr.map_values(
        |x: Holed<SymId>|
            match x {
                Holed::Param(i) => params[i as int],
                Holed::Full(s) => s,
            },
    )
}

/// The literal that `pred` denotes once its parameters take the values
/// `params`, if its expression is a state variable of `exprs`.
pub open spec fn bind_spec(pred: PredView, exprs: Seq<Seq<SymId>>, params: Seq<SymId>) -> Option<Lit> {
    match sv_of_expr(exprs, substitute(pred.sexpr, params)) {
        Some(sv) => Some(Lit { sv, positive: pred.positive }),
        None => None,
    }
}

impl ParameterizedPred {
    /// The literal this predicate denotes once its parameters take the values
    /// `params`, if it is a state variable of `sd`. `working` is scratch space:
    /// it is left holding the expression with the parameters replaced.
    pub fn bind(&self, sd: &World, params: &[SymId], working: &mut Vec<SymId>) -> (r: Option<Lit>)
        requires
            params_in_range(self.sexpr@, params@.len()),
        ensures
            final(working)@ == substitute(self.sexpr@, params@),
            r == bind_spec(self@, sd.exprs(), params@),
    {
        working.clear();
        for i in 0..self.sexpr.len()
            invariant
                params_in_range(self.sexpr@, params@.len()),
                working@ == substitute(self.sexpr@, params@).take(i as int),
        {
            let sym = match self.sexpr[i] {
                Holed::Param(p) => params[p],
                Holed::Full(s) => s,
            };
            working.push(sym);
            assert(working@ =~= substitute(self.sexpr@, params@).take(i + 1));
        }
        assert(substitute(self.sexpr@, params@).take(self.sexpr@.len() as int) =~= substitute(
            self.sexpr@,
            params@,
        ));
        match sd.sv_id(working.as_slice()) {
            Some(sv) => Some(Lit::new(sv, self.positive)),
            None => None,
        }
    }
}

/// A parameter of an action template: its name and its type.
#[derive(Debug, Clone)]
pub struct Arg {
    pub name: String,
    pub tpe: String,
}

/// An action template with named parameters (superseded by [`ActionSchema`]).
pub struct ActionTemplate {
    pub name: String,
    pub params: Vec<Arg>,
    pub pre: Vec<ParameterizedPred>,
    pub eff: Vec<ParameterizedPred>,
}

/// A lifted action: its symbol, the type and optional name of each parameter,
/// its preconditions and its effects.
pub struct ActionSchema {
    pub name: SymId,
    pub params: Vec<(TypeId, Option<String>)>,
    pub pre: Vec<ParameterizedPred>,
    pub eff: Vec<ParameterizedPred>,
}

/// Abstract content of an [`ActionSchema`].
pub struct SchemaView {
    pub name: SymId,
    pub params: Seq<(TypeId, Option<Seq<char>>)>,
    pub pre: Seq<PredView>,
    pub eff: Seq<PredView>,
}

/// The view of an optional name.
pub open spec fn opt_view(o: Option<String>) -> Option<Seq<char>> {
    match o {
        Some(s) => Some(s@),
        None => None,
    }
}

/// The views of a sequence of predicates.
pub open spec fn preds_view(preds: Seq<ParameterizedPred>) -> Seq<PredView> {
    preds.map_values(|p: ParameterizedPred| p@)
}

impl View for ActionSchema {
    type V = SchemaView;

    open spec fn view(&self) -> SchemaView {
        SchemaView {
            name: self.name,
            params: self.params@.map_values(|p: (TypeId, Option<String>)| (p.0, opt_view(p.1))),
            pre: preds_view(self.pre@),
            eff: preds_view(self.eff@),
        }
    }
}

/// A lifted planning problem: its world of state variables, initial state,
/// goals and action schemas.
pub struct LiftedProblem {
    pub world: World,
    pub initial_state: State,
    pub goals: Vec<Lit>,
    pub actions: Vec<ActionSchema>,
}

/// `Ok(())` when `test` holds, else the error `err`.
fn check(test: bool, err: &str) -> (r: Result<(), String>)
    ensures
        test ==> r is Ok,
        !test ==> (r matches Err(e) && e@ == err@),
{
    if test {
        Ok(())
    } else {
        Err(err.to_owned())
    }
}

/// A ground planning problem: initial state, operators and goals.
pub struct GroundProblem {
    pub initial_state: State,
    pub operators: Operators,
    pub goals: Vec<Lit>,
}

/// The instances of each parameter type of `schema`.
pub open spec fn schema_generators(types: Seq<Seq<SymId>>, schema: SchemaView) -> Seq<Seq<SymId>> {
    schema.params.map_values(|p: (TypeId, Option<Seq<char>>)| types[p.0.0 as int])
}

/// The literal that `pred` denotes for the parameter values `params`, when it
/// is a state variable of `exprs`.
pub open spec fn bound_lit(pred: PredView, exprs: Seq<Seq<SymId>>, params: Seq<SymId>) -> Lit {
    bind_spec(pred, exprs, params)->0
}

/// The ground operator of `schema` for the parameter values `params`.
pub open spec fn ground_op(schema: SchemaView, exprs: Seq<Seq<SymId>>, params: Seq<SymId>) -> OperatorView {
    OperatorView {
        name: seq![schema.name] + params,
        precond: schema.pre.map_values(|p: PredView| bound_lit(p, exprs, params)),
        effects: schema.eff.map_values(|p: PredView| bound_lit(p, exprs, params)),
    }
}

/// All ground operators of `schema`: one for each combination of instances of
/// its parameter types, in the order of [`product`].
pub open spec fn ground_schema(types: Seq<Seq<SymId>>, exprs: Seq<Seq<SymId>>, schema: SchemaView) -> Seq<OperatorView> {
    product(schema_generators(types, schema)).map_values(|p: Seq<SymId>| ground_op(schema, exprs, p))
}

/// The ground operators of a schema, one per combination `params` of
/// parameter values in the order of [`product`]: each is named by the schema's
/// name followed by `params`, and has one precondition per precondition of the
/// schema and one effect per effect of the schema, in order, each the literal
/// that the schema's predicate denotes for `params`.
pub proof fn lemma_ground_schema_ops(types: Seq<Seq<SymId>>, exprs: Seq<Seq<SymId>>, schema: SchemaView)
    ensures
        ground_schema(types, exprs, schema).len() == product(schema_generators(types, schema)).len(),
        forall|k: int|
            0 <= k < ground_schema(types, exprs, schema).len() ==> {
                let op = #[trigger] ground_schema(types, exprs, schema)[k];
                let params = product(schema_generators(types, schema))[k];
                &&& op.name == seq![schema.name] + params
                &&& op.precond.len() == schema.pre.len()
                &&& op.effects.len() == schema.eff.len()
                &&& forall|j: int|
                    0 <= j < schema.pre.len() ==> #[trigger] op.precond[j] == bound_lit(schema.pre[j], exprs, params)
                &&& forall|j: int|
                    0 <= j < schema.eff.len() ==> #[trigger] op.effects[j] == bound_lit(schema.eff[j], exprs, params)
            },
{
}

/// Every predicate of `preds` denotes a state variable of `exprs` for the parameter values `params`.
pub open spec fn preds_bind(preds: Seq<PredView>, exprs: Seq<Seq<SymId>>, params: Seq<SymId>) -> bool {
    forall|j: int|
        0 <= j < preds.len() ==> params_in_range((#[trigger] preds[j]).sexpr, params.len())
            && bind_spec(preds[j], exprs, params) is Some
}

/// `schema` can be grounded in a world with the instances `types` and the state
/// variables `exprs`: its parameter types exist, and each of its predicates
/// denotes a state variable for every combination of parameter values.
pub open spec fn groundable(types: Seq<Seq<SymId>>, exprs: Seq<Seq<SymId>>, schema: SchemaView) -> bool {
    &&& forall|i: int| 0 <= i < schema.params.len() ==> (#[trigger] schema.params[i]).0.0 < types.len()
    &&& forall|p: Seq<SymId>|
        #[trigger] product(schema_generators(types, schema)).contains(p) ==> preds_bind(schema.pre, exprs, p)
            && preds_bind(schema.eff, exprs, p)
}

/// The concatenation of the ground operators of all `schemas`, in order.
pub open spec fn ground_all(types: Seq<Seq<SymId>>, exprs: Seq<Seq<SymId>>, schemas: Seq<SchemaView>) -> Seq<OperatorView>
    decreases schemas.len(),
{
    if schemas.len() == 0 {
        Seq::empty()
    } else {
        ground_all(types, exprs, schemas.drop_last()) + ground_schema(types, exprs, schemas.last())
    }
}

/// The literals that the predicates `preds` denote for the parameter values `params`.
fn bind_all(preds: &Vec<ParameterizedPred>, desc: &World, params: &[SymId]) -> (r: Vec<Lit>)
    requires
        preds_bind(preds_view(preds@), desc.exprs(), params@),
    ensures
        r@ == preds_view(preds@).map_values(|p: PredView| bound_lit(p, desc.exprs(), params@)),
{
    let mut working: Vec<SymId> = Vec::new();
    let mut r: Vec<Lit> = Vec::new();
    for i in 0..preds.len()
        invariant
            preds_bind(preds_view(preds@), desc.exprs(), params@),
            r@ == preds_view(preds@).map_values(|p: PredView| bound_lit(p, desc.exprs(), params@)).take(
                i as int,
            ),
    {
        assert(preds_view(preds@)[i as int] == preds@[i as int]@);
        let lit = preds[i].bind(desc, params, &mut working);
        r.push(lit.unwrap());
        assert(r@ =~= preds_view(preds@).map_values(|p: PredView| bound_lit(p, desc.exprs(), params@)).take(
            i + 1,
        ));
    }
    assert(preds_view(preds@).map_values(|p: PredView| bound_lit(p, desc.exprs(), params@)).take(
        preds@.len() as int,
    ) =~= preds_view(preds@).map_values(|p: PredView| bound_lit(p, desc.exprs(), params@)));
    r
}

/// All ground operators of `schema` in the world `desc`: one for each
/// combination of instances of its parameter types, in lexicographic order.
pub fn ground_action_schema(schema: &ActionSchema, desc: &World) -> (res: Result<Vec<Operator>, String>)
    requires
        groundable(desc.table.types(), desc.exprs(), schema@),
    ensures
        res matches Ok(ops) && ops@.map_values(|o: Operator| o@) == ground_schema(
            desc.table.types(),
            desc.exprs(),
            schema@,
        ),
        res matches Ok(ops) ==> forall|k: int|
            0 <= k < ops@.len() ==> {
                let params = product(schema_generators(desc.table.types(), schema@))[k];
                &&& (#[trigger] ops@[k])@.name == seq![schema@.name] + params
                &&& ops@[k]@.precond.len() == schema@.pre.len()
                &&& ops@[k]@.effects.len() == schema@.eff.len()
                &&& forall|j: int|
                    0 <= j < schema@.pre.len() ==> #[trigger] ops@[k]@.precond[j] == bound_lit(
                        schema@.pre[j],
                        desc.exprs(),
                        params,
                    )
                &&& forall|j: int|
                    0 <= j < schema@.eff.len() ==> #[trigger] ops@[k]@.effects[j] == bound_lit(
                        schema@.eff[j],
                        desc.exprs(),
                        params,
                    )
            },
{
    let ghost types = desc.table.types();
    let ghost exprs = desc.exprs();
    let mut res: Vec<Operator> = Vec::new();
    let mut arg_instances: Vec<Vec<SymId>> = Vec::with_capacity(schema.params.len());
    for i in 0..schema.params.len()
        invariant
            types == desc.table.types(),
            groundable(types, exprs, schema@),
            arg_instances@.map_values(|v: Vec<SymId>| v@) == schema_generators(types, schema@).take(i as int),
    {
        assert(schema@.params[i as int].0 == schema.params@[i as int].0);
        let ghost before = arg_instances@.map_values(|v: Vec<SymId>| v@);
        arg_instances.push(copy_syms(desc.table.instances_of_type(schema.params[i].0)));
        assert(schema_generators(types, schema@)[i as int] == types[schema.params@[i as int].0.0 as int]);
        assert(arg_instances@.map_values(|v: Vec<SymId>| v@) =~= before.push(
            types[schema.params@[i as int].0.0 as int],
        ));
        assert(arg_instances@.map_values(|v: Vec<SymId>| v@) =~= schema_generators(types, schema@).take(
            i + 1,
        ));
    }
    assert(schema_generators(types, schema@).take(schema.params@.len() as int) =~= schema_generators(
        types,
        schema@,
    ));
    let combos = enumerate(&arg_instances);
    let ghost prod = product(schema_generators(types, schema@));
    for k in 0..combos.len()
        invariant
            types == desc.table.types(),
            exprs == desc.exprs(),
            groundable(types, exprs, schema@),
            prod == combos@.map_values(|v: Vec<SymId>| v@),
            prod == product(schema_generators(types, schema@)),
            res@.map_values(|o: Operator| o@) == prod.map_values(|p: Seq<SymId>| ground_op(schema@, exprs, p)).take(
                k as int,
            ),
    {
        let params = combos[k].as_slice();
        assert(params@ == prod[k as int]);
        assert(prod.contains(prod[k as int]));
        let mut name: Vec<SymId> = Vec::new();
        name.push(schema.name);
        for j in 0..params.len()
            invariant
                name@ == seq![schema.name] + params@.take(j as int),
        {
            name.push(params[j]);
            assert(name@ =~= seq![schema.name] + params@.take(j + 1));
        }
        assert(params@.take(params@.len() as int) =~= params@);
        let precond = bind_all(&schema.pre, desc, params);
        let effects = bind_all(&schema.eff, desc, params);
        let op = Operator { name, precond, effects };
        let ghost before = res@.map_values(|o: Operator| o@);
        res.push(op);
        assert(res@.map_values(|o: Operator| o@) =~= before.push(op@));
        assert(op@ == ground_op(schema@, exprs, prod[k as int]));
        assert(res@.map_values(|o: Operator| o@) =~= prod.map_values(|p: Seq<SymId>| ground_op(schema@, exprs, p)).take(
            k + 1,
        ));
    }
    assert(prod.map_values(|p: Seq<SymId>| ground_op(schema@, exprs, p)).take(combos@.len() as int)
        =~= prod.map_values(|p: Seq<SymId>| ground_op(schema@, exprs, p)));
    proof {
        lemma_ground_schema_ops(types, exprs, schema@);
        let g = ground_schema(types, exprs, schema@);
        assert forall|k: int| 0 <= k < res@.len() implies (#[trigger] res@[k])@ == g[k] by {
            assert(res@.map_values(|o: Operator| o@)[k] == res@[k]@);
        }
    }
    Ok(res)
}

/// The ground problem of `lifted`: same initial state and goals, and all
/// ground operators of its action schemas, schema after schema.
pub fn grounded_problem(lifted: &LiftedProblem) -> (res: Result<GroundProblem, String>)
    requires
        forall|k: int|
            0 <= k < lifted.actions@.len() ==> groundable(
                lifted.world.table.types(),
                lifted.world.exprs(),
                #[trigger] lifted.actions@[k]@,
            ),
    ensures
        res matches Ok(g) && g.initial_state@ == lifted.initial_state@ && g.goals@ == lifted.goals@
            && g.operators@ == ground_all(
            lifted.world.table.types(),
            lifted.world.exprs(),
            lifted.actions@.map_values(|a: ActionSchema| a@),
        ),
{
    let ghost types = lifted.world.table.types();
    let ghost exprs = lifted.world.exprs();
    let ghost schemas = lifted.actions@.map_values(|a: ActionSchema| a@);
    let mut operators = Operators::new();
    for t in 0..lifted.actions.len()
        invariant
            types == lifted.world.table.types(),
            exprs == lifted.world.exprs(),
            schemas == lifted.actions@.map_values(|a: ActionSchema| a@),
            forall|k: int|
                0 <= k < lifted.actions@.len() ==> groundable(types, exprs, #[trigger] lifted.actions@[k]@),
            operators@ == ground_all(types, exprs, schemas.take(t as int)),
    {
        assert(schemas.take(t + 1).drop_last() =~= schemas.take(t as int));
        assert(schemas.take(t + 1).last() == lifted.actions@[t as int]@);
        let template = &lifted.actions[t];
        let ops = match ground_action_schema(template, &lifted.world) {
            Ok(ops) => ops,
            Err(e) => {
                return Err(e);
            },
        };
        let ghost before = operators@;
        let ghost gs = ops@.map_values(|o: Operator| o@);
        let mut ops = ops;
        let ghost mut m: int = 0;
        assert(gs.skip(0) =~= gs);
        assert(gs.take(0) =~= Seq::<OperatorView>::empty());
        assert(before + gs.take(0) =~= before);
        while ops.len() > 0
            invariant
                0 <= m <= gs.len(),
                ops@.map_values(|o: Operator| o@) == gs.skip(m),
                operators@ == before + gs.take(m),
            decreases ops.len(),
        {
            let ghost rest = ops@;
            let o = ops.remove(0);
            assert(rest.map_values(|o: Operator| o@)[0] == rest[0]@);
            assert(rest.map_values(|o: Operator| o@).len() == rest.len());
            assert(m < gs.len());
            assert(gs.skip(m)[0] == gs[m]);
            assert(o@ == gs[m]);
            operators.push(o);
            proof {
                let now = ops@.map_values(|o: Operator| o@);
                assert forall|t: int| 0 <= t < ops@.len() implies #[trigger] now[t] == gs.skip(m + 1)[t] by {
                    assert(ops@[t] == rest[t + 1]);
                    assert(rest.map_values(|o: Operator| o@)[t + 1] == gs.skip(m)[t + 1]);
                }
                assert(ops@.map_values(|o: Operator| o@) =~= gs.skip(m + 1));
                assert(operators@ =~= before + gs.take(m + 1));
                m = m + 1;
            }
        }
        assert(gs.take(m) =~= gs);
    }
    assert(schemas.take(lifted.actions@.len() as int) =~= schemas);
    let initial_state = lifted.initial_state.clone();
    let mut goals: Vec<Lit> = Vec::new();
    for i in 0..lifted.goals.len()
        invariant
            goals@ == lifted.goals@.take(i as int),
    {
        goals.push(lifted.goals[i]);
        assert(goals@ =~= lifted.goals@.take(i + 1));
    }
    assert(lifted.goals@.take(lifted.goals@.len() as int) =~= lifted.goals@);
    Ok(GroundProblem { initial_state, operators, goals })
}


/// The symbols that the atoms `vars` denote, when they all denote one.
pub open spec fn sym_values(ctx: &Ctx, vars: Seq<Atom>) -> Option<Seq<SymId>> {
    if forall|i: int| 0 <= i < vars.len() ==> (#[trigger] sym_value(ctx, vars[i])) is Some {
        Some(Seq::new(vars.len(), |i: int| sym_value(ctx, vars[i])->0))
    } else {
        None
    }
}

/// The literal that the state variable `vars` bound to `value` denotes: the
/// atoms of `vars` must denote symbols forming a state variable of `exprs`,
/// and `value` must be the context's tautology (a positive literal) or
/// contradiction (a negative one).
pub open spec fn sv_to_lit_spec(vars: Seq<Atom>, value: Atom, exprs: Seq<Seq<SymId>>, ctx: &Ctx) -> Result<Lit, Seq<char>> {
    match sym_values(ctx, vars) {
        None => Err("Not a symbolic value"@),
        Some(syms) => match sv_of_expr(exprs, syms) {
            None => Err("No state variable identifed (maybe due to a typing error"@),
            Some(sv) => if value == ctx.tautology {
                Ok(Lit { sv, positive: true })
            } else if value == ctx.contradiction {
                Ok(Lit { sv, positive: false })
            } else {
                Err("state variable is not bound to a constant boolean"@)
            },
        },
    }
}

/// The literal that the state variable `variable` bound to `value` denotes in `world`.
fn sv_to_lit(variable: &[Atom], value: &Atom, world: &World, ctx: &Ctx) -> (res: Result<Lit, String>)
    ensures
        match (res, sv_to_lit_spec(variable@, *value, world.exprs(), ctx)) {
            (Ok(l), Ok(l2)) => l == l2,
            (Err(e), Err(m)) => e@ == m,
            _ => false,
        },
{
    let mut sv: Vec<SymId> = Vec::new();
    for i in 0..variable.len()
        invariant
            sv@.len() == i,
            forall|j: int| 0 <= j < i ==> sym_value(ctx, variable@[j]) == Some(#[trigger] sv@[j]),
    {
        match ctx.sym_value_of(variable[i]) {
            Some(s) => sv.push(s),
            None => {
                return Err("Not a symbolic value".to_owned());
            },
        }
    }
    assert(sym_values(ctx, variable@) == Some(sv@)) by {
        assert forall|j: int| 0 <= j < variable@.len() implies (#[trigger] sym_value(ctx, variable@[j])) is Some by {
            assert(sym_value(ctx, variable@[j]) == Some(sv@[j]));
        }
        assert(sv@ =~= Seq::new(variable@.len(), |i: int| sym_value(ctx, variable@[i])->0));
    }
    let sv_id = match world.sv_id(sv.as_slice()) {
        Some(id) => id,
        None => {
            return Err("No state variable identifed (maybe due to a typing error".to_owned());
        },
    };
    if *value == ctx.tautology() {
        Ok(Lit::new(sv_id, true))
    } else if *value == ctx.contradiction() {
        Ok(Lit::new(sv_id, false))
    } else {
        Err("state variable is not bound to a constant boolean".to_owned())
    }
}

/// The expression that `x` denotes once atoms are replaced by their symbols and
/// parameters renumbered by `corr`, if it denotes one.
pub open spec fn holed_value(ctx: &Ctx, corr: Map<usize, usize>, x: Holed<Atom>) -> Option<Holed<SymId>> {
    match x {
        Holed::Full(a) => match sym_value(ctx, a) {
            Some(s) => Some(Holed::Full(s)),
            None => None,
        },
        Holed::Param(i) => if corr.contains_key(i) {
            Some(Holed::Param(corr[i]))
        } else {
            None
        },
    }
}

/// The error for an expression that [`holed_value`] cannot read.
pub open spec fn holed_error(x: Holed<Atom>) -> Seq<char> {
    match x {
        Holed::Full(_) => "Not a symbolic value"@,
        Holed::Param(_) => "Invalid parameter"@,
    }
}

/// The reading of each element of `vars` by [`holed_value`], or the error
/// for the first one that has none.
pub open spec fn holed_sexpr(ctx: &Ctx, corr: Map<usize, usize>, vars: Seq<Holed<Atom>>) -> Result<Seq<Holed<SymId>>, Seq<char>>
    decreases vars.len(),
{
    if vars.len() == 0 {
        Ok(Seq::empty())
    } else {
        match holed_sexpr(ctx, corr, vars.drop_last()) {
            Err(e) => Err(e),
            Ok(prev) => match holed_value(ctx, corr, vars.last()) {
                None => Err(holed_error(vars.last())),
                Some(v) => Ok(prev.push(v)),
            },
        }
    }
}

/// The predicate that the state variable `vars` bound to `value` denotes:
/// positive for the tautology, negative for the contradiction.
pub open spec fn holed_pred_spec(vars: Seq<Holed<Atom>>, value: Holed<Atom>, corr: Map<usize, usize>, ctx: &Ctx) -> Result<PredView, Seq<char>> {
    match holed_sexpr(ctx, corr, vars) {
        Err(e) => Err(e),
        Ok(sexpr) => if value == Holed::<Atom>::Full(ctx.tautology) {
            Ok(PredView { positive: true, sexpr })
        } else if value == Holed::<Atom>::Full(ctx.contradiction) {
            Ok(PredView { positive: false, sexpr })
        } else {
            Err("state variable is not bound to a constant boolean"@)
        },
    }
}

/// The parameterized predicate that the state variable `variable` bound to
/// `value` denotes, with the template's parameters renumbered by `to_new_param`.
fn holed_sv_to_pred(
    variable: &[Holed<Atom>],
    value: &Holed<Atom>,
    to_new_param: &HashMap<usize, usize>,
    ctx: &Ctx,
) -> (res: Result<ParameterizedPred, String>)
    ensures
        match (res, holed_pred_spec(variable@, *value, to_new_param@, ctx)) {
            (Ok(p), Ok(v)) => p@ == v,
            (Err(e), Err(m)) => e@ == m,
            _ => false,
        },
{
    let mut sv: Vec<Holed<SymId>> = Vec::new();
    for i in 0..variable.len()
        invariant
            holed_sexpr(ctx, to_new_param@, variable@.take(i as int)) == Ok::<Seq<Holed<SymId>>, Seq<char>>(sv@),
    {
        assert(variable@.take(i + 1).drop_last() =~= variable@.take(i as int));
        assert(variable@.take(i + 1).last() == variable@[i as int]);
        let x = match variable[i] {
            Holed::Full(sym) => match ctx.sym_value_of(sym) {
                Some(s) => Holed::Full(s),
                None => {
                    proof {
                        lemma_holed_sexpr_err_prefix(ctx, to_new_param@, variable@, i + 1);
                    }
                    return Err("Not a symbolic value".to_owned());
                },
            },
            Holed::Param(p) => match to_new_param.get(&p) {
                Some(q) => Holed::Param(*q),
                None => {
                    proof {
                        lemma_holed_sexpr_err_prefix(ctx, to_new_param@, variable@, i + 1);
                    }
                    return Err("Invalid parameter".to_owned());
                },
            },
        };
        sv.push(x);
    }
    assert(variable@.take(variable@.len() as int) =~= variable@);
    let positive = if *value == Holed::Full(ctx.tautology()) {
        true
    } else if *value == Holed::Full(ctx.contradiction()) {
        false
    } else {
        return Err("state variable is not bound to a constant boolean".to_owned());
    };
    Ok(ParameterizedPred { positive, sexpr: sv })
}

/// Once a prefix of the expression cannot be read, the whole cannot, with the same error.
proof fn lemma_holed_sexpr_err_prefix(ctx: &Ctx, corr: Map<usize, usize>, vars: Seq<Holed<Atom>>, m: int)
    requires
        0 <= m <= vars.len(),
        holed_sexpr(ctx, corr, vars.take(m)) is Err,
    ensures
        holed_sexpr(ctx, corr, vars) == holed_sexpr(ctx, corr, vars.take(m)),
    decreases vars.len(),
{
    if m == vars.len() {
        assert(vars.take(m) =~= vars);
    } else {
        assert(vars.drop_last().take(m) =~= vars.take(m));
        lemma_holed_sexpr_err_prefix(ctx, corr, vars.drop_last(), m);
    }
}


/// The timepoint `a + 0`.
pub open spec fn at<X>(a: X) -> Time<X> {
    Time { time_var: a, delay: 0 }
}

/// The state `st` updated by the effects `effs` of a chronicle instance, or
/// the first error met: an effect that is not instantaneous, one that does not
/// take place at the origin, or one whose literal cannot be read.
pub open spec fn lift_effects(ctx: &Ctx, exprs: Seq<Seq<SymId>>, effs: Seq<Effect<Atom>>, st: Seq<bool>) -> Result<Seq<bool>, Seq<char>>
    decreases effs.len(),
{
    if effs.len() == 0 {
        Ok(st)
    } else {
        match lift_effects(ctx, exprs, effs.drop_last(), st) {
            Err(e) => Err(e),
            Ok(s) => {
                let eff = effs.last();
                if eff.persistence_start != eff.transition_start {
                    Err("Non instantaneous effect"@)
                } else if eff.persistence_start != at(ctx.origin) {
                    Err("Effect not at start in initial chronicle"@)
                } else {
                    match sv_to_lit_spec(eff.sv@, eff.value, exprs, ctx) {
                        Err(e) => Err(e),
                        Ok(l) => Ok(s.update(l.sv.0 as int, l.positive)),
                    }
                }
            },
        }
    }
}

/// The goals `goals` extended by the conditions `conds` of a chronicle
/// instance, or the first error met: a condition that is not instantaneous,
/// one that is not at the horizon, or one whose literal cannot be read.
pub open spec fn lift_conditions(ctx: &Ctx, exprs: Seq<Seq<SymId>>, conds: Seq<Condition<Atom>>, goals: Seq<Lit>) -> Result<Seq<Lit>, Seq<char>>
    decreases conds.len(),
{
    if conds.len() == 0 {
        Ok(goals)
    } else {
        match lift_conditions(ctx, exprs, conds.drop_last(), goals) {
            Err(e) => Err(e),
            Ok(g) => {
                let cond = conds.last();
                if cond.start != cond.end {
                    Err("Non instantaneous condition"@)
                } else if cond.start != at(ctx.horizon) {
                    Err("Non final condition can not be interpreted as goal"@)
                } else {
                    match sv_to_lit_spec(cond.sv@, cond.value, exprs, ctx) {
                        Err(e) => Err(e),
                        Ok(l) => Ok(g.push(l)),
                    }
                }
            },
        }
    }
}

/// The initial state and goals after reading the chronicle instances `insts`
/// in order, starting from `st` and `goals`, or the first error met.
pub open spec fn lift_instances(
    ctx: &Ctx,
    exprs: Seq<Seq<SymId>>,
    insts: Seq<ChronicleInstance>,
    st: Seq<bool>,
    goals: Seq<Lit>,
) -> Result<(Seq<bool>, Seq<Lit>), Seq<char>>
    decreases insts.len(),
{
    if insts.len() == 0 {
        Ok((st, goals))
    } else {
        match lift_instances(ctx, exprs, insts.drop_last(), st, goals) {
            Err(e) => Err(e),
            Ok((s, g)) => lift_instance(ctx, exprs, insts.last(), s, g),
        }
    }
}

/// The state `st` and goals `goals` updated by a chronicle instance, which
/// must be present, or the first error met.
pub open spec fn lift_instance(
    ctx: &Ctx,
    exprs: Seq<Seq<SymId>>,
    inst: ChronicleInstance,
    st: Seq<bool>,
    goals: Seq<Lit>,
) -> Result<(Seq<bool>, Seq<Lit>), Seq<char>> {
    let ch = inst.chronicle;
    if ch.prez != ctx.tautology {
        Err("A chronicle instance is optional"@)
    } else {
        match lift_effects(ctx, exprs, ch.effects@, st) {
            Err(e) => Err(e),
            Ok(s2) => match lift_conditions(ctx, exprs, ch.conditions@, goals) {
                Err(e) => Err(e),
                Ok(g2) => Ok((s2, g2)),
            },
        }
    }
}

/// The action symbol that names a template: the symbol of the first element
/// of its name.
pub open spec fn template_symbol(ctx: &Ctx, name: Seq<Holed<Atom>>) -> Result<SymId, Seq<char>> {
    if name.len() > 0 && name[0] is Full {
        match sym_value(ctx, name[0]->Full_0) {
            Some(s) => Ok(s),
            None => Err("Expected action symbol"@),
        }
    } else {
        Err("Unamed temlate"@)
    }
}

/// The start of an action is free (it is neither the origin nor the horizon)
/// and precedes its end, which is the only other timepoint.
pub open spec fn template_times(ctx: &Ctx, start: Time<Holed<Atom>>, end: Time<Holed<Atom>>) -> Result<(), Seq<char>> {
    if start.time_var == Holed::<Atom>::Full(ctx.origin) {
        Err("action start is not free"@)
    } else if start.time_var == Holed::<Atom>::Full(ctx.horizon) {
        Err("action start is not free"@)
    } else if !(start.time_var == end.time_var && start.delay < end.delay) {
        Err("More than one free timepoint in the action."@)
    } else {
        Ok(())
    }
}

/// The parameters of an action, read from the rest of its name `args`: each
/// must be a parameter of symbolic type. Also gives, for each parameter of
/// the template, its position among the action's parameters.
pub open spec fn template_params(params: Seq<(Type, Option<String>)>, args: Seq<Holed<Atom>>) -> Result<
    (Seq<(TypeId, Option<Seq<char>>)>, Map<usize, usize>),
    Seq<char>,
>
    decreases args.len(),
{
    if args.len() == 0 {
        Ok((Seq::empty(), Map::empty()))
    } else {
        match template_params(params, args.drop_last()) {
            Err(e) => Err(e),
            Ok((ps, corr)) => match args.last() {
                Holed::Param(i) => match params[i as int].0 {
                    Type::Symbolic(t) => Ok(
                        (ps.push((t, opt_view(params[i as int].1))), corr.insert(i, ps.len() as usize)),
                    ),
                    _ => Err("Non symbolic parameter"@),
                },
                Holed::Full(_) => Err("Expected an action parameter but got an expression"@),
            },
        }
    }
}

/// Reading the parameters `args` never looks past the end of `params`.
pub open spec fn params_indexable(params: Seq<(Type, Option<String>)>, args: Seq<Holed<Atom>>) -> bool {
    forall|k: int|
        0 <= k < args.len() && template_params(params, args.take(k)) is Ok ==> (#[trigger] args[k] matches Holed::Param(
            i,
        ) ==> i < params.len())
}

/// The preconditions of an action, read from the conditions `conds` of its
/// template, or the first error met.
pub open spec fn lift_preconditions(
    ctx: &Ctx,
    corr: Map<usize, usize>,
    start: Time<Holed<Atom>>,
    conds: Seq<Condition<Holed<Atom>>>,
) -> Result<Seq<PredView>, Seq<char>>
    decreases conds.len(),
{
    if conds.len() == 0 {
        Ok(Seq::empty())
    } else {
        match lift_preconditions(ctx, corr, start, conds.drop_last()) {
            Err(e) => Err(e),
            Ok(pre) => {
                let cond = conds.last();
                if cond.start != cond.end {
                    Err("Non intantaneous condition"@)
                } else if cond.start != start {
                    Err("Non final condition can not be interpreted as goal"@)
                } else {
                    match holed_pred_spec(cond.sv@, cond.value, corr, ctx) {
                        Err(e) => Err(e),
                        Ok(p) => Ok(pre.push(p)),
                    }
                }
            },
        }
    }
}

/// The effects of an action, read from the effects `effs` of its template,
/// or the first error met.
pub open spec fn lift_action_effects(
    ctx: &Ctx,
    corr: Map<usize, usize>,
    start: Time<Holed<Atom>>,
    end: Time<Holed<Atom>>,
    effs: Seq<Effect<Holed<Atom>>>,
) -> Result<Seq<PredView>, Seq<char>>
    decreases effs.len(),
{
    if effs.len() == 0 {
        Ok(Seq::empty())
    } else {
        match lift_action_effects(ctx, corr, start, end, effs.drop_last()) {
            Err(e) => Err(e),
            Ok(eff) => {
                let e = effs.last();
                if e.transition_start != start {
                    Err("Effect does not start condition with action's start"@)
                } else if e.persistence_start != end {
                    Err("Effect is not active at action's end"@)
                } else {
                    match holed_pred_spec(e.sv@, e.value, corr, ctx) {
                        Err(m) => Err(m),
                        Ok(p) => Ok(eff.push(p)),
                    }
                }
            },
        }
    }
}

/// The action schema of a template, or the first error met.
pub open spec fn lift_template(ctx: &Ctx, tpl: ChronicleTemplate) -> Result<SchemaView, Seq<char>> {
    let ch = tpl.chronicle;
    match template_symbol(ctx, ch.name@) {
        Err(e) => Err(e),
        Ok(name) => match template_times(ctx, ch.start, ch.end) {
            Err(e) => Err(e),
            Ok(_) => match template_params(tpl.params@, ch.name@.drop_first()) {
                Err(e) => Err(e),
                Ok((params, corr)) => match lift_preconditions(ctx, corr, ch.start, ch.conditions@) {
                    Err(e) => Err(e),
                    Ok(pre) => match lift_action_effects(ctx, corr, ch.start, ch.end, ch.effects@) {
                        Err(e) => Err(e),
                        Ok(eff) => Ok(SchemaView { name, params, pre, eff }),
                    },
                },
            },
        },
    }
}

/// The action schemas of the templates `tpls`, in order, or the first error met.
pub open spec fn lift_templates(ctx: &Ctx, tpls: Seq<ChronicleTemplate>) -> Result<Seq<SchemaView>, Seq<char>>
    decreases tpls.len(),
{
    if tpls.len() == 0 {
        Ok(Seq::empty())
    } else {
        match lift_templates(ctx, tpls.drop_last()) {
            Err(e) => Err(e),
            Ok(prev) => match lift_template(ctx, tpls.last()) {
                Err(e) => Err(e),
                Ok(s) => Ok(prev.push(s)),
            },
        }
    }
}

/// Reading the template never looks past the end of its parameters.
pub open spec fn template_indexable(ctx: &Ctx, tpl: ChronicleTemplate) -> bool {
    template_symbol(ctx, tpl.chronicle.name@) is Ok && template_times(ctx, tpl.chronicle.start, tpl.chronicle.end)
        is Ok ==> params_indexable(tpl.params@, tpl.chronicle.name@.drop_first())
}

/// Reading each template whose predecessors were read never looks past the
/// end of its parameters.
pub open spec fn templates_indexable(ctx: &Ctx, tpls: Seq<ChronicleTemplate>) -> bool {
    forall|t: int|
        0 <= t < tpls.len() && lift_templates(ctx, tpls.take(t)) is Ok ==> template_indexable(
            ctx,
            #[trigger] tpls[t],
        )
}

/// Reading the chronicle problem `pb` never looks past the end of a table: the
/// state functions that are read can be read, and, when the state functions
/// and the chronicle instances give no error, the templates that are read can
/// be read.
pub open spec fn readable_problem(pb: &Problem) -> bool {
    let ctx = &pb.context;
    &&& well_typed_state_funs(ctx.symbols.types(), ctx.state_functions@)
    &&& match world_exprs(ctx.symbols.types(), ctx.state_functions@) {
        Ok(exprs) => lift_instances(ctx, exprs, pb.chronicles@, Seq::new(exprs.len(), |i: int| false), Seq::empty())
            is Ok ==> templates_indexable(ctx, pb.templates@),
        Err(_) => true,
    }
}

/// Every state function of `sfs` has a value type, and each of its symbolic
/// argument types is a type of the table.
pub open spec fn state_funs_typed(types: Seq<Seq<SymId>>, sfs: Seq<StateFun>) -> bool {
    forall|k: int, i: int|
        0 <= k < sfs.len() && 0 <= i < sfs[k].tpe@.len() - 1 ==> (#[trigger] sfs[k].tpe@[i] matches Type::Symbolic(
            t,
        ) ==> t.0 < types.len())
}

/// Every state function of `sfs` has at least a value type.
pub open spec fn state_funs_valued(sfs: Seq<StateFun>) -> bool {
    forall|k: int| 0 <= k < sfs.len() ==> (#[trigger] sfs[k]).tpe@.len() >= 1
}

/// Every parameter that the name of a template refers to is a parameter of
/// that template.
pub open spec fn template_params_declared(tpls: Seq<ChronicleTemplate>) -> bool {
    forall|t: int, j: int|
        0 <= t < tpls.len() && 0 <= j < tpls[t].chronicle.name@.len() ==> (
        #[trigger] tpls[t].chronicle.name@[j] matches Holed::Param(i) ==> i < tpls[t].params@.len())
}

/// A problem whose state functions are typed over the table and whose
/// templates refer only to their own parameters can be read.
pub proof fn lemma_readable_problem(pb: &Problem)
    requires
        state_funs_valued(pb.context.state_functions@),
        state_funs_typed(pb.context.symbols.types(), pb.context.state_functions@),
        template_params_declared(pb.templates@),
    ensures
        readable_problem(pb),
{
    let ctx = &pb.context;
    let types = ctx.symbols.types();
    let sfs = ctx.state_functions@;
    assert forall|k: int| 0 <= k < sfs.len() && world_exprs(types, #[trigger] sfs.take(k)) is Ok implies state_fun_readable(
        types,
        sfs[k],
    ) by {
        assert(sfs[k].tpe@.len() >= 1);
        assert forall|i: int|
            0 <= i < sfs[k].tpe@.len() - 1 && symbolic_args(argument_types(sfs[k]).take(i)) implies (
            #[trigger] sfs[k].tpe@[i] matches Type::Symbolic(t) ==> t.0 < types.len()) by {}
    }
    let tpls = pb.templates@;
    assert forall|t: int| 0 <= t < tpls.len() && lift_templates(ctx, tpls.take(t)) is Ok implies template_indexable(
        ctx,
        #[trigger] tpls[t],
    ) by {
        let name = tpls[t].chronicle.name@;
        let args = name.drop_first();
        if name.len() > 0 {
            assert forall|k: int|
                0 <= k < args.len() && template_params(tpls[t].params@, args.take(k)) is Ok implies (
                #[trigger] args[k] matches Holed::Param(i) ==> i < tpls[t].params@.len()) by {
                assert(args[k] == tpls[t].chronicle.name@[k + 1]);
            }
        }
    }
}

/// Whether the state functions of `pb` are typed over its table and its
/// templates refer only to their own parameters; when they are,
/// [`from_chronicles`] can be called on `pb`.
pub fn is_readable(pb: &Problem) -> (r: bool)
    ensures
        r == (state_funs_valued(pb.context.state_functions@) && state_funs_typed(
            pb.context.symbols.types(),
            pb.context.state_functions@,
        ) && template_params_declared(pb.templates@)),
        r ==> readable_problem(pb),
{
    let ghost types = pb.context.symbols.types();
    let ghost sfs = pb.context.state_functions@;
    let ntypes = pb.context.symbols.instances.len();
    for k in 0..pb.context.state_functions.len()
        invariant
            ntypes == types.len(),
            types == pb.context.symbols.types(),
            sfs == pb.context.state_functions@,
            forall|k2: int| 0 <= k2 < k ==> (#[trigger] sfs[k2]).tpe@.len() >= 1,
            forall|k2: int, i: int|
                0 <= k2 < k && 0 <= i < sfs[k2].tpe@.len() - 1 ==> (#[trigger] sfs[k2].tpe@[i] matches Type::Symbolic(
                    t,
                ) ==> t.0 < types.len()),
    {
        let tpe = &pb.context.state_functions[k].tpe;
        if tpe.len() == 0 {
            assert(sfs[k as int].tpe@.len() == 0);
            return false;
        }
        for i in 0..tpe.len() - 1
            invariant
                ntypes == types.len(),
                types == pb.context.symbols.types(),
                sfs == pb.context.state_functions@,
                k < sfs.len(),
                *tpe == sfs[k as int].tpe,
                tpe@.len() >= 1,
                forall|i2: int| 0 <= i2 < i ==> (#[trigger] tpe@[i2] matches Type::Symbolic(t) ==> t.0 < types.len()),
        {
            if let Type::Symbolic(t) = tpe[i] {
                if t.0 >= ntypes {
                    assert(sfs[k as int].tpe@[i as int] == tpe@[i as int]);
                    return false;
                }
            }
        }
        assert forall|k2: int, i: int|
            0 <= k2 < k + 1 && 0 <= i < sfs[k2].tpe@.len() - 1 implies (#[trigger] sfs[k2].tpe@[i] matches Type::Symbolic(
            t,
        ) ==> t.0 < types.len()) by {
            if k2 == k {
                assert(sfs[k2].tpe@[i] == tpe@[i]);
            }
        }
    }
    let ghost tpls = pb.templates@;
    for t in 0..pb.templates.len()
        invariant
            tpls == pb.templates@,
            forall|t2: int, j: int|
                0 <= t2 < t && 0 <= j < tpls[t2].chronicle.name@.len() ==> (
                #[trigger] tpls[t2].chronicle.name@[j] matches Holed::Param(i) ==> i < tpls[t2].params@.len()),
    {
        let tpl = &pb.templates[t];
        for j in 0..tpl.chronicle.name.len()
            invariant
                tpls == pb.templates@,
                t < tpls.len(),
                *tpl == tpls[t as int],
                forall|j2: int|
                    0 <= j2 < j ==> (#[trigger] tpl.chronicle.name@[j2] matches Holed::Param(i) ==> i
                        < tpl.params@.len()),
        {
            if let Holed::Param(i) = tpl.chronicle.name[j] {
                if i >= tpl.params.len() {
                    assert(tpls[t as int].chronicle.name@[j as int] == tpl.chronicle.name@[j as int]);
                    return false;
                }
            }
        }
        assert forall|t2: int, j: int|
            0 <= t2 < t + 1 && 0 <= j < tpls[t2].chronicle.name@.len() implies (
            #[trigger] tpls[t2].chronicle.name@[j] matches Holed::Param(i) ==> i < tpls[t2].params@.len()) by {
            if t2 == t {
                assert(tpls[t2].chronicle.name@[j] == tpl.chronicle.name@[j]);
            }
        }
    }
    proof {
        lemma_readable_problem(pb);
    }
    true
}

/// The classical problem that a chronicle problem describes: the state variables
/// of its state functions, the initial state and goals of its chronicle
/// instances, and the action schemas of its templates; or the first error met.
pub open spec fn lifted_spec(pb: &Problem) -> Result<
    (Seq<Seq<SymId>>, Seq<bool>, Seq<Lit>, Seq<SchemaView>),
    Seq<char>,
> {
    let ctx = &pb.context;
    match world_exprs(ctx.symbols.types(), ctx.state_functions@) {
        Err(e) => Err(e),
        Ok(exprs) => match lift_instances(
            ctx,
            exprs,
            pb.chronicles@,
            Seq::new(exprs.len(), |i: int| false),
            Seq::empty(),
        ) {
            Err(e) => Err(e),
            Ok((st, goals)) => match lift_templates(ctx, pb.templates@) {
                Err(e) => Err(e),
                Ok(schemas) => Ok((exprs, st, goals, schemas)),
            },
        },
    }
}


proof fn lemma_lift_effects_err(ctx: &Ctx, exprs: Seq<Seq<SymId>>, effs: Seq<Effect<Atom>>, st: Seq<bool>, m: int)
    requires
        0 <= m <= effs.len(),
        lift_effects(ctx, exprs, effs.take(m), st) is Err,
    ensures
        lift_effects(ctx, exprs, effs, st) == lift_effects(ctx, exprs, effs.take(m), st),
    decreases effs.len(),
{
    if m == effs.len() {
        assert(effs.take(m) =~= effs);
    } else {
        assert(effs.drop_last().take(m) =~= effs.take(m));
        lemma_lift_effects_err(ctx, exprs, effs.drop_last(), st, m);
    }
}

proof fn lemma_lift_conditions_err(ctx: &Ctx, exprs: Seq<Seq<SymId>>, conds: Seq<Condition<Atom>>, goals: Seq<Lit>, m: int)
    requires
        0 <= m <= conds.len(),
        lift_conditions(ctx, exprs, conds.take(m), goals) is Err,
    ensures
        lift_conditions(ctx, exprs, conds, goals) == lift_conditions(ctx, exprs, conds.take(m), goals),
    decreases conds.len(),
{
    if m == conds.len() {
        assert(conds.take(m) =~= conds);
    } else {
        assert(conds.drop_last().take(m) =~= conds.take(m));
        lemma_lift_conditions_err(ctx, exprs, conds.drop_last(), goals, m);
    }
}

proof fn lemma_lift_instances_err(
    ctx: &Ctx,
    exprs: Seq<Seq<SymId>>,
    insts: Seq<ChronicleInstance>,
    st: Seq<bool>,
    goals: Seq<Lit>,
    m: int,
)
    requires
        0 <= m <= insts.len(),
        lift_instances(ctx, exprs, insts.take(m), st, goals) is Err,
    ensures
        lift_instances(ctx, exprs, insts, st, goals) == lift_instances(ctx, exprs, insts.take(m), st, goals),
    decreases insts.len(),
{
    if m == insts.len() {
        assert(insts.take(m) =~= insts);
    } else {
        assert(insts.drop_last().take(m) =~= insts.take(m));
        lemma_lift_instances_err(ctx, exprs, insts.drop_last(), st, goals, m);
    }
}

proof fn lemma_template_params_err(params: Seq<(Type, Option<String>)>, args: Seq<Holed<Atom>>, m: int)
    requires
        0 <= m <= args.len(),
        template_params(params, args.take(m)) is Err,
    ensures
        template_params(params, args) == template_params(params, args.take(m)),
    decreases args.len(),
{
    if m == args.len() {
        assert(args.take(m) =~= args);
    } else {
        assert(args.drop_last().take(m) =~= args.take(m));
        lemma_template_params_err(params, args.drop_last(), m);
    }
}

proof fn lemma_lift_preconditions_err(
    ctx: &Ctx,
    corr: Map<usize, usize>,
    start: Time<Holed<Atom>>,
    conds: Seq<Condition<Holed<Atom>>>,
    m: int,
)
    requires
        0 <= m <= conds.len(),
        lift_preconditions(ctx, corr, start, conds.take(m)) is Err,
    ensures
        lift_preconditions(ctx, corr, start, conds) == lift_preconditions(ctx, corr, start, conds.take(m)),
    decreases conds.len(),
{
    if m == conds.len() {
        assert(conds.take(m) =~= conds);
    } else {
        assert(conds.drop_last().take(m) =~= conds.take(m));
        lemma_lift_preconditions_err(ctx, corr, start, conds.drop_last(), m);
    }
}

proof fn lemma_lift_action_effects_err(
    ctx: &Ctx,
    corr: Map<usize, usize>,
    start: Time<Holed<Atom>>,
    end: Time<Holed<Atom>>,
    effs: Seq<Effect<Holed<Atom>>>,
    m: int,
)
    requires
        0 <= m <= effs.len(),
        lift_action_effects(ctx, corr, start, end, effs.take(m)) is Err,
    ensures
        lift_action_effects(ctx, corr, start, end, effs) == lift_action_effects(ctx, corr, start, end, effs.take(m)),
    decreases effs.len(),
{
    if m == effs.len() {
        assert(effs.take(m) =~= effs);
    } else {
        assert(effs.drop_last().take(m) =~= effs.take(m));
        lemma_lift_action_effects_err(ctx, corr, start, end, effs.drop_last(), m);
    }
}

proof fn lemma_lift_templates_err(ctx: &Ctx, tpls: Seq<ChronicleTemplate>, m: int)
    requires
        0 <= m <= tpls.len(),
        lift_templates(ctx, tpls.take(m)) is Err,
    ensures
        lift_templates(ctx, tpls) == lift_templates(ctx, tpls.take(m)),
    decreases tpls.len(),
{
    if m == tpls.len() {
        assert(tpls.take(m) =~= tpls);
    } else {
        assert(tpls.drop_last().take(m) =~= tpls.take(m));
        lemma_lift_templates_err(ctx, tpls.drop_last(), m);
    }
}

/// A literal read from `exprs` is about one of its state variables.
proof fn lemma_lit_in_world(vars: Seq<Atom>, value: Atom, exprs: Seq<Seq<SymId>>, ctx: &Ctx)
    requires
        sv_to_lit_spec(vars, value, exprs, ctx) is Ok,
    ensures
        sv_to_lit_spec(vars, value, exprs, ctx)->Ok_0.sv.0 < exprs.len(),
{
    let syms = sym_values(ctx, vars)->0;
    lemma_first_index_of(exprs, syms);
}

/// Reads a chronicle instance of the initial problem: its effects update
/// `state`, its conditions are added to `goals`.
fn read_instance(ctx: &Ctx, world: &World, inst: &ChronicleInstance, state: &mut State, goals: &mut Vec<Lit>) -> (res: Result<(), String>)
    requires
        old(state)@.len() == world.exprs().len(),
    ensures
        final(state)@.len() == old(state)@.len(),
        match (res, lift_instance(ctx, world.exprs(), *inst, old(state)@, old(goals)@)) {
            (Ok(_), Ok((s, g))) => final(state)@ == s && final(goals)@ == g,
            (Err(e), Err(m)) => e@ == m,
            _ => false,
        },
{
    let ghost exprs = world.exprs();
    let ghost st0 = state@;
    let ghost g0 = goals@;
    let ch = &inst.chronicle;
    if let Err(e) = check(ch.prez == ctx.tautology(), "A chronicle instance is optional") {
        return Err(e);
    }
    for j in 0..ch.effects.len()
        invariant
            exprs == world.exprs(),
            state@.len() == exprs.len(),
            goals@ == g0,
            st0 == old(state)@,
            g0 == old(goals)@,
            st0.len() == exprs.len(),
            ch.prez == ctx.tautology,
            *ch == inst.chronicle,
            lift_effects(ctx, exprs, ch.effects@.take(j as int), st0) == Ok::<Seq<bool>, Seq<char>>(state@),
    {
        let eff = &ch.effects[j];
        assert(ch.effects@.take(j + 1).drop_last() =~= ch.effects@.take(j as int));
        assert(ch.effects@.take(j + 1).last() == ch.effects@[j as int]);
        if let Err(e) = check(eff.effective_start().same_as(eff.transition_start()), "Non instantaneous effect") {
            proof {
                assert(lift_effects(ctx, exprs, ch.effects@.take(j + 1), st0) is Err);
                lemma_lift_effects_err(ctx, exprs, ch.effects@, st0, j + 1);
                assert(lift_effects(ctx, exprs, inst.chronicle.effects@, st0) is Err);
            }
            return Err(e);
        }
        if let Err(e) = check(eff.effective_start().same_as(&Time::new(ctx.origin())), "Effect not at start in initial chronicle") {
            proof {
                assert(lift_effects(ctx, exprs, ch.effects@.take(j + 1), st0) is Err);
                lemma_lift_effects_err(ctx, exprs, ch.effects@, st0, j + 1);
                assert(lift_effects(ctx, exprs, inst.chronicle.effects@, st0) is Err);
            }
            return Err(e);
        }
        let lit = match sv_to_lit(eff.variable(), eff.value(), world, ctx) {
            Ok(l) => l,
            Err(e) => {
                proof {
                    assert(lift_effects(ctx, exprs, ch.effects@.take(j + 1), st0) is Err);
                    lemma_lift_effects_err(ctx, exprs, ch.effects@, st0, j + 1);
                    assert(lift_effects(ctx, exprs, inst.chronicle.effects@, st0) is Err);
                }
                return Err(e);
            },
        };
        proof {
            lemma_lit_in_world(eff.sv@, eff.value, exprs, ctx);
        }
        state.set(lit);
    }
    assert(ch.effects@.take(ch.effects@.len() as int) =~= ch.effects@);
    let ghost st1 = state@;
    for j in 0..ch.conditions.len()
        invariant
            exprs == world.exprs(),
            state@ == st1,
            st0 == old(state)@,
            g0 == old(goals)@,
            st1.len() == st0.len(),
            ch.prez == ctx.tautology,
            *ch == inst.chronicle,
            lift_effects(ctx, exprs, ch.effects@, st0) == Ok::<Seq<bool>, Seq<char>>(st1),
            lift_conditions(ctx, exprs, ch.conditions@.take(j as int), g0) == Ok::<Seq<Lit>, Seq<char>>(goals@),
    {
        let cond = &ch.conditions[j];
        assert(ch.conditions@.take(j + 1).drop_last() =~= ch.conditions@.take(j as int));
        assert(ch.conditions@.take(j + 1).last() == ch.conditions@[j as int]);
        if let Err(e) = check(cond.start().same_as(cond.end()), "Non instantaneous condition") {
            proof {
                assert(lift_conditions(ctx, exprs, ch.conditions@.take(j + 1), g0) is Err);
                lemma_lift_conditions_err(ctx, exprs, ch.conditions@, g0, j + 1);
                assert(lift_conditions(ctx, exprs, inst.chronicle.conditions@, g0) is Err);
            }
            return Err(e);
        }
        if let Err(e) = check(cond.start().same_as(&Time::new(ctx.horizon())), "Non final condition can not be interpreted as goal") {
            proof {
                assert(lift_conditions(ctx, exprs, ch.conditions@.take(j + 1), g0) is Err);
                lemma_lift_conditions_err(ctx, exprs, ch.conditions@, g0, j + 1);
                assert(lift_conditions(ctx, exprs, inst.chronicle.conditions@, g0) is Err);
            }
            return Err(e);
        }
        let lit = match sv_to_lit(cond.variable(), cond.value(), world, ctx) {
            Ok(l) => l,
            Err(e) => {
                proof {
                    assert(lift_conditions(ctx, exprs, ch.conditions@.take(j + 1), g0) is Err);
                    lemma_lift_conditions_err(ctx, exprs, ch.conditions@, g0, j + 1);
                    assert(lift_conditions(ctx, exprs, inst.chronicle.conditions@, g0) is Err);
                }
                return Err(e);
            },
        };
        goals.push(lit);
    }
    assert(ch.conditions@.take(ch.conditions@.len() as int) =~= ch.conditions@);
    Ok(())
}


/// A copy of an optional name.
fn clone_name(o: &Option<String>) -> (r: Option<String>)
    ensures
        opt_view(r) == opt_view(*o),
{
    match o {
        Some(s) => Some(s.clone()),
        None => None,
    }
}

/// Reads an action template into an action schema.
fn read_template(ctx: &Ctx, template: &ChronicleTemplate) -> (res: Result<ActionSchema, String>)
    requires
        template_indexable(ctx, *template),
    ensures
        match (res, lift_template(ctx, *template)) {
            (Ok(a), Ok(v)) => a@ == v,
            (Err(e), Err(m)) => e@ == m,
            _ => false,
        },
{
    let ch = &template.chronicle;
    let ghost args = ch.name@.drop_first();
    let name = if ch.name.len() > 0 {
        match ch.name[0] {
            Holed::Full(id) => match ctx.sym_value_of(id) {
                Some(s) => s,
                None => {
                    return Err("Expected action symbol".to_owned());
                },
            },
            _ => {
                return Err("Unamed temlate".to_owned());
            },
        }
    } else {
        return Err("Unamed temlate".to_owned());
    };
    let global_start = Time::new(Holed::Full(ctx.origin()));
    let global_end = Time::new(Holed::Full(ctx.horizon()));
    if let Err(e) = check(!ch.start.comparable(&global_start), "action start is not free") {
        return Err(e);
    }
    if let Err(e) = check(!ch.start.comparable(&global_end), "action start is not free") {
        return Err(e);
    }
    if let Err(e) = check(ch.start.before(&ch.end), "More than one free timepoint in the action.") {
        return Err(e);
    }
    assert(template_symbol(ctx, ch.name@) is Ok);
    assert(template_times(ctx, ch.start, ch.end) is Ok);
    assert(params_indexable(template.params@, args));
    assert(args.take(0) =~= Seq::<Holed<Atom>>::empty());
    assert(ch.conditions@.take(0) =~= Seq::<crate::planning::chronicles::Condition<Holed<Atom>>>::empty());
    assert(ch.effects@.take(0) =~= Seq::<Effect<Holed<Atom>>>::empty());
    // reconstruct parameters from the chronicle's name
    let mut parameters: Vec<(TypeId, Option<String>)> = Vec::new();
    // for each parameter of the chronicle, its index among the parameters of the action
    let mut correspondance: HashMap<usize, usize> = HashMap::new();
    assert(parameters@.map_values(|p: (TypeId, Option<String>)| (p.0, opt_view(p.1))) =~= Seq::<
        (TypeId, Option<Seq<char>>),
    >::empty());
    for k in 1..ch.name.len()
        invariant
            *ch == template.chronicle,
            template_symbol(ctx, ch.name@) == Ok::<SymId, Seq<char>>(name),
            template_times(ctx, ch.start, ch.end) is Ok,
            args == ch.name@.drop_first(),
            params_indexable(template.params@, args),
            template_params(template.params@, args.take(k - 1)) == Ok::<
                (Seq<(TypeId, Option<Seq<char>>)>, Map<usize, usize>),
                Seq<char>,
            >(
                (
                    parameters@.map_values(|p: (TypeId, Option<String>)| (p.0, opt_view(p.1))),
                    correspondance@,
                ),
            ),
    {
        let ghost j = k - 1;
        assert(args.take(j + 1).drop_last() =~= args.take(j));
        assert(args.take(j + 1).last() == args[j]);
        assert(args[j] == ch.name@[k as int]);
        match ch.name[k] {
            Holed::Param(i) => {
                assert(i < template.params@.len());
                let tpe = match template.params[i].0 {
                    Type::Symbolic(tpe) => tpe,
                    _ => {
                        proof {
                            lemma_template_params_err(template.params@, args, j + 1);
                        }
                        return Err("Non symbolic parameter".to_owned());
                    },
                };
                let ghost before = parameters@.map_values(|p: (TypeId, Option<String>)| (p.0, opt_view(p.1)));
                correspondance.insert(i, parameters.len());
                parameters.push((tpe, clone_name(&template.params[i].1)));
                assert(parameters@.map_values(|p: (TypeId, Option<String>)| (p.0, opt_view(p.1))) =~= before.push(
                    (tpe, opt_view(template.params@[i as int].1)),
                ));
            },
            _ => {
                proof {
                    lemma_template_params_err(template.params@, args, j + 1);
                }
                return Err("Expected an action parameter but got an expression".to_owned());
            },
        }
    }
    assert(args.take(args.len() as int) =~= args);
    let ghost corr = correspondance@;
    let ghost pview = parameters@.map_values(|p: (TypeId, Option<String>)| (p.0, opt_view(p.1)));
    let mut pre: Vec<ParameterizedPred> = Vec::new();
    assert(preds_view(pre@) =~= Seq::<PredView>::empty());
    for j in 0..ch.conditions.len()
        invariant
            *ch == template.chronicle,
            template_symbol(ctx, ch.name@) == Ok::<SymId, Seq<char>>(name),
            template_times(ctx, ch.start, ch.end) is Ok,
            args == ch.name@.drop_first(),
            pview == parameters@.map_values(|p: (TypeId, Option<String>)| (p.0, opt_view(p.1))),
            template_params(template.params@, args) == Ok::<
                (Seq<(TypeId, Option<Seq<char>>)>, Map<usize, usize>),
                Seq<char>,
            >((pview, corr)),
            corr == correspondance@,
            lift_preconditions(ctx, corr, ch.start, ch.conditions@.take(j as int)) == Ok::<Seq<PredView>, Seq<char>>(
                preds_view(pre@),
            ),
    {
        let cond = &ch.conditions[j];
        assert(ch.conditions@.take(j + 1).drop_last() =~= ch.conditions@.take(j as int));
        assert(ch.conditions@.take(j + 1).last() == ch.conditions@[j as int]);
        if let Err(e) = check(cond.start().same_as(cond.end()), "Non intantaneous condition") {
            proof {
                assert(lift_preconditions(ctx, corr, ch.start, ch.conditions@.take(j + 1)) is Err);
                lemma_lift_preconditions_err(ctx, corr, ch.start, ch.conditions@, j + 1);
            }
            return Err(e);
        }
        if let Err(e) = check(cond.start().same_as(&ch.start), "Non final condition can not be interpreted as goal") {
            proof {
                assert(lift_preconditions(ctx, corr, ch.start, ch.conditions@.take(j + 1)) is Err);
                lemma_lift_preconditions_err(ctx, corr, ch.start, ch.conditions@, j + 1);
            }
            return Err(e);
        }
        let pred = match holed_sv_to_pred(cond.variable(), cond.value(), &correspondance, ctx) {
            Ok(p) => p,
            Err(e) => {
                proof {
                    assert(lift_preconditions(ctx, corr, ch.start, ch.conditions@.take(j + 1)) is Err);
                    lemma_lift_preconditions_err(ctx, corr, ch.start, ch.conditions@, j + 1);
                }
                return Err(e);
            },
        };
        let ghost before = preds_view(pre@);
        pre.push(pred);
        assert(preds_view(pre@) =~= before.push(pred@));
    }
    assert(ch.conditions@.take(ch.conditions@.len() as int) =~= ch.conditions@);
    let mut eff: Vec<ParameterizedPred> = Vec::new();
    assert(preds_view(eff@) =~= Seq::<PredView>::empty());
    for j in 0..ch.effects.len()
        invariant
            *ch == template.chronicle,
            template_symbol(ctx, ch.name@) == Ok::<SymId, Seq<char>>(name),
            template_times(ctx, ch.start, ch.end) is Ok,
            args == ch.name@.drop_first(),
            pview == parameters@.map_values(|p: (TypeId, Option<String>)| (p.0, opt_view(p.1))),
            template_params(template.params@, args) == Ok::<
                (Seq<(TypeId, Option<Seq<char>>)>, Map<usize, usize>),
                Seq<char>,
            >((pview, corr)),
            lift_preconditions(ctx, corr, ch.start, ch.conditions@) == Ok::<Seq<PredView>, Seq<char>>(
                preds_view(pre@),
            ),
            corr == correspondance@,
            lift_action_effects(ctx, corr, ch.start, ch.end, ch.effects@.take(j as int)) == Ok::<
                Seq<PredView>,
                Seq<char>,
            >(preds_view(eff@)),
    {
        let e = &ch.effects[j];
        assert(ch.effects@.take(j + 1).drop_last() =~= ch.effects@.take(j as int));
        assert(ch.effects@.take(j + 1).last() == ch.effects@[j as int]);
        if let Err(m) = check(e.transition_start().same_as(&ch.start), "Effect does not start condition with action's start") {
            proof {
                assert(lift_action_effects(ctx, corr, ch.start, ch.end, ch.effects@.take(j + 1)) is Err);
                lemma_lift_action_effects_err(ctx, corr, ch.start, ch.end, ch.effects@, j + 1);
            }
            return Err(m);
        }
        if let Err(m) = check(e.effective_start().same_as(&ch.end), "Effect is not active at action's end") {
            proof {
                assert(lift_action_effects(ctx, corr, ch.start, ch.end, ch.effects@.take(j + 1)) is Err);
                lemma_lift_action_effects_err(ctx, corr, ch.start, ch.end, ch.effects@, j + 1);
            }
            return Err(m);
        }
        let pred = match holed_sv_to_pred(e.variable(), e.value(), &correspondance, ctx) {
            Ok(p) => p,
            Err(m) => {
                proof {
                    assert(lift_action_effects(ctx, corr, ch.start, ch.end, ch.effects@.take(j + 1)) is Err);
                    lemma_lift_action_effects_err(ctx, corr, ch.start, ch.end, ch.effects@, j + 1);
                }
                return Err(m);
            },
        };
        let ghost before = preds_view(eff@);
        eff.push(pred);
        assert(preds_view(eff@) =~= before.push(pred@));
    }
    assert(ch.effects@.take(ch.effects@.len() as int) =~= ch.effects@);
    Ok(ActionSchema { name, params: parameters, pre, eff })
}

/// Reads the templates, in order, into action schemas.
fn read_templates(ctx: &Ctx, templates: &Vec<ChronicleTemplate>) -> (res: Result<Vec<ActionSchema>, String>)
    requires
        templates_indexable(ctx, templates@),
    ensures
        match (res, lift_templates(ctx, templates@)) {
            (Ok(v), Ok(schemas)) => v@.map_values(|a: ActionSchema| a@) == schemas,
            (Err(e), Err(m)) => e@ == m,
            _ => false,
        },
{
    let mut schemas: Vec<ActionSchema> = Vec::new();
    assert(templates@.take(0) =~= Seq::<ChronicleTemplate>::empty());
    assert(schemas@.map_values(|a: ActionSchema| a@) =~= Seq::<SchemaView>::empty());
    for t in 0..templates.len()
        invariant
                        templates_indexable(ctx, templates@),
            lift_templates(ctx, templates@.take(t as int)) == Ok::<Seq<SchemaView>, Seq<char>>(
                schemas@.map_values(|a: ActionSchema| a@),
            ),
    {
        let ghost tpls = templates@;
        assert(tpls.take(t + 1).drop_last() =~= tpls.take(t as int));
        assert(tpls.take(t + 1).last() == tpls[t as int]);
        assert(template_indexable(ctx, tpls[t as int]));
        let schema = match read_template(ctx, &templates[t]) {
            Ok(s) => s,
            Err(e) => {
                proof {
                    assert(lift_templates(ctx, tpls.take(t + 1)) is Err);
                    lemma_lift_templates_err(ctx, tpls, t + 1);
                }
                return Err(e);
            },
        };
        let ghost before = schemas@.map_values(|a: ActionSchema| a@);
        schemas.push(schema);
        assert(schemas@.map_values(|a: ActionSchema| a@) =~= before.push(schema@));
    }
    assert(templates@.take(templates@.len() as int) =~= templates@);
    Ok(schemas)
}

/// The lifted classical problem that a chronicle problem describes: its
/// state variables are built from its state functions; its chronicle
/// instances give the initial state (their effects, at the origin) and the
/// goals (their conditions, at the horizon); its templates give the action
/// schemas. Any chronicle outside this fragment is an error.
pub fn from_chronicles(chronicles: &Problem) -> (res: Result<LiftedProblem, String>)
    requires
        readable_problem(chronicles),
    ensures
        match (res, lifted_spec(chronicles)) {
            (Ok(lp), Ok((exprs, st, goals, schemas))) => {
                &&& lp.world.exprs() == exprs
                &&& exprs.no_duplicates()
                &&& st.len() == exprs.len()
                &&& lits_in_range(goals, exprs.len())
                &&& lp.world.table.types() == chronicles.context.symbols.types()
                &&& lp.world.table.name_seq() == chronicles.context.symbols.name_seq()
                &&& lp.initial_state@ == st
                &&& lp.goals@ == goals
                &&& lp.actions@.map_values(|a: ActionSchema| a@) == schemas
            },
            (Err(e), Err(m)) => e@ == m,
            _ => false,
        },
        res matches Ok(lp) ==> lifted_reads(
            chronicles,
            lp.world.exprs(),
            lp.initial_state@,
            lp.goals@,
            lp.actions@.map_values(|a: ActionSchema| a@),
        ),
{
    let ctx = &chronicles.context;
    let symbols = ctx.symbols.duplicate();
    let world = match World::new(symbols, ctx.state_functions.as_slice()) {
        Ok(w) => w,
        Err(e) => {
            return Err(e);
        },
    };
    let ghost exprs = world.exprs();
    let mut state = world.make_new_state();
    assert(lits_in_range(Seq::<Lit>::empty(), exprs.len()));
    let mut goals: Vec<Lit> = Vec::new();
    let ghost st0 = state@;
    assert(chronicles.chronicles@.take(0) =~= Seq::<ChronicleInstance>::empty());
    for i in 0..chronicles.chronicles.len()
        invariant
            *ctx == chronicles.context,
            world_exprs(ctx.symbols.types(), ctx.state_functions@) == Ok::<Seq<Seq<SymId>>, Seq<char>>(exprs),
            exprs == world.exprs(),
            st0 == Seq::new(exprs.len(), |i: int| false),
            state@.len() == exprs.len(),
            lift_instances(ctx, exprs, chronicles.chronicles@.take(i as int), st0, Seq::empty()) == Ok::<
                (Seq<bool>, Seq<Lit>),
                Seq<char>,
            >((state@, goals@)),
    {
        let ghost insts = chronicles.chronicles@;
        assert(insts.take(i + 1).drop_last() =~= insts.take(i as int));
        assert(insts.take(i + 1).last() == insts[i as int]);
        if let Err(e) = read_instance(ctx, &world, &chronicles.chronicles[i], &mut state, &mut goals) {
            proof {
                assert(lift_instances(ctx, exprs, insts.take(i + 1), st0, Seq::empty()) is Err);
                lemma_lift_instances_err(ctx, exprs, insts, st0, Seq::empty(), i + 1);
            }
            return Err(e);
        }
    }
    assert(chronicles.chronicles@.take(chronicles.chronicles@.len() as int) =~= chronicles.chronicles@);
    proof {
        lemma_lift_instances_range(ctx, exprs, chronicles.chronicles@, st0, Seq::empty());
    }
    let schemas = match read_templates(ctx, &chronicles.templates) {
        Ok(s) => s,
        Err(e) => {
            return Err(e);
        },
    };
    proof {
        lemma_lifted_reads(chronicles);
    }
    Ok(LiftedProblem { world, initial_state: state, goals, actions: schemas })
}


/// Every ground operator of groundable schemas reads and writes only state
/// variables of the world: its preconditions and effects are literals about
/// variables of `exprs`.
pub proof fn lemma_ground_all_in_range(types: Seq<Seq<SymId>>, exprs: Seq<Seq<SymId>>, schemas: Seq<SchemaView>)
    requires
        forall|k: int| 0 <= k < schemas.len() ==> groundable(types, exprs, #[trigger] schemas[k]),
    ensures
        forall|k: int|
            0 <= k < ground_all(types, exprs, schemas).len() ==> lits_in_range(
                (#[trigger] ground_all(types, exprs, schemas)[k]).effects,
                exprs.len(),
            ) && lits_in_range(ground_all(types, exprs, schemas)[k].precond, exprs.len()),
    decreases schemas.len(),
{
    if schemas.len() > 0 {
        let prev = schemas.drop_last();
        assert forall|k: int| 0 <= k < prev.len() implies groundable(types, exprs, #[trigger] prev[k]) by {
            assert(prev[k] == schemas[k]);
        }
        lemma_ground_all_in_range(types, exprs, prev);
        let schema = schemas.last();
        assert(groundable(types, exprs, schemas[schemas.len() - 1]));
        let a = ground_all(types, exprs, prev);
        let b = ground_schema(types, exprs, schema);
        let prod = product(schema_generators(types, schema));
        assert forall|k: int| 0 <= k < (a + b).len() implies lits_in_range(
            (#[trigger] (a + b)[k]).effects,
            exprs.len(),
        ) && lits_in_range((a + b)[k].precond, exprs.len()) by {
            if k < a.len() {
                assert((a + b)[k] == a[k]);
            } else {
                let p = prod[k - a.len()];
                assert(prod.contains(p));
                assert((a + b)[k] == ground_op(schema, exprs, p));
                lemma_preds_bind_in_range(schema.pre, exprs, p);
                lemma_preds_bind_in_range(schema.eff, exprs, p);
            }
        }
    }
}

/// The literals bound from predicates that denote state variables are about
/// variables of `exprs`.
proof fn lemma_preds_bind_in_range(preds: Seq<PredView>, exprs: Seq<Seq<SymId>>, params: Seq<SymId>)
    requires
        preds_bind(preds, exprs, params),
    ensures
        lits_in_range(preds.map_values(|p: PredView| bound_lit(p, exprs, params)), exprs.len()),
{
    let lits = preds.map_values(|p: PredView| bound_lit(p, exprs, params));
    assert forall|j: int| 0 <= j < lits.len() implies (#[trigger] lits[j]).sv.0 < exprs.len() by {
        assert(bind_spec(preds[j], exprs, params) is Some);
        lemma_first_index_of(exprs, substitute(preds[j].sexpr, params));
    }
}

proof fn lemma_lift_effects_len(ctx: &Ctx, exprs: Seq<Seq<SymId>>, effs: Seq<Effect<Atom>>, st: Seq<bool>)
    requires
        lift_effects(ctx, exprs, effs, st) is Ok,
        st.len() == exprs.len(),
    ensures
        lift_effects(ctx, exprs, effs, st)->Ok_0.len() == st.len(),
    decreases effs.len(),
{
    if effs.len() > 0 {
        lemma_lift_effects_len(ctx, exprs, effs.drop_last(), st);
        let e = effs.last();
        lemma_lit_in_world(e.sv@, e.value, exprs, ctx);
    }
}

proof fn lemma_lift_conditions_range(ctx: &Ctx, exprs: Seq<Seq<SymId>>, conds: Seq<Condition<Atom>>, goals: Seq<Lit>)
    requires
        lift_conditions(ctx, exprs, conds, goals) is Ok,
        lits_in_range(goals, exprs.len()),
    ensures
        lits_in_range(lift_conditions(ctx, exprs, conds, goals)->Ok_0, exprs.len()),
    decreases conds.len(),
{
    if conds.len() > 0 {
        lemma_lift_conditions_range(ctx, exprs, conds.drop_last(), goals);
        let c = conds.last();
        lemma_lit_in_world(c.sv@, c.value, exprs, ctx);
    }
}

/// Reading chronicle instances keeps one value per state variable and only
/// adds goals about state variables.
proof fn lemma_lift_instances_range(
    ctx: &Ctx,
    exprs: Seq<Seq<SymId>>,
    insts: Seq<ChronicleInstance>,
    st: Seq<bool>,
    goals: Seq<Lit>,
)
    requires
        lift_instances(ctx, exprs, insts, st, goals) is Ok,
        lits_in_range(goals, exprs.len()),
        st.len() == exprs.len(),
    ensures
        lift_instances(ctx, exprs, insts, st, goals)->Ok_0.0.len() == st.len(),
        lits_in_range(lift_instances(ctx, exprs, insts, st, goals)->Ok_0.1, exprs.len()),
    decreases insts.len(),
{
    if insts.len() > 0 {
        lemma_lift_instances_range(ctx, exprs, insts.drop_last(), st, goals);
        let (s, g) = lift_instances(ctx, exprs, insts.drop_last(), st, goals)->Ok_0;
        let ch = insts.last().chronicle;
        lemma_lift_effects_len(ctx, exprs, ch.effects@, s);
        lemma_lift_conditions_range(ctx, exprs, ch.conditions@, g);
    }
}


/// Number of ground operators of the schemas: for each schema, the product
/// of the numbers of instances of its parameter types, summed over the schemas.
pub open spec fn ground_count(types: Seq<Seq<SymId>>, schemas: Seq<SchemaView>) -> nat
    decreases schemas.len(),
{
    if schemas.len() == 0 {
        0
    } else {
        ground_count(types, schemas.drop_last()) + product_len(schema_generators(types, schemas.last()))
    }
}

/// Grounding gives one operator per schema and combination of instances of its
/// parameter types.
pub proof fn lemma_ground_all_len(types: Seq<Seq<SymId>>, exprs: Seq<Seq<SymId>>, schemas: Seq<SchemaView>)
    ensures
        ground_all(types, exprs, schemas).len() == ground_count(types, schemas),
    decreases schemas.len(),
{
    if schemas.len() > 0 {
        lemma_ground_all_len(types, exprs, schemas.drop_last());
        lemma_product_len(schema_generators(types, schemas.last()));
    }
}


/// Grounding lists the operators of the schemas schema after schema: those
/// of the schema `k` come, in their order, after the operators of all the
/// schemas before it.
pub proof fn lemma_ground_all_order(types: Seq<Seq<SymId>>, exprs: Seq<Seq<SymId>>, schemas: Seq<SchemaView>)
    ensures
        forall|k: int, i: int|
            0 <= k < schemas.len() && 0 <= i < ground_schema(types, exprs, schemas[k]).len() ==> ground_all(
                types,
                exprs,
                schemas,
            )[ground_count(types, schemas.take(k)) + i] == #[trigger] ground_schema(types, exprs, schemas[k])[i],
    decreases schemas.len(),
{
    if schemas.len() > 0 {
        let p = schemas.drop_last();
        lemma_ground_all_order(types, exprs, p);
        lemma_ground_all_len(types, exprs, p);
        let a = ground_all(types, exprs, p);
        let b = ground_schema(types, exprs, schemas.last());
        assert(ground_all(types, exprs, schemas) == a + b);
        assert forall|k: int, i: int|
            0 <= k < schemas.len() && 0 <= i < ground_schema(types, exprs, schemas[k]).len() implies ground_all(
                types,
                exprs,
                schemas,
            )[ground_count(types, schemas.take(k)) + i] == #[trigger] ground_schema(types, exprs, schemas[k])[i] by {
            if k < p.len() {
                assert(schemas[k] == p[k]);
                assert(schemas.take(k) =~= p.take(k));
                lemma_ground_all_prefix_len(types, exprs, p, k);
                lemma_product_len(schema_generators(types, p[k]));
                let x = ground_count(types, p.take(k)) + i;
                assert(x < a.len());
                assert(a[x] == ground_schema(types, exprs, p[k])[i]);
                assert((a + b)[x] == a[x]);
            } else {
                assert(schemas.take(k) =~= p);
                assert(schemas[k] == schemas.last());
                assert((a + b)[a.len() + i] == b[i]);
            }
        }
    }
}

/// The operators of the first `k` schemas are no more than those of all of them.
proof fn lemma_ground_all_prefix_len(types: Seq<Seq<SymId>>, exprs: Seq<Seq<SymId>>, schemas: Seq<SchemaView>, k: int)
    requires
        0 <= k < schemas.len(),
    ensures
        ground_count(types, schemas.take(k)) + product_len(schema_generators(types, schemas[k])) <= ground_count(
            types,
            schemas,
        ),
    decreases schemas.len(),
{
    if k < schemas.len() - 1 {
        let p = schemas.drop_last();
        assert(p.take(k) =~= schemas.take(k));
        assert(p[k] == schemas[k]);
        lemma_ground_all_prefix_len(types, exprs, p, k);
    } else {
        assert(schemas.take(k) =~= schemas.drop_last());
    }
}

/// Whether every parameter of `sexpr` is an index into `n` parameters.
fn check_params_in_range(sexpr: &Vec<Holed<SymId>>, n: usize) -> (r: bool)
    ensures
        r == params_in_range(sexpr@, n as nat),
{
    for i in 0..sexpr.len()
        invariant
            forall|j: int| 0 <= j < i ==> (#[trigger] sexpr@[j] matches Holed::Param(p) ==> p < n),
    {
        if let Holed::Param(p) = sexpr[i] {
            if p >= n {
                return false;
            }
        }
    }
    true
}

/// Whether every predicate of `preds` denotes a state variable of `desc` for
/// the parameter values `params`.
fn check_preds_bind(preds: &Vec<ParameterizedPred>, desc: &World, params: &[SymId]) -> (r: bool)
    ensures
        r == preds_bind(preds_view(preds@), desc.exprs(), params@),
{
    let mut working: Vec<SymId> = Vec::new();
    for j in 0..preds.len()
        invariant
            forall|t: int| 0 <= t < j ==> params_in_range((#[trigger] preds_view(preds@)[t]).sexpr, params@.len())
                && bind_spec(preds_view(preds@)[t], desc.exprs(), params@) is Some,
    {
        assert(preds_view(preds@)[j as int] == preds@[j as int]@);
        if !check_params_in_range(&preds[j].sexpr, params.len()) {
            return false;
        }
        if preds[j].bind(desc, params, &mut working).is_none() {
            return false;
        }
    }
    true
}

/// Whether `schema` can be grounded in the world `desc` (see [`groundable`]).
fn check_groundable(schema: &ActionSchema, desc: &World) -> (r: bool)
    ensures
        r == groundable(desc.table.types(), desc.exprs(), schema@),
{
    let ghost types = desc.table.types();
    let ghost exprs = desc.exprs();
    let ntypes = desc.table.instances.len();
    for i in 0..schema.params.len()
        invariant
            ntypes == types.len(),
            types == desc.table.types(),
            forall|j: int| 0 <= j < i ==> (#[trigger] schema@.params[j]).0.0 < types.len(),
    {
        assert(schema@.params[i as int].0 == schema.params@[i as int].0);
        if schema.params[i].0.0 >= ntypes {
            return false;
        }
    }
    let mut arg_instances: Vec<Vec<SymId>> = Vec::new();
    for i in 0..schema.params.len()
        invariant
            types == desc.table.types(),
            forall|j: int| 0 <= j < schema@.params.len() ==> (#[trigger] schema@.params[j]).0.0 < types.len(),
            arg_instances@.map_values(|v: Vec<SymId>| v@) == schema_generators(types, schema@).take(i as int),
    {
        assert(schema@.params[i as int].0 == schema.params@[i as int].0);
        let ghost before = arg_instances@.map_values(|v: Vec<SymId>| v@);
        arg_instances.push(copy_syms(desc.table.instances_of_type(schema.params[i].0)));
        assert(schema_generators(types, schema@)[i as int] == types[schema.params@[i as int].0.0 as int]);
        assert(arg_instances@.map_values(|v: Vec<SymId>| v@) =~= before.push(
            types[schema.params@[i as int].0.0 as int],
        ));
        assert(arg_instances@.map_values(|v: Vec<SymId>| v@) =~= schema_generators(types, schema@).take(
            i + 1,
        ));
    }
    assert(schema_generators(types, schema@).take(schema.params@.len() as int) =~= schema_generators(
        types,
        schema@,
    ));
    let combos = enumerate(&arg_instances);
    let ghost prod = product(schema_generators(types, schema@));
    for k in 0..combos.len()
        invariant
            types == desc.table.types(),
            exprs == desc.exprs(),
            prod == combos@.map_values(|v: Vec<SymId>| v@),
            prod == product(schema_generators(types, schema@)),
            forall|t: int|
                0 <= t < k ==> preds_bind(schema@.pre, exprs, #[trigger] prod[t]) && preds_bind(
                    schema@.eff,
                    exprs,
                    prod[t],
                ),
    {
        let params = combos[k].as_slice();
        assert(params@ == prod[k as int]);
        if !check_preds_bind(&schema.pre, desc, params) || !check_preds_bind(&schema.eff, desc, params) {
            assert(prod.contains(prod[k as int]));
            return false;
        }
    }
    assert forall|p: Seq<SymId>| #[trigger] prod.contains(p) implies preds_bind(schema@.pre, exprs, p)
        && preds_bind(schema@.eff, exprs, p) by {
        let t = choose|t: int| 0 <= t < prod.len() && prod[t] == p;
        assert(preds_bind(schema@.pre, exprs, prod[t]));
    }
    true
}

/// Whether every action schema of `lifted` can be grounded: the condition
/// under which [`grounded_problem`] can be called.
pub fn is_groundable(lifted: &LiftedProblem) -> (r: bool)
    ensures
        r == forall|k: int|
            0 <= k < lifted.actions@.len() ==> groundable(
                lifted.world.table.types(),
                lifted.world.exprs(),
                #[trigger] lifted.actions@[k]@,
            ),
{
    for k in 0..lifted.actions.len()
        invariant
            forall|j: int|
                0 <= j < k ==> groundable(
                    lifted.world.table.types(),
                    lifted.world.exprs(),
                    #[trigger] lifted.actions@[j]@,
                ),
    {
        if !check_groundable(&lifted.actions[k], &lifted.world) {
            return false;
        }
    }
    true
}

} // verus!
