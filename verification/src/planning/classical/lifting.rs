//! What lifting a chronicle problem gives, stated directly in terms of the
//! problem: the goals are the literals of all the conditions of the chronicle
//! instances, the initial state is set by all their effects one after the
//! other, and each action schema reads every condition and effect of its
//! template.

use vstd::prelude::*;
use crate::planning::chronicles::{Atom, ChronicleInstance, ChronicleTemplate, Condition, Ctx, Effect, Holed, Problem, Time};
use crate::planning::classical::state::{last_assignment, sf_generators, world_exprs, Lit};
use crate::planning::chronicles::{sym_value, StateFun, Type};
use crate::planning::utils::product;
use crate::planning::classical::{
    holed_pred_spec, holed_sexpr, lemma_lit_in_world, lifted_spec, opt_view, lift_action_effects, lift_conditions, lift_effects, lift_instances,
    lift_preconditions, lift_template, lift_templates, sv_to_lit_spec, template_params, template_symbol, PredView,
    SchemaView,
};
use crate::planning::symbols::SymId;

verus! {

/// All the conditions of the chronicle instances `insts`, instance after instance.
pub open spec fn conditions_of(insts: Seq<ChronicleInstance>) -> Seq<Condition<Atom>>
    decreases insts.len(),
{
    if insts.len() == 0 {
        Seq::empty()
    } else {
        conditions_of(insts.drop_last()) + insts.last().chronicle.conditions@
    }
}

/// All the effects of the chronicle instances `insts`, instance after instance.
pub open spec fn effects_of(insts: Seq<ChronicleInstance>) -> Seq<Effect<Atom>>
    decreases insts.len(),
{
    if insts.len() == 0 {
        Seq::empty()
    } else {
        effects_of(insts.drop_last()) + insts.last().chronicle.effects@
    }
}

/// The literal that the effect `e` sets.
pub open spec fn effect_lit(ctx: &Ctx, exprs: Seq<Seq<SymId>>, e: Effect<Atom>) -> Lit {
    sv_to_lit_spec(e.sv@, e.value, exprs, ctx)->Ok_0
}

/// The literals that the effects `effs` set, in order.
pub open spec fn effect_lits(ctx: &Ctx, exprs: Seq<Seq<SymId>>, effs: Seq<Effect<Atom>>) -> Seq<Lit> {
    effs.map_values(|e: Effect<Atom>| effect_lit(ctx, exprs, e))
}

/// The value of the variable `v` after the literals `lits` are set: that of
/// the last literal about `v`, or `default` when none is.
pub open spec fn assigned_value(lits: Seq<Lit>, v: int, default: bool) -> bool {
    if last_assignment(lits, v) >= 0 {
        lits[last_assignment(lits, v)].positive
    } else {
        default
    }
}

/// The last literal about `v` in a concatenation is in its second part when
/// that part has one, else in the first part.
proof fn lemma_last_assignment_concat(a: Seq<Lit>, b: Seq<Lit>, v: int)
    ensures
        last_assignment(a + b, v) == if last_assignment(b, v) >= 0 {
            a.len() + last_assignment(b, v)
        } else {
            last_assignment(a, v)
        },
        -1 <= last_assignment(b, v) < b.len(),
    decreases b.len(),
{
    if b.len() == 0 {
        assert(a + b =~= a);
    } else {
        assert((a + b).drop_last() =~= a + b.drop_last());
        assert((a + b).last() == b.last());
        lemma_last_assignment_concat(a, b.drop_last(), v);
    }
}

/// Reading the conditions `conds` from the goals `g0` keeps `g0` and adds one
/// goal per condition, in order: the literal of that condition.
pub proof fn lemma_lift_conditions_goals(ctx: &Ctx, exprs: Seq<Seq<SymId>>, conds: Seq<Condition<Atom>>, g0: Seq<Lit>)
    requires
        lift_conditions(ctx, exprs, conds, g0) is Ok,
    ensures
        ({
            let g = lift_conditions(ctx, exprs, conds, g0)->Ok_0;
            &&& g.len() == g0.len() + conds.len()
            &&& forall|j: int| 0 <= j < g0.len() ==> g[j] == g0[j]
            &&& forall|j: int|
                0 <= j < conds.len() ==> sv_to_lit_spec((#[trigger] conds[j]).sv@, conds[j].value, exprs, ctx)
                    == Ok::<Lit, Seq<char>>(g[g0.len() + j])
        }),
    decreases conds.len(),
{
    if conds.len() > 0 {
        let pre = conds.drop_last();
        lemma_lift_conditions_goals(ctx, exprs, pre, g0);
        let gp = lift_conditions(ctx, exprs, pre, g0)->Ok_0;
        let g = lift_conditions(ctx, exprs, conds, g0)->Ok_0;
        assert(g == gp.push(sv_to_lit_spec(conds.last().sv@, conds.last().value, exprs, ctx)->Ok_0));
        assert forall|j: int|
            0 <= j < conds.len() implies sv_to_lit_spec((#[trigger] conds[j]).sv@, conds[j].value, exprs, ctx)
                == Ok::<Lit, Seq<char>>(g[g0.len() + j]) by {
            if j < pre.len() {
                assert(conds[j] == pre[j]);
                assert(g[g0.len() + j] == gp[g0.len() + j]);
            }
        }
        assert forall|j: int| 0 <= j < g0.len() implies g[j] == g0[j] by {
            assert(g[j] == gp[j]);
        }
    }
}

/// Reading the effects `effs` from the state `st` sets their literals one
/// after the other: each variable takes the value of the last effect on it,
/// and keeps its value when no effect is on it.
pub proof fn lemma_lift_effects_state(ctx: &Ctx, exprs: Seq<Seq<SymId>>, effs: Seq<Effect<Atom>>, st: Seq<bool>)
    requires
        lift_effects(ctx, exprs, effs, st) is Ok,
        st.len() == exprs.len(),
    ensures
        ({
            let s = lift_effects(ctx, exprs, effs, st)->Ok_0;
            &&& s.len() == st.len()
            &&& forall|j: int| 0 <= j < effs.len() ==> sv_to_lit_spec((#[trigger] effs[j]).sv@, effs[j].value, exprs, ctx) is Ok
            &&& forall|v: int|
                0 <= v < s.len() ==> #[trigger] s[v] == assigned_value(effect_lits(ctx, exprs, effs), v, st[v])
        }),
    decreases effs.len(),
{
    if effs.len() > 0 {
        let pre = effs.drop_last();
        lemma_lift_effects_state(ctx, exprs, pre, st);
        let e = effs.last();
        lemma_lit_in_world(e.sv@, e.value, exprs, ctx);
        assert forall|j: int| 0 <= j < effs.len() implies sv_to_lit_spec((#[trigger] effs[j]).sv@, effs[j].value, exprs, ctx) is Ok by {
            if j < pre.len() {
                assert(effs[j] == pre[j]);
            }
        }
        let lits = effect_lits(ctx, exprs, effs);
        assert(effect_lits(ctx, exprs, pre) =~= lits.drop_last());
        assert(lits.last() == effect_lit(ctx, exprs, e));
        let sp = lift_effects(ctx, exprs, pre, st)->Ok_0;
        let s = lift_effects(ctx, exprs, effs, st)->Ok_0;
        let l = effect_lit(ctx, exprs, e);
        assert(s == sp.update(l.sv.0 as int, l.positive));
        assert forall|v: int| 0 <= v < s.len() implies #[trigger] s[v] == assigned_value(lits, v, st[v]) by {
            assert(sp[v] == assigned_value(effect_lits(ctx, exprs, pre), v, st[v]));
            if l.sv.0 != v {
                assert(last_assignment(lits, v) == last_assignment(lits.drop_last(), v));
                if last_assignment(lits.drop_last(), v) >= 0 {
                    lemma_last_assignment_concat(Seq::empty(), lits.drop_last(), v);
                    assert(lits[last_assignment(lits, v)] == lits.drop_last()[last_assignment(lits, v)]);
                }
            }
        }
    }
}

/// Reading the chronicle instances `insts` from the state `st` and goals `g0`
/// keeps `g0` and adds one goal per condition of the instances, in order (the
/// literal of that condition), and sets the literals of all their effects one
/// after the other on `st`.
pub proof fn lemma_lift_instances_laws(
    ctx: &Ctx,
    exprs: Seq<Seq<SymId>>,
    insts: Seq<ChronicleInstance>,
    st: Seq<bool>,
    g0: Seq<Lit>,
)
    requires
        lift_instances(ctx, exprs, insts, st, g0) is Ok,
        st.len() == exprs.len(),
    ensures
        ({
            let (s, g) = lift_instances(ctx, exprs, insts, st, g0)->Ok_0;
            let conds = conditions_of(insts);
            let effs = effects_of(insts);
            &&& g.len() == g0.len() + conds.len()
            &&& forall|j: int| 0 <= j < g0.len() ==> g[j] == g0[j]
            &&& forall|j: int|
                0 <= j < conds.len() ==> sv_to_lit_spec((#[trigger] conds[j]).sv@, conds[j].value, exprs, ctx)
                    == Ok::<Lit, Seq<char>>(g[g0.len() + j])
            &&& s.len() == st.len()
            &&& forall|j: int| 0 <= j < effs.len() ==> sv_to_lit_spec((#[trigger] effs[j]).sv@, effs[j].value, exprs, ctx) is Ok
            &&& forall|v: int|
                0 <= v < s.len() ==> #[trigger] s[v] == assigned_value(effect_lits(ctx, exprs, effs), v, st[v])
        }),
    decreases insts.len(),
{
    if insts.len() > 0 {
        let pre = insts.drop_last();
        lemma_lift_instances_laws(ctx, exprs, pre, st, g0);
        let (s1, g1) = lift_instances(ctx, exprs, pre, st, g0)->Ok_0;
        let ch = insts.last().chronicle;
        lemma_lift_effects_state(ctx, exprs, ch.effects@, s1);
        lemma_lift_conditions_goals(ctx, exprs, ch.conditions@, g1);
        let (s, g) = lift_instances(ctx, exprs, insts, st, g0)->Ok_0;
        assert(insts.last().chronicle == ch);
        assert(s == lift_effects(ctx, exprs, ch.effects@, s1)->Ok_0);
        assert(g == lift_conditions(ctx, exprs, ch.conditions@, g1)->Ok_0);
        let c1 = conditions_of(pre);
        let c2 = ch.conditions@;
        let conds = conditions_of(insts);
        assert(conds == c1 + c2);
        assert forall|j: int|
            0 <= j < conds.len() implies sv_to_lit_spec((#[trigger] conds[j]).sv@, conds[j].value, exprs, ctx)
                == Ok::<Lit, Seq<char>>(g[g0.len() + j]) by {
            if j < c1.len() {
                assert(conds[j] == c1[j]);
            } else {
                assert(conds[j] == c2[j - c1.len()]);
            }
        }
        let e1 = effects_of(pre);
        let e2 = ch.effects@;
        let effs = effects_of(insts);
        assert(effs == e1 + e2);
        assert forall|j: int| 0 <= j < effs.len() implies sv_to_lit_spec((#[trigger] effs[j]).sv@, effs[j].value, exprs, ctx) is Ok by {
            if j < e1.len() {
                assert(effs[j] == e1[j]);
            } else {
                assert(effs[j] == e2[j - e1.len()]);
            }
        }
        let l1 = effect_lits(ctx, exprs, e1);
        let l2 = effect_lits(ctx, exprs, e2);
        assert(effect_lits(ctx, exprs, effs) =~= l1 + l2);
        assert forall|v: int| 0 <= v < s.len() implies #[trigger] s[v] == assigned_value(
            effect_lits(ctx, exprs, effs),
            v,
            st[v],
        ) by {
            lemma_last_assignment_concat(l1, l2, v);
            assert(s1.len() == st.len());
            assert(s[v] == assigned_value(l2, v, s1[v]));
            assert(s1[v] == assigned_value(l1, v, st[v]));
            let l = effect_lits(ctx, exprs, effs);
            assert(l == l1 + l2);
            if last_assignment(l2, v) >= 0 {
                assert((l1 + l2)[l1.len() + last_assignment(l2, v)] == l2[last_assignment(l2, v)]);
                assert(assigned_value(l, v, st[v]) == l2[last_assignment(l2, v)].positive);
            } else {
                assert(last_assignment(l, v) == last_assignment(l1, v));
                lemma_last_assignment_concat(Seq::empty(), l1, v);
                if last_assignment(l1, v) >= 0 {
                    assert(l[last_assignment(l1, v)] == l1[last_assignment(l1, v)]);
                }
                assert(assigned_value(l, v, st[v]) == assigned_value(l1, v, st[v]));
            }
        }
    }
}


/// `s` is the action schema read from the template `tpl`: its name is the
/// template's symbol, its parameters those of the template's name, and it has
/// one precondition per condition and one effect per effect of the template,
/// in order, each the predicate that condition or effect denotes.
pub open spec fn schema_reads_template(ctx: &Ctx, tpl: ChronicleTemplate, s: SchemaView) -> bool {
    let ch = tpl.chronicle;
    &&& template_symbol(ctx, ch.name@) == Ok::<SymId, Seq<char>>(s.name)
    &&& match template_params(tpl.params@, ch.name@.drop_first()) {
        Ok((ps, corr)) => {
            &&& s.params == ps
            &&& s.pre.len() == ch.conditions@.len()
            &&& forall|j: int|
                0 <= j < s.pre.len() ==> holed_pred_spec(
                    (#[trigger] ch.conditions@[j]).sv@,
                    ch.conditions@[j].value,
                    corr,
                    ctx,
                ) == Ok::<PredView, Seq<char>>(s.pre[j])
            &&& s.eff.len() == ch.effects@.len()
            &&& forall|j: int|
                0 <= j < s.eff.len() ==> holed_pred_spec((#[trigger] ch.effects@[j]).sv@, ch.effects@[j].value, corr, ctx)
                    == Ok::<PredView, Seq<char>>(s.eff[j])
        },
        Err(_) => false,
    }
}

/// Reading the conditions of a template gives one precondition per
/// condition, in order: the predicate that condition denotes.
pub proof fn lemma_lift_preconditions_law(
    ctx: &Ctx,
    corr: Map<usize, usize>,
    start: Time<Holed<Atom>>,
    conds: Seq<Condition<Holed<Atom>>>,
)
    requires
        lift_preconditions(ctx, corr, start, conds) is Ok,
    ensures
        ({
            let pre = lift_preconditions(ctx, corr, start, conds)->Ok_0;
            &&& pre.len() == conds.len()
            &&& forall|j: int|
                0 <= j < conds.len() ==> holed_pred_spec((#[trigger] conds[j]).sv@, conds[j].value, corr, ctx)
                    == Ok::<PredView, Seq<char>>(pre[j])
        }),
    decreases conds.len(),
{
    if conds.len() > 0 {
        let p = conds.drop_last();
        lemma_lift_preconditions_law(ctx, corr, start, p);
        let pp = lift_preconditions(ctx, corr, start, p)->Ok_0;
        let pre = lift_preconditions(ctx, corr, start, conds)->Ok_0;
        assert(pre == pp.push(holed_pred_spec(conds.last().sv@, conds.last().value, corr, ctx)->Ok_0));
        assert forall|j: int|
            0 <= j < conds.len() implies holed_pred_spec((#[trigger] conds[j]).sv@, conds[j].value, corr, ctx)
                == Ok::<PredView, Seq<char>>(pre[j]) by {
            if j < p.len() {
                assert(conds[j] == p[j]);
            }
        }
    }
}

/// Reading the effects of a template gives one effect per effect, in order:
/// the predicate that effect denotes.
pub proof fn lemma_lift_action_effects_law(
    ctx: &Ctx,
    corr: Map<usize, usize>,
    start: Time<Holed<Atom>>,
    end: Time<Holed<Atom>>,
    effs: Seq<Effect<Holed<Atom>>>,
)
    requires
        lift_action_effects(ctx, corr, start, end, effs) is Ok,
    ensures
        ({
            let eff = lift_action_effects(ctx, corr, start, end, effs)->Ok_0;
            &&& eff.len() == effs.len()
            &&& forall|j: int|
                0 <= j < effs.len() ==> holed_pred_spec((#[trigger] effs[j]).sv@, effs[j].value, corr, ctx)
                    == Ok::<PredView, Seq<char>>(eff[j])
        }),
    decreases effs.len(),
{
    if effs.len() > 0 {
        let p = effs.drop_last();
        lemma_lift_action_effects_law(ctx, corr, start, end, p);
        let pp = lift_action_effects(ctx, corr, start, end, p)->Ok_0;
        let eff = lift_action_effects(ctx, corr, start, end, effs)->Ok_0;
        assert(eff == pp.push(holed_pred_spec(effs.last().sv@, effs.last().value, corr, ctx)->Ok_0));
        assert forall|j: int|
            0 <= j < effs.len() implies holed_pred_spec((#[trigger] effs[j]).sv@, effs[j].value, corr, ctx)
                == Ok::<PredView, Seq<char>>(eff[j]) by {
            if j < p.len() {
                assert(effs[j] == p[j]);
            }
        }
    }
}

/// The action schemas read from templates: one per template, in order, each
/// reading every condition and effect of its template.
pub proof fn lemma_lift_templates_law(ctx: &Ctx, tpls: Seq<ChronicleTemplate>)
    requires
        lift_templates(ctx, tpls) is Ok,
    ensures
        ({
            let ss = lift_templates(ctx, tpls)->Ok_0;
            &&& ss.len() == tpls.len()
            &&& forall|t: int| 0 <= t < tpls.len() ==> schema_reads_template(ctx, #[trigger] tpls[t], ss[t])
        }),
    decreases tpls.len(),
{
    if tpls.len() > 0 {
        let p = tpls.drop_last();
        lemma_lift_templates_law(ctx, p);
        let tpl = tpls.last();
        let ch = tpl.chronicle;
        let (ps, corr) = template_params(tpl.params@, ch.name@.drop_first())->Ok_0;
        lemma_lift_preconditions_law(ctx, corr, ch.start, ch.conditions@);
        lemma_lift_action_effects_law(ctx, corr, ch.start, ch.end, ch.effects@);
        let ss = lift_templates(ctx, tpls)->Ok_0;
        let sp = lift_templates(ctx, p)->Ok_0;
        assert(ss == sp.push(lift_template(ctx, tpl)->Ok_0));
        assert(schema_reads_template(ctx, tpl, lift_template(ctx, tpl)->Ok_0));
        assert forall|t: int| 0 <= t < tpls.len() implies schema_reads_template(ctx, #[trigger] tpls[t], ss[t]) by {
            if t < p.len() {
                assert(tpls[t] == p[t]);
            }
        }
    }
}


/// The classical problem `(exprs, st, goals, schemas)` is what the chronicle
/// problem `pb` says: one goal per condition of its chronicle instances, in
/// order, each the literal of its condition; an initial state where each
/// variable is set by the last effect of the instances on it, and false when
/// none is on it; one action schema per template, reading that template.
pub open spec fn lifted_reads(
    pb: &Problem,
    exprs: Seq<Seq<SymId>>,
    st: Seq<bool>,
    goals: Seq<Lit>,
    schemas: Seq<SchemaView>,
) -> bool {
    let ctx = &pb.context;
    let conds = conditions_of(pb.chronicles@);
    let effs = effects_of(pb.chronicles@);
    &&& goals.len() == conds.len()
    &&& forall|j: int|
        0 <= j < conds.len() ==> sv_to_lit_spec((#[trigger] conds[j]).sv@, conds[j].value, exprs, ctx)
            == Ok::<Lit, Seq<char>>(goals[j])
    &&& st.len() == exprs.len()
    &&& forall|j: int| 0 <= j < effs.len() ==> sv_to_lit_spec((#[trigger] effs[j]).sv@, effs[j].value, exprs, ctx) is Ok
    &&& forall|v: int| 0 <= v < st.len() ==> #[trigger] st[v] == assigned_value(effect_lits(ctx, exprs, effs), v, false)
    &&& schemas.len() == pb.templates@.len()
    &&& forall|t: int| 0 <= t < schemas.len() ==> schema_reads_template(ctx, #[trigger] pb.templates@[t], schemas[t])
}

/// What lifting a chronicle problem gives, when it succeeds, is what the
/// problem says ([`lifted_reads`]).
pub proof fn lemma_lifted_reads(pb: &Problem)
    requires
        lifted_spec(pb) is Ok,
    ensures
        ({
            let (exprs, st, goals, schemas) = lifted_spec(pb)->Ok_0;
            lifted_reads(pb, exprs, st, goals, schemas)
        }),
{
    let ctx = &pb.context;
    let (exprs, st, goals, schemas) = lifted_spec(pb)->Ok_0;
    let st0 = Seq::new(exprs.len(), |i: int| false);
    lemma_lift_instances_laws(ctx, exprs, pb.chronicles@, st0, Seq::empty());
    lemma_lift_templates_law(ctx, pb.templates@);
}


/// Reading the expression `vars` of a template gives one element per element
/// of `vars`, in order: the symbol an atom denotes, or the renumbered parameter.
pub proof fn lemma_holed_sexpr_law(ctx: &Ctx, corr: Map<usize, usize>, vars: Seq<Holed<Atom>>)
    requires
        holed_sexpr(ctx, corr, vars) is Ok,
    ensures
        ({
            let sx = holed_sexpr(ctx, corr, vars)->Ok_0;
            &&& sx.len() == vars.len()
            &&& forall|i: int|
                0 <= i < vars.len() ==> match #[trigger] vars[i] {
                    Holed::Full(a) => sym_value(ctx, a) is Some && sx[i] == Holed::<SymId>::Full(sym_value(ctx, a)->0),
                    Holed::Param(q) => corr.contains_key(q) && sx[i] == Holed::<SymId>::Param(corr[q]),
                }
        }),
    decreases vars.len(),
{
    if vars.len() > 0 {
        let p = vars.drop_last();
        lemma_holed_sexpr_law(ctx, corr, p);
        let sx = holed_sexpr(ctx, corr, vars)->Ok_0;
        let sp = holed_sexpr(ctx, corr, p)->Ok_0;
        assert forall|i: int| 0 <= i < vars.len() implies match #[trigger] vars[i] {
            Holed::Full(a) => sym_value(ctx, a) is Some && sx[i] == Holed::<SymId>::Full(sym_value(ctx, a)->0),
            Holed::Param(q) => corr.contains_key(q) && sx[i] == Holed::<SymId>::Param(corr[q]),
        } by {
            if i < p.len() {
                assert(vars[i] == p[i]);
                assert(sx[i] == sp[i]);
            }
        }
    }
}

/// The parameters of an action read from the rest `args` of its template's
/// name: one per element of `args`, in order, each of the symbolic type and
/// with the name of the template parameter it refers to; the renumbering
/// sends each of those template parameters to the last position where it
/// occurs.
pub proof fn lemma_template_params_law(params: Seq<(Type, Option<String>)>, args: Seq<Holed<Atom>>)
    requires
        template_params(params, args) is Ok,
        args.len() <= usize::MAX,
    ensures
        ({
            let (ps, corr) = template_params(params, args)->Ok_0;
            &&& ps.len() == args.len()
            &&& forall|k: int|
                0 <= k < args.len() ==> match #[trigger] args[k] {
                    Holed::Param(q) => params[q as int].0 == Type::Symbolic(ps[k].0) && ps[k].1 == opt_view(
                        params[q as int].1,
                    ) && corr.contains_key(q),
                    Holed::Full(_) => false,
                }
            &&& forall|q: usize| #[trigger] corr.contains_key(q) ==> corr[q] < args.len() && args[corr[q] as int] == Holed::<Atom>::Param(q)
                && forall|k: int| corr[q] < k < args.len() ==> #[trigger] args[k] != Holed::<Atom>::Param(q)
        }),
    decreases args.len(),
{
    if args.len() > 0 {
        let p = args.drop_last();
        lemma_template_params_law(params, p);
        let (ps, corr) = template_params(params, args)->Ok_0;
        let (pp, cp) = template_params(params, p)->Ok_0;
        assert forall|k: int| 0 <= k < args.len() implies match #[trigger] args[k] {
            Holed::Param(q) => params[q as int].0 == Type::Symbolic(ps[k].0) && ps[k].1 == opt_view(params[q as int].1)
                && corr.contains_key(q),
            Holed::Full(_) => false,
        } by {
            if k < p.len() {
                assert(args[k] == p[k]);
                assert(ps[k] == pp[k]);
            }
        }
        assert forall|q: usize| #[trigger] corr.contains_key(q) implies corr[q] < args.len() && args[corr[q] as int]
            == Holed::<Atom>::Param(q) && forall|k: int| corr[q] < k < args.len() ==> #[trigger] args[k] != Holed::<Atom>::Param(q) by {
            let qi = args.last()->Param_0;
            assert(args.last() is Param);
            assert(corr == cp.insert(qi, pp.len() as usize));
            if args.last() != Holed::<Atom>::Param(q) {
                assert(qi != q);
                assert(cp.contains_key(q));
                assert(corr[q] == cp[q]);
                assert(args[cp[q] as int] == p[cp[q] as int]);
                assert forall|k: int| corr[q] < k < args.len() implies #[trigger] args[k] != Holed::<Atom>::Param(q) by {
                    if k < p.len() {
                        assert(args[k] == p[k]);
                    }
                }
            } else {
                assert(qi == q);
                assert(pp.len() == p.len());
                assert(corr[q] == p.len());
                assert(args[args.len() - 1] == args.last());
            }
        }
    }
}

/// The state variables of a world that state functions define: no
/// expression is repeated, every combination of a state function's symbol and
/// instances of its argument types is one, and each is such a combination.
pub proof fn lemma_world_exprs_law(types: Seq<Seq<SymId>>, sfs: Seq<StateFun>)
    requires
        world_exprs(types, sfs) is Ok,
    ensures
        ({
            let exprs = world_exprs(types, sfs)->Ok_0;
            &&& exprs.no_duplicates()
            &&& forall|k: int, e: Seq<SymId>|
                0 <= k < sfs.len() && #[trigger] product(sf_generators(types, sfs[k])).contains(e) ==> exprs.contains(e)
            &&& forall|e: Seq<SymId>|
                #[trigger] exprs.contains(e) ==> exists|k: int|
                    0 <= k < sfs.len() && #[trigger] product(sf_generators(types, sfs[k])).contains(e)
        }),
    decreases sfs.len(),
{
    if sfs.len() > 0 {
        let p = sfs.drop_last();
        lemma_world_exprs_law(types, p);
        let prev = world_exprs(types, p)->Ok_0;
        let last = product(sf_generators(types, sfs.last()));
        let exprs = world_exprs(types, sfs)->Ok_0;
        assert(exprs == prev + last);
        assert forall|k: int, e: Seq<SymId>|
            0 <= k < sfs.len() && #[trigger] product(sf_generators(types, sfs[k])).contains(e) implies exprs.contains(e) by {
            if k < p.len() {
                assert(sfs[k] == p[k]);
                assert(product(sf_generators(types, p[k])).contains(e));
                let i = choose|i: int| 0 <= i < prev.len() && prev[i] == e;
                assert(exprs[i] == e);
            } else {
                let i = choose|i: int| 0 <= i < last.len() && last[i] == e;
                assert(exprs[prev.len() + i] == e);
            }
        }
        assert forall|e: Seq<SymId>| #[trigger] exprs.contains(e) implies exists|k: int|
            0 <= k < sfs.len() && #[trigger] product(sf_generators(types, sfs[k])).contains(e) by {
            let i = choose|i: int| 0 <= i < exprs.len() && exprs[i] == e;
            if i < prev.len() {
                assert(prev[i] == e);
                assert(prev.contains(e));
                let k = choose|k: int| 0 <= k < p.len() && #[trigger] product(sf_generators(types, p[k])).contains(e);
                assert(sfs[k] == p[k]);
                assert(product(sf_generators(types, sfs[k])).contains(e));
            } else {
                assert(last[i - prev.len()] == e);
                assert(product(sf_generators(types, sfs[sfs.len() - 1])).contains(e));
            }
        }
    }
}

} // verus!
