use vstd::prelude::*;
use crate::planning::chronicles::{StateFun, Type};
use crate::planning::symbols::{SymId, SymbolTable, syms_equal, copy_syms};
use crate::planning::utils::{enumerate, product};

verus! {

/// Compact, numeric identifier of a state variable such as `(at bob kitchen)`.
/// It is the index of the variable in its [`World`].
#[derive(Clone, Copy, PartialEq, Eq, Structural, Debug, Hash)]
pub struct SV(pub usize);

/// A state variable assignment: a variable together with the boolean value it takes.
#[derive(Clone, Copy, PartialEq, Eq, Structural, Debug, Hash)]
pub struct Lit {
    pub sv: SV,
    pub positive: bool,
}

impl Lit {
    /// The literal that gives `value` to `sv`.
    pub fn new(sv: SV, value: bool) -> (l: Lit)
        ensures
            l.sv == sv,
            l.positive == value,
    {
        Lit { sv, positive: value }
    }

    /// The state variable of this literal.
    pub fn var(self) -> (r: SV)
        ensures
            r == self.sv,
    {
        self.sv
    }

    /// The value this literal gives to its state variable.
    pub fn val(self) -> (r: bool)
        ensures
            r == self.positive,
    {
        self.positive
    }
}

/// Value of the state variable `sv` in a state: a variable outside the state is false.
pub open spec fn value_in(s: Seq<bool>, sv: SV) -> bool {
    if sv.0 < s.len() {
        s[sv.0 as int]
    } else {
        false
    }
}

/// The state `s` entails the literal `l`.
pub open spec fn holds(s: Seq<bool>, l: Lit) -> bool {
    value_in(s, l.sv) == l.positive
}

/// The state `s` entails every literal of `lits`.
pub open spec fn holds_all(s: Seq<bool>, lits: Seq<Lit>) -> bool {
    forall|i: int| 0 <= i < lits.len() ==> holds(s, #[trigger] lits[i])
}

/// Every literal of `lits` is about a variable of a state of `n` variables.
pub open spec fn lits_in_range(lits: Seq<Lit>, n: nat) -> bool {
    forall|i: int| 0 <= i < lits.len() ==> (#[trigger] lits[i]).sv.0 < n
}

/// The state obtained from `s` by setting the literals of `lits` one after the other.
pub open spec fn apply_lits(s: Seq<bool>, lits: Seq<Lit>) -> Seq<bool>
    decreases lits.len(),
{
    if lits.len() == 0 {
        s
    } else {
        let prev = apply_lits(s, lits.drop_last());
        let l = lits.last();
        if l.sv.0 < prev.len() {
            prev.update(l.sv.0 as int, l.positive)
        } else {
            prev
        }
    }
}

/// Value of a variable after a sequence of assignments: the last assignment to
/// it wins, and a variable that no literal mentions keeps its value.
pub proof fn lemma_apply_lits(s: Seq<bool>, lits: Seq<Lit>)
    ensures
        apply_lits(s, lits).len() == s.len(),
        forall|i: int|
            0 <= i < s.len() ==> #[trigger] apply_lits(s, lits)[i] == (if last_assignment(lits, i)
                >= 0 {
                lits[last_assignment(lits, i)].positive
            } else {
                s[i]
            }),
    decreases lits.len(),
{
    if lits.len() > 0 {
        let pre = lits.drop_last();
        lemma_apply_lits(s, pre);
        assert forall|i: int| 0 <= i < s.len() implies #[trigger] apply_lits(s, lits)[i] == (if last_assignment(lits, i)
            >= 0 {
            lits[last_assignment(lits, i)].positive
        } else {
            s[i]
        }) by {
            if lits.last().sv.0 != i && last_assignment(pre, i) >= 0 {
                lemma_last_assignment(pre, i);
                assert(pre[last_assignment(pre, i)] == lits[last_assignment(pre, i)]);
            }
        }
    }
}

/// `last_assignment` is the index of the last literal about the variable, or -1.
pub proof fn lemma_last_assignment(lits: Seq<Lit>, i: int)
    ensures
        -1 <= last_assignment(lits, i) < lits.len(),
        last_assignment(lits, i) >= 0 ==> lits[last_assignment(lits, i)].sv.0 == i,
        forall|k: int| last_assignment(lits, i) < k < lits.len() ==> lits[k].sv.0 != i,
    decreases lits.len(),
{
    if lits.len() > 0 {
        lemma_last_assignment(lits.drop_last(), i);
        assert forall|k: int| last_assignment(lits, i) < k < lits.len() implies lits[k].sv.0 != i by {
            if k < lits.len() - 1 {
                assert(lits.drop_last()[k] == lits[k]);
            }
        }
    }
}

/// Index of the last literal of `lits` about the variable of index `i`.
pub open spec fn last_assignment(lits: Seq<Lit>, i: int) -> int
    decreases lits.len(),
{
    if lits.len() == 0 {
        -1
    } else if lits.last().sv.0 == i {
        lits.len() - 1
    } else {
        last_assignment(lits.drop_last(), i)
    }
}

/// Association of each state variable to its boolean value.
pub struct State {
    svs: Vec<bool>,
}

impl View for State {
    type V = Seq<bool>;

    closed spec fn view(&self) -> Seq<bool> {
        self.svs@
    }
}

impl Clone for State {
    fn clone(&self) -> (res: Self)
        ensures
            res@ == self@,
    {
        let mut svs: Vec<bool> = Vec::new();
        for i in 0..self.svs.len()
            invariant
                svs@ == self.svs@.take(i as int),
        {
            svs.push(self.svs[i]);
            assert(svs@ =~= self.svs@.take(i + 1));
        }
        assert(self.svs@.take(self.svs@.len() as int) =~= self.svs@);
        State { svs }
    }
}

impl State {
    /// A state of `n` variables, all false.
    pub fn all_false(n: usize) -> (res: State)
        ensures
            res@ == Seq::new(n as nat, |i: int| false),
    {
        let mut svs: Vec<bool> = Vec::new();
        for i in 0..n
            invariant
                svs@ == Seq::new(i as nat, |j: int| false),
        {
            svs.push(false);
            assert(svs@ =~= Seq::new((i + 1) as nat, |j: int| false));
        }
        State { svs }
    }

    /// A state with the given values.
    pub fn from_values(values: Vec<bool>) -> (res: State)
        ensures
            res@ == values@,
    {
        State { svs: values }
    }

    /// Number of state variables.
    pub fn size(&self) -> (r: usize)
        ensures
            r == self@.len(),
    {
        self.svs.len()
    }

    /// Value of the state variable `sv` (false for a variable outside the state).
    pub fn is_set(&self, sv: SV) -> (r: bool)
        ensures
            r == value_in(self@, sv),
    {
        if sv.0 < self.svs.len() {
            self.svs[sv.0]
        } else {
            false
        }
    }

    /// Gives `value` to `sv`.
    pub fn set_to(&mut self, sv: SV, value: bool)
        requires
            sv.0 < old(self)@.len(),
        ensures
            final(self)@ == old(self)@.update(sv.0 as int, value),
    {
        self.svs.set(sv.0, value);
    }

    /// Makes `sv` true.
    pub fn add(&mut self, sv: SV)
        requires
            sv.0 < old(self)@.len(),
        ensures
            final(self)@ == old(self)@.update(sv.0 as int, true),
    {
        self.set_to(sv, true);
    }

    /// Makes `sv` false.
    pub fn del(&mut self, sv: SV)
        requires
            sv.0 < old(self)@.len(),
        ensures
            final(self)@ == old(self)@.update(sv.0 as int, false),
    {
        self.set_to(sv, false);
    }

    /// Makes the literal `lit` true.
    pub fn set(&mut self, lit: Lit)
        requires
            lit.sv.0 < old(self)@.len(),
        ensures
            final(self)@ == old(self)@.update(lit.sv.0 as int, lit.positive),
    {
        self.set_to(lit.sv, lit.positive);
    }

    /// Makes the literals of `lits` true, one after the other.
    pub fn set_all(&mut self, lits: &[Lit])
        requires
            lits_in_range(lits@, old(self)@.len()),
        ensures
            final(self)@ == apply_lits(old(self)@, lits@),
    {
        let ghost s0 = self@;
        for i in 0..lits.len()
            invariant
                lits_in_range(lits@, s0.len()),
                self@ == apply_lits(s0, lits@.take(i as int)),
                self@.len() == s0.len(),
        {
            assert(lits@.take(i + 1).drop_last() =~= lits@.take(i as int));
            self.set(lits[i]);
        }
        assert(lits@.take(lits@.len() as int) =~= lits@);
    }

    /// Whether the literal `lit` holds in this state.
    pub fn entails(&self, lit: Lit) -> (r: bool)
        ensures
            r == holds(self@, lit),
    {
        self.is_set(lit.sv) == lit.positive
    }

    /// Whether all literals of `lits` hold in this state.
    pub fn entails_all(&self, lits: &[Lit]) -> (r: bool)
        ensures
            r == holds_all(self@, lits@),
    {
        for i in 0..lits.len()
            invariant
                forall|j: int| 0 <= j < i ==> holds(self@, #[trigger] lits@[j]),
        {
            if !self.entails(lits[i]) {
                return false;
            }
        }
        true
    }

    /// The literals that hold in this state, one per state variable, in order.
    pub fn literals(&self) -> (res: Vec<Lit>)
        ensures
            res@.len() == self@.len(),
            forall|i: int|
                0 <= i < res@.len() ==> #[trigger] res@[i] == (Lit { sv: SV(i as usize), positive: self@[i] }),
    {
        let mut res: Vec<Lit> = Vec::new();
        for i in 0..self.svs.len()
            invariant
                res@.len() == i,
                self.svs@ == self@,
                forall|j: int|
                    0 <= j < i ==> #[trigger] res@[j] == (Lit { sv: SV(j as usize), positive: self@[j] }),
        {
            res.push(Lit::new(SV(i), self.svs[i]));
        }
        res
    }

    /// Whether two states give the same value to every variable.
    pub fn same_as(&self, other: &State) -> (r: bool)
        ensures
            r == (self@ == other@),
    {
        if self.svs.len() != other.svs.len() {
            return false;
        }
        for i in 0..self.svs.len()
            invariant
                self.svs@.len() == other.svs@.len(),
                forall|j: int| 0 <= j < i ==> self.svs@[j] == other.svs@[j],
        {
            if self.svs[i] != other.svs[i] {
                return false;
            }
        }
        assert(self.svs@ =~= other.svs@);
        true
    }
}

/// Identifier of an operator in [`Operators`].
#[derive(Clone, Copy, PartialEq, Eq, Structural, Debug, Hash)]
pub struct Op(pub usize);

/// A ground action: its name (the action symbol then its arguments),
/// its preconditions and its effects.
pub struct Operator {
    pub name: Vec<SymId>,
    pub precond: Vec<Lit>,
    pub effects: Vec<Lit>,
}

/// Abstract content of an operator.
pub struct OperatorView {
    pub name: Seq<SymId>,
    pub precond: Seq<Lit>,
    pub effects: Seq<Lit>,
}

impl View for Operator {
    type V = OperatorView;

    open spec fn view(&self) -> OperatorView {
        OperatorView { name: self.name@, precond: self.precond@, effects: self.effects@ }
    }
}

/// A collection of operators, each identified by its index.
pub struct Operators {
    all: Vec<Operator>,
}

impl View for Operators {
    type V = Seq<OperatorView>;

    closed spec fn view(&self) -> Seq<OperatorView> {
        self.all@.map_values(|o: Operator| o@)
    }
}

impl Operators {
    /// An empty collection.
    pub fn new() -> (res: Operators)
        ensures
            res@ == Seq::<OperatorView>::empty(),
    {
        let res = Operators { all: Vec::new() };
        assert(res@ =~= Seq::<OperatorView>::empty());
        res
    }

    /// Adds an operator and returns its identifier.
    pub fn push(&mut self, o: Operator) -> (op: Op)
        ensures
            final(self)@ == old(self)@.push(o@),
            op.0 == old(self)@.len(),
    {
        let op = Op(self.all.len());
        self.all.push(o);
        assert(self@ =~= old(self)@.push(o@));
        op
    }

    /// Number of operators.
    pub fn size(&self) -> (r: usize)
        ensures
            r == self@.len(),
    {
        self.all.len()
    }

    /// Preconditions of the operator `op`.
    pub fn preconditions(&self, op: Op) -> (r: &[Lit])
        requires
            op.0 < self@.len(),
        ensures
            r@ == self@[op.0 as int].precond,
    {
        self.all[op.0].precond.as_slice()
    }

    /// Effects of the operator `op`.
    pub fn effects(&self, op: Op) -> (r: &[Lit])
        requires
            op.0 < self@.len(),
        ensures
            r@ == self@[op.0 as int].effects,
    {
        self.all[op.0].effects.as_slice()
    }

    /// Name of the operator `op`.
    pub fn name(&self, op: Op) -> (r: &[SymId])
        requires
            op.0 < self@.len(),
        ensures
            r@ == self@[op.0 as int].name,
    {
        self.all[op.0].name.as_slice()
    }
}

/// The operator `op` exists, and its preconditions and effects are about
/// variables of a state of `n` variables.
pub open spec fn valid_op(ops: Seq<OperatorView>, op: Op, n: nat) -> bool {
    &&& op.0 < ops.len()
    &&& lits_in_range(ops[op.0 as int].effects, n)
}

/// The state reached from `s` by applying the operator `op`.
pub open spec fn successor(ops: Seq<OperatorView>, s: Seq<bool>, op: Op) -> Seq<bool> {
    apply_lits(s, ops[op.0 as int].effects)
}

/// The operator `op` can be applied in `s`: its preconditions hold there.
pub open spec fn applicable(ops: Seq<OperatorView>, s: Seq<bool>, op: Op) -> bool {
    op.0 < ops.len() && holds_all(s, ops[op.0 as int].precond)
}

/// Summary of the last change of a state variable: the operator that made it,
/// and the step of the plan at which it was applied (-1 when the variable still
/// has its initial value).
#[derive(Clone, Copy, PartialEq, Eq, Structural, Debug)]
pub struct Resume {
    pub opkey: Option<Op>,
    pub etape: i32,
}

impl Resume {
    /// The operator of the last change, if any.
    pub fn op(&self) -> (r: Option<Op>)
        ensures
            r == self.opkey,
    {
        self.opkey
    }

    /// The step of the last change (-1 for none).
    pub fn numero(&self) -> (r: i32)
        ensures
            r == self.etape,
    {
        self.etape
    }
}

/// The summary of a change made by the operator `op` at step `num`.
pub fn newresume(op: Op, num: i32) -> (r: Resume)
    ensures
        r == (Resume { opkey: Some(op), etape: num }),
{
    Resume { opkey: Some(op), etape: num }
}

/// The summary of a variable that was never changed.
pub fn defaultresume() -> (r: Resume)
    ensures
        r == default_resume(),
{
    Resume { opkey: None, etape: -1 }
}

/// The summary of a variable that was never changed.
pub open spec fn default_resume() -> Resume {
    Resume { opkey: None, etape: -1i32 }
}

/// Association of each state variable to the expression that defines it, such
/// as `[at, bob, kitchen]`.
pub struct World {
    pub table: SymbolTable,
    pub expressions: Vec<Vec<SymId>>,
}

/// Index of the first expression equal to `e`, or the length of `exprs` when there is none.
pub open spec fn first_index_of(exprs: Seq<Seq<SymId>>, e: Seq<SymId>) -> int
    decreases exprs.len(),
{
    if exprs.len() == 0 {
        0
    } else if exprs[0] == e {
        0
    } else {
        1 + first_index_of(exprs.drop_first(), e)
    }
}

/// The state variable defined by the expression `e`, if any.
pub open spec fn sv_of_expr(exprs: Seq<Seq<SymId>>, e: Seq<SymId>) -> Option<SV> {
    if exprs.contains(e) {
        Some(SV(first_index_of(exprs, e) as usize))
    } else {
        None
    }
}

pub proof fn lemma_first_index_of(exprs: Seq<Seq<SymId>>, e: Seq<SymId>)
    ensures
        0 <= first_index_of(exprs, e) <= exprs.len(),
        exprs.contains(e) ==> first_index_of(exprs, e) < exprs.len() && exprs[first_index_of(
            exprs,
            e,
        )] == e,
        forall|j: int| 0 <= j < first_index_of(exprs, e) ==> exprs[j] != e,
    decreases exprs.len(),
{
    if exprs.len() > 0 && exprs[0] != e {
        lemma_first_index_of(exprs.drop_first(), e);
        if exprs.contains(e) {
            let k = choose|k: int| 0 <= k < exprs.len() && exprs[k] == e;
            assert(exprs.drop_first()[k - 1] == e);
        }
        assert forall|j: int| 0 <= j < first_index_of(exprs, e) implies exprs[j] != e by {
            if j > 0 {
                assert(exprs.drop_first()[j - 1] == exprs[j]);
            }
        }
    }
}

/// Every argument type of the state function is symbolic.
pub open spec fn symbolic_args(args: Seq<Type>) -> bool {
    forall|i: int| 0 <= i < args.len() ==> (#[trigger] args[i]) is Symbolic
}

/// The argument types of a state function (all of its types but the last one,
/// which is the type of its value).
pub open spec fn argument_types(sf: StateFun) -> Seq<Type> {
    sf.tpe@.drop_last()
}

/// The generators of the state variables of `sf`: its symbol, then the
/// instances of each argument type (which must all be symbolic).
pub open spec fn sf_generators(types: Seq<Seq<SymId>>, sf: StateFun) -> Seq<Seq<SymId>> {
    seq![seq![sf.sym]] + argument_types(sf).map_values(|t: Type| instances_of(types, t))
}

/// The instances of a symbolic type (none for other types).
pub open spec fn instances_of(types: Seq<Seq<SymId>>, t: Type) -> Seq<SymId> {
    match t {
        Type::Symbolic(id) => types[id.0 as int],
        _ => Seq::empty(),
    }
}

/// The expressions of all state variables of the state functions `sfs`, in
/// order, or the error met first: an argument type that is not symbolic, or an
/// expression produced twice.
pub open spec fn world_exprs(types: Seq<Seq<SymId>>, sfs: Seq<StateFun>) -> Result<Seq<Seq<SymId>>, Seq<char>>
    decreases sfs.len(),
{
    if sfs.len() == 0 {
        Ok(Seq::empty())
    } else {
        match world_exprs(types, sfs.drop_last()) {
            Err(e) => Err(e),
            Ok(prev) => {
                let sf = sfs.last();
                if !symbolic_args(argument_types(sf)) {
                    Err("Non symbolic argument type"@)
                } else if (prev + product(sf_generators(types, sf))).no_duplicates() {
                    Ok(prev + product(sf_generators(types, sf)))
                } else {
                    Err("duplicated instance"@)
                }
            },
        }
    }
}

/// The state function `sf` can be read: it has a value type, and each
/// symbolic argument type met before the first non-symbolic one is a type of
/// the table.
pub open spec fn state_fun_readable(types: Seq<Seq<SymId>>, sf: StateFun) -> bool {
    &&& sf.tpe@.len() >= 1
    &&& forall|i: int|
        0 <= i < sf.tpe@.len() - 1 && symbolic_args(argument_types(sf).take(i)) ==> (
        #[trigger] sf.tpe@[i] matches Type::Symbolic(t) ==> t.0 < types.len())
}

/// Each state function that is read, because those before it gave no error,
/// can be read.
pub open spec fn well_typed_state_funs(types: Seq<Seq<SymId>>, sfs: Seq<StateFun>) -> bool {
    forall|k: int|
        0 <= k < sfs.len() && world_exprs(types, #[trigger] sfs.take(k)) is Ok ==> state_fun_readable(
            types,
            sfs[k],
        )
}

/// Once a prefix of the state functions gives an error, all of them give it.
proof fn lemma_world_exprs_err_prefix(types: Seq<Seq<SymId>>, sfs: Seq<StateFun>, m: int)
    requires
        0 <= m <= sfs.len(),
        world_exprs(types, sfs.take(m)) is Err,
    ensures
        world_exprs(types, sfs) == world_exprs(types, sfs.take(m)),
    decreases sfs.len(),
{
    if m == sfs.len() {
        assert(sfs.take(m) =~= sfs);
    } else {
        assert(sfs.drop_last().take(m) =~= sfs.take(m));
        lemma_world_exprs_err_prefix(types, sfs.drop_last(), m);
    }
}

/// The state variable whose expression, in `expressions`, is `sv`, if any.
fn expr_index(expressions: &Vec<Vec<SymId>>, sv: &[SymId]) -> (r: Option<SV>)
    ensures
        r == sv_of_expr(expressions@.map_values(|v: Vec<SymId>| v@), sv@),
{
    let ghost exprs = expressions@.map_values(|v: Vec<SymId>| v@);
    proof {
        lemma_first_index_of(exprs, sv@);
    }
    for i in 0..expressions.len()
        invariant
            exprs == expressions@.map_values(|v: Vec<SymId>| v@),
            forall|j: int| 0 <= j < i ==> exprs[j] != sv@,
            0 <= first_index_of(exprs, sv@) <= exprs.len(),
            exprs.contains(sv@) ==> first_index_of(exprs, sv@) < exprs.len() && exprs[first_index_of(
                exprs,
                sv@,
            )] == sv@,
            forall|j: int| 0 <= j < first_index_of(exprs, sv@) ==> exprs[j] != sv@,
    {
        if syms_equal(expressions[i].as_slice(), sv) {
            assert(exprs[i as int] == sv@);
            return Some(SV(i));
        }
    }
    None
}

/// In a world where no expression is repeated, looking up the expression of a
/// state variable gives that state variable back, and looking up any
/// expression gives a variable whose expression it is.
pub proof fn lemma_sv_of_expr_roundtrip(exprs: Seq<Seq<SymId>>, v: int, e: Seq<SymId>)
    requires
        exprs.no_duplicates(),
        0 <= v < exprs.len(),
        exprs.len() <= usize::MAX,
    ensures
        sv_of_expr(exprs, exprs[v]) == Some(SV(v as usize)),
        sv_of_expr(exprs, e) matches Some(sv) ==> sv.0 < exprs.len() && exprs[sv.0 as int] == e,
{
    lemma_first_index_of(exprs, exprs[v]);
    lemma_first_index_of(exprs, e);
}

impl World {
    /// The world of all state variables that the state functions `state_funs`
    /// define over the symbols of `table`: for each state function in order,
    /// its symbol followed by each combination of instances of its argument types.
    pub fn new(table: SymbolTable, state_funs: &[StateFun]) -> (res: Result<World, String>)
        requires
            well_typed_state_funs(table.types(), state_funs@),
        ensures
            match (res, world_exprs(table.types(), state_funs@)) {
                (Ok(w), Ok(exprs)) => w.exprs() == exprs && w.table.types() == table.types()
                    && w.table.name_seq() == table.name_seq() && exprs.no_duplicates(),
                (Err(e), Err(msg)) => e@ == msg,
                _ => false,
            },
    {
        let ghost types = table.types();
        let mut expressions: Vec<Vec<SymId>> = Vec::new();
        assert(state_funs@.take(0) =~= Seq::<StateFun>::empty());
        assert(expressions@.map_values(|v: Vec<SymId>| v@) =~= Seq::<Seq<SymId>>::empty());
        for k in 0..state_funs.len()
            invariant
                types == table.types(),
                well_typed_state_funs(types, state_funs@),
                world_exprs(types, state_funs@.take(k as int)) == Ok::<Seq<Seq<SymId>>, Seq<char>>(
                    expressions@.map_values(|v: Vec<SymId>| v@),
                ),
                expressions@.map_values(|v: Vec<SymId>| v@).no_duplicates(),
        {
            assert(state_funs@.take(k + 1).drop_last() =~= state_funs@.take(k as int));
            assert(state_funs@.take(k + 1).last() == state_funs@[k as int]);
            let sf = &state_funs[k];
            let nargs = sf.tpe.len() - 1;
            let mut generators: Vec<Vec<SymId>> = Vec::new();
            let mut head: Vec<SymId> = Vec::new();
            head.push(sf.sym);
            generators.push(head);
            for i in 0..nargs
                invariant
                    nargs == sf.tpe@.len() - 1,
                    types == table.types(),
                    sf == state_funs@[k as int],
                    well_typed_state_funs(types, state_funs@),
                    k < state_funs@.len(),
                    state_funs@.take(k + 1).drop_last() == state_funs@.take(k as int),
                    state_funs@.take(k + 1).last() == state_funs@[k as int],
                    world_exprs(types, state_funs@.take(k as int)) == Ok::<Seq<Seq<SymId>>, Seq<char>>(
                        expressions@.map_values(|v: Vec<SymId>| v@),
                    ),
                    symbolic_args(argument_types(*sf).take(i as int)),
                    generators@.map_values(|v: Vec<SymId>| v@) == sf_generators(types, *sf).take(i + 1),
            {
                assert(argument_types(*sf)[i as int] == sf.tpe@[i as int]);
                match sf.tpe[i] {
                    Type::Symbolic(t) => {
                        assert(t.0 < types.len());
                        let ghost g0 = generators@.map_values(|v: Vec<SymId>| v@);
                        generators.push(copy_syms(table.instances_of_type(t)));
                        assert(sf_generators(types, *sf)[i + 1] == types[t.0 as int]);
                        assert(generators@.map_values(|v: Vec<SymId>| v@) =~= g0.push(types[t.0 as int]));
                        assert(generators@.map_values(|v: Vec<SymId>| v@) =~= sf_generators(types, *sf).take(
                            i + 2,
                        ));
                        assert(symbolic_args(argument_types(*sf).take(i + 1))) by {
                            assert forall|j: int| 0 <= j < i + 1 implies (#[trigger] argument_types(
                                *sf,
                            ).take(i + 1)[j]) is Symbolic by {
                                if j < i {
                                    assert(argument_types(*sf).take(i as int)[j] == argument_types(
                                        *sf,
                                    ).take(i + 1)[j]);
                                }
                            }
                        }
                    },
                    _ => {
                        assert(!(argument_types(*sf)[i as int] is Symbolic));
                        proof {
                            lemma_world_exprs_err_prefix(types, state_funs@, k + 1);
                        }
                        return Err("Non symbolic argument type".to_owned());
                    },
                }
            }
            assert(argument_types(*sf).take(nargs as int) =~= argument_types(*sf));
            assert(sf_generators(types, *sf).take(nargs + 1) =~= sf_generators(types, *sf));
            let combos = enumerate(&generators);
            let ghost prev = expressions@.map_values(|v: Vec<SymId>| v@);
            let ghost prod = product(sf_generators(types, *sf));
            for j in 0..combos.len()
                invariant
                    prod == combos@.map_values(|v: Vec<SymId>| v@),
                    prod == product(sf_generators(types, *sf)),
                    types == table.types(),
                    k < state_funs@.len(),
                    sf == state_funs@[k as int],
                    symbolic_args(argument_types(*sf)),
                    state_funs@.take(k + 1).drop_last() == state_funs@.take(k as int),
                    state_funs@.take(k + 1).last() == state_funs@[k as int],
                    world_exprs(types, state_funs@.take(k as int)) == Ok::<Seq<Seq<SymId>>, Seq<char>>(prev),
                    prev.no_duplicates(),
                    expressions@.map_values(|v: Vec<SymId>| v@) == prev + prod.take(j as int),
                    expressions@.map_values(|v: Vec<SymId>| v@).no_duplicates(),
            {
                let ghost cur = expressions@.map_values(|v: Vec<SymId>| v@);
                let found = expr_index(&expressions, combos[j].as_slice());
                assert(combos@[j as int]@ == prod[j as int]);
                if found.is_some() {
                    proof {
                        let all = prev + prod;
                        let a = choose|a: int| 0 <= a < cur.len() && cur[a] == prod[j as int];
                        assert(all[a] == cur[a]);
                        assert(all[prev.len() + j] == prod[j as int]);
                        lemma_world_exprs_err_prefix(types, state_funs@, k + 1);
                    }
                    return Err("duplicated instance".to_owned());
                }
                expressions.push(copy_syms(combos[j].as_slice()));
                proof {
                    let ex = expressions@.map_values(|v: Vec<SymId>| v@);
                    assert(ex =~= cur.push(prod[j as int]));
                    assert(ex =~= prev + prod.take(j + 1));
                    assert forall|a: int, b: int|
                        0 <= a < ex.len() && 0 <= b < ex.len() && a != b implies #[trigger] ex[a] != #[trigger] ex[b] by {
                        if b == cur.len() {
                            assert(cur.contains(cur[a]));
                        } else if a == cur.len() {
                            assert(cur.contains(cur[b]));
                        }
                    }
                }
            }
            assert(prod.take(combos@.len() as int) =~= prod);
        }
        assert(state_funs@.take(state_funs@.len() as int) =~= state_funs@);
        Ok(World { table, expressions })
    }

    /// The expressions of the state variables, in order.
    pub open spec fn exprs(&self) -> Seq<Seq<SymId>> {
        self.expressions@.map_values(|v: Vec<SymId>| v@)
    }

    /// Number of state variables.
    pub fn num_svs(&self) -> (r: usize)
        ensures
            r == self.exprs().len(),
    {
        self.expressions.len()
    }

    /// The state variable defined by the expression `sv`, if any.
    pub fn sv_id(&self, sv: &[SymId]) -> (r: Option<SV>)
        ensures
            r == sv_of_expr(self.exprs(), sv@),
    {
        expr_index(&self.expressions, sv)
    }

    /// The expression that defines the state variable `sv`.
    pub fn sv_of(&self, sv: SV) -> (r: Vec<SymId>)
        requires
            sv.0 < self.exprs().len(),
        ensures
            r@ == self.exprs()[sv.0 as int],
    {
        copy_syms(self.expressions[sv.0].as_slice())
    }

    /// A state of this world where every variable is false.
    pub fn make_new_state(&self) -> (s: State)
        ensures
            s@ == Seq::new(self.exprs().len(), |i: int| false),
    {
        State::all_false(self.expressions.len())
    }
}

} // verus!
