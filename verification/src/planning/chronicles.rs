use vstd::prelude::*;
use crate::planning::symbols::{SymId, SymbolTable, TypeId};

verus! {

/// Reference to an atom of a chronicle problem: a variable or a constant of
/// its context.
#[derive(Clone, Copy, PartialEq, Eq, Structural, Debug, Hash)]
pub struct Atom(pub usize);

/// An expression that is either fully known or a hole standing for the
/// parameter of the given index.
#[derive(Clone, Copy, PartialEq, Eq, Structural, Debug)]
pub enum Holed<A> {
    Full(A),
    Param(usize),
}

/// Type of a parameter or of an argument of a state function.
#[derive(Clone, Copy, PartialEq, Eq, Structural, Debug)]
pub enum Type {
    Symbolic(TypeId),
    Boolean,
    Integer,
    Time,
}

/// A timepoint: a reference time plus a constant delay.
#[derive(Clone, Copy, PartialEq, Eq, Structural, Debug)]
pub struct Time<X> {
    pub time_var: X,
    pub delay: i64,
}

impl<X: Copy> Time<X> {
    /// The timepoint `time_var + 0`.
    pub fn new(time_var: X) -> (t: Time<X>)
        ensures
            t == (Time { time_var, delay: 0 }),
    {
        Time { time_var, delay: 0 }
    }
}

impl Time<Atom> {
    /// Whether the two timepoints are the same.
    pub fn same_as(&self, other: &Time<Atom>) -> (r: bool)
        ensures
            r == (*self == *other),
    {
        self.time_var == other.time_var && self.delay == other.delay
    }
}

impl Time<Holed<Atom>> {
    /// Whether the two timepoints are the same.
    pub fn same_as(&self, other: &Time<Holed<Atom>>) -> (r: bool)
        ensures
            r == (*self == *other),
    {
        self.time_var == other.time_var && self.delay == other.delay
    }

    /// Whether the two timepoints can be compared: they share their reference time.
    pub fn comparable(&self, other: &Time<Holed<Atom>>) -> (r: bool)
        ensures
            r == (self.time_var == other.time_var),
    {
        self.time_var == other.time_var
    }

    /// Whether this timepoint is known to come strictly before `other`.
    pub fn before(&self, other: &Time<Holed<Atom>>) -> (r: bool)
        ensures
            r == (self.time_var == other.time_var && self.delay < other.delay),
    {
        self.time_var == other.time_var && self.delay < other.delay
    }
}

/// A condition: the state variable `sv` has the value `value` over `[start, end]`.
pub struct Condition<X> {
    pub start: Time<X>,
    pub end: Time<X>,
    pub sv: Vec<X>,
    pub value: X,
}

impl<X> Condition<X> {
    /// Start of the condition.
    pub fn start(&self) -> (r: &Time<X>)
        ensures
            *r == self.start,
    {
        &self.start
    }

    /// End of the condition.
    pub fn end(&self) -> (r: &Time<X>)
        ensures
            *r == self.end,
    {
        &self.end
    }

    /// The state variable of the condition.
    pub fn variable(&self) -> (r: &[X])
        ensures
            r@ == self.sv@,
    {
        self.sv.as_slice()
    }

    /// The value required.
    pub fn value(&self) -> (r: &X)
        ensures
            *r == self.value,
    {
        &self.value
    }
}

/// An effect: the state variable `sv` starts changing at `transition_start`
/// and has the value `value` from `persistence_start` on.
pub struct Effect<X> {
    pub transition_start: Time<X>,
    pub persistence_start: Time<X>,
    pub sv: Vec<X>,
    pub value: X,
}

impl<X> Effect<X> {
    /// When the change starts.
    pub fn transition_start(&self) -> (r: &Time<X>)
        ensures
            *r == self.transition_start,
    {
        &self.transition_start
    }

    /// When the new value holds.
    pub fn effective_start(&self) -> (r: &Time<X>)
        ensures
            *r == self.persistence_start,
    {
        &self.persistence_start
    }

    /// The state variable of the effect.
    pub fn variable(&self) -> (r: &[X])
        ensures
            r@ == self.sv@,
    {
        self.sv.as_slice()
    }

    /// The value given.
    pub fn value(&self) -> (r: &X)
        ensures
            *r == self.value,
    {
        &self.value
    }
}

/// A chronicle: a presence literal, a time interval, a name, conditions and effects.
pub struct Chronicle<X> {
    pub prez: X,
    pub start: Time<X>,
    pub end: Time<X>,
    pub name: Vec<X>,
    pub conditions: Vec<Condition<X>>,
    pub effects: Vec<Effect<X>>,
}

/// A chronicle that is part of the problem as it stands.
pub struct ChronicleInstance {
    pub chronicle: Chronicle<Atom>,
}

/// A chronicle with parameters, such as an action: `params[i]` is the type and
/// the optional name of the parameter `Holed::Param(i)`.
pub struct ChronicleTemplate {
    pub params: Vec<(Type, Option<String>)>,
    pub chronicle: Chronicle<Holed<Atom>>,
}

/// A state function: its symbol, the types of its arguments, then the type of its value.
pub struct StateFun {
    pub sym: SymId,
    pub tpe: Vec<Type>,
}

/// Context of a chronicle problem: its symbols and state functions, its
/// distinguished atoms, and the symbol that each atom denotes, if any.
pub struct Ctx {
    pub symbols: SymbolTable,
    pub state_functions: Vec<StateFun>,
    pub tautology: Atom,
    pub contradiction: Atom,
    pub origin: Atom,
    pub horizon: Atom,
    /// `values[a]` is the symbol denoted by the atom `Atom(a)`, if any.
    pub values: Vec<Option<SymId>>,
}

/// The symbol denoted by the atom `a` in the context `ctx`, if any.
pub open spec fn sym_value(ctx: &Ctx, a: Atom) -> Option<SymId> {
    if a.0 < ctx.values@.len() {
        ctx.values@[a.0 as int]
    } else {
        None
    }
}

impl Ctx {
    /// The atom that is always true.
    pub fn tautology(&self) -> (r: Atom)
        ensures
            r == self.tautology,
    {
        self.tautology
    }

    /// The atom that is always false.
    pub fn contradiction(&self) -> (r: Atom)
        ensures
            r == self.contradiction,
    {
        self.contradiction
    }

    /// The time at which the problem starts.
    pub fn origin(&self) -> (r: Atom)
        ensures
            r == self.origin,
    {
        self.origin
    }

    /// The time at which the problem ends.
    pub fn horizon(&self) -> (r: Atom)
        ensures
            r == self.horizon,
    {
        self.horizon
    }

    /// The symbol denoted by the atom `a`, if it denotes one.
    pub fn sym_value_of(&self, a: Atom) -> (r: Option<SymId>)
        ensures
            r == sym_value(self, a),
    {
        if a.0 < self.values.len() {
            self.values[a.0]
        } else {
            None
        }
    }
}

/// A chronicle problem: its context, the templates of its actions and the
/// chronicles that make up its initial state and goals.
pub struct Problem {
    pub context: Ctx,
    pub templates: Vec<ChronicleTemplate>,
    pub chronicles: Vec<ChronicleInstance>,
}

} // verus!
