use vstd::prelude::*;
use vstd::string::StringExecFns;

verus! {

/// Identifier of a symbol (an object, a predicate or an action name) in a [`SymbolTable`].
#[derive(Clone, Copy, PartialEq, Eq, Structural, Debug, Hash)]
pub struct SymId(pub usize);

/// Identifier of a type of symbols in a [`SymbolTable`].
#[derive(Clone, Copy, PartialEq, Eq, Structural, Debug, Hash)]
pub struct TypeId(pub usize);

/// Symbols of a planning problem: the name of each symbol, and for each type
/// the symbols that are instances of it.
pub struct SymbolTable {
    /// `names[s]` is the name of the symbol `SymId(s)`.
    pub names: Vec<String>,
    /// `instances[t]` lists the instances of the type `TypeId(t)`.
    pub instances: Vec<Vec<SymId>>,
}

/// Abstract content of a symbol table: names and instances of each type.
pub open spec fn instances_view(instances: Seq<Vec<SymId>>) -> Seq<Seq<SymId>> {
    instances.map_values(|v: Vec<SymId>| v@)
}

/// The name of the symbol `s`, or `?` for a symbol without a name.
pub open spec fn sym_name(names: Seq<Seq<char>>, s: SymId) -> Seq<char> {
    if s.0 < names.len() {
        names[s.0 as int]
    } else {
        "?"@
    }
}

/// The names of the symbols `syms`, separated by single spaces.
pub open spec fn joined_names(names: Seq<Seq<char>>, syms: Seq<SymId>) -> Seq<char>
    decreases syms.len(),
{
    if syms.len() == 0 {
        Seq::empty()
    } else if syms.len() == 1 {
        sym_name(names, syms[0])
    } else {
        joined_names(names, syms.drop_last()) + " "@ + sym_name(names, syms.last())
    }
}

impl SymbolTable {
    /// The symbols `syms` written as an s-expression, such as `(move a b)`.
    pub fn format(&self, syms: &[SymId]) -> (r: String)
        ensures
            r@ == "("@ + joined_names(self.name_seq(), syms@) + ")"@,
    {
        let mut r = "(".to_owned();
        for i in 0..syms.len()
            invariant
                r@ == "("@ + joined_names(self.name_seq(), syms@.take(i as int)),
        {
            let ghost before = r@;
            assert(syms@.take(i + 1).drop_last() =~= syms@.take(i as int));
            assert(syms@.take(i + 1).last() == syms@[i as int]);
            if i > 0 {
                r.append(" ");
            }
            let s = syms[i];
            if s.0 < self.names.len() {
                r.append(self.names[s.0].as_str());
            } else {
                r.append("?");
            }
            proof {
                if i == 0 {
                    assert(syms@.take(1)[0] == syms@[0]);
                    assert(r@ =~= "("@ + joined_names(self.name_seq(), syms@.take(1)));
                } else {
                    assert(r@ =~= "("@ + joined_names(self.name_seq(), syms@.take(i + 1)));
                }
            }
        }
        assert(syms@.take(syms@.len() as int) =~= syms@);
        r.append(")");
        r
    }

    /// Instances of each type, as sequences of symbols.
    pub open spec fn types(&self) -> Seq<Seq<SymId>> {
        instances_view(self.instances@)
    }

    /// Names of all symbols.
    pub open spec fn name_seq(&self) -> Seq<Seq<char>> {
        self.names@.map_values(|s: String| s@)
    }

    /// All instances of the type `tpe`.
    pub fn instances_of_type(&self, tpe: TypeId) -> (res: &[SymId])
        requires
            tpe.0 < self.instances@.len(),
        ensures
            res@ == self.types()[tpe.0 as int],
    {
        self.instances[tpe.0].as_slice()
    }

    /// A copy of this table.
    pub fn duplicate(&self) -> (res: SymbolTable)
        ensures
            res.types() == self.types(),
            res.name_seq() == self.name_seq(),
    {
        let mut names: Vec<String> = Vec::new();
        for i in 0..self.names.len()
            invariant
                names@.len() == i,
                forall|j: int| 0 <= j < i ==> #[trigger] names@[j]@ == self.names@[j]@,
        {
            names.push(self.names[i].clone());
        }
        let mut instances: Vec<Vec<SymId>> = Vec::new();
        for i in 0..self.instances.len()
            invariant
                instances@.len() == i,
                forall|j: int| 0 <= j < i ==> #[trigger] instances@[j]@ == self.instances@[j]@,
        {
            instances.push(copy_syms(self.instances[i].as_slice()));
        }
        let res = SymbolTable { names, instances };
        assert(res.types() =~= self.types());
        assert(res.name_seq() =~= self.name_seq());
        res
    }
}

/// A fresh vector holding the given symbols.
pub fn copy_syms(syms: &[SymId]) -> (res: Vec<SymId>)
    ensures
        res@ == syms@,
{
    let mut res: Vec<SymId> = Vec::new();
    for i in 0..syms.len()
        invariant
            res@ == syms@.take(i as int),
    {
        res.push(syms[i]);
        assert(res@ =~= syms@.take(i + 1));
    }
    assert(syms@.take(syms@.len() as int) =~= syms@);
    res
}

/// Whether two sequences of symbols are equal.
pub fn syms_equal(a: &[SymId], b: &[SymId]) -> (res: bool)
    ensures
        res == (a@ == b@),
{
    if a.len() != b.len() {
        return false;
    }
    for i in 0..a.len()
        invariant
            a@.len() == b@.len(),
            forall|j: int| 0 <= j < i ==> a@[j] == b@[j],
    {
        if a[i] != b[i] {
            return false;
        }
    }
    assert(a@ =~= b@);
    true
}

} // verus!
