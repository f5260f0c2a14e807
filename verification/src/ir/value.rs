use vstd::prelude::*;
use super::types::Dtype;

verus! {

/// A value with a type.
pub trait Typed {
    spec fn spec_dtype(&self) -> Dtype;

    fn dtype(&self) -> (r: &Dtype)
        ensures
            *r == self.spec_dtype(),
    ;
}

/// A value that may have a name.
pub trait Named {
    spec fn spec_identifier(&self) -> Option<Seq<char>>;

    fn identifier(&self) -> (r: Option<String>)
        ensures
            r.is_some() == self.spec_identifier().is_some(),
            r matches Some(s) ==> self.spec_identifier() == Some(s@),
    ;
}

/// A copy of a list of integers.
pub fn copy_i32s(v: &Vec<i32>) -> (r: Vec<i32>)
    ensures
        r@ == v@,
{
    let mut r: Vec<i32> = Vec::new();
    let mut k: usize = 0;
    while k < v.len()
        invariant
            k <= v.len(),
            r@ == v@.take(k as int),
        decreases v.len() - k,
    {
        r.push(v[k]);
        assert(v@.take(k + 1) =~= v@.take(k as int).push(v@[k as int]));
        k += 1;
    }
    assert(v@.take(v.len() as int) =~= v@);
    r
}

/// An integer constant (`i32`).
#[derive(Debug, Clone, Copy)]
pub struct Integer {
    pub value: i32,
}

impl From<i32> for Integer {
    fn from(value: i32) -> (r: Self) {
        Self { value }
    }
}

impl vstd::std_specs::convert::FromSpecImpl<i32> for Integer {
    open spec fn obeys_from_spec() -> bool {
        true
    }

    open spec fn from_spec(v: i32) -> Self {
        Integer { value: v }
    }
}

impl Typed for Integer {
    open spec fn spec_dtype(&self) -> Dtype {
        Dtype::I32
    }

    fn dtype(&self) -> (r: &Dtype) {
        &Dtype::I32
    }
}

impl Named for Integer {
    open spec fn spec_identifier(&self) -> Option<Seq<char>> {
        None
    }

    fn identifier(&self) -> (r: Option<String>) {
        None
    }
}

/// A local variable: a virtual register with a type and an optional source name.
#[derive(Debug)]
pub struct LocalVariable {
    pub dtype: Dtype,
    pub identifier: Option<String>,
    pub index: usize,
}

impl Clone for LocalVariable {
    fn clone(&self) -> (r: Self)
        ensures
            r == *self,
    {
        LocalVariable {
            dtype: self.dtype.clone(),
            identifier: match &self.identifier {
                Some(s) => Some(s.clone()),
                None => None,
            },
            index: self.index,
        }
    }
}

impl LocalVariable {
    pub fn new(dtype: Dtype, index: usize, identifier: Option<String>) -> (r: Self)
        ensures
            r == (LocalVariable { dtype, identifier, index }),
    {
        Self { dtype, identifier, index }
    }
}

impl Typed for LocalVariable {
    open spec fn spec_dtype(&self) -> Dtype {
        self.dtype
    }

    fn dtype(&self) -> (r: &Dtype) {
        &self.dtype
    }
}

impl Named for LocalVariable {
    open spec fn spec_identifier(&self) -> Option<Seq<char>> {
        match self.identifier {
            Some(s) => Some(s@),
            None => None,
        }
    }

    fn identifier(&self) -> (r: Option<String>) {
        match &self.identifier {
            Some(s) => Some(s.clone()),
            None => None,
        }
    }
}

/// A reference to a local variable: its type and register.
#[derive(Debug)]
pub struct LocalRef {
    pub dtype: Dtype,
    pub index: usize,
}

impl Clone for LocalRef {
    fn clone(&self) -> (r: Self)
        ensures
            r == *self,
    {
        LocalRef { dtype: self.dtype.clone(), index: self.index }
    }
}

impl LocalRef {
    /// The reference to `l`.
    pub fn of(l: &LocalVariable) -> (r: Self)
        ensures
            r == (LocalRef { dtype: l.dtype, index: l.index }),
    {
        LocalRef { dtype: l.dtype.clone(), index: l.index }
    }
}

impl Typed for LocalRef {
    open spec fn spec_dtype(&self) -> Dtype {
        self.dtype
    }

    fn dtype(&self) -> (r: &Dtype) {
        &self.dtype
    }
}

/// A global variable with optional integer initializers.
#[derive(Debug)]
pub struct GlobalVariable {
    pub dtype: Dtype,
    pub identifier: String,
    pub initializers: Option<Vec<i32>>,
}

impl Clone for GlobalVariable {
    fn clone(&self) -> (r: Self)
        ensures
            r.dtype == self.dtype,
            r.identifier@ == self.identifier@,
            r.initializers.is_some() == self.initializers.is_some(),
            r.initializers matches Some(v) ==> v@ == self.initializers.unwrap()@,
    {
        GlobalVariable {
            dtype: self.dtype.clone(),
            identifier: self.identifier.clone(),
            initializers: match &self.initializers {
                Some(v) => Some(copy_i32s(v)),
                None => None,
            },
        }
    }
}

impl Typed for GlobalVariable {
    open spec fn spec_dtype(&self) -> Dtype {
        self.dtype
    }

    fn dtype(&self) -> (r: &Dtype) {
        &self.dtype
    }
}

impl Named for GlobalVariable {
    open spec fn spec_identifier(&self) -> Option<Seq<char>> {
        Some(self.identifier@)
    }

    fn identifier(&self) -> (r: Option<String>) {
        Some(self.identifier.clone())
    }
}

/// An operand of an IR statement.
#[derive(Debug)]
pub enum Operand {
    Integer(Integer),
    Local(LocalRef),
    Global(GlobalVariable),
}

/// An operand equal to `o` (globals are equal up to the views of their fields).
pub open spec fn same_operand(a: Operand, b: Operand) -> bool {
    match (a, b) {
        (Operand::Global(x), Operand::Global(y)) => x.dtype == y.dtype && x.identifier@ == y.identifier@
            && x.initializers.is_some() == y.initializers.is_some() && (x.initializers is Some
            ==> x.initializers.unwrap()@ == y.initializers.unwrap()@),
        _ => a == b,
    }
}

/// Copies of operands: reflexive, symmetric and transitive.
pub proof fn lemma_same_operand_props(a: Operand, b: Operand, c: Operand)
    ensures
        same_operand(a, a),
        same_operand(a, b) ==> same_operand(b, a),
        same_operand(a, b) && same_operand(b, c) ==> same_operand(a, c),
{
}

impl Clone for Operand {
    fn clone(&self) -> (r: Self)
        ensures
            same_operand(r, *self),
    {
        match self {
            Operand::Integer(i) => Operand::Integer(*i),
            Operand::Local(l) => Operand::Local(l.clone()),
            Operand::Global(g) => Operand::Global(g.clone()),
        }
    }
}

impl Operand {
    /// The operand's type.
    pub open spec fn spec_dtype(&self) -> Dtype {
        match self {
            Operand::Integer(_) => Dtype::I32,
            Operand::Local(l) => l.dtype,
            Operand::Global(g) => g.dtype,
        }
    }

    /// The register that a local operand names.
    pub open spec fn spec_vreg(&self) -> Option<usize> {
        match self {
            Operand::Local(l) => Some(l.index),
            _ => None,
        }
    }

    pub fn dtype(&self) -> (r: &Dtype)
        ensures
            *r == self.spec_dtype(),
    {
        match self {
            Operand::Integer(i) => i.dtype(),
            Operand::Local(l) => l.dtype(),
            Operand::Global(g) => g.dtype(),
        }
    }

    pub fn as_local(&self) -> (r: Option<&LocalRef>)
        ensures
            match self {
                Operand::Local(l) => r == Some(l),
                _ => r.is_none(),
            },
    {
        match self {
            Operand::Local(l) => Some(l),
            _ => None,
        }
    }

    pub fn as_global(&self) -> (r: Option<&GlobalVariable>)
        ensures
            match self {
                Operand::Global(g) => r == Some(g),
                _ => r.is_none(),
            },
    {
        match self {
            Operand::Global(g) => Some(g),
            _ => None,
        }
    }

    pub fn as_integer(&self) -> (r: Option<&Integer>)
        ensures
            match self {
                Operand::Integer(i) => r == Some(i),
                _ => r.is_none(),
            },
    {
        match self {
            Operand::Integer(i) => Some(i),
            _ => None,
        }
    }

    /// Locals and globals have addresses; integers do not.
    pub fn is_addressable(&self) -> (r: bool)
        ensures
            r == (self is Local || self is Global),
    {
        matches!(self, Operand::Local(_) | Operand::Global(_))
    }

    /// The register of a local operand.
    pub fn vreg_index(&self) -> (r: Option<usize>)
        ensures
            r == self.spec_vreg(),
    {
        match self {
            Operand::Local(l) => Some(l.index),
            _ => None,
        }
    }

    /// The integer constant `v`.
    pub fn integer(v: i32) -> (r: Self)
        ensures
            r == Operand::Integer(Integer { value: v }),
    {
        Operand::Integer(Integer { value: v })
    }

    /// The local variable `l`, as an operand.
    pub fn local(l: &LocalVariable) -> (r: Self)
        ensures
            r == Operand::Local(LocalRef { dtype: l.dtype, index: l.index }),
    {
        Operand::Local(LocalRef::of(l))
    }
}

} // verus!
