//! The type vocabulary the checker, the normalizer, and the primitives share:
//! value types, computation types, grades, effect rows and signatures, and the
//! nominal identities of declared data and sealed components.

use std::rc::Rc;
use vstd::prelude::*;

use crate::syntax::Value;

verus! {

/// A usage grade on a thunk: a finite budget or the unrestricted `ω`.
#[derive(Clone, Copy, Debug, PartialEq, Eq, Structural)]
pub enum Grade {
    /// A finite budget.
    Fin(u32),
    /// Unrestricted use.
    Omega,
}

impl Grade {
    /// The linear grade `1`.
    pub fn one() -> (g: Grade)
        ensures
            g == Grade::Fin(1),
    {
        Grade::Fin(1)
    }

    /// The unrestricted grade `ω`.
    pub fn omega() -> (g: Grade)
        ensures
            g == Grade::Omega,
    {
        Grade::Omega
    }

    /// A finite grade `n`.
    pub fn fin(bound: u32) -> (g: Grade)
        ensures
            g == Grade::Fin(bound),
    {
        Grade::Fin(bound)
    }

    /// Whether two grades are the same grade.
    pub fn same(&self, other: &Grade) -> (b: bool)
        ensures
            b == (*self == *other),
    {
        match (self, other) {
            (Grade::Fin(a), Grade::Fin(b)) => *a == *b,
            (Grade::Omega, Grade::Omega) => true,
            _ => false,
        }
    }
}

/// An effect row: the effect labels a returner may perform.
#[derive(Clone, Debug, PartialEq, Eq)]
pub struct EffectRow {
    /// The effect labels, in canonical order.
    pub labels: Vec<String>,
}

impl EffectRow {
    /// The empty (pure) row.
    pub fn empty() -> (r: EffectRow)
        ensures
            r.labels@.len() == 0,
    {
        EffectRow { labels: Vec::new() }
    }

    /// Whether the row performs nothing.
    pub fn is_empty(&self) -> (b: bool)
        ensures
            b == (self.labels@.len() == 0),
    {
        self.labels.len() == 0
    }
}

/// One operation of an effect signature.
#[derive(Clone, Debug, PartialEq, Eq)]
pub struct EffectOp {
    /// The operation label.
    pub name: String,
    /// The payload type.
    pub param: Rc<ValueType>,
    /// The answer type.
    pub result: Rc<ValueType>,
}

/// An effect signature: a named set of operations.
#[derive(Clone, Debug, PartialEq, Eq)]
pub struct EffectSig {
    /// The signature's name.
    pub name: String,
    /// The operations, in declaration order.
    pub ops: Vec<EffectOp>,
}

impl EffectSig {
    /// A signature named `name` declaring `ops`.
    pub fn new(name: String, ops: Vec<EffectOp>) -> (s: EffectSig)
        ensures
            s.name == name,
            s.ops == ops,
    {
        EffectSig { name, ops }
    }
}

/// The minted nominal identity of a declared datatype.
#[derive(Clone, Debug, PartialEq, Eq)]
pub struct DataId {
    /// The minting serial.
    pub serial: u64,
    /// The declared name.
    pub name: String,
}

/// A sealing site: one declaration's opaque ascription sealing one component.
#[derive(Clone, Debug, PartialEq, Eq)]
pub struct SealSite {
    /// The declaration whose ascription seals.
    pub declaration: String,
    /// The sealed abstract type component.
    pub component: String,
}

impl SealSite {
    /// The site of `declaration` sealing `component`.
    pub fn new(declaration: &str, component: &str) -> (s: SealSite)
        ensures
            s.declaration@ == declaration@,
            s.component@ == component@,
    {
        SealSite { declaration: declaration.to_owned(), component: component.to_owned() }
    }

    /// The sealing declaration.
    pub fn declaration(&self) -> (d: String)
        ensures
            d == self.declaration,
    {
        self.declaration.clone()
    }

    /// The sealed component.
    pub fn component(&self) -> (c: String)
        ensures
            c == self.component,
    {
        self.component.clone()
    }
}

/// The identity a sealed abstract type component was minted at.
#[derive(Clone, Debug, PartialEq, Eq)]
pub struct SealId {
    /// The minting serial: the site's position in minting order.
    pub serial: u64,
    /// The sealing declaration.
    pub declaration: String,
    /// The sealed component.
    pub component: String,
}

impl SealId {
    /// The identity minted at `serial` for `declaration`'s `component`.
    pub fn new(serial: u64, declaration: String, component: String) -> (id: SealId)
        ensures
            id.serial == serial,
            id.declaration == declaration,
            id.component == component,
    {
        SealId { serial, declaration, component }
    }

    /// The minting serial.
    pub fn serial(&self) -> (s: u64)
        ensures
            s == self.serial,
    {
        self.serial
    }
}

/// One labelled field of a record type.
#[derive(Clone, Debug, PartialEq, Eq)]
pub struct FieldType {
    /// The field label.
    pub label: String,
    /// The field type.
    pub ty: Rc<ValueType>,
}

/// A value type.
#[derive(Clone, Debug, PartialEq, Eq)]
pub enum ValueType {
    /// A base atom (`Integer`, `String`, a type name).
    Atom(String),
    /// The unit type.
    Unit,
    /// An eager product.
    Prod(Rc<ValueType>, Rc<ValueType>),
    /// A sum.
    Sum(Rc<ValueType>, Rc<ValueType>),
    /// A list type.
    List(Rc<ValueType>),
    /// A record type, its fields ordered by label.
    Record(Vec<FieldType>),
    /// A graded thunk type.
    Thunk(Grade, Rc<CompType>),
    /// A reified-stack type `Stk(B, C)`.
    Stk(Rc<CompType>, Rc<CompType>),
    /// An identity type `Path A x y`.
    Path { ty: Rc<ValueType>, lhs: Rc<Value>, rhs: Rc<Value> },
    /// A declared-data type applied to its arguments.
    Data { id: DataId, args: Vec<Rc<ValueType>> },
    /// The code universe.
    Universe,
    /// A dependent pair type.
    Sigma { fst: Rc<ValueType>, binder: String, snd: Rc<ValueType> },
    /// A sealed abstract type.
    Sealed(SealId),
    /// The unknown (gradual) type.
    Unknown,
}

/// A computation type.
#[derive(Clone, Debug, PartialEq, Eq)]
pub enum CompType {
    /// A returner `F^ε A`.
    F(Rc<ValueType>, Rc<EffectRow>),
    /// A function `A → B`.
    Arrow(Rc<ValueType>, Rc<CompType>),
    /// A lazy product `B₁ & B₂`.
    With(Rc<CompType>, Rc<CompType>),
    /// The unknown (gradual) computation type.
    Unknown,
}

/// A type of either polarity.
#[derive(Clone, Debug, PartialEq, Eq)]
pub enum Ty {
    /// A value type.
    Value(ValueType),
    /// A computation type.
    Comp(CompType),
}

impl ValueType {
    /// The rigid `Integer` atom.
    pub fn integer() -> (t: ValueType)
        ensures
            t matches ValueType::Atom(name) && name@ == "Integer"@,
    {
        ValueType::Atom(String::from_str("Integer"))
    }

    /// The rigid `String` atom.
    pub fn string() -> (t: ValueType)
        ensures
            t matches ValueType::Atom(name) && name@ == "String"@,
    {
        ValueType::Atom(String::from_str("String"))
    }

    /// `List A`.
    pub fn list(element: ValueType) -> (t: ValueType)
        ensures
            t == ValueType::List(Rc::new(element)),
    {
        ValueType::List(Rc::new(element))
    }

    /// `A + B`.
    pub fn sum(lhs: ValueType, rhs: ValueType) -> (t: ValueType)
        ensures
            t == ValueType::Sum(Rc::new(lhs), Rc::new(rhs)),
    {
        ValueType::Sum(Rc::new(lhs), Rc::new(rhs))
    }

    /// `A × B`.
    pub fn prod(lhs: ValueType, rhs: ValueType) -> (t: ValueType)
        ensures
            t == ValueType::Prod(Rc::new(lhs), Rc::new(rhs)),
    {
        ValueType::Prod(Rc::new(lhs), Rc::new(rhs))
    }

    /// `U_g B`.
    pub fn thunk(grade: Grade, body: CompType) -> (t: ValueType)
        ensures
            t == ValueType::Thunk(grade, Rc::new(body)),
    {
        ValueType::Thunk(grade, Rc::new(body))
    }
}

impl CompType {
    /// `A → B`.
    pub fn arrow(arg: ValueType, res: CompType) -> (t: CompType)
        ensures
            t == CompType::Arrow(Rc::new(arg), Rc::new(res)),
    {
        CompType::Arrow(Rc::new(arg), Rc::new(res))
    }

    /// The pure returner `F A`.
    pub fn returner(of: ValueType) -> (t: CompType)
        ensures
            t matches CompType::F(payload, row) && *payload == of && row.labels@.len() == 0,
    {
        CompType::F(Rc::new(of), Rc::new(EffectRow::empty()))
    }
}

} // verus!
