//! The core call-by-push-value syntax: values, computations, and reified
//! stacks, with the sides, numeric literals, and binder records they carry.

use std::rc::Rc;
use vstd::prelude::*;

use crate::prim::NativePrim;
use crate::types::CompType;
use crate::types::DataId;
use crate::types::EffectSig;
use crate::types::Grade;
use crate::types::ValueType;

verus! {

/// Which component of a binary former.
#[derive(Clone, Copy, Debug, PartialEq, Eq, Structural)]
pub enum Side {
    /// The first (left) component.
    Fst,
    /// The second (right) component.
    Snd,
}

/// A typed machine-numeric literal. The floating-point tags carry their IEEE
/// bit patterns, so the literal is compared and stored as plain bits.
#[derive(Clone, Copy, Debug, PartialEq, Eq, Structural)]
pub enum NumLit {
    /// A `u32` literal.
    U32(u32),
    /// A `u64` literal.
    U64(u64),
    /// An `i32` literal.
    I32(i32),
    /// An `i64` literal.
    I64(i64),
    /// A single-precision literal, as its bit pattern.
    F32(u32),
    /// A double-precision literal, as its bit pattern.
    F64(u64),
}

/// One labelled field of a record value.
#[derive(Clone, Debug, PartialEq, Eq)]
pub struct FieldValue {
    /// The field label.
    pub label: String,
    /// The field value.
    pub value: Rc<Value>,
}

/// A value.
#[derive(Clone, Debug, PartialEq, Eq)]
pub enum Value {
    /// A variable occurrence.
    Var(String),
    /// The unit value.
    Unit,
    /// An integer literal.
    Int(i64),
    /// A string literal.
    Str(String),
    /// A typed numeric literal.
    Num(NumLit),
    /// An eager pair.
    Pair(Rc<Value>, Rc<Value>),
    /// A sum injection.
    Inj(Side, Rc<Value>),
    /// A list literal.
    List(Vec<Rc<Value>>),
    /// A record literal, its fields ordered by label.
    Record(Vec<FieldValue>),
    /// A graded thunk.
    Thunk(Grade, Rc<Comp>),
    /// A type ascription.
    Annot(Rc<Value>, Rc<ValueType>),
    /// A typed hole.
    Hole(u64),
    /// A reified stack.
    Stk(Rc<Stack>),
    /// A reflexivity witness `here(v)`.
    Here(Rc<Value>),
    /// A declared-data constructor value.
    Ctor { id: DataId, tag: usize, payload: Rc<Value> },
}

/// A binder and the computation it scopes over.
#[derive(Clone, Debug, PartialEq, Eq)]
pub struct Branch {
    /// The bound name.
    pub binder: String,
    /// The body.
    pub body: Rc<Comp>,
}

/// One operation clause of a handler.
#[derive(Clone, Debug, PartialEq, Eq)]
pub struct OpClause {
    /// The handled operation.
    pub op: String,
    /// The binder for the performed payload.
    pub payload: String,
    /// The binder for the resumption.
    pub resume: String,
    /// The clause body.
    pub body: Rc<Comp>,
}

/// The motive of a pair elimination: a binder and the result type over it.
#[derive(Clone, Debug, PartialEq, Eq)]
pub struct SplitMotive {
    /// The binder for the scrutinee.
    pub binder: String,
    /// The result type.
    pub ty: Rc<CompType>,
}

/// The motive of an identity elimination.
#[derive(Clone, Debug, PartialEq, Eq)]
pub struct WalkMotive {
    /// The left endpoint binder.
    pub x: String,
    /// The right endpoint binder.
    pub y: String,
    /// The path binder.
    pub q: String,
    /// The result type.
    pub ty: Rc<CompType>,
}

impl WalkMotive {
    /// A motive over the three binders.
    pub fn new(x: &str, y: &str, q: &str, ty: CompType) -> (m: WalkMotive)
        ensures
            m.x@ == x@,
            m.y@ == y@,
            m.q@ == q@,
            *m.ty == ty,
    {
        WalkMotive { x: x.to_owned(), y: y.to_owned(), q: q.to_owned(), ty: Rc::new(ty) }
    }
}

/// The diagonal base case of an identity elimination.
#[derive(Clone, Debug, PartialEq, Eq)]
pub struct WalkBase {
    /// The diagonal binder.
    pub x: String,
    /// The body.
    pub body: Rc<Comp>,
}

/// A computation.
#[derive(Clone, Debug, PartialEq, Eq)]
pub enum Comp {
    /// A function `λx. t`, with an optional argument ascription.
    Abs(String, Option<Rc<ValueType>>, Rc<Comp>),
    /// An application `t v`.
    App(Rc<Comp>, Rc<Value>),
    /// A returner `ret v`.
    Ret(Rc<Value>),
    /// Sequencing `t to x. u`.
    Bind(Rc<Comp>, String, Rc<Comp>),
    /// Forcing a thunk.
    Force(Rc<Value>),
    /// A sum elimination.
    Case(Rc<Value>, Branch, Branch),
    /// A declared-data elimination, one arm per constructor.
    DataCase(Rc<Value>, Vec<Branch>),
    /// A list elimination.
    ListCase { scrut: Rc<Value>, nil: Rc<Comp>, head: String, tail: String, cons: Rc<Comp> },
    /// A pair elimination.
    Split {
        scrut: Rc<Value>,
        fst_name: String,
        snd_name: String,
        motive: Option<Rc<SplitMotive>>,
        body: Rc<Comp>,
    },
    /// A record projection.
    RecordProj { record: Rc<Value>, label: String },
    /// A lazy pair.
    With(Rc<Comp>, Rc<Comp>),
    /// A lazy-pair projection.
    Prj(Side, Rc<Comp>),
    /// A grade duplication.
    Dup(Rc<Value>),
    /// A grade discard.
    Drop(Rc<Value>),
    /// An effect performance.
    Perform(Rc<EffectSig>, String, Rc<Value>),
    /// An effect handler.
    Handle { sig: Rc<EffectSig>, scrutinee: Rc<Comp>, ret: Branch, ops: Vec<OpClause> },
    /// A resumption of a reified stack.
    Resume(Rc<Value>, Rc<Comp>),
    /// A delimiter.
    Reset(Rc<Comp>),
    /// A capture.
    Shift(String, Rc<Comp>),
    /// A computation hole.
    Hole(u64),
    /// A native primitive applied to the arguments accumulated so far.
    Native { prim: NativePrim, args: Vec<Rc<Value>> },
    /// An identity elimination.
    Walk { scrut: Rc<Value>, motive: Rc<WalkMotive>, base: WalkBase },
}

/// A reified evaluation context.
#[derive(Clone, Debug, PartialEq, Eq)]
pub enum Stack {
    /// The empty stack.
    Empty,
    /// An argument frame.
    Arg(Rc<Value>, Rc<Stack>),
    /// A sequencing frame.
    Bind(String, Rc<Comp>, Rc<Stack>),
    /// A projection frame.
    Prj(Side, Rc<Stack>),
}

/// A lowered term of either polarity.
#[derive(Clone, Debug, PartialEq, Eq)]
pub enum Term {
    /// A value.
    Value(Rc<Value>),
    /// A computation.
    Comp(Rc<Comp>),
}

impl Value {
    /// A variable occurrence.
    pub fn var(name: &str) -> (v: Value)
        ensures
            v matches Value::Var(n) && n@ == name@,
    {
        Value::Var(name.to_owned())
    }

    /// A typed numeric literal.
    pub fn num(literal: NumLit) -> (v: Value)
        ensures
            v == Value::Num(literal),
    {
        Value::Num(literal)
    }

    /// A string literal.
    pub fn string(text: &str) -> (v: Value)
        ensures
            v matches Value::Str(s) && s@ == text@,
    {
        Value::Str(text.to_owned())
    }

    /// The left injection.
    pub fn inj1(payload: Value) -> (v: Value)
        ensures
            v == Value::Inj(Side::Fst, Rc::new(payload)),
    {
        Value::Inj(Side::Fst, Rc::new(payload))
    }

    /// The right injection.
    pub fn inj2(payload: Value) -> (v: Value)
        ensures
            v == Value::Inj(Side::Snd, Rc::new(payload)),
    {
        Value::Inj(Side::Snd, Rc::new(payload))
    }

    /// A type ascription.
    pub fn annot(inner: Value, ty: ValueType) -> (v: Value)
        ensures
            v == Value::Annot(Rc::new(inner), Rc::new(ty)),
    {
        Value::Annot(Rc::new(inner), Rc::new(ty))
    }
}

impl Comp {
    /// `ret v`.
    pub fn ret(value: Value) -> (c: Comp)
        ensures
            c == Comp::Ret(Rc::new(value)),
    {
        Comp::Ret(Rc::new(value))
    }

    /// `t v`.
    pub fn app(head: Comp, arg: Value) -> (c: Comp)
        ensures
            c == Comp::App(Rc::new(head), Rc::new(arg)),
    {
        Comp::App(Rc::new(head), Rc::new(arg))
    }

    /// `λx. t`, unascribed.
    pub fn lam(binder: &str, body: Comp) -> (c: Comp)
        ensures
            c matches Comp::Abs(b, None, t) && b@ == binder@ && *t == body,
    {
        Comp::Abs(binder.to_owned(), None, Rc::new(body))
    }

    /// `t to x. u`.
    pub fn bind(bound: Comp, binder: &str, cont: Comp) -> (c: Comp)
        ensures
            c matches Comp::Bind(t, b, u) && *t == bound && b@ == binder@ && *u == cont,
    {
        Comp::Bind(Rc::new(bound), binder.to_owned(), Rc::new(cont))
    }

    /// `force v`.
    pub fn force(value: Value) -> (c: Comp)
        ensures
            c == Comp::Force(Rc::new(value)),
    {
        Comp::Force(Rc::new(value))
    }

    /// `case v { inl x ⇒ t | inr y ⇒ u }`.
    pub fn case(scrut: Value, left: &str, on_left: Comp, right: &str, on_right: Comp) -> (c: Comp)
        ensures
            c matches Comp::Case(s, l, r) && *s == scrut && l.binder@ == left@ && *l.body
                == on_left && r.binder@ == right@ && *r.body == on_right,
    {
        Comp::Case(
            Rc::new(scrut),
            Branch { binder: left.to_owned(), body: Rc::new(on_left) },
            Branch { binder: right.to_owned(), body: Rc::new(on_right) },
        )
    }

    /// A computation hole.
    pub fn hole(id: u64) -> (c: Comp)
        ensures
            c == Comp::Hole(id),
    {
        Comp::Hole(id)
    }

    /// A source-level native node: the primitive with no argument applied.
    pub fn native(prim: NativePrim) -> (c: Comp)
        ensures
            c matches Comp::Native { prim: p, args } && p == prim && args@.len() == 0,
    {
        Comp::Native { prim, args: Vec::new() }
    }
}

/// A shared handle to the same node: the reference count grows and the value
/// is the one the handle names.
#[verifier::external_body]
pub fn share<T>(rc: &Rc<T>) -> (r: Rc<T>)
    ensures
        r == *rc,
{
    Rc::clone(rc)
}

/// Whether two names are the same name.
#[verifier::external_body]
pub fn names_equal(lhs: &str, rhs: &str) -> (b: bool)
    ensures
        b == (lhs@ == rhs@),
{
    lhs == rhs
}

} // verus!
