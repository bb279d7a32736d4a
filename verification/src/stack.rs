//! The stack-typing judgment for reified stacks: the per-frame type
//! destructures the checker and the typing machine share.
//!
//! `stk K` is typed by running it forward from the consumed type: an argument
//! frame consumes a function, a bind frame a returner, a projection frame a
//! lazy product. Each destructure also accepts the unknown type, which
//! destructures into unknown components so a hole localizes rather than
//! cascading.

use std::rc::Rc;
use vstd::prelude::*;

use crate::syntax::Side;
use crate::syntax::share;
use crate::types::CompType;
use crate::types::EffectRow;
use crate::types::Ty;
use crate::types::ValueType;

verus! {

/// The shape a destructure expected to find.
#[derive(Clone, Copy, Debug, PartialEq, Eq, Structural)]
pub enum Shape {
    /// A function type.
    Arrow,
    /// A returner type.
    Returner,
    /// A lazy product type.
    With,
    /// A reified-stack type.
    Stk,
}

/// A typing failure of a stack destructure.
#[derive(Clone, Debug, PartialEq, Eq)]
pub enum TypeError {
    /// The type was not of the expected shape.
    ShapeMismatch {
        /// The shape expected.
        expected: Shape,
        /// The type found.
        actual: Ty,
    },
}

/// The `side`-selected component of a pair of computation types.
pub fn pick(side: Side, fst: &Rc<CompType>, snd: &Rc<CompType>) -> (c: CompType)
    ensures
        c == (match side {
            Side::Fst => **fst,
            Side::Snd => **snd,
        }),
{
    match side {
        Side::Fst => copy_comp_type(fst),
        Side::Snd => copy_comp_type(snd),
    }
}

/// A copy of a computation type, equal to it.
pub fn copy_comp_type(ty: &Rc<CompType>) -> (c: CompType)
    ensures
        c == **ty,
{
    match &**ty {
        CompType::F(payload, row) => CompType::F(share(payload), share(row)),
        CompType::Arrow(arg, res) => CompType::Arrow(share(arg), share(res)),
        CompType::With(fst, snd) => CompType::With(share(fst), share(snd)),
        CompType::Unknown => CompType::Unknown,
    }
}

/// A copy of a value type, equal to it.
pub fn copy_value_type(ty: &Rc<ValueType>) -> (c: ValueType)
    ensures
        c == **ty,
{
    let inner: &ValueType = &**ty;
    match inner {
        ValueType::Atom(name) => ValueType::Atom(name.clone()),
        ValueType::Unit => ValueType::Unit,
        ValueType::Prod(a, b) => ValueType::Prod(share(a), share(b)),
        ValueType::Sum(a, b) => ValueType::Sum(share(a), share(b)),
        ValueType::List(a) => ValueType::List(share(a)),
        ValueType::Thunk(g, b) => ValueType::Thunk(*g, share(b)),
        ValueType::Stk(b, c) => ValueType::Stk(share(b), share(c)),
        ValueType::Universe => ValueType::Universe,
        ValueType::Unknown => ValueType::Unknown,
        _ => {
            let copied = share(ty);
            unwrap_shared_value_type(copied)
        },
    }
}

/// The value type a handle names, taken out of it.
#[verifier::external_body]
fn unwrap_shared_value_type(ty: Rc<ValueType>) -> (c: ValueType)
    ensures
        c == *ty,
{
    Rc::unwrap_or_clone(ty)
}

/// Destructures the consumed type of an argument frame `v :: K`: a function
/// `A → B′` yields `(A, B′)`; `Unknown` yields `(Unknown, Unknown)`.
pub fn arrow_components(consumed: CompType) -> (r: Result<(ValueType, CompType), TypeError>)
    ensures
        match consumed {
            CompType::Arrow(arg, res) => r == Ok::<(ValueType, CompType), TypeError>(
                (*arg, *res),
            ),
            CompType::Unknown => r == Ok::<(ValueType, CompType), TypeError>(
                (ValueType::Unknown, CompType::Unknown),
            ),
            _ => r == Err::<(ValueType, CompType), TypeError>(
                TypeError::ShapeMismatch { expected: Shape::Arrow, actual: Ty::Comp(consumed) },
            ),
        },
{
    match consumed {
        CompType::Arrow(arg, res) => Ok((copy_value_type(&arg), copy_comp_type(&res))),
        CompType::Unknown => Ok((ValueType::Unknown, CompType::Unknown)),
        other => Err(TypeError::ShapeMismatch { expected: Shape::Arrow, actual: Ty::Comp(other) }),
    }
}

/// Destructures the consumed type of a bind frame `(x. u) :: K`: a returner
/// `F^ε A` yields `(A, ε)`; `Unknown` yields `(Unknown, ⟨⟩)`.
pub fn returner_components(consumed: CompType) -> (r: Result<(ValueType, Rc<EffectRow>), TypeError>)
    ensures
        match consumed {
            CompType::F(payload, row) => r == Ok::<(ValueType, Rc<EffectRow>), TypeError>(
                (*payload, row),
            ),
            CompType::Unknown => (r matches Ok(pair) && pair.0 == ValueType::Unknown
                && pair.1.labels@.len() == 0),
            _ => r == Err::<(ValueType, Rc<EffectRow>), TypeError>(
                TypeError::ShapeMismatch { expected: Shape::Returner, actual: Ty::Comp(consumed) },
            ),
        },
{
    match consumed {
        CompType::F(payload, row) => Ok((copy_value_type(&payload), row)),
        CompType::Unknown => Ok((ValueType::Unknown, Rc::new(EffectRow::empty()))),
        other => Err(
            TypeError::ShapeMismatch { expected: Shape::Returner, actual: Ty::Comp(other) },
        ),
    }
}

/// Destructures the consumed type of a projection frame `prjᵢ :: K`: a lazy
/// product `B₁ & B₂` yields `Bᵢ`; `Unknown` projects to `Unknown`.
pub fn with_component(consumed: CompType, side: Side) -> (r: Result<CompType, TypeError>)
    ensures
        match consumed {
            CompType::With(fst, snd) => r == Ok::<CompType, TypeError>(
                match side {
                    Side::Fst => *fst,
                    Side::Snd => *snd,
                },
            ),
            CompType::Unknown => r == Ok::<CompType, TypeError>(CompType::Unknown),
            _ => r == Err::<CompType, TypeError>(
                TypeError::ShapeMismatch { expected: Shape::With, actual: Ty::Comp(consumed) },
            ),
        },
{
    match consumed {
        CompType::With(fst, snd) => Ok(pick(side, &fst, &snd)),
        CompType::Unknown => Ok(CompType::Unknown),
        other => Err(TypeError::ShapeMismatch { expected: Shape::With, actual: Ty::Comp(other) }),
    }
}

/// Destructures a resumed value's type: a reified stack `Stk(B, C)` yields
/// `(B, C)`; `Unknown` yields `(Unknown, Unknown)`.
pub fn stk_components(stk: ValueType) -> (r: Result<(CompType, CompType), TypeError>)
    ensures
        match stk {
            ValueType::Stk(consumes, delivers) => r == Ok::<(CompType, CompType), TypeError>(
                (*consumes, *delivers),
            ),
            ValueType::Unknown => r == Ok::<(CompType, CompType), TypeError>(
                (CompType::Unknown, CompType::Unknown),
            ),
            _ => r == Err::<(CompType, CompType), TypeError>(
                TypeError::ShapeMismatch { expected: Shape::Stk, actual: Ty::Value(stk) },
            ),
        },
{
    match stk {
        ValueType::Stk(consumes, delivers) => Ok(
            (copy_comp_type(&consumes), copy_comp_type(&delivers)),
        ),
        ValueType::Unknown => Ok((CompType::Unknown, CompType::Unknown)),
        other => Err(TypeError::ShapeMismatch { expected: Shape::Stk, actual: Ty::Value(other) }),
    }
}

} // verus!
