//! Native (Rust-backed) builtin primitives — the registry behind
//! [`Comp::Native`].
//!
//! A native node carries an opaque tag, and the behaviour lives here in a
//! by-value registry: each primitive knows its arity, its declared type, the
//! residual type after a partial application, and how it applies once
//! saturated. The higher-order list combinators cannot be closed terms over a
//! calculus without recursion, so — because the list argument reaches
//! [`NativePrim::apply`] as a manifest list whose length is known — they
//! unroll over that list into a closed term. Update primitives return a fresh
//! value. A wrong-shape argument degenerates to a gradual hole, so `apply` is
//! total.

pub mod order;
pub mod strings;

use std::rc::Rc;
use vstd::prelude::*;

use crate::prim::order::native_sort;
use crate::prim::order::native_sort_outcome;
use crate::prim::order::native_uniq;
use crate::prim::order::native_uniq_outcome;
use crate::prim::strings::StringTest;
use crate::prim::strings::native_string_escape;
use crate::prim::strings::native_string_escape_outcome;
use crate::prim::strings::native_string_predicate;
use crate::prim::strings::native_string_predicate_outcome;
use crate::prim::strings::native_string_split;
use crate::prim::strings::native_string_split_outcome;
use crate::prim::strings::native_regex_extract;
use crate::prim::strings::native_regex_extract_outcome;
use crate::prim::strings::native_path_join;
use crate::prim::strings::native_path_join_outcome;
use crate::prim::strings::native_path_basename;
use crate::prim::strings::native_path_basename_outcome;
use crate::prim::strings::native_path_extension;
use crate::prim::strings::native_path_extension_outcome;
use crate::stack::copy_comp_type;
use crate::syntax::Comp;
use crate::syntax::FieldValue;
use crate::syntax::NumLit;
use crate::syntax::Side;
use crate::syntax::Value;
use crate::syntax::names_equal;
use crate::syntax::share;
use crate::types::CompType;
use crate::types::Grade;
use crate::types::ValueType;
use crate::text::chars_of;
use crate::text::decimal;
use crate::text::label_less;
use crate::text::lex_less;
use crate::text::string_of;
use crate::text::decimal_chars;

verus! {

/// An opaque identifier for a Rust-backed builtin primitive — the tag carried
/// by [`Comp::Native`].
#[derive(Clone, Copy, Debug, PartialEq, Eq, Structural)]
pub enum NativePrim {
    /// The identity combinator `I`.
    Id,
    /// The constant combinator `K`.
    Const,
    /// Same-tag numeric addition.
    Add,
    /// Same-tag numeric subtraction.
    Sub,
    /// Same-tag numeric multiplication.
    Mul,
    /// Numeric equality.
    Eq,
    /// Numeric inequality.
    Ne,
    /// Numeric less-than.
    Lt,
    /// Numeric less-than-or-equal.
    Le,
    /// Numeric greater-than.
    Gt,
    /// Numeric greater-than-or-equal.
    Ge,
    /// Boolean conjunction over `Bool = 1 + 1`.
    And,
    /// Boolean disjunction over `Bool = 1 + 1`.
    Or,
    /// Same-tag numeric negation.
    Neg,
    /// Homogeneous list concatenation.
    ListConcat,
    /// `each f xs` — map a pure closure over a list, in order.
    Each,
    /// `where p xs` — filter a list by a pure predicate, keeping order.
    Where,
    /// `reduce f z xs` — left fold a list from a seed.
    Reduce,
    /// `any p xs` — whether a predicate holds for some element.
    Any,
    /// `all p xs` — whether a predicate holds for every element.
    All,
    /// `flatten xs` — concatenate a list of lists.
    Flatten,
    /// `uniq xs` — drop later structural duplicates.
    Uniq,
    /// `sort xs` — sort homogeneous totally-ordered atoms.
    Sort,
    /// `get r ℓ` — look a dynamic label up in a record.
    Get,
    /// `insert r ℓ v` — extend or override a record field.
    Insert,
    /// `recordupdate r o` — overlay an overrides record onto a base record.
    RecordUpdate,
    /// `set xs i v` — replace the element at an index.
    SetIndex,
    /// `update-at xs i f` — apply a closure to the element at an index.
    UpdateAt,
    /// `insert-at xs i v` — insert before an index.
    InsertAt,
    /// `remove-at xs i` — drop the element at an index.
    RemoveAt,
    /// `push xs v` — append to the end.
    Push,
    /// `update-where p f xs` — transform the elements a predicate accepts.
    UpdateWhere,
    /// `escape s` — quote regex metacharacters.
    StringEscape,
    /// `contains s needle`.
    StringContains,
    /// `starts_with s prefix`.
    StringStartsWith,
    /// `ends_with s suffix`.
    StringEndsWith,
    /// `eq s t` — string equality.
    StringEq,
    /// `split s sep` — split on a literal separator.
    StringSplit,
    /// `extract pattern haystack` — first match's named captures.
    RegexExtract,
    /// `join base child` — path join.
    PathJoin,
    /// `basename path` — final path component.
    PathBasename,
    /// `extension path` — final extension without the dot.
    PathExtension,
}

/// How many arguments each primitive consumes before it reduces.
pub open spec fn prim_arity(p: NativePrim) -> nat {
    match p {
        NativePrim::Id | NativePrim::Neg | NativePrim::Flatten | NativePrim::Uniq
        | NativePrim::Sort | NativePrim::StringEscape | NativePrim::PathBasename
        | NativePrim::PathExtension => 1,
        NativePrim::Reduce | NativePrim::Insert | NativePrim::SetIndex | NativePrim::UpdateAt
        | NativePrim::InsertAt | NativePrim::UpdateWhere => 3,
        _ => 2,
    }
}

/// The number of leading arrows of a computation type.
pub open spec fn arrow_count(t: CompType) -> nat
    decreases t,
{
    match t {
        CompType::Arrow(_, res) => 1 + arrow_count(*res),
        _ => 0,
    }
}

/// The type left after peeling `count` leading arrows (an over-peel stops at
/// the first non-arrow).
pub open spec fn peel(t: CompType, count: nat) -> CompType
    decreases count,
{
    if count == 0 {
        t
    } else {
        match t {
            CompType::Arrow(_, res) => peel(*res, (count - 1) as nat),
            _ => t,
        }
    }
}

/// Whether the arrow chain ends in a pure returner `F A`.
pub open spec fn ends_in_pure_returner(t: CompType) -> bool
    decreases t,
{
    match t {
        CompType::Arrow(_, res) => ends_in_pure_returner(*res),
        CompType::F(_, row) => row.labels@.len() == 0,
        _ => false,
    }
}

/// Whether a value type is the `Integer` atom.
pub open spec fn is_integer_atom(t: ValueType) -> bool {
    match t {
        ValueType::Atom(n) => n@ == "Integer"@,
        _ => false,
    }
}

/// `A → B`, as a spec.
pub open spec fn arrow_of(arg: ValueType, res: CompType) -> CompType {
    CompType::Arrow(Rc::new(arg), Rc::new(res))
}

/// A pure returner type over `of`.
pub open spec fn is_pure_returner_of(t: CompType, of: ValueType) -> bool {
    t matches CompType::F(payload, row) && *payload == of && row.labels@.len() == 0
}

/// The shape of one argument or result type in a primitive's signature.
pub enum TypeShape {
    /// The `Integer` atom.
    Integer,
    /// The `String` atom.
    Text,
    /// The unknown type `?`.
    Unknown,
    /// The boolean carrier `1 + 1`.
    Bool,
    /// `List ?`.
    ListOfUnknown,
    /// The empty record type `{}`.
    EmptyRecord,
    /// The `Optional` carrier `? + 1`.
    OptionOfUnknown,
    /// The pure unary closure `U_ω(? → F ?)`.
    PureClosure,
    /// The pure predicate closure `U_ω(? → F Bool)`.
    PredClosure,
    /// The pure binary closure `U_ω(? → ? → F ?)`.
    BinopClosure,
}

/// The boolean carrier `1 + 1`, as a spec.
pub open spec fn bool_spec() -> ValueType {
    ValueType::Sum(Rc::new(ValueType::Unit), Rc::new(ValueType::Unit))
}

/// `t` is `F of` with the pure effect row.
pub open spec fn pure_returns(t: CompType, of: ValueType) -> bool {
    t matches CompType::F(payload, row) && *payload == of && row.labels@.len() == 0
}

/// The body of an unrestricted thunk type `U_ω B`.
pub open spec fn omega_thunk_body(t: ValueType) -> Option<CompType> {
    match t {
        ValueType::Thunk(g, body) => if g == Grade::Omega {
            Some(*body)
        } else {
            None
        },
        _ => None,
    }
}

/// `t` is `? → F of`, pure.
pub open spec fn unary_to(t: CompType, of: ValueType) -> bool {
    match t {
        CompType::Arrow(a, r) => *a is Unknown && pure_returns(*r, of),
        _ => false,
    }
}

/// The value type `t` has the shape `s`.
pub open spec fn has_shape(t: ValueType, s: TypeShape) -> bool {
    match s {
        TypeShape::Integer => is_integer_atom(t),
        TypeShape::Text => t matches ValueType::Atom(n) && n@ == "String"@,
        TypeShape::Unknown => t is Unknown,
        TypeShape::Bool => t == bool_spec(),
        TypeShape::ListOfUnknown => t == ValueType::List(Rc::new(ValueType::Unknown)),
        TypeShape::EmptyRecord => t matches ValueType::Record(fields) && fields@.len() == 0,
        TypeShape::OptionOfUnknown => t == ValueType::Sum(
            Rc::new(ValueType::Unknown),
            Rc::new(ValueType::Unit),
        ),
        TypeShape::PureClosure => match omega_thunk_body(t) {
            Some(body) => unary_to(body, ValueType::Unknown),
            None => false,
        },
        TypeShape::PredClosure => match omega_thunk_body(t) {
            Some(body) => unary_to(body, bool_spec()),
            None => false,
        },
        TypeShape::BinopClosure => match omega_thunk_body(t) {
            Some(body) => match body {
                CompType::Arrow(a, r) => *a is Unknown && unary_to(*r, ValueType::Unknown),
                _ => false,
            },
            None => false,
        },
    }
}

/// `t` is the curried function type taking arguments of the shapes `args`, in
/// order, and returning a value of shape `result` with no effect.
pub open spec fn curried(t: CompType, args: Seq<TypeShape>, result: TypeShape) -> bool
    decreases args.len(),
{
    if args.len() == 0 {
        t matches CompType::F(payload, row) && has_shape(*payload, result) && row.labels@.len() == 0
    } else {
        t matches CompType::Arrow(a, r) && has_shape(*a, args[0]) && curried(
            *r,
            args.drop_first(),
            result,
        )
    }
}

/// Each primitive's signature: the shapes of its arguments, in order, and
/// of its result.
pub open spec fn prim_signature(p: NativePrim) -> (Seq<TypeShape>, TypeShape) {
    match p {
        NativePrim::Id => (seq![TypeShape::Integer], TypeShape::Integer),
        NativePrim::Const => (seq![TypeShape::Integer, TypeShape::Integer], TypeShape::Integer),
        NativePrim::Add | NativePrim::Sub | NativePrim::Mul => (
            seq![TypeShape::Unknown, TypeShape::Unknown],
            TypeShape::Unknown,
        ),
        NativePrim::Neg => (seq![TypeShape::Unknown], TypeShape::Unknown),
        NativePrim::Eq | NativePrim::Ne | NativePrim::Lt | NativePrim::Le | NativePrim::Gt
        | NativePrim::Ge => (seq![TypeShape::Unknown, TypeShape::Unknown], TypeShape::Bool),
        NativePrim::And | NativePrim::Or => (seq![TypeShape::Bool, TypeShape::Bool], TypeShape::Bool),
        NativePrim::ListConcat => (
            seq![TypeShape::ListOfUnknown, TypeShape::ListOfUnknown],
            TypeShape::ListOfUnknown,
        ),
        NativePrim::Each => (
            seq![TypeShape::PureClosure, TypeShape::ListOfUnknown],
            TypeShape::ListOfUnknown,
        ),
        NativePrim::Where => (
            seq![TypeShape::PredClosure, TypeShape::ListOfUnknown],
            TypeShape::ListOfUnknown,
        ),
        NativePrim::Reduce => (
            seq![TypeShape::BinopClosure, TypeShape::Unknown, TypeShape::ListOfUnknown],
            TypeShape::Unknown,
        ),
        NativePrim::Any | NativePrim::All => (
            seq![TypeShape::PredClosure, TypeShape::ListOfUnknown],
            TypeShape::Bool,
        ),
        NativePrim::Flatten | NativePrim::Uniq | NativePrim::Sort => (
            seq![TypeShape::ListOfUnknown],
            TypeShape::ListOfUnknown,
        ),
        NativePrim::Get => (
            seq![TypeShape::EmptyRecord, TypeShape::Text],
            TypeShape::OptionOfUnknown,
        ),
        NativePrim::Insert => (
            seq![TypeShape::EmptyRecord, TypeShape::Text, TypeShape::Unknown],
            TypeShape::EmptyRecord,
        ),
        NativePrim::RecordUpdate => (
            seq![TypeShape::EmptyRecord, TypeShape::EmptyRecord],
            TypeShape::EmptyRecord,
        ),
        NativePrim::SetIndex | NativePrim::InsertAt => (
            seq![TypeShape::ListOfUnknown, TypeShape::Integer, TypeShape::Unknown],
            TypeShape::ListOfUnknown,
        ),
        NativePrim::UpdateAt => (
            seq![TypeShape::ListOfUnknown, TypeShape::Integer, TypeShape::PureClosure],
            TypeShape::ListOfUnknown,
        ),
        NativePrim::RemoveAt => (
            seq![TypeShape::ListOfUnknown, TypeShape::Integer],
            TypeShape::ListOfUnknown,
        ),
        NativePrim::Push => (
            seq![TypeShape::ListOfUnknown, TypeShape::Unknown],
            TypeShape::ListOfUnknown,
        ),
        NativePrim::UpdateWhere => (
            seq![TypeShape::PredClosure, TypeShape::PureClosure, TypeShape::ListOfUnknown],
            TypeShape::ListOfUnknown,
        ),
        NativePrim::StringEscape | NativePrim::PathBasename | NativePrim::PathExtension => (
            seq![TypeShape::Text],
            TypeShape::Text,
        ),
        NativePrim::StringContains | NativePrim::StringStartsWith | NativePrim::StringEndsWith
        | NativePrim::StringEq => (seq![TypeShape::Text, TypeShape::Text], TypeShape::Bool),
        NativePrim::StringSplit => (seq![TypeShape::Text, TypeShape::Text], TypeShape::ListOfUnknown),
        NativePrim::RegexExtract => (seq![TypeShape::Text, TypeShape::Text], TypeShape::EmptyRecord),
        NativePrim::PathJoin => (seq![TypeShape::Text, TypeShape::Text], TypeShape::Text),
    }
}

/// A curried type over `args` peels, argument by argument, to the curried
/// type over what remains.
pub proof fn lemma_curried_peel(t: CompType, args: Seq<TypeShape>, result: TypeShape)
    requires
        curried(t, args, result),
        args.len() > 0,
    ensures
        t matches CompType::Arrow(_, r) && curried(*r, args.drop_first(), result),
{
}

/// `A → B` with its arrow count and returner tail.
fn arrow(arg: ValueType, res: CompType) -> (t: CompType)
    ensures
        t == arrow_of(arg, res),
        arrow_count(t) == 1 + arrow_count(res),
        ends_in_pure_returner(t) == ends_in_pure_returner(res),
{
    CompType::arrow(arg, res)
}

/// The pure returner `F A`.
fn returner(of: ValueType) -> (t: CompType)
    ensures
        is_pure_returner_of(t, of),
        arrow_count(t) == 0,
        ends_in_pure_returner(t),
{
    CompType::returner(of)
}

/// The gradual binary function type `? → ? → F result`.
fn unknown_binary(result: ValueType) -> (t: CompType)
    ensures
        match t {
            CompType::Arrow(a, r) => *a == ValueType::Unknown && match *r {
                CompType::Arrow(b, f) => *b == ValueType::Unknown && is_pure_returner_of(*f, result),
                _ => false,
            },
            _ => false,
        },
        arrow_count(t) == 2,
        ends_in_pure_returner(t),
{
    arrow(ValueType::Unknown, arrow(ValueType::Unknown, returner(result)))
}

/// The gradual list type `List ?`.
pub fn list_unknown() -> (t: ValueType)
    ensures
        t == ValueType::List(Rc::new(ValueType::Unknown)),
{
    ValueType::list(ValueType::Unknown)
}

/// The empty record type `{}` — the top of the width order.
pub fn empty_record() -> (t: ValueType)
    ensures
        t matches ValueType::Record(fields) && fields@.len() == 0,
{
    ValueType::Record(Vec::new())
}

/// The canonical boolean carrier `1 + 1`.
pub fn bool_type() -> (t: ValueType)
    ensures
        t == ValueType::Sum(Rc::new(ValueType::Unit), Rc::new(ValueType::Unit)),
{
    ValueType::sum(ValueType::Unit, ValueType::Unit)
}

/// The `Optional` carrier `? + 1`.
pub fn option_type() -> (t: ValueType)
    ensures
        t == ValueType::Sum(Rc::new(ValueType::Unknown), Rc::new(ValueType::Unit)),
{
    ValueType::sum(ValueType::Unknown, ValueType::Unit)
}

/// The pure unary closure argument `U_ω(? → F ?)`.
pub fn pure_closure() -> (t: ValueType)
    ensures
        t matches ValueType::Thunk(g, body) && g == Grade::Omega && arrow_count(*body) == 1
            && ends_in_pure_returner(*body),
        has_shape(t, TypeShape::PureClosure),
{
    ValueType::thunk(Grade::Omega, arrow(ValueType::Unknown, returner(ValueType::Unknown)))
}

/// The pure predicate closure argument `U_ω(? → F Bool)`.
pub fn pred_closure() -> (t: ValueType)
    ensures
        t matches ValueType::Thunk(g, body) && g == Grade::Omega && arrow_count(*body) == 1
            && ends_in_pure_returner(*body),
        has_shape(t, TypeShape::PredClosure),
{
    ValueType::thunk(Grade::Omega, arrow(ValueType::Unknown, returner(bool_type())))
}

/// The pure binary closure argument `U_ω(? → ? → F ?)`.
pub fn binop_closure() -> (t: ValueType)
    ensures
        t matches ValueType::Thunk(g, body) && g == Grade::Omega && arrow_count(*body) == 2
            && ends_in_pure_returner(*body),
        has_shape(t, TypeShape::BinopClosure),
{
    ValueType::thunk(
        Grade::Omega,
        arrow(ValueType::Unknown, arrow(ValueType::Unknown, returner(ValueType::Unknown))),
    )
}

impl NativePrim {
    /// How many arguments this primitive consumes before it reduces: always
    /// positive, since every builtin is a function.
    pub fn arity(self) -> (n: usize)
        ensures
            n == prim_arity(self),
            n >= 1,
    {
        match self {
            NativePrim::Id | NativePrim::Neg | NativePrim::Flatten | NativePrim::Uniq
            | NativePrim::Sort | NativePrim::StringEscape | NativePrim::PathBasename
            | NativePrim::PathExtension => 1,
            NativePrim::Reduce | NativePrim::Insert | NativePrim::SetIndex | NativePrim::UpdateAt
            | NativePrim::InsertAt | NativePrim::UpdateWhere => 3,
            _ => 2,
        }
    }

    /// The fully-curried declared type of this primitive: a chain of
    /// [`arity`](Self::arity) arrows ending in a pure returner `F A`.
    pub fn declared_type(self) -> (t: CompType)
        ensures
            arrow_count(t) == prim_arity(self),
            ends_in_pure_returner(t),
            curried(t, prim_signature(self).0, prim_signature(self).1),
            self == NativePrim::Id ==> match t {
                CompType::Arrow(arg, res) => is_integer_atom(*arg) && match *res {
                    CompType::F(payload, _) => is_integer_atom(*payload),
                    _ => false,
                },
                _ => false,
            },
    {
        proof {
            reveal_with_fuel(curried, 4);
        }
        match self {
            NativePrim::Id => arrow(ValueType::integer(), returner(ValueType::integer())),
            NativePrim::Const => arrow(
                ValueType::integer(),
                arrow(ValueType::integer(), returner(ValueType::integer())),
            ),
            NativePrim::Add | NativePrim::Sub | NativePrim::Mul => unknown_binary(
                ValueType::Unknown,
            ),
            NativePrim::Neg => arrow(ValueType::Unknown, returner(ValueType::Unknown)),
            NativePrim::Eq | NativePrim::Ne | NativePrim::Lt | NativePrim::Le | NativePrim::Gt
            | NativePrim::Ge => unknown_binary(bool_type()),
            NativePrim::And | NativePrim::Or => arrow(
                bool_type(),
                arrow(bool_type(), returner(bool_type())),
            ),
            NativePrim::ListConcat => arrow(
                list_unknown(),
                arrow(list_unknown(), returner(list_unknown())),
            ),
            NativePrim::Each => arrow(
                pure_closure(),
                arrow(list_unknown(), returner(list_unknown())),
            ),
            NativePrim::Where => arrow(
                pred_closure(),
                arrow(list_unknown(), returner(list_unknown())),
            ),
            NativePrim::Reduce => arrow(
                binop_closure(),
                arrow(ValueType::Unknown, arrow(list_unknown(), returner(ValueType::Unknown))),
            ),
            NativePrim::Any | NativePrim::All => arrow(
                pred_closure(),
                arrow(list_unknown(), returner(bool_type())),
            ),
            NativePrim::Flatten | NativePrim::Uniq | NativePrim::Sort => arrow(
                list_unknown(),
                returner(list_unknown()),
            ),
            NativePrim::Get => arrow(
                empty_record(),
                arrow(ValueType::string(), returner(option_type())),
            ),
            NativePrim::Insert => arrow(
                empty_record(),
                arrow(ValueType::string(), arrow(ValueType::Unknown, returner(empty_record()))),
            ),
            NativePrim::RecordUpdate => arrow(
                empty_record(),
                arrow(empty_record(), returner(empty_record())),
            ),
            NativePrim::SetIndex | NativePrim::InsertAt => arrow(
                list_unknown(),
                arrow(
                    ValueType::integer(),
                    arrow(ValueType::Unknown, returner(list_unknown())),
                ),
            ),
            NativePrim::UpdateAt => arrow(
                list_unknown(),
                arrow(ValueType::integer(), arrow(pure_closure(), returner(list_unknown()))),
            ),
            NativePrim::RemoveAt => arrow(
                list_unknown(),
                arrow(ValueType::integer(), returner(list_unknown())),
            ),
            NativePrim::Push => arrow(
                list_unknown(),
                arrow(ValueType::Unknown, returner(list_unknown())),
            ),
            NativePrim::UpdateWhere => arrow(
                pred_closure(),
                arrow(pure_closure(), arrow(list_unknown(), returner(list_unknown()))),
            ),
            NativePrim::StringEscape | NativePrim::PathBasename | NativePrim::PathExtension => arrow(
                ValueType::string(),
                returner(ValueType::string()),
            ),
            NativePrim::StringContains | NativePrim::StringStartsWith
            | NativePrim::StringEndsWith | NativePrim::StringEq => arrow(
                ValueType::string(),
                arrow(ValueType::string(), returner(bool_type())),
            ),
            NativePrim::StringSplit => arrow(
                ValueType::string(),
                arrow(ValueType::string(), returner(list_unknown())),
            ),
            NativePrim::RegexExtract => arrow(
                ValueType::string(),
                arrow(ValueType::string(), returner(empty_record())),
            ),
            NativePrim::PathJoin => arrow(
                ValueType::string(),
                arrow(ValueType::string(), returner(ValueType::string())),
            ),
        }
    }

    /// The residual computation type after `applied` arguments have been
    /// consumed: the declared type with `applied` leading arrows peeled; past
    /// the arity nothing more peels, and the final returner stays.
    pub fn residual_type(self, applied: usize) -> (t: CompType)
        ensures
            applied <= prim_arity(self) ==> arrow_count(t) == prim_arity(self) - applied,
            applied >= prim_arity(self) ==> arrow_count(t) == 0,
            ends_in_pure_returner(t),
            applied == prim_arity(self) ==> t is F,
            applied <= prim_arity(self) ==> curried(
                t,
                prim_signature(self).0.skip(applied as int),
                prim_signature(self).1,
            ),
            applied >= prim_arity(self) ==> curried(t, Seq::empty(), prim_signature(self).1),
    {
        let mut ty = self.declared_type();
        let mut index: usize = 0;
        proof {
            assert(prim_signature(self).0.skip(0) =~= prim_signature(self).0);
            assert(prim_signature(self).0.len() == prim_arity(self));
            if prim_arity(self) == 0 {
                assert(prim_signature(self).0 =~= Seq::<TypeShape>::empty());
            }
        }
        while index < applied
            invariant
                index <= applied,
                ends_in_pure_returner(ty),
                index <= prim_arity(self) ==> arrow_count(ty) == prim_arity(self) - index,
                index > prim_arity(self) ==> arrow_count(ty) == 0,
                index <= prim_arity(self) ==> curried(
                    ty,
                    prim_signature(self).0.skip(index as int),
                    prim_signature(self).1,
                ),
                prim_signature(self).0.len() == prim_arity(self),
                index >= prim_arity(self) ==> curried(ty, Seq::empty(), prim_signature(self).1),
            decreases applied - index,
        {
            proof {
                if index < prim_arity(self) {
                    let rest = prim_signature(self).0.skip(index as int);
                    lemma_curried_peel(ty, rest, prim_signature(self).1);
                    assert(rest.drop_first() =~= prim_signature(self).0.skip(index + 1));
                    if index + 1 == prim_arity(self) {
                        assert(prim_signature(self).0.skip(index + 1) =~= Seq::<TypeShape>::empty());
                    }
                }
            }
            let next = match &ty {
                CompType::Arrow(_, res) => copy_comp_type(res),
                _ => {
                    return ty;
                },
            };
            ty = next;
            index = index + 1;
        }
        ty
    }

    /// Applies the saturated primitive to its arguments. Total: an argument
    /// of the wrong shape makes the result a gradual hole. Floating-point
    /// addition, subtraction and multiplication go through `floats`.
    pub fn apply<F: FloatArith>(self, args: &[Rc<Value>], floats: &F) -> (c: Comp)
        ensures
            self == NativePrim::Id ==> c == (if args@.len() == 1 {
                Comp::Ret(args@[0])
            } else {
                Comp::Hole(0)
            }),
            self == NativePrim::Const ==> c == (if args@.len() == 2 {
                Comp::Ret(args@[0])
            } else {
                Comp::Hole(0)
            }),
            self == NativePrim::Add ==> numeric_binary_outcome(args@, ArithOp::Add, c),
            self == NativePrim::Sub ==> numeric_binary_outcome(args@, ArithOp::Sub, c),
            self == NativePrim::Mul ==> numeric_binary_outcome(args@, ArithOp::Mul, c),
            self == NativePrim::Eq ==> numeric_compare_args_outcome(args@, CompareOp::Eq, c),
            self == NativePrim::Ne ==> numeric_compare_args_outcome(args@, CompareOp::Ne, c),
            self == NativePrim::Lt ==> numeric_compare_args_outcome(args@, CompareOp::Lt, c),
            self == NativePrim::Le ==> numeric_compare_args_outcome(args@, CompareOp::Le, c),
            self == NativePrim::Gt ==> numeric_compare_args_outcome(args@, CompareOp::Gt, c),
            self == NativePrim::Ge ==> numeric_compare_args_outcome(args@, CompareOp::Ge, c),
            self == NativePrim::And ==> bool_binary_outcome(args@, true, c),
            self == NativePrim::Or ==> bool_binary_outcome(args@, false, c),
            self == NativePrim::Neg ==> numeric_unary_outcome(args@, c),
            self == NativePrim::ListConcat ==> list_concat_outcome(args@, c),
            self == NativePrim::Each ==> native_each_outcome(args@, c),
            self == NativePrim::Where ==> native_where_outcome(args@, c),
            self == NativePrim::Reduce ==> native_reduce_outcome(args@, c),
            self == NativePrim::Any ==> native_any_outcome(args@, c),
            self == NativePrim::All ==> native_all_outcome(args@, c),
            self == NativePrim::Flatten ==> native_flatten_outcome(args@, c),
            self == NativePrim::Uniq ==> native_uniq_outcome(args@, c),
            self == NativePrim::Sort ==> native_sort_outcome(args@, c),
            self == NativePrim::Get ==> native_get_outcome(args@, c),
            self == NativePrim::Insert ==> native_insert_outcome(args@, c),
            self == NativePrim::RecordUpdate ==> native_record_update_outcome(args@, c),
            self == NativePrim::SetIndex ==> native_set_outcome(args@, c),
            self == NativePrim::UpdateAt ==> native_update_at_outcome(args@, c),
            self == NativePrim::InsertAt ==> native_insert_at_outcome(args@, c),
            self == NativePrim::RemoveAt ==> native_remove_at_outcome(args@, c),
            self == NativePrim::Push ==> native_push_outcome(args@, c),
            self == NativePrim::UpdateWhere ==> native_update_where_outcome(args@, c),
            self == NativePrim::StringEscape ==> native_string_escape_outcome(args@, c),
            self == NativePrim::StringContains ==> native_string_predicate_outcome(args@, StringTest::Contains, c),
            self == NativePrim::StringStartsWith ==> native_string_predicate_outcome(args@, StringTest::StartsWith, c),
            self == NativePrim::StringEndsWith ==> native_string_predicate_outcome(args@, StringTest::EndsWith, c),
            self == NativePrim::StringEq ==> native_string_predicate_outcome(args@, StringTest::Equals, c),
            self == NativePrim::StringSplit ==> native_string_split_outcome(args@, c),
            self == NativePrim::RegexExtract ==> native_regex_extract_outcome(args@, c),
            self == NativePrim::PathJoin ==> native_path_join_outcome(args@, c),
            self == NativePrim::PathBasename ==> native_path_basename_outcome(args@, c),
            self == NativePrim::PathExtension ==> native_path_extension_outcome(args@, c),
    {
        match self {
            NativePrim::Id => match one_arg(args) {
                Some(value) => Comp::Ret(value),
                None => Comp::hole(0),
            },
            NativePrim::Const => match two_args(args) {
                Some((first, _second)) => Comp::Ret(first),
                None => Comp::hole(0),
            },
            NativePrim::Add => numeric_binary(args, ArithOp::Add, floats),
            NativePrim::Sub => numeric_binary(args, ArithOp::Sub, floats),
            NativePrim::Mul => numeric_binary(args, ArithOp::Mul, floats),
            NativePrim::Eq => numeric_compare_args(args, CompareOp::Eq),
            NativePrim::Ne => numeric_compare_args(args, CompareOp::Ne),
            NativePrim::Lt => numeric_compare_args(args, CompareOp::Lt),
            NativePrim::Le => numeric_compare_args(args, CompareOp::Le),
            NativePrim::Gt => numeric_compare_args(args, CompareOp::Gt),
            NativePrim::Ge => numeric_compare_args(args, CompareOp::Ge),
            NativePrim::And => bool_binary(args, true),
            NativePrim::Or => bool_binary(args, false),
            NativePrim::Neg => numeric_unary(args),
            NativePrim::ListConcat => list_concat(args),
            NativePrim::Each => native_each(args),
            NativePrim::Where => native_where(args),
            NativePrim::Reduce => native_reduce(args),
            NativePrim::Any => native_any(args),
            NativePrim::All => native_all(args),
            NativePrim::Flatten => native_flatten(args),
            NativePrim::Uniq => native_uniq(args),
            NativePrim::Sort => native_sort(args),
            NativePrim::Get => native_get(args),
            NativePrim::Insert => native_insert(args),
            NativePrim::RecordUpdate => native_record_update(args),
            NativePrim::SetIndex => native_set(args),
            NativePrim::UpdateAt => native_update_at(args),
            NativePrim::InsertAt => native_insert_at(args),
            NativePrim::RemoveAt => native_remove_at(args),
            NativePrim::Push => native_push(args),
            NativePrim::UpdateWhere => native_update_where(args),
            NativePrim::StringEscape => native_string_escape(args),
            NativePrim::StringContains => native_string_predicate(args, StringTest::Contains),
            NativePrim::StringStartsWith => native_string_predicate(args, StringTest::StartsWith),
            NativePrim::StringEndsWith => native_string_predicate(args, StringTest::EndsWith),
            NativePrim::StringEq => native_string_predicate(args, StringTest::Equals),
            NativePrim::StringSplit => native_string_split(args),
            NativePrim::RegexExtract => native_regex_extract(args),
            NativePrim::PathJoin => native_path_join(args),
            NativePrim::PathBasename => native_path_basename(args),
            NativePrim::PathExtension => native_path_extension(args),
        }
    }
}


/// Floating-point arithmetic over IEEE bit patterns, supplied by the caller:
/// the library stores floating-point literals as bits, compares and negates
/// them on those bits itself, and leaves their addition, subtraction and
/// multiplication to an implementation of this trait.
pub trait FloatArith {
    /// Single-precision addition.
    fn add32(&self, lhs: u32, rhs: u32) -> u32;
    /// Single-precision subtraction.
    fn sub32(&self, lhs: u32, rhs: u32) -> u32;
    /// Single-precision multiplication.
    fn mul32(&self, lhs: u32, rhs: u32) -> u32;
    /// Single-precision negation.
    fn neg32(&self, value: u32) -> u32;
    /// Single-precision equality.
    fn eq32(&self, lhs: u32, rhs: u32) -> bool;
    /// Single-precision `<`.
    fn lt32(&self, lhs: u32, rhs: u32) -> bool;
    /// Single-precision `<=`.
    fn le32(&self, lhs: u32, rhs: u32) -> bool;
    /// Double-precision addition.
    fn add64(&self, lhs: u64, rhs: u64) -> u64;
    /// Double-precision subtraction.
    fn sub64(&self, lhs: u64, rhs: u64) -> u64;
    /// Double-precision multiplication.
    fn mul64(&self, lhs: u64, rhs: u64) -> u64;
    /// Double-precision negation.
    fn neg64(&self, value: u64) -> u64;
    /// Double-precision equality.
    fn eq64(&self, lhs: u64, rhs: u64) -> bool;
    /// Double-precision `<`.
    fn lt64(&self, lhs: u64, rhs: u64) -> bool;
    /// Double-precision `<=`.
    fn le64(&self, lhs: u64, rhs: u64) -> bool;
}

/// A value with its outer type ascriptions stripped.
pub open spec fn stripped(v: Value) -> Value
    decreases v,
{
    match v {
        Value::Annot(inner, _) => stripped(*inner),
        _ => v,
    }
}

/// A handle to the value beneath any outer type ascriptions.
pub fn unannotated(value: &Rc<Value>) -> (r: Rc<Value>)
    ensures
        *r == stripped(**value),
    decreases **value,
{
    match &**value {
        Value::Annot(inner, _) => unannotated(inner),
        _ => share(value),
    }
}

/// Exactly one argument.
pub fn one_arg(args: &[Rc<Value>]) -> (r: Option<Rc<Value>>)
    ensures
        args@.len() == 1 ==> r == Some(args@[0]),
        args@.len() != 1 ==> r is None,
{
    if args.len() == 1 {
        Some(share(&args[0]))
    } else {
        None
    }
}

/// Exactly two arguments.
pub fn two_args(args: &[Rc<Value>]) -> (r: Option<(Rc<Value>, Rc<Value>)>)
    ensures
        args@.len() == 2 ==> r == Some((args@[0], args@[1])),
        args@.len() != 2 ==> r is None,
{
    if args.len() == 2 {
        Some((share(&args[0]), share(&args[1])))
    } else {
        None
    }
}

/// Exactly three arguments.
pub fn three_args(args: &[Rc<Value>]) -> (r: Option<(Rc<Value>, Rc<Value>, Rc<Value>)>)
    ensures
        args@.len() == 3 ==> r == Some((args@[0], args@[1], args@[2])),
        args@.len() != 3 ==> r is None,
{
    if args.len() == 3 {
        Some((share(&args[0]), share(&args[1]), share(&args[2])))
    } else {
        None
    }
}

/// The canonical boolean a value denotes: `inj1 ()` is true, `inj2 ()` is
/// false, ignoring ascriptions.
pub open spec fn bool_of(v: Value) -> Option<bool> {
    match stripped(v) {
        Value::Inj(side, payload) => if stripped(*payload) == Value::Unit {
            Some(side == Side::Fst)
        } else {
            None
        },
        _ => None,
    }
}

/// Reads a canonical boolean value, ignoring source annotations.
pub fn as_bool(value: &Rc<Value>) -> (r: Option<bool>)
    ensures
        r == bool_of(**value),
{
    let bare = unannotated(value);
    match &*bare {
        Value::Inj(side, payload) => {
            let inner = unannotated(payload);
            match &*inner {
                Value::Unit => Some(*side == Side::Fst),
                _ => None,
            }
        },
        _ => None,
    }
}

/// The canonical annotated boolean value (`true = inj1 ()`, `false = inj2 ()`)
/// as a spec.
pub open spec fn bool_value_spec(b: bool) -> Value {
    Value::Annot(
        Rc::new(Value::Inj(if b { Side::Fst } else { Side::Snd }, Rc::new(Value::Unit))),
        Rc::new(ValueType::Sum(Rc::new(ValueType::Unit), Rc::new(ValueType::Unit))),
    )
}

/// Builds the canonical annotated boolean value.
pub fn bool_value(b: bool) -> (v: Value)
    ensures
        v == bool_value_spec(b),
{
    let inj = if b {
        Value::inj1(Value::Unit)
    } else {
        Value::inj2(Value::Unit)
    };
    Value::annot(inj, bool_type())
}

/// A canonical boolean returner `ret b`.
pub fn ret_bool(b: bool) -> (c: Comp)
    ensures
        c == Comp::Ret(Rc::new(bool_value_spec(b))),
{
    Comp::ret(bool_value(b))
}

/// The `Optional` value `Some payload` (`inj1 payload : ? + 1`).
pub fn option_some(payload: Rc<Value>) -> (v: Value)
    ensures
        v == Value::Annot(
            Rc::new(Value::Inj(Side::Fst, payload)),
            Rc::new(ValueType::Sum(Rc::new(ValueType::Unknown), Rc::new(ValueType::Unit))),
        ),
{
    Value::Annot(Rc::new(Value::Inj(Side::Fst, payload)), Rc::new(option_type()))
}

/// The `Optional` value `None` (`inj2 () : ? + 1`).
pub fn option_none() -> (v: Value)
    ensures
        v == Value::Annot(
            Rc::new(Value::Inj(Side::Snd, Rc::new(Value::Unit))),
            Rc::new(ValueType::Sum(Rc::new(ValueType::Unknown), Rc::new(ValueType::Unit))),
        ),
{
    Value::annot(Value::inj2(Value::Unit), option_type())
}

/// The arithmetic a numeric primitive performs.
#[derive(Clone, Copy, Debug, PartialEq, Eq, Structural)]
pub enum ArithOp {
    /// Addition.
    Add,
    /// Subtraction.
    Sub,
    /// Multiplication.
    Mul,
}

/// The comparison a numeric predicate performs.
#[derive(Clone, Copy, Debug, PartialEq, Eq, Structural)]
pub enum CompareOp {
    /// `==`.
    Eq,
    /// `!=`.
    Ne,
    /// `<`.
    Lt,
    /// `<=`.
    Le,
    /// `>`.
    Gt,
    /// `>=`.
    Ge,
}

/// The exact integer result of an arithmetic operation.
pub open spec fn arith(op: ArithOp, lhs: int, rhs: int) -> int {
    match op {
        ArithOp::Add => lhs + rhs,
        ArithOp::Sub => lhs - rhs,
        ArithOp::Mul => lhs * rhs,
    }
}

/// The truth of an integer comparison.
pub open spec fn compares(op: CompareOp, lhs: int, rhs: int) -> bool {
    match op {
        CompareOp::Eq => lhs == rhs,
        CompareOp::Ne => lhs != rhs,
        CompareOp::Lt => lhs < rhs,
        CompareOp::Le => lhs <= rhs,
        CompareOp::Gt => lhs > rhs,
        CompareOp::Ge => lhs >= rhs,
    }
}

/// The result of an integer-tagged arithmetic on two numeric literals of the
/// same integer tag: the exact result when it fits the tag, and `None` on
/// overflow, a tag mismatch, or a floating-point tag.
pub open spec fn int_arith(op: ArithOp, lhs: NumLit, rhs: NumLit) -> Option<NumLit> {
    match (lhs, rhs) {
        (NumLit::U32(a), NumLit::U32(b)) => {
            let r = arith(op, a as int, b as int);
            if 0 <= r <= u32::MAX { Some(NumLit::U32(r as u32)) } else { None }
        },
        (NumLit::U64(a), NumLit::U64(b)) => {
            let r = arith(op, a as int, b as int);
            if 0 <= r <= u64::MAX { Some(NumLit::U64(r as u64)) } else { None }
        },
        (NumLit::I32(a), NumLit::I32(b)) => {
            let r = arith(op, a as int, b as int);
            if i32::MIN <= r <= i32::MAX { Some(NumLit::I32(r as i32)) } else { None }
        },
        (NumLit::I64(a), NumLit::I64(b)) => {
            let r = arith(op, a as int, b as int);
            if i64::MIN <= r <= i64::MAX { Some(NumLit::I64(r as i64)) } else { None }
        },
        _ => None,
    }
}

/// Checked `u32` arithmetic.
fn checked_u32(op: ArithOp, a: u32, b: u32) -> (r: Option<u32>)
    ensures
        (0 <= arith(op, a as int, b as int) <= u32::MAX) ==> r == Some(arith(op, a as int, b as int) as u32),
        !(0 <= arith(op, a as int, b as int) <= u32::MAX) ==> r is None,
{
    match op {
        ArithOp::Add => a.checked_add(b),
        ArithOp::Sub => a.checked_sub(b),
        ArithOp::Mul => a.checked_mul(b),
    }
}

/// Checked `u64` arithmetic.
fn checked_u64(op: ArithOp, a: u64, b: u64) -> (r: Option<u64>)
    ensures
        (0 <= arith(op, a as int, b as int) <= u64::MAX) ==> r == Some(arith(op, a as int, b as int) as u64),
        !(0 <= arith(op, a as int, b as int) <= u64::MAX) ==> r is None,
{
    match op {
        ArithOp::Add => a.checked_add(b),
        ArithOp::Sub => a.checked_sub(b),
        ArithOp::Mul => a.checked_mul(b),
    }
}

/// Checked `i32` arithmetic.
fn checked_i32(op: ArithOp, a: i32, b: i32) -> (r: Option<i32>)
    ensures
        (i32::MIN <= arith(op, a as int, b as int) <= i32::MAX) ==> r == Some(arith(op, a as int, b as int) as i32),
        !(i32::MIN <= arith(op, a as int, b as int) <= i32::MAX) ==> r is None,
{
    match op {
        ArithOp::Add => a.checked_add(b),
        ArithOp::Sub => a.checked_sub(b),
        ArithOp::Mul => a.checked_mul(b),
    }
}

/// Checked `i64` arithmetic.
pub fn checked_i64(op: ArithOp, a: i64, b: i64) -> (r: Option<i64>)
    ensures
        (i64::MIN <= arith(op, a as int, b as int) <= i64::MAX) ==> r == Some(arith(op, a as int, b as int) as i64),
        !(i64::MIN <= arith(op, a as int, b as int) <= i64::MAX) ==> r is None,
{
    match op {
        ArithOp::Add => a.checked_add(b),
        ArithOp::Sub => a.checked_sub(b),
        ArithOp::Mul => a.checked_mul(b),
    }
}

/// Same-tag arithmetic on two numeric literals: the integer tags are exact
/// and checked; the floating-point tags go through `floats`; a tag mismatch
/// is `None`.
pub fn num_arith<F: FloatArith>(op: ArithOp, lhs: NumLit, rhs: NumLit, floats: &F) -> (r: Option<NumLit>)
    ensures
        !(lhs is F32 && rhs is F32) && !(lhs is F64 && rhs is F64) ==> r == int_arith(op, lhs, rhs),
        lhs is F32 && rhs is F32 ==> r matches Some(NumLit::F32(_)),
        lhs is F64 && rhs is F64 ==> r matches Some(NumLit::F64(_)),
{
    match (lhs, rhs) {
        (NumLit::U32(a), NumLit::U32(b)) => match checked_u32(op, a, b) {
            Some(v) => Some(NumLit::U32(v)),
            None => None,
        },
        (NumLit::U64(a), NumLit::U64(b)) => match checked_u64(op, a, b) {
            Some(v) => Some(NumLit::U64(v)),
            None => None,
        },
        (NumLit::I32(a), NumLit::I32(b)) => match checked_i32(op, a, b) {
            Some(v) => Some(NumLit::I32(v)),
            None => None,
        },
        (NumLit::I64(a), NumLit::I64(b)) => match checked_i64(op, a, b) {
            Some(v) => Some(NumLit::I64(v)),
            None => None,
        },
        (NumLit::F32(a), NumLit::F32(b)) => Some(
            NumLit::F32(
                match op {
                    ArithOp::Add => floats.add32(a, b),
                    ArithOp::Sub => floats.sub32(a, b),
                    ArithOp::Mul => floats.mul32(a, b),
                },
            ),
        ),
        (NumLit::F64(a), NumLit::F64(b)) => Some(
            NumLit::F64(
                match op {
                    ArithOp::Add => floats.add64(a, b),
                    ArithOp::Sub => floats.sub64(a, b),
                    ArithOp::Mul => floats.mul64(a, b),
                },
            ),
        ),
        _ => None,
    }
}

/// Same-tag addition of two numeric literals.
pub fn num_add<F: FloatArith>(lhs: NumLit, rhs: NumLit, floats: &F) -> (r: Option<NumLit>)
    ensures
        !(lhs is F32 && rhs is F32) && !(lhs is F64 && rhs is F64) ==> r == int_arith(ArithOp::Add, lhs, rhs),
{
    num_arith(ArithOp::Add, lhs, rhs, floats)
}

/// Same-tag subtraction of two numeric literals.
pub fn num_sub<F: FloatArith>(lhs: NumLit, rhs: NumLit, floats: &F) -> (r: Option<NumLit>)
    ensures
        !(lhs is F32 && rhs is F32) && !(lhs is F64 && rhs is F64) ==> r == int_arith(ArithOp::Sub, lhs, rhs),
{
    num_arith(ArithOp::Sub, lhs, rhs, floats)
}

/// Same-tag multiplication of two numeric literals.
pub fn num_mul<F: FloatArith>(lhs: NumLit, rhs: NumLit, floats: &F) -> (r: Option<NumLit>)
    ensures
        !(lhs is F32 && rhs is F32) && !(lhs is F64 && rhs is F64) ==> r == int_arith(ArithOp::Mul, lhs, rhs),
{
    num_arith(ArithOp::Mul, lhs, rhs, floats)
}

/// The negation of a numeric literal without changing its tag, for the
/// integer tags: `None` when the negation does not fit (every non-zero
/// unsigned value, and the signed minimum).
pub open spec fn int_neg(value: NumLit) -> Option<NumLit> {
    match value {
        NumLit::U32(v) => if v == 0 { Some(NumLit::U32(0)) } else { None },
        NumLit::U64(v) => if v == 0 { Some(NumLit::U64(0)) } else { None },
        NumLit::I32(v) => if v == i32::MIN { None } else { Some(NumLit::I32(-v as i32)) },
        NumLit::I64(v) => if v == i64::MIN { None } else { Some(NumLit::I64(-v as i64)) },
        _ => None,
    }
}

/// The negation of a numeric literal without changing its tag; a
/// floating-point literal has its sign bit flipped, as IEEE negation does.
pub open spec fn lit_neg(value: NumLit) -> Option<NumLit> {
    match value {
        NumLit::F32(v) => Some(NumLit::F32(v ^ 0x8000_0000u32)),
        NumLit::F64(v) => Some(NumLit::F64(v ^ 0x8000_0000_0000_0000u64)),
        _ => int_neg(value),
    }
}

/// Negates one numeric literal without changing its tag.
pub fn num_neg(value: NumLit) -> (r: Option<NumLit>)
    ensures
        !(value is F32) && !(value is F64) ==> r == int_neg(value),
        value is F32 ==> r matches Some(NumLit::F32(_)),
        value is F64 ==> r matches Some(NumLit::F64(_)),
        r == lit_neg(value),
{
    match value {
        NumLit::U32(v) => if v == 0 { Some(NumLit::U32(0)) } else { None },
        NumLit::U64(v) => if v == 0 { Some(NumLit::U64(0)) } else { None },
        NumLit::I32(v) => if v == i32::MIN { None } else { Some(NumLit::I32(-v)) },
        NumLit::I64(v) => if v == i64::MIN { None } else { Some(NumLit::I64(-v)) },
        NumLit::F32(v) => Some(NumLit::F32(v ^ 0x8000_0000u32)),
        NumLit::F64(v) => Some(NumLit::F64(v ^ 0x8000_0000_0000_0000u64)),
    }
}

/// The truth of a same-tag comparison of two integer-tagged literals; `None`
/// on a tag mismatch or a floating-point tag.
pub open spec fn int_compare(op: CompareOp, lhs: NumLit, rhs: NumLit) -> Option<bool> {
    match (lhs, rhs) {
        (NumLit::U32(a), NumLit::U32(b)) => Some(compares(op, a as int, b as int)),
        (NumLit::U64(a), NumLit::U64(b)) => Some(compares(op, a as int, b as int)),
        (NumLit::I32(a), NumLit::I32(b)) => Some(compares(op, a as int, b as int)),
        (NumLit::I64(a), NumLit::I64(b)) => Some(compares(op, a as int, b as int)),
        _ => None,
    }
}

/// Compares two integers.
fn compare_ints(op: CompareOp, a: i64, b: i64) -> (r: bool)
    ensures
        r == compares(op, a as int, b as int),
{
    match op {
        CompareOp::Eq => a == b,
        CompareOp::Ne => a != b,
        CompareOp::Lt => a < b,
        CompareOp::Le => a <= b,
        CompareOp::Gt => a > b,
        CompareOp::Ge => a >= b,
    }
}

/// Compares two unsigned words.
fn compare_words(op: CompareOp, a: u64, b: u64) -> (r: bool)
    ensures
        r == compares(op, a as int, b as int),
{
    match op {
        CompareOp::Eq => a == b,
        CompareOp::Ne => a != b,
        CompareOp::Lt => a < b,
        CompareOp::Le => a <= b,
        CompareOp::Gt => a > b,
        CompareOp::Ge => a >= b,
    }
}

/// The IEEE single-precision bit pattern `a` is a NaN: every exponent bit
/// set and a non-zero fraction.
pub open spec fn f32_is_nan(a: u32) -> bool {
    (a >> 23u32) & 0xffu32 == 0xffu32 && a & 0x7f_ffffu32 != 0
}

/// The single-precision bit pattern `a` is a zero of either sign.
pub open spec fn f32_is_zero(a: u32) -> bool {
    a & 0x7fff_ffffu32 == 0
}

/// The position of a single-precision bit pattern on the number line, as an
/// unsigned key: negative patterns are inverted, non-negative ones get the
/// top bit, so that keys of numbers grow with the numbers.
pub open spec fn f32_key(a: u32) -> u32 {
    if a >> 31u32 == 1 {
        !a
    } else {
        a | 0x8000_0000u32
    }
}

/// IEEE `<` on single-precision bit patterns: false when either side is a
/// NaN, and the two zeros are not ordered.
pub open spec fn f32_lt(a: u32, b: u32) -> bool {
    !f32_is_nan(a) && !f32_is_nan(b) && !(f32_is_zero(a) && f32_is_zero(b)) && f32_key(a) < f32_key(
        b,
    )
}

/// IEEE `==` on single-precision bit patterns: a NaN equals nothing, and the
/// two zeros are equal.
pub open spec fn f32_eq(a: u32, b: u32) -> bool {
    !f32_is_nan(a) && !f32_is_nan(b) && (a == b || (f32_is_zero(a) && f32_is_zero(b)))
}

/// The double-precision bit pattern `a` is a NaN.
pub open spec fn f64_is_nan(a: u64) -> bool {
    (a >> 52u64) & 0x7ffu64 == 0x7ffu64 && a & 0xf_ffff_ffff_ffffu64 != 0
}

/// The double-precision bit pattern `a` is a zero of either sign.
pub open spec fn f64_is_zero(a: u64) -> bool {
    a & 0x7fff_ffff_ffff_ffffu64 == 0
}

/// The position of a double-precision bit pattern on the number line, as an
/// unsigned key.
pub open spec fn f64_key(a: u64) -> u64 {
    if a >> 63u64 == 1 {
        !a
    } else {
        a | 0x8000_0000_0000_0000u64
    }
}

/// IEEE `<` on double-precision bit patterns.
pub open spec fn f64_lt(a: u64, b: u64) -> bool {
    !f64_is_nan(a) && !f64_is_nan(b) && !(f64_is_zero(a) && f64_is_zero(b)) && f64_key(a) < f64_key(
        b,
    )
}

/// IEEE `==` on double-precision bit patterns.
pub open spec fn f64_eq(a: u64, b: u64) -> bool {
    !f64_is_nan(a) && !f64_is_nan(b) && (a == b || (f64_is_zero(a) && f64_is_zero(b)))
}

/// The truth of an IEEE single-precision comparison.
pub open spec fn f32_compares(op: CompareOp, a: u32, b: u32) -> bool {
    match op {
        CompareOp::Eq => f32_eq(a, b),
        CompareOp::Ne => !f32_eq(a, b),
        CompareOp::Lt => f32_lt(a, b),
        CompareOp::Le => f32_lt(a, b) || f32_eq(a, b),
        CompareOp::Gt => f32_lt(b, a),
        CompareOp::Ge => f32_lt(b, a) || f32_eq(b, a),
    }
}

/// The truth of an IEEE double-precision comparison.
pub open spec fn f64_compares(op: CompareOp, a: u64, b: u64) -> bool {
    match op {
        CompareOp::Eq => f64_eq(a, b),
        CompareOp::Ne => !f64_eq(a, b),
        CompareOp::Lt => f64_lt(a, b),
        CompareOp::Le => f64_lt(a, b) || f64_eq(a, b),
        CompareOp::Gt => f64_lt(b, a),
        CompareOp::Ge => f64_lt(b, a) || f64_eq(b, a),
    }
}

/// The truth of a same-tag comparison of two numeric literals, the
/// floating-point tags included; `None` on a tag mismatch.
pub open spec fn lit_compare(op: CompareOp, lhs: NumLit, rhs: NumLit) -> Option<bool> {
    match (lhs, rhs) {
        (NumLit::F32(a), NumLit::F32(b)) => Some(f32_compares(op, a, b)),
        (NumLit::F64(a), NumLit::F64(b)) => Some(f64_compares(op, a, b)),
        _ => int_compare(op, lhs, rhs),
    }
}

/// The single-precision order is the IEEE one: a NaN is unordered and
/// unequal to everything, itself included; the two zeros are equal; among
/// non-negative numbers the order is that of the bit patterns, among negative
/// ones it is the reverse, and every number below zero is below every one
/// that is not; of two numbers that are not NaN exactly one is below, equal
/// to, or above the other.
pub proof fn lemma_f32_order(a: u32, b: u32)
    ensures
        f32_is_nan(a) ==> !f32_compares(CompareOp::Lt, a, b) && !f32_compares(CompareOp::Le, a, b)
            && !f32_compares(CompareOp::Gt, a, b) && !f32_compares(CompareOp::Ge, a, b)
            && !f32_compares(CompareOp::Eq, a, b) && f32_compares(CompareOp::Ne, a, b),
        f32_is_zero(a) && f32_is_zero(b) ==> f32_compares(CompareOp::Eq, a, b) && !f32_compares(
            CompareOp::Lt,
            a,
            b,
        ),
        !f32_is_nan(a) && !f32_is_nan(b) && a >> 31u32 == 0 && b >> 31u32 == 0 ==> f32_compares(
            CompareOp::Lt,
            a,
            b,
        ) == (a < b) && f32_compares(CompareOp::Eq, a, b) == (a == b),
        !f32_is_nan(a) && !f32_is_nan(b) && a >> 31u32 == 1 && b >> 31u32 == 1 ==> f32_compares(
            CompareOp::Lt,
            a,
            b,
        ) == (b < a),
        !f32_is_nan(a) && !f32_is_nan(b) && a >> 31u32 == 1 && b >> 31u32 == 0 && !(f32_is_zero(a)
            && f32_is_zero(b)) ==> f32_compares(CompareOp::Lt, a, b),
        !f32_is_nan(a) && !f32_is_nan(b) ==> {
            let lt = f32_compares(CompareOp::Lt, a, b);
            let eq = f32_compares(CompareOp::Eq, a, b);
            let gt = f32_compares(CompareOp::Gt, a, b);
            &&& lt || eq || gt
            &&& !(lt && eq) && !(lt && gt) && !(eq && gt)
        },
{
    let m: u32 = 0x8000_0000u32;
    assert(a >> 31u32 == 0 && b >> 31u32 == 0 ==> ((a | m) < (b | m)) == (a < b)) by (bit_vector)
        requires
            m == 0x8000_0000u32,
    ;
    assert(a >> 31u32 == 1 && b >> 31u32 == 1 ==> (!a < !b) == (b < a)) by (bit_vector);
    assert(a >> 31u32 == 1 && b >> 31u32 == 0 ==> !a < (b | m)) by (bit_vector)
        requires
            m == 0x8000_0000u32,
    ;
    assert(b >> 31u32 == 1 && a >> 31u32 == 0 ==> !b < (a | m)) by (bit_vector)
        requires
            m == 0x8000_0000u32,
    ;
    assert(a >> 31u32 == 0 || a >> 31u32 == 1) by (bit_vector);
    assert(b >> 31u32 == 0 || b >> 31u32 == 1) by (bit_vector);
    assert(a >> 31u32 == 0 && a & 0x7fff_ffffu32 == 0 ==> a == 0) by (bit_vector);
    assert(b >> 31u32 == 0 && b & 0x7fff_ffffu32 == 0 ==> b == 0) by (bit_vector);
    assert(a & 0x7fff_ffffu32 == 0 ==> !((a >> 23u32) & 0xffu32 == 0xffu32 && a & 0x7f_ffffu32 != 0))
        by (bit_vector);
    assert(b & 0x7fff_ffffu32 == 0 ==> !((b >> 23u32) & 0xffu32 == 0xffu32 && b & 0x7f_ffffu32 != 0))
        by (bit_vector);
    assert(a >> 31u32 == 0 && b >> 31u32 == 0 && (a | m) == (b | m) ==> a == b) by (bit_vector)
        requires
            m == 0x8000_0000u32,
    ;
    assert(!a == !b ==> a == b) by (bit_vector);
    assert(a >> 31u32 == 1 && a & 0x7fff_ffffu32 == 0 && b >> 31u32 == 1 && b & 0x7fff_ffffu32 == 0
        ==> a == b) by (bit_vector);
}

/// The double-precision order is the IEEE one, in the same terms as the
/// single-precision order.
pub proof fn lemma_f64_order(a: u64, b: u64)
    ensures
        f64_is_nan(a) ==> !f64_compares(CompareOp::Lt, a, b) && !f64_compares(CompareOp::Le, a, b)
            && !f64_compares(CompareOp::Gt, a, b) && !f64_compares(CompareOp::Ge, a, b)
            && !f64_compares(CompareOp::Eq, a, b) && f64_compares(CompareOp::Ne, a, b),
        f64_is_zero(a) && f64_is_zero(b) ==> f64_compares(CompareOp::Eq, a, b) && !f64_compares(
            CompareOp::Lt,
            a,
            b,
        ),
        !f64_is_nan(a) && !f64_is_nan(b) && a >> 63u64 == 0 && b >> 63u64 == 0 ==> f64_compares(
            CompareOp::Lt,
            a,
            b,
        ) == (a < b) && f64_compares(CompareOp::Eq, a, b) == (a == b),
        !f64_is_nan(a) && !f64_is_nan(b) && a >> 63u64 == 1 && b >> 63u64 == 1 ==> f64_compares(
            CompareOp::Lt,
            a,
            b,
        ) == (b < a),
        !f64_is_nan(a) && !f64_is_nan(b) && a >> 63u64 == 1 && b >> 63u64 == 0 && !(f64_is_zero(a)
            && f64_is_zero(b)) ==> f64_compares(CompareOp::Lt, a, b),
        !f64_is_nan(a) && !f64_is_nan(b) ==> {
            let lt = f64_compares(CompareOp::Lt, a, b);
            let eq = f64_compares(CompareOp::Eq, a, b);
            let gt = f64_compares(CompareOp::Gt, a, b);
            &&& lt || eq || gt
            &&& !(lt && eq) && !(lt && gt) && !(eq && gt)
        },
{
    let m: u64 = 0x8000_0000_0000_0000u64;
    assert(a >> 63u64 == 0 && b >> 63u64 == 0 ==> ((a | m) < (b | m)) == (a < b)) by (bit_vector)
        requires
            m == 0x8000_0000_0000_0000u64,
    ;
    assert(a >> 63u64 == 1 && b >> 63u64 == 1 ==> (!a < !b) == (b < a)) by (bit_vector);
    assert(a >> 63u64 == 1 && b >> 63u64 == 0 ==> !a < (b | m)) by (bit_vector)
        requires
            m == 0x8000_0000_0000_0000u64,
    ;
    assert(b >> 63u64 == 1 && a >> 63u64 == 0 ==> !b < (a | m)) by (bit_vector)
        requires
            m == 0x8000_0000_0000_0000u64,
    ;
    assert(a >> 63u64 == 0 || a >> 63u64 == 1) by (bit_vector);
    assert(b >> 63u64 == 0 || b >> 63u64 == 1) by (bit_vector);
    assert(a >> 63u64 == 0 && a & 0x7fff_ffff_ffff_ffffu64 == 0 ==> a == 0) by (bit_vector);
    assert(b >> 63u64 == 0 && b & 0x7fff_ffff_ffff_ffffu64 == 0 ==> b == 0) by (bit_vector);
    assert(a & 0x7fff_ffff_ffff_ffffu64 == 0 ==> !((a >> 52u64) & 0x7ffu64 == 0x7ffu64 && a
        & 0xf_ffff_ffff_ffffu64 != 0)) by (bit_vector);
    assert(b & 0x7fff_ffff_ffff_ffffu64 == 0 ==> !((b >> 52u64) & 0x7ffu64 == 0x7ffu64 && b
        & 0xf_ffff_ffff_ffffu64 != 0)) by (bit_vector);
    assert(a >> 63u64 == 0 && b >> 63u64 == 0 && (a | m) == (b | m) ==> a == b) by (bit_vector)
        requires
            m == 0x8000_0000_0000_0000u64,
    ;
    assert(!a == !b ==> a == b) by (bit_vector);
    assert(a >> 63u64 == 1 && a & 0x7fff_ffff_ffff_ffffu64 == 0 && b >> 63u64 == 1 && b
        & 0x7fff_ffff_ffff_ffffu64 == 0 ==> a == b) by (bit_vector);
}

/// Two calls of a numeric comparison mirror each other, whatever the
/// arguments: `x > y` answers as `y < x`, `x >= y` as `y <= x`, and
/// `x != y` answers the negation of `x == y` (a gradual hole for both where
/// the arguments are not comparable).
pub proof fn lemma_compare_mirror(
    x: Rc<Value>,
    y: Rc<Value>,
    gt: Comp,
    lt: Comp,
    ge: Comp,
    le: Comp,
    eq: Comp,
    ne: Comp,
)
    requires
        numeric_compare_args_outcome(seq![x, y], CompareOp::Gt, gt),
        numeric_compare_args_outcome(seq![y, x], CompareOp::Lt, lt),
        numeric_compare_args_outcome(seq![x, y], CompareOp::Ge, ge),
        numeric_compare_args_outcome(seq![y, x], CompareOp::Le, le),
        numeric_compare_args_outcome(seq![x, y], CompareOp::Eq, eq),
        numeric_compare_args_outcome(seq![x, y], CompareOp::Ne, ne),
    ensures
        gt == lt,
        ge == le,
        eq == Comp::Hole(0) <==> ne == Comp::Hole(0),
        forall|t: bool| eq == Comp::Ret(Rc::new(#[trigger] bool_value_spec(t))) ==> ne == Comp::Ret(
            Rc::new(bool_value_spec(!t)),
        ),
{
}

/// IEEE `<` on single-precision bit patterns.
fn lt_f32(a: u32, b: u32) -> (r: bool)
    ensures
        r == f32_lt(a, b),
{
    let nan_a = (a >> 23u32) & 0xffu32 == 0xffu32 && a & 0x7f_ffffu32 != 0;
    let nan_b = (b >> 23u32) & 0xffu32 == 0xffu32 && b & 0x7f_ffffu32 != 0;
    let zeros = a & 0x7fff_ffffu32 == 0 && b & 0x7fff_ffffu32 == 0;
    let key_a = if a >> 31u32 == 1 { !a } else { a | 0x8000_0000u32 };
    let key_b = if b >> 31u32 == 1 { !b } else { b | 0x8000_0000u32 };
    !nan_a && !nan_b && !zeros && key_a < key_b
}

/// IEEE `==` on single-precision bit patterns.
fn eq_f32(a: u32, b: u32) -> (r: bool)
    ensures
        r == f32_eq(a, b),
{
    let nan_a = (a >> 23u32) & 0xffu32 == 0xffu32 && a & 0x7f_ffffu32 != 0;
    let nan_b = (b >> 23u32) & 0xffu32 == 0xffu32 && b & 0x7f_ffffu32 != 0;
    let zeros = a & 0x7fff_ffffu32 == 0 && b & 0x7fff_ffffu32 == 0;
    !nan_a && !nan_b && (a == b || zeros)
}

/// IEEE `<` on double-precision bit patterns.
fn lt_f64(a: u64, b: u64) -> (r: bool)
    ensures
        r == f64_lt(a, b),
{
    let nan_a = (a >> 52u64) & 0x7ffu64 == 0x7ffu64 && a & 0xf_ffff_ffff_ffffu64 != 0;
    let nan_b = (b >> 52u64) & 0x7ffu64 == 0x7ffu64 && b & 0xf_ffff_ffff_ffffu64 != 0;
    let zeros = a & 0x7fff_ffff_ffff_ffffu64 == 0 && b & 0x7fff_ffff_ffff_ffffu64 == 0;
    let key_a = if a >> 63u64 == 1 { !a } else { a | 0x8000_0000_0000_0000u64 };
    let key_b = if b >> 63u64 == 1 { !b } else { b | 0x8000_0000_0000_0000u64 };
    !nan_a && !nan_b && !zeros && key_a < key_b
}

/// IEEE `==` on double-precision bit patterns.
fn eq_f64(a: u64, b: u64) -> (r: bool)
    ensures
        r == f64_eq(a, b),
{
    let nan_a = (a >> 52u64) & 0x7ffu64 == 0x7ffu64 && a & 0xf_ffff_ffff_ffffu64 != 0;
    let nan_b = (b >> 52u64) & 0x7ffu64 == 0x7ffu64 && b & 0xf_ffff_ffff_ffffu64 != 0;
    let zeros = a & 0x7fff_ffff_ffff_ffffu64 == 0 && b & 0x7fff_ffff_ffff_ffffu64 == 0;
    !nan_a && !nan_b && (a == b || zeros)
}

/// A single-precision comparison of two bit patterns; `>` and `>=` are `<`
/// and `<=` with the operands swapped, and `!=` is the negated equality.
fn compare_f32(op: CompareOp, a: u32, b: u32) -> (r: bool)
    ensures
        r == f32_compares(op, a, b),
{
    match op {
        CompareOp::Eq => eq_f32(a, b),
        CompareOp::Ne => !eq_f32(a, b),
        CompareOp::Lt => lt_f32(a, b),
        CompareOp::Le => lt_f32(a, b) || eq_f32(a, b),
        CompareOp::Gt => lt_f32(b, a),
        CompareOp::Ge => lt_f32(b, a) || eq_f32(b, a),
    }
}

/// A double-precision comparison of two bit patterns.
fn compare_f64(op: CompareOp, a: u64, b: u64) -> (r: bool)
    ensures
        r == f64_compares(op, a, b),
{
    match op {
        CompareOp::Eq => eq_f64(a, b),
        CompareOp::Ne => !eq_f64(a, b),
        CompareOp::Lt => lt_f64(a, b),
        CompareOp::Le => lt_f64(a, b) || eq_f64(a, b),
        CompareOp::Gt => lt_f64(b, a),
        CompareOp::Ge => lt_f64(b, a) || eq_f64(b, a),
    }
}

/// Same-tag comparison of two numeric literals; the floating-point tags
/// compare as IEEE numbers.
pub fn num_compare(op: CompareOp, lhs: NumLit, rhs: NumLit) -> (r: Option<bool>)
    ensures
        !(lhs is F32 && rhs is F32) && !(lhs is F64 && rhs is F64) ==> r == int_compare(op, lhs, rhs),
        (lhs is F32 && rhs is F32) || (lhs is F64 && rhs is F64) ==> r is Some,
        r == lit_compare(op, lhs, rhs),
{
    match (lhs, rhs) {
        (NumLit::U32(a), NumLit::U32(b)) => Some(compare_words(op, a as u64, b as u64)),
        (NumLit::U64(a), NumLit::U64(b)) => Some(compare_words(op, a, b)),
        (NumLit::I32(a), NumLit::I32(b)) => Some(compare_ints(op, a as i64, b as i64)),
        (NumLit::I64(a), NumLit::I64(b)) => Some(compare_ints(op, a, b)),
        (NumLit::F32(a), NumLit::F32(b)) => Some(compare_f32(op, a, b)),
        (NumLit::F64(a), NumLit::F64(b)) => Some(compare_f64(op, a, b)),
        _ => None,
    }
}

/// Same-tag arithmetic over two numeric values: two integer literals, or two
/// numeric literals of one tag; anything else is `None`.
pub fn numeric_arith<F: FloatArith>(op: ArithOp, lhs: &Value, rhs: &Value, floats: &F) -> (r: Option<Value>)
    ensures
        (lhs is Int && rhs is Int) ==> r == match checked_int_spec(op, lhs->Int_0, rhs->Int_0) {
            Some(v) => Some(Value::Int(v)),
            None => None::<Value>,
        },
        (lhs is Num && rhs is Num && !(lhs->Num_0 is F32 && rhs->Num_0 is F32) && !(lhs->Num_0 is F64
            && rhs->Num_0 is F64)) ==> r == match int_arith(op, lhs->Num_0, rhs->Num_0) {
            Some(n) => Some(Value::Num(n)),
            None => None::<Value>,
        },
        !(lhs is Int && rhs is Int) && !(lhs is Num && rhs is Num) ==> r is None,
        (lhs is Num && rhs is Num && lhs->Num_0 is F32 && rhs->Num_0 is F32) ==> r matches Some(
            Value::Num(NumLit::F32(_)),
        ),
        (lhs is Num && rhs is Num && lhs->Num_0 is F64 && rhs->Num_0 is F64) ==> r matches Some(
            Value::Num(NumLit::F64(_)),
        ),
{
    match (lhs, rhs) {
        (Value::Int(a), Value::Int(b)) => match checked_i64(op, *a, *b) {
            Some(v) => Some(Value::Int(v)),
            None => None,
        },
        (Value::Num(a), Value::Num(b)) => match num_arith(op, *a, *b, floats) {
            Some(n) => Some(Value::Num(n)),
            None => None,
        },
        _ => None,
    }
}

/// Checked integer-literal arithmetic as a spec: the exact result when it
/// fits in `i64`.
pub open spec fn checked_int_spec(op: ArithOp, a: i64, b: i64) -> Option<i64> {
    let r = arith(op, a as int, b as int);
    if i64::MIN <= r <= i64::MAX {
        Some(r as i64)
    } else {
        None
    }
}

/// Adds two same-tag numeric values without implicit widening.
pub fn numeric_add<F: FloatArith>(lhs: &Value, rhs: &Value, floats: &F) -> (r: Option<Value>)
    ensures
        (lhs is Int && rhs is Int) ==> r == match checked_int_spec(ArithOp::Add, lhs->Int_0, rhs->Int_0) {
            Some(v) => Some(Value::Int(v)),
            None => None::<Value>,
        },
        !(lhs is Int && rhs is Int) && !(lhs is Num && rhs is Num) ==> r is None,
{
    numeric_arith(ArithOp::Add, lhs, rhs, floats)
}

/// Subtracts two same-tag numeric values without implicit widening.
pub fn numeric_sub<F: FloatArith>(lhs: &Value, rhs: &Value, floats: &F) -> (r: Option<Value>)
    ensures
        (lhs is Int && rhs is Int) ==> r == match checked_int_spec(ArithOp::Sub, lhs->Int_0, rhs->Int_0) {
            Some(v) => Some(Value::Int(v)),
            None => None::<Value>,
        },
        !(lhs is Int && rhs is Int) && !(lhs is Num && rhs is Num) ==> r is None,
{
    numeric_arith(ArithOp::Sub, lhs, rhs, floats)
}

/// Multiplies two same-tag numeric values without implicit widening.
pub fn numeric_mul<F: FloatArith>(lhs: &Value, rhs: &Value, floats: &F) -> (r: Option<Value>)
    ensures
        (lhs is Int && rhs is Int) ==> r == match checked_int_spec(ArithOp::Mul, lhs->Int_0, rhs->Int_0) {
            Some(v) => Some(Value::Int(v)),
            None => None::<Value>,
        },
        !(lhs is Int && rhs is Int) && !(lhs is Num && rhs is Num) ==> r is None,
{
    numeric_arith(ArithOp::Mul, lhs, rhs, floats)
}

/// Negates one numeric value without changing its tag.
pub fn numeric_neg(value: &Value) -> (r: Option<Value>)
    ensures
        value is Int ==> r == (if value->Int_0 == i64::MIN {
            None::<Value>
        } else {
            Some(Value::Int(-value->Int_0 as i64))
        }),
        value is Num && !(value->Num_0 is F32) && !(value->Num_0 is F64) ==> r == match int_neg(value->Num_0) {
            Some(n) => Some(Value::Num(n)),
            None => None::<Value>,
        },
        value is Num ==> r == match lit_neg(value->Num_0) {
            Some(n) => Some(Value::Num(n)),
            None => None::<Value>,
        },
        !(value is Int) && !(value is Num) ==> r is None,
{
    match value {
        Value::Int(v) => if *v == i64::MIN {
            None
        } else {
            Some(Value::Int(-*v))
        },
        Value::Num(n) => match num_neg(*n) {
            Some(m) => Some(Value::Num(m)),
            None => None,
        },
        _ => None,
    }
}

/// Compares two same-tag numeric values.
pub fn numeric_compare(op: CompareOp, lhs: &Value, rhs: &Value) -> (r: Option<bool>)
    ensures
        (lhs is Int && rhs is Int) ==> r == Some(compares(op, lhs->Int_0 as int, rhs->Int_0 as int)),
        (lhs is Num && rhs is Num && !(lhs->Num_0 is F32 && rhs->Num_0 is F32) && !(lhs->Num_0 is F64
            && rhs->Num_0 is F64)) ==> r == int_compare(op, lhs->Num_0, rhs->Num_0),
        (lhs is Num && rhs is Num) ==> r == lit_compare(op, lhs->Num_0, rhs->Num_0),
        !(lhs is Int && rhs is Int) && !(lhs is Num && rhs is Num) ==> r is None,
{
    match (lhs, rhs) {
        (Value::Int(a), Value::Int(b)) => Some(compare_ints(op, *a, *b)),
        (Value::Num(a), Value::Num(b)) => num_compare(op, *a, *b),
        _ => None,
    }
}

/// What `numeric_binary` returns on `args`.
pub open spec fn numeric_binary_outcome(args: Seq<Rc<Value>>, op: ArithOp, c: Comp) -> bool {
    &&& args.len() != 2 ==> c == Comp::Hole(0)
    &&& args.len() == 2 && stripped(*args[0]) is Int && stripped(*args[1]) is Int ==> c == match checked_int_spec(
        op,
        stripped(*args[0])->Int_0,
        stripped(*args[1])->Int_0,
    ) {
        Some(v) => Comp::Ret(Rc::new(Value::Int(v))),
        None => Comp::Hole(0),
    }
    &&& args.len() == 2 && stripped(*args[0]) is Num && stripped(*args[1]) is Num && !(stripped(
        *args[0],
    )->Num_0 is F32 && stripped(*args[1])->Num_0 is F32) && !(stripped(*args[0])->Num_0 is F64
        && stripped(*args[1])->Num_0 is F64) ==> c == match int_arith(
        op,
        stripped(*args[0])->Num_0,
        stripped(*args[1])->Num_0,
    ) {
        Some(n) => Comp::Ret(Rc::new(Value::Num(n))),
        None => Comp::Hole(0),
    }
    &&& args.len() == 2 && stripped(*args[0]) is Num && stripped(*args[1]) is Num && stripped(
        *args[0],
    )->Num_0 is F32 && stripped(*args[1])->Num_0 is F32 ==> (c matches Comp::Ret(v) && *v matches Value::Num(
        NumLit::F32(_),
    ))
    &&& args.len() == 2 && stripped(*args[0]) is Num && stripped(*args[1]) is Num && stripped(
        *args[0],
    )->Num_0 is F64 && stripped(*args[1])->Num_0 is F64 ==> (c matches Comp::Ret(v) && *v matches Value::Num(
        NumLit::F64(_),
    ))
    &&& args.len() == 2 && !(stripped(*args[0]) is Int && stripped(*args[1]) is Int) && !(stripped(
        *args[0],
    ) is Num && stripped(*args[1]) is Num) ==> c == Comp::Hole(0)
}

/// The integer a value of an integer kind stands for: an untyped integer
/// literal, or a literal of one of the machine integer tags.
pub open spec fn integer_meaning(v: Value) -> Option<int> {
    match v {
        Value::Int(i) => Some(i as int),
        Value::Num(NumLit::U32(x)) => Some(x as int),
        Value::Num(NumLit::U64(x)) => Some(x as int),
        Value::Num(NumLit::I32(x)) => Some(x as int),
        Value::Num(NumLit::I64(x)) => Some(x as int),
        _ => None,
    }
}

/// `a` and `b` are of one integer kind: both untyped integers, or both
/// literals of the same machine integer tag.
pub open spec fn same_integer_kind(a: Value, b: Value) -> bool {
    match (a, b) {
        (Value::Int(_), Value::Int(_)) => true,
        (Value::Num(NumLit::U32(_)), Value::Num(NumLit::U32(_))) => true,
        (Value::Num(NumLit::U64(_)), Value::Num(NumLit::U64(_))) => true,
        (Value::Num(NumLit::I32(_)), Value::Num(NumLit::I32(_))) => true,
        (Value::Num(NumLit::I64(_)), Value::Num(NumLit::I64(_))) => true,
        _ => false,
    }
}

/// The integers the kind of `v` can hold: `i64` for untyped integers, and
/// each machine tag's own range.
pub open spec fn kind_holds(v: Value, n: int) -> bool {
    match v {
        Value::Int(_) => i64::MIN <= n <= i64::MAX,
        Value::Num(NumLit::U32(_)) => 0 <= n <= u32::MAX,
        Value::Num(NumLit::U64(_)) => 0 <= n <= u64::MAX,
        Value::Num(NumLit::I32(_)) => i32::MIN <= n <= i32::MAX,
        Value::Num(NumLit::I64(_)) => i64::MIN <= n <= i64::MAX,
        _ => false,
    }
}

/// Integer arithmetic is exact, checked and keeps the kind: on two integers
/// of one kind, a binary numeric primitive returns an integer of that same
/// kind standing for the first operand combined with the second (`a - b`
/// for subtraction, not `b - a`), and is a gradual hole exactly when that
/// exact result does not fit the kind.
pub proof fn lemma_integer_arith_exact(args: Seq<Rc<Value>>, op: ArithOp, c: Comp)
    requires
        numeric_binary_outcome(args, op, c),
        args.len() == 2,
        same_integer_kind(stripped(*args[0]), stripped(*args[1])),
    ensures
        ({
            let a = stripped(*args[0]);
            let b = stripped(*args[1]);
            let exact = arith(op, integer_meaning(a).unwrap(), integer_meaning(b).unwrap());
            &&& kind_holds(a, exact) ==> (c matches Comp::Ret(v) && same_integer_kind(*v, a)
                && integer_meaning(*v) == Some(exact))
            &&& !kind_holds(a, exact) ==> c == Comp::Hole(0)
        }),
{
}

/// Applies a binary numeric primitive to two native arguments, ignoring
/// ascriptions: `ret` of the result, or a gradual hole.
pub fn numeric_binary<F: FloatArith>(args: &[Rc<Value>], op: ArithOp, floats: &F) -> (c: Comp)
    ensures
        numeric_binary_outcome(args@, op, c),
{
    match two_args(args) {
        Some((lhs, rhs)) => {
            let lhs = unannotated(&lhs);
            let rhs = unannotated(&rhs);
            match numeric_arith(op, &*lhs, &*rhs, floats) {
                Some(v) => Comp::Ret(Rc::new(v)),
                None => Comp::hole(0),
            }
        },
        None => Comp::hole(0),
    }
}

/// What `numeric_unary` returns on `args`.
pub open spec fn numeric_unary_outcome(args: Seq<Rc<Value>>, c: Comp) -> bool {
    &&& args.len() != 1 ==> c == Comp::Hole(0)
    &&& args.len() == 1 && stripped(*args[0]) is Int ==> c == (if stripped(*args[0])->Int_0 == i64::MIN {
        Comp::Hole(0)
    } else {
        Comp::Ret(Rc::new(Value::Int(-stripped(*args[0])->Int_0 as i64)))
    })
    &&& args.len() == 1 && stripped(*args[0]) is Num ==> c == match lit_neg(stripped(*args[0])->Num_0) {
        Some(n) => Comp::Ret(Rc::new(Value::Num(n))),
        None => Comp::Hole(0),
    }
    &&& args.len() == 1 && !(stripped(*args[0]) is Int) && !(stripped(*args[0]) is Num) ==> c
        == Comp::Hole(0)
}

/// Negation keeps the tag and undoes itself: negating a numeric value that
/// negates gives a value of the same tag whose negation is the value again;
/// a floating-point value keeps its magnitude bits and changes its sign.
pub proof fn lemma_negation_involutive(x: Rc<Value>, c: Comp, back: Comp)
    requires
        numeric_unary_outcome(seq![x], c),
        c matches Comp::Ret(v) && numeric_unary_outcome(seq![v], back),
    ensures
        back == Comp::Ret(Rc::new(stripped(*x))),
        stripped(*x) matches Value::Num(NumLit::F64(a)) ==> (c matches Comp::Ret(v) && *v matches Value::Num(
            NumLit::F64(b),
        ) && b & 0x7fff_ffff_ffff_ffffu64 == a & 0x7fff_ffff_ffff_ffffu64 && b >> 63u64 != a >> 63u64),
        stripped(*x) matches Value::Num(NumLit::F32(a)) ==> (c matches Comp::Ret(v) && *v matches Value::Num(
            NumLit::F32(b),
        ) && b & 0x7fff_ffffu32 == a & 0x7fff_ffffu32 && b >> 31u32 != a >> 31u32),
{
    match stripped(crate::store::spelling::referent(&x)) {
        Value::Num(NumLit::F64(a)) => {
            let m: u64 = 0x8000_0000_0000_0000u64;
            assert((a ^ m) ^ m == a) by (bit_vector);
            assert((a ^ m) & 0x7fff_ffff_ffff_ffffu64 == a & 0x7fff_ffff_ffff_ffffu64 && (a ^ m) >> 63u64
                != a >> 63u64) by (bit_vector)
                requires
                    m == 0x8000_0000_0000_0000u64,
            ;
        },
        Value::Num(NumLit::F32(a)) => {
            let m: u32 = 0x8000_0000u32;
            assert((a ^ m) ^ m == a) by (bit_vector);
            assert((a ^ m) & 0x7fff_ffffu32 == a & 0x7fff_ffffu32 && (a ^ m) >> 31u32 != a >> 31u32)
                by (bit_vector)
                requires
                    m == 0x8000_0000u32,
            ;
        },
        _ => {},
    }
}

/// Applies a numeric negation to one native argument.
pub fn numeric_unary(args: &[Rc<Value>]) -> (c: Comp)
    ensures
        numeric_unary_outcome(args@, c),
{
    match one_arg(args) {
        Some(value) => {
            let value = unannotated(&value);
            match numeric_neg(&*value) {
                Some(v) => Comp::Ret(Rc::new(v)),
                None => Comp::hole(0),
            }
        },
        None => Comp::hole(0),
    }
}

/// What `numeric_compare_args` returns on `args`.
pub open spec fn numeric_compare_args_outcome(args: Seq<Rc<Value>>, op: CompareOp, c: Comp) -> bool {
    &&& args.len() != 2 ==> c == Comp::Hole(0)
    &&& args.len() == 2 && stripped(*args[0]) is Int && stripped(*args[1]) is Int ==> c == Comp::Ret(
        Rc::new(bool_value_spec(compares(op, stripped(*args[0])->Int_0 as int, stripped(*args[1])->Int_0 as int))),
    )
    &&& args.len() == 2 && stripped(*args[0]) is Num && stripped(*args[1]) is Num ==> c == match lit_compare(
        op,
        stripped(*args[0])->Num_0,
        stripped(*args[1])->Num_0,
    ) {
        Some(t) => Comp::Ret(Rc::new(bool_value_spec(t))),
        None => Comp::Hole(0),
    }
    &&& args.len() == 2 && !(stripped(*args[0]) is Int && stripped(*args[1]) is Int) && !(stripped(
        *args[0],
    ) is Num && stripped(*args[1]) is Num) ==> c == Comp::Hole(0)
}

/// Applies a numeric comparison and wraps the boolean result canonically.
pub fn numeric_compare_args(args: &[Rc<Value>], op: CompareOp) -> (c: Comp)
    ensures
        numeric_compare_args_outcome(args@, op, c),
{
    match two_args(args) {
        Some((lhs, rhs)) => {
            let lhs = unannotated(&lhs);
            let rhs = unannotated(&rhs);
            match numeric_compare(op, &*lhs, &*rhs) {
                Some(b) => ret_bool(b),
                None => Comp::hole(0),
            }
        },
        None => Comp::hole(0),
    }
}

/// What `bool_binary` returns on `args`.
pub open spec fn bool_binary_outcome(args: Seq<Rc<Value>>, conjunction: bool, c: Comp) -> bool {
    &&& args.len() != 2 ==> c == Comp::Hole(0)
    &&& args.len() == 2 ==> c == match (bool_of(*args[0]), bool_of(*args[1])) {
        (Some(l), Some(r)) => Comp::Ret(
            Rc::new(bool_value_spec(if conjunction { l && r } else { l || r })),
        ),
        _ => Comp::Hole(0),
    }
}

/// Applies a boolean binary primitive to canonical booleans.
pub fn bool_binary(args: &[Rc<Value>], conjunction: bool) -> (c: Comp)
    ensures
        bool_binary_outcome(args@, conjunction, c),
{
    match two_args(args) {
        Some((lhs, rhs)) => match (as_bool(&lhs), as_bool(&rhs)) {
            (Some(l), Some(r)) => ret_bool(
                if conjunction {
                    l && r
                } else {
                    l || r
                },
            ),
            _ => Comp::hole(0),
        },
        None => Comp::hole(0),
    }
}


/// The elements of a manifest list, ignoring ascriptions.
pub open spec fn list_of(v: Value) -> Option<Seq<Rc<Value>>> {
    match stripped(v) {
        Value::List(items) => Some(items@),
        _ => None,
    }
}

/// The fields of a manifest record, ignoring ascriptions.
pub open spec fn record_of(v: Value) -> Option<Seq<FieldValue>> {
    match stripped(v) {
        Value::Record(fields) => Some(fields@),
        _ => None,
    }
}

/// The characters of a manifest string, ignoring ascriptions.
pub open spec fn str_of(v: Value) -> Option<Seq<char>> {
    match stripped(v) {
        Value::Str(text) => Some(text@),
        _ => None,
    }
}

/// The position a manifest non-negative integer names, ignoring ascriptions.
pub open spec fn index_of(v: Value) -> Option<nat> {
    match stripped(v) {
        Value::Int(i) => if i >= 0 {
            Some(i as nat)
        } else {
            None
        },
        _ => None,
    }
}

/// `c` returns a list holding exactly `items`.
pub open spec fn returns_list(c: Comp, items: Seq<Rc<Value>>) -> bool {
    match c {
        Comp::Ret(v) => match *v {
            Value::List(xs) => xs@ == items,
            _ => false,
        },
        _ => false,
    }
}

/// `c` returns a record holding exactly `fields`.
pub open spec fn returns_record(c: Comp, fields: Seq<FieldValue>) -> bool {
    match c {
        Comp::Ret(v) => match *v {
            Value::Record(fs) => fs@ == fields,
            _ => false,
        },
        _ => false,
    }
}


/// A copy of a list of value handles, handle for handle.
pub fn copy_values(items: &Vec<Rc<Value>>) -> (r: Vec<Rc<Value>>)
    ensures
        r@ == items@,
{
    let mut out: Vec<Rc<Value>> = Vec::new();
    let mut index: usize = 0;
    while index < items.len()
        invariant
            index <= items@.len(),
            out@ == items@.subrange(0, index as int),
        decreases items@.len() - index,
    {
        out.push(share(&items[index]));
        index = index + 1;
        proof {
            assert(out@ =~= items@.subrange(0, index as int));
        }
    }
    proof {
        assert(items@.subrange(0, items@.len() as int) =~= items@);
    }
    out
}

/// A copy of a record's fields, field for field.
pub fn copy_fields(fields: &Vec<FieldValue>) -> (r: Vec<FieldValue>)
    ensures
        r@ == fields@,
{
    let mut out: Vec<FieldValue> = Vec::new();
    let mut index: usize = 0;
    while index < fields.len()
        invariant
            index <= fields@.len(),
            out@ == fields@.subrange(0, index as int),
        decreases fields@.len() - index,
    {
        let field = &fields[index];
        out.push(FieldValue { label: field.label.clone(), value: share(&field.value) });
        index = index + 1;
        proof {
            assert(out@ =~= fields@.subrange(0, index as int));
        }
    }
    proof {
        assert(fields@.subrange(0, fields@.len() as int) =~= fields@);
    }
    out
}

/// Reads a manifest list value, ignoring annotations.
pub fn as_list(value: &Rc<Value>) -> (r: Option<Vec<Rc<Value>>>)
    ensures
        match r {
            Some(items) => list_of(**value) == Some(items@),
            None => list_of(**value) is None,
        },
{
    let bare = unannotated(value);
    match &*bare {
        Value::List(items) => Some(copy_values(items)),
        _ => None,
    }
}

/// Reads a manifest record value, ignoring annotations.
pub fn as_record(value: &Rc<Value>) -> (r: Option<Vec<FieldValue>>)
    ensures
        match r {
            Some(fields) => record_of(**value) == Some(fields@),
            None => record_of(**value) is None,
        },
{
    let bare = unannotated(value);
    match &*bare {
        Value::Record(fields) => Some(copy_fields(fields)),
        _ => None,
    }
}

/// Reads a manifest string value, ignoring annotations.
pub fn as_str(value: &Rc<Value>) -> (r: Option<String>)
    ensures
        match r {
            Some(text) => str_of(**value) == Some(text@),
            None => str_of(**value) is None,
        },
{
    let bare = unannotated(value);
    match &*bare {
        Value::Str(text) => Some(text.clone()),
        _ => None,
    }
}

/// Reads a manifest non-negative list index, ignoring annotations.
pub fn as_index(value: &Rc<Value>) -> (r: Option<usize>)
    ensures
        match r {
            Some(i) => index_of(**value) == Some(i as nat),
            None => index_of(**value) is None || index_of(**value).unwrap() > usize::MAX,
        },
{
    let bare = unannotated(value);
    match &*bare {
        Value::Int(i) => if *i >= 0 && (*i as u64) <= (usize::MAX as u64) {
            Some(*i as usize)
        } else {
            None
        },
        _ => None,
    }
}

/// What `list_concat` returns on `args`.
pub open spec fn list_concat_outcome(args: Seq<Rc<Value>>, c: Comp) -> bool {
    &&& args.len() == 2 && list_of(*args[0]) is Some && list_of(*args[1]) is Some ==> returns_list(
        c,
        list_of(*args[0]).unwrap() + list_of(*args[1]).unwrap(),
    )
    &&& !(args.len() == 2 && list_of(*args[0]) is Some && list_of(*args[1]) is Some) ==> c
        == Comp::Hole(0)
}

/// Concatenates two list values, ignoring source annotations.
pub fn list_concat(args: &[Rc<Value>]) -> (c: Comp)
    ensures
        list_concat_outcome(args@, c),
{
    match two_args(args) {
        Some((lhs, rhs)) => match (as_list(&lhs), as_list(&rhs)) {
            (Some(mut left), Some(right)) => {
                let mut index: usize = 0;
                let ghost start = left@;
                while index < right.len()
                    invariant
                        index <= right@.len(),
                        left@ == start + right@.subrange(0, index as int),
                    decreases right@.len() - index,
                {
                    left.push(share(&right[index]));
                    index = index + 1;
                    proof {
                        assert(left@ =~= start + right@.subrange(0, index as int));
                    }
                }
                proof {
                    assert(right@.subrange(0, right@.len() as int) =~= right@);
                }
                Comp::Ret(Rc::new(Value::List(left)))
            },
            _ => Comp::hole(0),
        },
        None => Comp::hole(0),
    }
}

/// What `native_push` returns on `args`.
pub open spec fn native_push_outcome(args: Seq<Rc<Value>>, c: Comp) -> bool {
    &&& args.len() == 2 && list_of(*args[0]) is Some ==> returns_list(
        c,
        list_of(*args[0]).unwrap().push(args[1]),
    )
    &&& !(args.len() == 2 && list_of(*args[0]) is Some) ==> c == Comp::Hole(0)
}

/// `push xs v` — append `v` to the end of the list, returning a fresh list.
pub fn native_push(args: &[Rc<Value>]) -> (c: Comp)
    ensures
        native_push_outcome(args@, c),
{
    match two_args(args) {
        Some((list, value)) => match as_list(&list) {
            Some(mut items) => {
                items.push(value);
                Comp::Ret(Rc::new(Value::List(items)))
            },
            None => Comp::hole(0),
        },
        None => Comp::hole(0),
    }
}

/// What `native_set` returns on `args`.
pub open spec fn native_set_outcome(args: Seq<Rc<Value>>, c: Comp) -> bool {
    &&& args.len() == 3 && list_of(*args[0]) is Some && index_of(*args[1]) is Some
        && index_of(*args[1]).unwrap() < list_of(*args[0]).unwrap().len() ==> returns_list(
        c,
        list_of(*args[0]).unwrap().update(index_of(*args[1]).unwrap() as int, args[2]),
    )
    &&& !(args.len() == 3 && list_of(*args[0]) is Some && index_of(*args[1]) is Some
        && index_of(*args[1]).unwrap() < list_of(*args[0]).unwrap().len()) ==> c == Comp::Hole(
        0,
    )
}

/// `set xs i v` — replace the element at index `i` with `v`, returning a
/// fresh list; an out-of-bounds index is a gradual hole.
pub fn native_set(args: &[Rc<Value>]) -> (c: Comp)
    ensures
        native_set_outcome(args@, c),
{
    match three_args(args) {
        Some((list, index, value)) => match as_list(&list) {
            Some(mut items) => {
                proof {
                    assert(items@.len() == items.len());
                }
                match as_index(&index) {
                    Some(at) => if at < items.len() {
                        items.set(at, value);
                        Comp::Ret(Rc::new(Value::List(items)))
                    } else {
                        Comp::hole(0)
                    },
                    None => Comp::hole(0),
                }
            },
            None => Comp::hole(0),
        },
        None => Comp::hole(0),
    }
}

/// What `native_insert_at` returns on `args`.
pub open spec fn native_insert_at_outcome(args: Seq<Rc<Value>>, c: Comp) -> bool {
    &&& args.len() == 3 && list_of(*args[0]) is Some && index_of(*args[1]) is Some
        && index_of(*args[1]).unwrap() <= list_of(*args[0]).unwrap().len() ==> returns_list(
        c,
        list_of(*args[0]).unwrap().insert(index_of(*args[1]).unwrap() as int, args[2]),
    )
    &&& !(args.len() == 3 && list_of(*args[0]) is Some && index_of(*args[1]) is Some
        && index_of(*args[1]).unwrap() <= list_of(*args[0]).unwrap().len()) ==> c
        == Comp::Hole(0)
}

/// `insert-at xs i v` — insert `v` before index `i` (`i == len` appends),
/// returning a fresh, longer list; an index past the end is a gradual hole.
pub fn native_insert_at(args: &[Rc<Value>]) -> (c: Comp)
    ensures
        native_insert_at_outcome(args@, c),
{
    match three_args(args) {
        Some((list, index, value)) => match as_list(&list) {
            Some(mut items) => {
                proof {
                    assert(items@.len() == items.len());
                }
                match as_index(&index) {
                    Some(at) => if at <= items.len() {
                        items.insert(at, value);
                        Comp::Ret(Rc::new(Value::List(items)))
                    } else {
                        Comp::hole(0)
                    },
                    None => Comp::hole(0),
                }
            },
            None => Comp::hole(0),
        },
        None => Comp::hole(0),
    }
}

/// What `native_remove_at` returns on `args`.
pub open spec fn native_remove_at_outcome(args: Seq<Rc<Value>>, c: Comp) -> bool {
    &&& args.len() == 2 && list_of(*args[0]) is Some && index_of(*args[1]) is Some
        && index_of(*args[1]).unwrap() < list_of(*args[0]).unwrap().len() ==> returns_list(
        c,
        list_of(*args[0]).unwrap().remove(index_of(*args[1]).unwrap() as int),
    )
    &&& !(args.len() == 2 && list_of(*args[0]) is Some && index_of(*args[1]) is Some
        && index_of(*args[1]).unwrap() < list_of(*args[0]).unwrap().len()) ==> c == Comp::Hole(
        0,
    )
}

/// `remove-at xs i` — drop the element at index `i`, returning a fresh,
/// shorter list; out-of-bounds is a gradual hole.
pub fn native_remove_at(args: &[Rc<Value>]) -> (c: Comp)
    ensures
        native_remove_at_outcome(args@, c),
{
    match two_args(args) {
        Some((list, index)) => match as_list(&list) {
            Some(mut items) => {
                proof {
                    assert(items@.len() == items.len());
                }
                match as_index(&index) {
                    Some(at) => if at < items.len() {
                        let _removed = items.remove(at);
                        Comp::Ret(Rc::new(Value::List(items)))
                    } else {
                        Comp::hole(0)
                    },
                    None => Comp::hole(0),
                }
            },
            None => Comp::hole(0),
        },
        None => Comp::hole(0),
    }
}

/// The concatenation of the manifest lists `items` holds, or `None` when one
/// of them is not a manifest list.
pub open spec fn flatten_lists(items: Seq<Rc<Value>>) -> Option<Seq<Rc<Value>>>
    decreases items.len(),
{
    if items.len() == 0 {
        Some(Seq::empty())
    } else {
        match (flatten_lists(items.drop_last()), list_of(*items.last())) {
            (Some(prefix), Some(inner)) => Some(prefix + inner),
            _ => None,
        }
    }
}

/// What `native_flatten` returns on `args`.
pub open spec fn native_flatten_outcome(args: Seq<Rc<Value>>, c: Comp) -> bool {
    &&& args.len() == 1 && list_of(*args[0]) is Some && flatten_lists(list_of(*args[0]).unwrap())
        is Some ==> returns_list(c, flatten_lists(list_of(*args[0]).unwrap()).unwrap())
    &&& !(args.len() == 1 && list_of(*args[0]) is Some && flatten_lists(
        list_of(*args[0]).unwrap(),
    ) is Some) ==> c == Comp::Hole(0)
}

/// `flatten xs` — concatenate a manifest list of manifest lists; a non-list
/// element degenerates to a gradual hole.
pub fn native_flatten(args: &[Rc<Value>]) -> (c: Comp)
    ensures
        native_flatten_outcome(args@, c),
{
    let list = match one_arg(args) {
        Some(list) => list,
        None => {
            return Comp::hole(0);
        },
    };
    let outer = match as_list(&list) {
        Some(outer) => outer,
        None => {
            return Comp::hole(0);
        },
    };
    let mut flat: Vec<Rc<Value>> = Vec::new();
    let mut index: usize = 0;
    while index < outer.len()
        invariant
            index <= outer@.len(),
            flatten_lists(outer@.subrange(0, index as int)) == Some(flat@),
            args@.len() == 1,
            list_of(*args@[0]) == Some(outer@),
        decreases outer@.len() - index,
    {
        proof {
            assert(outer@.subrange(0, index as int + 1).drop_last() =~= outer@.subrange(
                0,
                index as int,
            ));
        }
        match as_list(&outer[index]) {
            Some(elements) => {
                let ghost before = flat@;
                let mut k: usize = 0;
                while k < elements.len()
                    invariant
                        k <= elements@.len(),
                        flat@ == before + elements@.subrange(0, k as int),
                    decreases elements@.len() - k,
                {
                    flat.push(share(&elements[k]));
                    k = k + 1;
                    proof {
                        assert(flat@ =~= before + elements@.subrange(0, k as int));
                    }
                }
                proof {
                    assert(elements@.subrange(0, elements@.len() as int) =~= elements@);
                }
            },
            None => {
                proof {
                    lemma_flatten_fails_past(outer@, index as nat);
                }
                return Comp::hole(0);
            },
        }
        index = index + 1;
    }
    proof {
        assert(outer@.subrange(0, outer@.len() as int) =~= outer@);
    }
    Comp::Ret(Rc::new(Value::List(flat)))
}

/// Once a prefix fails to flatten, every longer prefix fails too.
proof fn lemma_flatten_fails_past(items: Seq<Rc<Value>>, index: nat)
    requires
        index < items.len(),
        list_of(*items[index as int]) is None,
    ensures
        flatten_lists(items) is None,
    decreases items.len(),
{
    if index + 1 < items.len() {
        lemma_flatten_fails_past(items.drop_last(), index);
    }
}

/// The first position of a field labelled `label`.
pub open spec fn field_position(fields: Seq<FieldValue>, label: Seq<char>, at: int) -> bool {
    0 <= at < fields.len() && fields[at].label@ == label && forall|i: int|
        0 <= i < at ==> fields[i].label@ != label
}

/// The position of the first field labelled `label`, if any.
pub fn find_field(fields: &Vec<FieldValue>, label: &str) -> (r: Option<usize>)
    ensures
        match r {
            Some(at) => field_position(fields@, label@, at as int),
            None => forall|i: int| 0 <= i < fields@.len() ==> fields@[i].label@ != label@,
        },
{
    let mut index: usize = 0;
    while index < fields.len()
        invariant
            index <= fields@.len(),
            forall|i: int| 0 <= i < index ==> fields@[i].label@ != label@,
        decreases fields@.len() - index,
    {
        if names_equal(fields[index].label.as_str(), label) {
            return Some(index);
        }
        index = index + 1;
    }
    None
}

/// What `native_get` returns on `args`.
pub open spec fn native_get_outcome(args: Seq<Rc<Value>>, c: Comp) -> bool {
    &&& !(args.len() == 2 && record_of(*args[0]) is Some && str_of(*args[1]) is Some) ==> c
        == Comp::Hole(0)
    &&& args.len() == 2 && record_of(*args[0]) is Some && str_of(*args[1]) is Some ==> ({
        let fields = record_of(*args[0]).unwrap();
        let label = str_of(*args[1]).unwrap();
        (forall|i: int| 0 <= i < fields.len() ==> fields[i].label@ != label) ==> c == Comp::Ret(
            Rc::new(
                Value::Annot(
                    Rc::new(Value::Inj(Side::Snd, Rc::new(Value::Unit))),
                    Rc::new(
                        ValueType::Sum(Rc::new(ValueType::Unknown), Rc::new(ValueType::Unit)),
                    ),
                ),
            ),
        )
    })
    &&& args.len() == 2 && record_of(*args[0]) is Some && str_of(*args[1]) is Some ==> forall|
        at: int,
    |
        field_position(record_of(*args[0]).unwrap(), str_of(*args[1]).unwrap(), at) ==> c
            == Comp::Ret(
            Rc::new(
                Value::Annot(
                    Rc::new(Value::Inj(Side::Fst, record_of(*args[0]).unwrap()[at].value)),
                    Rc::new(
                        ValueType::Sum(Rc::new(ValueType::Unknown), Rc::new(ValueType::Unit)),
                    ),
                ),
            ),
        )
}

/// `get r ℓ` — look the dynamic string label up in the manifest record,
/// returning `Some v` when the field is present and `None` otherwise; a
/// non-record subject or non-string label is a gradual hole.
pub fn native_get(args: &[Rc<Value>]) -> (c: Comp)
    ensures
        native_get_outcome(args@, c),
{
    match two_args(args) {
        Some((record, label)) => match (as_record(&record), as_str(&label)) {
            (Some(fields), Some(key)) => match find_field(&fields, key.as_str()) {
                Some(at) => Comp::Ret(Rc::new(option_some(share(&fields[at].value)))),
                None => Comp::Ret(Rc::new(option_none())),
            },
            _ => Comp::hole(0),
        },
        None => Comp::hole(0),
    }
}

/// `fields` with `label` bound to `value`: the first field with that label
/// takes the new value, and otherwise a new field is inserted before the
/// first field whose label does not order before it.
pub open spec fn overlay_field(fields: Seq<FieldValue>, field: FieldValue, result: Seq<FieldValue>) -> bool {
    (exists|at: int|
        field_position(fields, field.label@, at) && result == fields.update(
            at,
            FieldValue { label: fields[at].label, value: field.value },
        )) || ((forall|i: int| 0 <= i < fields.len() ==> fields[i].label@ != field.label@)
        && exists|at: int|
        0 <= at <= fields.len() && result == fields.insert(at, field) && (forall|i: int|
            0 <= i < at ==> lex_less(fields[i].label@, field.label@)) && (at < fields.len()
            ==> !lex_less(fields[at].label@, field.label@)))
}

/// The labels of `fields` strictly ascend.
pub open spec fn labels_ascending(fields: Seq<FieldValue>) -> bool {
    forall|i: int, j: int|
        0 <= i < j < fields.len() ==> lex_less(#[trigger] fields[i].label@, #[trigger] fields[j].label@)
}

/// Overlaying a field keeps ascending labels ascending.
pub proof fn lemma_overlay_keeps_ascending(fields: Seq<FieldValue>, field: FieldValue, result: Seq<FieldValue>)
    requires
        labels_ascending(fields),
        overlay_field(fields, field, result),
    ensures
        labels_ascending(result),
{
    if exists|at: int|
        field_position(fields, field.label@, at) && result == fields.update(
            at,
            FieldValue { label: fields[at].label, value: field.value },
        ) {
        let at = choose|at: int|
            field_position(fields, field.label@, at) && result == fields.update(
                at,
                FieldValue { label: fields[at].label, value: field.value },
            );
        assert forall|i: int, j: int| 0 <= i < j < result.len() implies lex_less(
            #[trigger] result[i].label@,
            #[trigger] result[j].label@,
        ) by {
            assert(result[i].label == fields[i].label);
            assert(result[j].label == fields[j].label);
        }
    } else {
        let at = choose|at: int|
            0 <= at <= fields.len() && result == fields.insert(at, field) && (forall|i: int|
                0 <= i < at ==> lex_less(fields[i].label@, field.label@)) && (at < fields.len()
                ==> !lex_less(fields[at].label@, field.label@));
        let f = field.label@;
        if at < fields.len() {
            assert(fields[at].label@ != f);
            crate::text::lemma_lex_less_from_total(fields[at].label@, f, 0);
        }
        assert forall|i: int, j: int| 0 <= i < j < result.len() implies lex_less(
            #[trigger] result[i].label@,
            #[trigger] result[j].label@,
        ) by {
            if j < at {
                assert(result[i] == fields[i] && result[j] == fields[j]);
            } else if j == at {
                assert(result[i] == fields[i] && result[j] == field);
            } else if i > at {
                assert(result[i] == fields[i - 1] && result[j] == fields[j - 1]);
            } else if i == at {
                assert(result[i] == field && result[j] == fields[j - 1]);
                if j - 1 > at {
                    assert(lex_less(fields[at].label@, fields[j - 1].label@));
                    crate::text::lemma_lex_less_from_transitive(f, fields[at].label@, fields[j - 1].label@, 0);
                }
            } else {
                assert(result[i] == fields[i] && result[j] == fields[j - 1]);
            }
        }
    }
}

/// Binds `field.label` to `field.value` in `fields`, keeping the label order.
pub fn insert_field(fields: &mut Vec<FieldValue>, field: FieldValue)
    ensures
        overlay_field(old(fields)@, field, final(fields)@),
{
    let label = field.label.clone();
    match find_field(fields, label.as_str()) {
        Some(at) => {
            let existing = fields[at].label.clone();
            fields.set(at, FieldValue { label: existing, value: field.value });
            proof {
                assert(field_position(old(fields)@, field.label@, at as int));
            }
        },
        None => {
            let mut at: usize = 0;
            while at < fields.len() && label_less(fields[at].label.as_str(), label.as_str())
                invariant
                    at <= fields@.len(),
                    fields@ == old(fields)@,
                    label@ == field.label@,
                    forall|i: int| 0 <= i < at ==> lex_less(fields@[i].label@, field.label@),
                decreases fields@.len() - at,
            {
                at = at + 1;
            }
            proof {
                assert(at < fields@.len() ==> !lex_less(fields@[at as int].label@, field.label@));
            }
            fields.insert(at, field);
        },
    }
}

/// What `native_insert` returns on `args`.
pub open spec fn native_insert_outcome(args: Seq<Rc<Value>>, c: Comp) -> bool {
    &&& !(args.len() == 3 && record_of(*args[0]) is Some && str_of(*args[1]) is Some) ==> c
        == Comp::Hole(0)
    &&& args.len() == 3 && record_of(*args[0]) is Some && str_of(*args[1]) is Some ==> exists|
        fields: Seq<FieldValue>,
        label: String,
    |
        label@ == str_of(*args[1]).unwrap() && #[trigger] returns_record(c, fields) && #[trigger] overlay_field(
            record_of(*args[0]).unwrap(),
            FieldValue { label, value: args[2] },
            fields,
        )
}

/// `insert r ℓ v` — extend or override the field `ℓ` of the manifest record
/// with `v`, returning the extended record; a non-record subject or
/// non-string label is a gradual hole.
pub fn native_insert(args: &[Rc<Value>]) -> (c: Comp)
    ensures
        native_insert_outcome(args@, c),
{
    match three_args(args) {
        Some((record, label, value)) => match (as_record(&record), as_str(&label)) {
            (Some(mut fields), Some(key)) => {
                let ghost before = fields@;
                let ghost new_field = FieldValue { label: key, value };
                insert_field(&mut fields, FieldValue { label: key, value });
                let c = Comp::Ret(Rc::new(Value::Record(fields)));
                proof {
                    assert(returns_record(c, fields@));
                    assert(overlay_field(before, new_field, fields@));
                    assert(new_field.label@ == str_of(*args@[1]).unwrap());
                    assert(new_field == FieldValue { label: new_field.label, value: args@[2] });
                    assert(before == record_of(*args@[0]).unwrap());
                    assert(overlay_field(
                        record_of(*args@[0]).unwrap(),
                        FieldValue { label: new_field.label, value: args@[2] },
                        fields@,
                    ));
                }
                c
            },
            _ => Comp::hole(0),
        },
        None => Comp::hole(0),
    }
}

/// What `native_record_update` returns on `args`.
pub open spec fn native_record_update_outcome(args: Seq<Rc<Value>>, c: Comp) -> bool {
    &&& !(args.len() == 2 && record_of(*args[0]) is Some && record_of(*args[1]) is Some) ==> c
        == Comp::Hole(0)
    &&& args.len() == 2 && record_of(*args[0]) is Some && record_of(*args[1]) is Some ==> exists|
        fields: Seq<FieldValue>,
    |
        #[trigger] returns_record(c, fields) && overlays(
            record_of(*args[0]).unwrap(),
            record_of(*args[1]).unwrap(),
            fields,
        )
}

/// `result` is `base` with the fields of `overlay` bound into it one after
/// another, each as `overlay_field` binds a single field.
pub open spec fn overlays(base: Seq<FieldValue>, overlay: Seq<FieldValue>, result: Seq<FieldValue>) -> bool
    decreases overlay.len(),
{
    if overlay.len() == 0 {
        result == base
    } else {
        exists|mid: Seq<FieldValue>|
            overlays(base, overlay.drop_last(), mid) && #[trigger] overlay_field(mid, overlay.last(), result)
    }
}

/// `fields` binds `label`, at its first occurrence, to `value`.
pub open spec fn binds_label(fields: Seq<FieldValue>, label: Seq<char>, value: Rc<Value>) -> bool {
    exists|at: int| field_position(fields, label, at) && fields[at].value == value
}

/// No field of `fields` carries `label`.
pub open spec fn lacks_label(fields: Seq<FieldValue>, label: Seq<char>) -> bool {
    forall|i: int| 0 <= i < fields.len() ==> fields[i].label@ != label
}

/// No two fields of `fields` carry one label.
pub open spec fn distinct_labels(fields: Seq<FieldValue>) -> bool {
    forall|i: int, j: int|
        0 <= i < j < fields.len() ==> #[trigger] fields[i].label@ != #[trigger] fields[j].label@
}

/// Binding one field binds its label to its value and leaves every other
/// label as it was.
pub proof fn lemma_overlay_field_lookup(fields: Seq<FieldValue>, field: FieldValue, result: Seq<FieldValue>)
    requires
        overlay_field(fields, field, result),
    ensures
        binds_label(result, field.label@, field.value),
        forall|label: Seq<char>, value: Rc<Value>|
            label != field.label@ ==> (#[trigger] binds_label(result, label, value) <==> binds_label(
                fields,
                label,
                value,
            )),
        forall|label: Seq<char>|
            label != field.label@ ==> (#[trigger] lacks_label(result, label) <==> lacks_label(fields, label)),
{
    if exists|at: int|
        field_position(fields, field.label@, at) && result == fields.update(
            at,
            FieldValue { label: fields[at].label, value: field.value },
        ) {
        let at = choose|at: int|
            field_position(fields, field.label@, at) && result == fields.update(
                at,
                FieldValue { label: fields[at].label, value: field.value },
            );
        assert(forall|i: int| 0 <= i < fields.len() ==> #[trigger] result[i].label == fields[i].label);
        assert(field_position(result, field.label@, at));
        assert forall|label: Seq<char>, value: Rc<Value>|
            label != field.label@ implies (#[trigger] binds_label(result, label, value) <==> binds_label(
                fields,
                label,
                value,
            )) by {
            if binds_label(result, label, value) {
                let p = choose|p: int| field_position(result, label, p) && result[p].value == value;
                assert(result[p].label == fields[p].label);
                assert forall|i: int| 0 <= i < p implies fields[i].label@ != label by {
                    assert(result[i].label == fields[i].label);
                }
                assert(field_position(fields, label, p));
                assert(p != at);
            }
            if binds_label(fields, label, value) {
                let p = choose|p: int| field_position(fields, label, p) && fields[p].value == value;
                assert(result[p].label == fields[p].label);
                assert forall|i: int| 0 <= i < p implies result[i].label@ != label by {
                    assert(result[i].label == fields[i].label);
                }
                assert(field_position(result, label, p));
                assert(p != at);
            }
        }
    } else {
        let at = choose|at: int|
            0 <= at <= fields.len() && result == fields.insert(at, field) && (forall|i: int|
                0 <= i < at ==> lex_less(fields[i].label@, field.label@)) && (at < fields.len()
                ==> !lex_less(fields[at].label@, field.label@));
        assert(field_position(result, field.label@, at));
        assert forall|label: Seq<char>, value: Rc<Value>|
            label != field.label@ implies (#[trigger] binds_label(result, label, value) <==> binds_label(
                fields,
                label,
                value,
            )) by {
            if binds_label(result, label, value) {
                let p = choose|p: int| field_position(result, label, p) && result[p].value == value;
                assert(p != at);
                let q = if p < at { p } else { p - 1 };
                assert(fields[q] == result[p]);
                assert forall|i: int| 0 <= i < q implies fields[i].label@ != label by {
                    let r = if i < at { i } else { i + 1 };
                    assert(result[r] == fields[i]);
                }
                assert(field_position(fields, label, q));
            }
            if binds_label(fields, label, value) {
                let q = choose|q: int| field_position(fields, label, q) && fields[q].value == value;
                let p = if q < at { q } else { q + 1 };
                assert(result[p] == fields[q]);
                assert forall|i: int| 0 <= i < p implies result[i].label@ != label by {
                    if i != at {
                        let r = if i < at { i } else { i - 1 };
                        assert(result[i] == fields[r]);
                    }
                }
                assert(field_position(result, label, p));
            }
        }
        assert forall|label: Seq<char>|
            label != field.label@ implies (#[trigger] lacks_label(result, label) <==> lacks_label(
                fields,
                label,
            )) by {
            if lacks_label(fields, label) {
                assert forall|i: int| 0 <= i < result.len() implies result[i].label@ != label by {
                    if i != at {
                        let r = if i < at { i } else { i - 1 };
                        assert(result[i] == fields[r]);
                    }
                }
            }
            if lacks_label(result, label) {
                assert forall|i: int| 0 <= i < fields.len() implies fields[i].label@ != label by {
                    let r = if i < at { i } else { i + 1 };
                    assert(result[r] == fields[i]);
                }
            }
        }
    }
    if exists|at: int|
        field_position(fields, field.label@, at) && result == fields.update(
            at,
            FieldValue { label: fields[at].label, value: field.value },
        ) {
        let at = choose|at: int|
            field_position(fields, field.label@, at) && result == fields.update(
                at,
                FieldValue { label: fields[at].label, value: field.value },
            );
        assert forall|label: Seq<char>|
            label != field.label@ implies (#[trigger] lacks_label(result, label) <==> lacks_label(
                fields,
                label,
            )) by {
            assert forall|i: int| 0 <= i < fields.len() implies (result[i].label@ == label) == (
            fields[i].label@ == label) by {
                assert(result[i].label == fields[i].label);
            }
        }
    }
}

/// **The overlay law.** After `recordupdate`, a label the overrides carry is
/// bound to the overriding value; a label they do not carry is bound as the
/// base binds it, and is absent exactly when the base lacks it.
pub proof fn lemma_overlays_lookup(
    base: Seq<FieldValue>,
    overlay: Seq<FieldValue>,
    result: Seq<FieldValue>,
    label: Seq<char>,
)
    requires
        overlays(base, overlay, result),
        distinct_labels(overlay),
    ensures
        forall|k: int|
            0 <= k < overlay.len() && overlay[k].label@ == label ==> binds_label(
                result,
                label,
                #[trigger] overlay[k].value,
            ),
        lacks_label(overlay, label) ==> (lacks_label(result, label) <==> lacks_label(base, label)),
        lacks_label(overlay, label) ==> forall|value: Rc<Value>|
            #[trigger] binds_label(result, label, value) <==> binds_label(base, label, value),
    decreases overlay.len(),
{
    if overlay.len() > 0 {
        let rest = overlay.drop_last();
        let last = overlay.last();
        let mid = choose|mid: Seq<FieldValue>|
            overlays(base, rest, mid) && #[trigger] overlay_field(mid, last, result);
        assert(distinct_labels(rest)) by {
            assert forall|i: int, j: int| 0 <= i < j < rest.len() implies #[trigger] rest[i].label@
                != #[trigger] rest[j].label@ by {
                assert(rest[i] == overlay[i] && rest[j] == overlay[j]);
            }
        }
        lemma_overlays_lookup(base, rest, mid, label);
        lemma_overlay_field_lookup(mid, last, result);
        assert forall|k: int|
            0 <= k < overlay.len() && overlay[k].label@ == label implies binds_label(
            result,
            label,
            #[trigger] overlay[k].value,
        ) by {
            if k < overlay.len() - 1 {
                assert(rest[k] == overlay[k]);
                assert(overlay[k].label@ != overlay[overlay.len() - 1].label@);
                assert(binds_label(mid, label, rest[k].value));
            }
        }
        if lacks_label(overlay, label) {
            assert(lacks_label(rest, label)) by {
                assert forall|i: int| 0 <= i < rest.len() implies rest[i].label@ != label by {
                    assert(rest[i] == overlay[i]);
                }
            }
            assert(last.label@ != label) by {
                assert(overlay[overlay.len() - 1] == last);
            }
        }
    }
}

/// `recordupdate r o` — overlay the manifest overrides record onto the
/// manifest base record field by field, returning a fresh record: override
/// labels win, base-only labels survive, override-only labels extend.
pub fn native_record_update(args: &[Rc<Value>]) -> (c: Comp)
    ensures
        native_record_update_outcome(args@, c),
{
    match two_args(args) {
        Some((base, overrides)) => match (as_record(&base), as_record(&overrides)) {
            (Some(mut fields), Some(overlay)) => {
                let ghost base_fields = fields@;
                let mut index: usize = 0;
                proof {
                    assert(overlay@.subrange(0, 0).len() == 0);
                }
                while index < overlay.len()
                    invariant
                        index <= overlay@.len(),
                        overlays(base_fields, overlay@.subrange(0, index as int), fields@),
                    decreases overlay@.len() - index,
                {
                    let field = &overlay[index];
                    let ghost prev = fields@;
                    let next = FieldValue { label: field.label.clone(), value: share(&field.value) };
                    proof {
                        assert(next == overlay@[index as int]);
                    }
                    insert_field(&mut fields, next);
                    proof {
                        let grown = overlay@.subrange(0, index + 1);
                        assert(grown.drop_last() =~= overlay@.subrange(0, index as int));
                        assert(grown.last() == overlay@[index as int]);
                        assert(overlay_field(prev, grown.last(), fields@));
                    }
                    index = index + 1;
                }
                proof {
                    assert(overlay@.subrange(0, overlay@.len() as int) =~= overlay@);
                }
                let c = Comp::Ret(Rc::new(Value::Record(fields)));
                assert(returns_record(c, fields@));
                c
            },
            _ => Comp::hole(0),
        },
        None => Comp::hole(0),
    }
}


/// The name of a generated binder: a `$` sigil the surface grammar cannot
/// produce, the prefix, and the decimal index.
pub open spec fn gen_name(prefix: Seq<char>, index: nat) -> Seq<char> {
    seq!['$'] + prefix + decimal_chars(index)
}

/// Distinct indices give distinct generated names under one prefix.
pub proof fn lemma_gen_name_injective(prefix: Seq<char>, i: nat, j: nat)
    requires
        gen_name(prefix, i) == gen_name(prefix, j),
    ensures
        i == j,
{
    let start = prefix.len() + 1;
    let a = gen_name(prefix, i);
    let b = gen_name(prefix, j);
    assert(a.subrange(start as int, a.len() as int) =~= decimal_chars(i));
    assert(b.subrange(start as int, b.len() as int) =~= decimal_chars(j));
    crate::text::lemma_decimal_chars_injective(i, j);
}

/// A collision-free generated binder `${prefix}{index}`.
pub fn gen_binder(prefix: &str, index: usize) -> (name: String)
    ensures
        name@ == gen_name(prefix@, index as nat),
{
    let mut chars: Vec<char> = Vec::new();
    chars.push('$');
    let mut tail = chars_of(prefix);
    chars.append(&mut tail);
    let mut digits = decimal(index as u64);
    chars.append(&mut digits);
    proof {
        assert(chars@ =~= seq!['$'] + prefix@ + decimal_chars(index as nat));
    }
    string_of(chars.as_slice())
}

/// `force f` applied to `arg`, as a spec.
pub open spec fn forced_call(f: Rc<Value>, arg: Rc<Value>) -> Comp {
    Comp::App(Rc::new(Comp::Force(f)), arg)
}

/// `c` sequences `bound` first, binding its result to `name`.
pub open spec fn binds(c: Comp, bound: Comp, name: Seq<char>) -> bool {
    match c {
        Comp::Bind(first, binder, _) => *first == bound && binder@ == name,
        _ => false,
    }
}

/// `force f` applied to `arg`.
fn call_forced(f: &Rc<Value>, arg: &Rc<Value>) -> (c: Comp)
    ensures
        c == forced_call(*f, *arg),
{
    Comp::App(Rc::new(Comp::Force(share(f))), share(arg))
}

/// The head `c` puts in front of the variable named `tail`, when `c` is the
/// runtime cons `ListConcat [head] tail`.
pub open spec fn cons_head(c: Comp, tail: Seq<char>) -> Option<Rc<Value>> {
    match c {
        Comp::App(inner, t) => if is_var_named(*t, tail) {
            match *inner {
                Comp::App(op, l) => if (match *op {
                    Comp::Native { prim, args } => prim == NativePrim::ListConcat && args@.len() == 0,
                    _ => false,
                }) {
                    match *l {
                        Value::List(v) => if v@.len() == 1 {
                            Some(v@[0])
                        } else {
                            None
                        },
                        _ => None,
                    }
                } else {
                    None
                },
                _ => None,
            }
        } else {
            None
        },
        _ => None,
    }
}

/// `c` is the runtime cons of `head` onto the variable named `tail`.
pub open spec fn conses_onto(c: Comp, head: Rc<Value>, tail: Seq<char>) -> bool {
    cons_head(c, tail) == Some(head)
}

/// The runtime cons `head :: tail`, built as `ListConcat [head] tail` so a
/// runtime tail is prepended without a structural destructor.
pub fn native_cons(head: Rc<Value>, tail: Value) -> (c: Comp)
    ensures
        c matches Comp::App(inner, t) && *t == tail,
        tail is Var ==> conses_onto(c, head, tail->Var_0@),
{
    let mut single: Vec<Rc<Value>> = Vec::new();
    single.push(head);
    Comp::App(
        Rc::new(Comp::App(Rc::new(Comp::native(NativePrim::ListConcat)), Rc::new(Value::List(single)))),
        Rc::new(tail),
    )
}

/// The bindings met along the sequencing spine of `c`, outermost first and
/// at most `depth` of them: each bound computation with its binder's name.
pub open spec fn bind_spine(c: Comp, depth: nat) -> Seq<(Comp, Seq<char>)>
    decreases depth,
{
    if depth == 0 {
        Seq::empty()
    } else {
        match c {
            Comp::Bind(first, name, rest) => seq![(*first, name@)] + bind_spine(
                *rest,
                (depth - 1) as nat,
            ),
            _ => Seq::empty(),
        }
    }
}

/// What stands after the first `depth` bindings of the spine of `c`.
pub open spec fn spine_end(c: Comp, depth: nat) -> Comp
    decreases depth,
{
    if depth == 0 {
        c
    } else {
        match c {
            Comp::Bind(_, _, rest) => spine_end(*rest, (depth - 1) as nat),
            _ => c,
        }
    }
}

/// The list a computation returns outright, if it is `ret [..]`.
pub open spec fn returned_list(c: Comp) -> Option<Seq<Rc<Value>>> {
    match c {
        Comp::Ret(v) => match *v {
            Value::List(xs) => Some(xs@),
            _ => None,
        },
        _ => None,
    }
}

/// `v` is the variable named `name`.
pub open spec fn is_var_named(v: Value, name: Seq<char>) -> bool {
    match v {
        Value::Var(x) => x@ == name,
        _ => false,
    }
}

/// The shape of `each f xs`: `force f` on each element in turn, bound to
/// `$each0`, `$each1`, …, then the list of those binders in index order.
pub open spec fn each_shape(f: Rc<Value>, xs: Seq<Rc<Value>>, c: Comp) -> bool {
    &&& bind_spine(c, xs.len()) == Seq::new(
        xs.len(),
        |k: int| (forced_call(f, xs[k]), gen_name("each"@, k as nat)),
    )
    &&& returned_list(spine_end(c, xs.len())) is Some
    &&& returned_list(spine_end(c, xs.len())).unwrap().len() == xs.len()
    &&& forall|k: int|
        0 <= k < xs.len() ==> is_var_named(
            *returned_list(spine_end(c, xs.len())).unwrap()[k],
            #[trigger] gen_name("each"@, k as nat),
        )
}

/// What `native_each` returns on `args`.
pub open spec fn native_each_outcome(args: Seq<Rc<Value>>, c: Comp) -> bool {
    &&& !(args.len() == 2 && list_of(*args[1]) is Some) ==> c == Comp::Hole(0)
    &&& args.len() == 2 && list_of(*args[1]) == Some(Seq::<Rc<Value>>::empty()) ==> returns_list(
        c,
        Seq::empty(),
    )
    &&& args.len() == 2 && list_of(*args[1]) is Some && list_of(*args[1]).unwrap().len() > 0
        ==> binds(
        c,
        forced_call(args[0], list_of(*args[1]).unwrap()[0]),
        gen_name("each"@, 0),
    )
    &&& args.len() == 2 && list_of(*args[1]) is Some ==> each_shape(
        args[0],
        list_of(*args[1]).unwrap(),
        c,
    )
}

/// `each f xs` maps `f` over `xs` in order: its computation binds, one after
/// another, `force f` applied to each element of `xs` in turn, each under a
/// binder of its own, and then returns the list of exactly those binders, the
/// `k`-th element of the result being the binder of `f` on the `k`-th element.
pub proof fn lemma_each_maps_in_order(args: Seq<Rc<Value>>, c: Comp)
    requires
        native_each_outcome(args, c),
        args.len() == 2,
        list_of(*args[1]) is Some,
    ensures
        ({
            let xs = list_of(*args[1]).unwrap();
            let spine = bind_spine(c, xs.len());
            let ys = returned_list(spine_end(c, xs.len()));
            &&& spine.len() == xs.len()
            &&& forall|k: int| 0 <= k < xs.len() ==> #[trigger] spine[k].0 == forced_call(args[0], xs[k])
            &&& forall|j: int, k: int|
                0 <= j < k < xs.len() ==> #[trigger] spine[j].1 != #[trigger] spine[k].1
            &&& ys is Some
            &&& ys.unwrap().len() == xs.len()
            &&& forall|k: int| 0 <= k < xs.len() ==> is_var_named(*ys.unwrap()[k], #[trigger] spine[k].1)
        }),
{
    let xs = list_of(crate::store::spelling::referent(&args[1])).unwrap();
    let spine = bind_spine(c, xs.len());
    assert forall|k: int| 0 <= k < xs.len() implies is_var_named(
        *returned_list(spine_end(c, xs.len())).unwrap()[k],
        #[trigger] spine[k].1,
    ) by {
        assert(spine[k].1 == gen_name("each"@, k as nat));
    }
    assert forall|j: int, k: int| 0 <= j < k < xs.len() implies #[trigger] spine[j].1 != #[trigger] spine[k].1 by {
        if spine[j].1 == spine[k].1 {
            assert(spine[j].1 == gen_name("each"@, j as nat));
            assert(spine[k].1 == gen_name("each"@, k as nat));
            lemma_gen_name_injective("each"@, j as nat, k as nat);
        }
    }
}

/// `each f xs` — map the pure closure over the manifest list, in order:
/// `force(f) x₀ >>= r₀. … ret [r₀, …]`.
pub fn native_each(args: &[Rc<Value>]) -> (c: Comp)
    ensures
        native_each_outcome(args@, c),
{
    let (closure, list) = match two_args(args) {
        Some(pair) => pair,
        None => {
            return Comp::hole(0);
        },
    };
    let items = match as_list(&list) {
        Some(items) => items,
        None => {
            return Comp::hole(0);
        },
    };
    proof {
        reveal_strlit("each");
    }
    let mut results: Vec<Rc<Value>> = Vec::new();
    let mut k: usize = 0;
    while k < items.len()
        invariant
            k <= items@.len(),
            results@.len() == k,
            forall|j: int|
                0 <= j < k ==> is_var_named(*results@[j], #[trigger] gen_name("each"@, j as nat)),
        decreases items@.len() - k,
    {
        results.push(Rc::new(Value::Var(gen_binder("each", k))));
        k = k + 1;
    }
    let ghost names = results@;
    proof {
        if items@.len() == 0 {
            assert(names =~= Seq::<Rc<Value>>::empty());
        }
    }
    let mut body = Comp::Ret(Rc::new(Value::List(results)));
    let mut index = items.len();
    while index > 0
        invariant
            index <= items@.len(),
            index == items@.len() ==> returns_list(body, names),
            items@.len() == 0 ==> names == Seq::<Rc<Value>>::empty(),
            index < items@.len() ==> binds(
                body,
                forced_call(closure, items@[index as int]),
                gen_name("each"@, index as nat),
            ),
            bind_spine(body, (items@.len() - index) as nat) == Seq::new(
                (items@.len() - index) as nat,
                |j: int| (forced_call(closure, items@[index + j]), gen_name("each"@, (index + j) as nat)),
            ),
            returned_list(spine_end(body, (items@.len() - index) as nat)) == Some(names),
        decreases index,
    {
        let ghost before = body;
        index = index - 1;
        let call = call_forced(&closure, &items[index]);
        body = Comp::Bind(Rc::new(call), gen_binder("each", index), Rc::new(body));
        proof {
            let m = (items@.len() - index) as nat;
            assert(spine_end(body, m) == spine_end(before, (m - 1) as nat));
            assert(bind_spine(body, m) == seq![(call, gen_name("each"@, index as nat))] + bind_spine(
                before,
                (m - 1) as nat,
            ));
            assert(bind_spine(body, m) =~= Seq::new(
                m,
                |j: int| (forced_call(closure, items@[index + j]), gen_name("each"@, (index + j) as nat)),
            ));
        }
    }
    proof {
        let n = items@.len();
        assert(bind_spine(body, n) =~= Seq::new(
            n,
            |k: int| (forced_call(closure, items@[k]), gen_name("each"@, k as nat)),
        ));
    }
    body
}

/// The branch of one `where` level: on the boolean bound to `test`, the
/// left (true) arm conses `x` onto the filtered tail bound to `tail`, and the
/// right (false) arm returns that tail as it is.
pub open spec fn where_decision(d: Comp, x: Rc<Value>, test: Seq<char>, tail: Seq<char>) -> bool {
    match d {
        Comp::Case(s, l, r) => is_var_named(*s, test) && conses_onto(*l.body, x, tail) && match *r.body {
            Comp::Ret(v) => is_var_named(*v, tail),
            _ => false,
        },
        _ => false,
    }
}

/// The unrolled `where p xs` from element `k` on: test `force p xs[k]` into
/// `$wtk`, filter the rest into `$wysk`, then keep or drop `xs[k]`; past the
/// end, the empty list.
pub open spec fn where_chain(pred: Rc<Value>, xs: Seq<Rc<Value>>, k: nat, c: Comp) -> bool
    decreases xs.len() - k,
{
    if k >= xs.len() {
        returns_list(c, Seq::empty())
    } else {
        match c {
            Comp::Bind(test, tb, rest) => *test == forced_call(pred, xs[k as int]) && tb@ == gen_name(
                "wt"@,
                k,
            ) && match *rest {
                Comp::Bind(tail, yb, decide) => yb@ == gen_name("wys"@, k) && where_chain(
                    pred,
                    xs,
                    k + 1,
                    *tail,
                ) && where_decision(*decide, xs[k as int], gen_name("wt"@, k), gen_name("wys"@, k)),
                _ => false,
            },
            _ => false,
        }
    }
}

/// What `native_where` returns on `args`.
pub open spec fn native_where_outcome(args: Seq<Rc<Value>>, c: Comp) -> bool {
    &&& !(args.len() == 2 && list_of(*args[1]) is Some) ==> c == Comp::Hole(0)
    &&& args.len() == 2 && list_of(*args[1]) == Some(Seq::<Rc<Value>>::empty()) ==> returns_list(
        c,
        Seq::empty(),
    )
    &&& args.len() == 2 && list_of(*args[1]) is Some && list_of(*args[1]).unwrap().len() > 0
        ==> binds(
        c,
        forced_call(args[0], list_of(*args[1]).unwrap()[0]),
        gen_name("wt"@, 0),
    )
    &&& args.len() == 2 && list_of(*args[1]) is Some ==> where_chain(
        args[0],
        list_of(*args[1]).unwrap(),
        0,
        c,
    )
}

/// `where p xs` — keep the elements the pure predicate accepts, in order.
/// Each level forces the predicate, binds the filtered tail once, then
/// branches, so the unrolled term stays linear in the list length.
pub fn native_where(args: &[Rc<Value>]) -> (c: Comp)
    ensures
        native_where_outcome(args@, c),
{
    let (pred, list) = match two_args(args) {
        Some(pair) => pair,
        None => {
            return Comp::hole(0);
        },
    };
    let items = match as_list(&list) {
        Some(items) => items,
        None => {
            return Comp::hole(0);
        },
    };
    let mut body = Comp::Ret(Rc::new(Value::List(Vec::new())));
    let mut index = items.len();
    while index > 0
        invariant
            index <= items@.len(),
            index == items@.len() ==> returns_list(body, Seq::empty()),
            index < items@.len() ==> binds(
                body,
                forced_call(pred, items@[index as int]),
                gen_name("wt"@, index as nat),
            ),
            where_chain(pred, items@, index as nat, body),
        decreases index,
    {
        index = index - 1;
        let element = share(&items[index]);
        let test = call_forced(&pred, &element);
        let test_binder = gen_binder("wt", index);
        let tail_binder = gen_binder("wys", index);
        let keep = native_cons(share(&element), Value::Var(tail_binder.clone()));
        let discard = Comp::Ret(Rc::new(Value::Var(tail_binder.clone())));
        let decide = Comp::case(Value::Var(test_binder.clone()), "$wp", keep, "$wq", discard);
        body = Comp::Bind(
            Rc::new(test),
            test_binder,
            Rc::new(Comp::Bind(Rc::new(body), tail_binder, Rc::new(decide))),
        );
    }
    body
}

/// One fold step `force(f) acc item`.
fn fold_step(f: &Rc<Value>, acc: Rc<Value>, item: &Rc<Value>) -> (c: Comp)
    ensures
        c == Comp::App(Rc::new(Comp::App(Rc::new(Comp::Force(*f)), acc)), *item),
{
    Comp::App(Rc::new(Comp::App(Rc::new(Comp::Force(share(f))), acc)), share(item))
}

/// The parts of a fold step `force f acc item`: the closure, the
/// accumulator and the item.
pub open spec fn step_parts(c: Comp) -> Option<(Rc<Value>, Rc<Value>, Rc<Value>)> {
    match c {
        Comp::App(inner, item) => match *inner {
            Comp::App(head, acc) => match *head {
                Comp::Force(f) => Some((f, acc, item)),
                _ => None,
            },
            _ => None,
        },
        _ => None,
    }
}

/// `c` is the `k`-th step of a left fold of `f` from `seed`: `force f acc
/// item`, whose accumulator is `seed` at the first step and the binder of
/// the step before after that.
pub open spec fn fold_step_at(c: Comp, f: Rc<Value>, seed: Rc<Value>, item: Rc<Value>, k: nat) -> bool {
    &&& step_parts(c) is Some
    &&& step_parts(c).unwrap().0 == f
    &&& step_parts(c).unwrap().2 == item
    &&& k == 0 ==> step_parts(c).unwrap().1 == seed
    &&& k > 0 ==> is_var_named(*step_parts(c).unwrap().1, gen_name("acc"@, (k - 1) as nat))
}

/// The shape of `reduce f seed xs` on a non-empty list: a step on each
/// element but the last bound to `$acc0`, `$acc1`, …, then the step on the
/// last element.
pub open spec fn reduce_shape(f: Rc<Value>, seed: Rc<Value>, xs: Seq<Rc<Value>>, c: Comp) -> bool {
    let m = (xs.len() - 1) as nat;
    &&& bind_spine(c, m).len() == m
    &&& forall|k: int|
        0 <= k < m ==> (#[trigger] bind_spine(c, m)[k]).1 == gen_name("acc"@, k as nat) && fold_step_at(
            bind_spine(c, m)[k].0,
            f,
            seed,
            xs[k],
            k as nat,
        )
    &&& fold_step_at(spine_end(c, m), f, seed, xs[m as int], m)
}

/// What `native_reduce` returns on `args`.
pub open spec fn native_reduce_outcome(args: Seq<Rc<Value>>, c: Comp) -> bool {
    &&& !(args.len() == 3 && list_of(*args[2]) is Some) ==> c == Comp::Hole(0)
    &&& args.len() == 3 && list_of(*args[2]) == Some(Seq::<Rc<Value>>::empty()) ==> c
        == Comp::Ret(args[1])
    &&& args.len() == 3 && list_of(*args[2]) is Some && list_of(*args[2]).unwrap().len() == 1
        ==> c == Comp::App(
        Rc::new(Comp::App(Rc::new(Comp::Force(args[0])), args[1])),
        list_of(*args[2]).unwrap()[0],
    )
    &&& args.len() == 3 && list_of(*args[2]) is Some && list_of(*args[2]).unwrap().len() > 1
        ==> binds(
        c,
        Comp::App(
            Rc::new(Comp::App(Rc::new(Comp::Force(args[0])), args[1])),
            list_of(*args[2]).unwrap()[0],
        ),
        gen_name("acc"@, 0),
    )
    &&& args.len() == 3 && list_of(*args[2]) is Some && list_of(*args[2]).unwrap().len() > 0
        ==> reduce_shape(args[0], args[1], list_of(*args[2]).unwrap(), c)
}

/// `reduce f z xs` is a left fold: on a non-empty list its computation
/// runs one step `force f acc x` per element, in the order of the list; the
/// first step's accumulator is the seed, each later step's accumulator is
/// the variable bound to the result of the step just before it, and the
/// last step, left unbound, gives the result.
pub proof fn lemma_reduce_folds_left(args: Seq<Rc<Value>>, c: Comp)
    requires
        native_reduce_outcome(args, c),
        args.len() == 3,
        list_of(*args[2]) is Some,
        list_of(*args[2]).unwrap().len() > 0,
    ensures
        ({
            let xs = list_of(*args[2]).unwrap();
            let m = (xs.len() - 1) as nat;
            let spine = bind_spine(c, m);
            let step = |k: int| if k < m { spine[k].0 } else { spine_end(c, m) };
            &&& spine.len() == m
            &&& forall|k: int|
                0 <= k <= m ==> #[trigger] step_parts(step(k)) is Some && step_parts(step(k)).unwrap().0
                    == args[0] && step_parts(step(k)).unwrap().2 == xs[k]
            &&& step_parts(step(0)).unwrap().1 == args[1]
            &&& forall|k: int|
                0 < k <= m ==> is_var_named(*(#[trigger] step_parts(step(k))).unwrap().1, spine[k - 1].1)
            &&& forall|j: int, k: int|
                0 <= j < k < m ==> #[trigger] spine[j].1 != #[trigger] spine[k].1
        }),
{
    let xs = list_of(crate::store::spelling::referent(&args[2])).unwrap();
    let m = (xs.len() - 1) as nat;
    let spine = bind_spine(c, m);
    assert forall|j: int, k: int| 0 <= j < k < m implies #[trigger] spine[j].1 != #[trigger] spine[k].1 by {
        if spine[j].1 == spine[k].1 {
            lemma_gen_name_injective("acc"@, j as nat, k as nat);
        }
    }
}

/// `reduce f z xs` — left fold the manifest list with the pure binary closure
/// from the seed: `f z x₀ >>= a₀. f a₀ x₁ >>= a₁. … f aₙ₋₂ xₙ₋₁`; the empty
/// list returns the seed.
pub fn native_reduce(args: &[Rc<Value>]) -> (c: Comp)
    ensures
        native_reduce_outcome(args@, c),
{
    let (closure, seed, list) = match three_args(args) {
        Some(triple) => triple,
        None => {
            return Comp::hole(0);
        },
    };
    let items = match as_list(&list) {
        Some(items) => items,
        None => {
            return Comp::hole(0);
        },
    };
    if items.len() == 0 {
        return Comp::Ret(seed);
    }
    let last = items.len() - 1;
    let final_acc = if last == 0 {
        share(&seed)
    } else {
        Rc::new(Value::Var(gen_binder("acc", last - 1)))
    };
    let mut body = fold_step(&closure, final_acc, &items[last]);
    let mut index = last;
    while index > 0
        invariant
            index <= last,
            last == items@.len() - 1,
            index == 0 && last == 0 ==> body == Comp::App(
                Rc::new(Comp::App(Rc::new(Comp::Force(closure)), seed)),
                items@[0],
            ),
            index < last ==> binds(
                body,
                Comp::App(
                    Rc::new(
                        Comp::App(
                            Rc::new(Comp::Force(closure)),
                            if index == 0 {
                                seed
                            } else {
                                body->Bind_0->App_0->App_1
                            },
                        ),
                    ),
                    items@[index as int],
                ),
                gen_name("acc"@, index as nat),
            ),
            bind_spine(body, (last - index) as nat).len() == last - index,
            forall|j: int|
                0 <= j < last - index ==> (#[trigger] bind_spine(body, (last - index) as nat)[j]).1
                    == gen_name("acc"@, (index + j) as nat) && fold_step_at(
                    bind_spine(body, (last - index) as nat)[j].0,
                    closure,
                    seed,
                    items@[index + j],
                    (index + j) as nat,
                ),
            fold_step_at(spine_end(body, (last - index) as nat), closure, seed, items@[last as int], last as nat),
        decreases index,
    {
        let ghost before = body;
        index = index - 1;
        let acc = if index == 0 {
            share(&seed)
        } else {
            Rc::new(Value::Var(gen_binder("acc", index - 1)))
        };
        let step = fold_step(&closure, acc, &items[index]);
        body = Comp::Bind(Rc::new(step), gen_binder("acc", index), Rc::new(body));
        proof {
            let d = (last - index) as nat;
            assert(spine_end(body, d) == spine_end(before, (d - 1) as nat));
            assert(bind_spine(body, d) == seq![(step, gen_name("acc"@, index as nat))] + bind_spine(
                before,
                (d - 1) as nat,
            ));
            assert(fold_step_at(step, closure, seed, items@[index as int], index as nat));
            assert forall|j: int| 0 <= j < d implies (#[trigger] bind_spine(body, d)[j]).1 == gen_name(
                "acc"@,
                (index + j) as nat,
            ) && fold_step_at(
                bind_spine(body, d)[j].0,
                closure,
                seed,
                items@[index + j],
                (index + j) as nat,
            ) by {
                if j > 0 {
                    assert(bind_spine(body, d)[j] == bind_spine(before, (d - 1) as nat)[j - 1]);
                }
            }
        }
    }
    body
}

/// The unrolled quantifier from element `k` on: test `force p xs[k]` into
/// `$qk`; on the short-circuiting answer `short` return it at once, else go
/// on with the rest; past the end, return `!short`.
pub open spec fn quantifier_chain(pred: Rc<Value>, xs: Seq<Rc<Value>>, k: nat, short: bool, c: Comp) -> bool
    decreases xs.len() - k,
{
    if k >= xs.len() {
        c == Comp::Ret(Rc::new(bool_value_spec(!short)))
    } else {
        match c {
            Comp::Bind(test, b, arm) => *test == forced_call(pred, xs[k as int]) && b@ == gen_name(
                "q"@,
                k,
            ) && match *arm {
                Comp::Case(s, l, r) => is_var_named(*s, gen_name("q"@, k)) && if short {
                    *l.body == Comp::Ret(Rc::new(bool_value_spec(true))) && quantifier_chain(
                        pred,
                        xs,
                        k + 1,
                        short,
                        *r.body,
                    )
                } else {
                    quantifier_chain(pred, xs, k + 1, short, *l.body) && *r.body == Comp::Ret(
                        Rc::new(bool_value_spec(false)),
                    )
                },
                _ => false,
            },
            _ => false,
        }
    }
}

/// The short-circuiting quantifier chain shared by `any` and `all`: `short`
/// is the boolean that short-circuits (`true` for `any`, `false` for `all`),
/// and the empty list yields its negation.
pub fn quantify_chain(pred: &Rc<Value>, items: &Vec<Rc<Value>>, short: bool) -> (c: Comp)
    ensures
        items@.len() == 0 ==> c == Comp::Ret(Rc::new(bool_value_spec(!short))),
        items@.len() > 0 ==> binds(c, forced_call(*pred, items@[0]), gen_name("q"@, 0)),
        quantifier_chain(*pred, items@, 0, short, c),
{
    let mut body = ret_bool(!short);
    let mut index = items.len();
    while index > 0
        invariant
            index <= items@.len(),
            index == items@.len() ==> body == Comp::Ret(Rc::new(bool_value_spec(!short))),
            index < items@.len() ==> binds(
                body,
                forced_call(*pred, items@[index as int]),
                gen_name("q"@, index as nat),
            ),
            quantifier_chain(*pred, items@, index as nat, short, body),
        decreases index,
    {
        index = index - 1;
        let test = call_forced(pred, &items[index]);
        let binder = gen_binder("q", index);
        let arm = if short {
            Comp::case(Value::Var(binder.clone()), "$qp", ret_bool(true), "$qq", body)
        } else {
            Comp::case(Value::Var(binder.clone()), "$qp", body, "$qq", ret_bool(false))
        };
        body = Comp::Bind(Rc::new(test), binder, Rc::new(arm));
    }
    body
}

/// What `native_any` returns on `args`.
pub open spec fn native_any_outcome(args: Seq<Rc<Value>>, c: Comp) -> bool {
    &&& !(args.len() == 2 && list_of(*args[1]) is Some) ==> c == Comp::Hole(0)
    &&& args.len() == 2 && list_of(*args[1]) == Some(Seq::<Rc<Value>>::empty()) ==> c
        == Comp::Ret(Rc::new(bool_value_spec(false)))
    &&& args.len() == 2 && list_of(*args[1]) is Some && list_of(*args[1]).unwrap().len() > 0
        ==> binds(c, forced_call(args[0], list_of(*args[1]).unwrap()[0]), gen_name("q"@, 0))
    &&& args.len() == 2 && list_of(*args[1]) is Some ==> quantifier_chain(
        args[0],
        list_of(*args[1]).unwrap(),
        0,
        true,
        c,
    )
}

/// `any p xs` — whether the pure predicate holds for some element,
/// short-circuiting on the first `true`.
pub fn native_any(args: &[Rc<Value>]) -> (c: Comp)
    ensures
        native_any_outcome(args@, c),
{
    match two_args(args) {
        Some((pred, list)) => match as_list(&list) {
            Some(items) => quantify_chain(&pred, &items, true),
            None => Comp::hole(0),
        },
        None => Comp::hole(0),
    }
}

/// What `native_all` returns on `args`.
pub open spec fn native_all_outcome(args: Seq<Rc<Value>>, c: Comp) -> bool {
    &&& !(args.len() == 2 && list_of(*args[1]) is Some) ==> c == Comp::Hole(0)
    &&& args.len() == 2 && list_of(*args[1]) == Some(Seq::<Rc<Value>>::empty()) ==> c
        == Comp::Ret(Rc::new(bool_value_spec(true)))
    &&& args.len() == 2 && list_of(*args[1]) is Some && list_of(*args[1]).unwrap().len() > 0
        ==> binds(c, forced_call(args[0], list_of(*args[1]).unwrap()[0]), gen_name("q"@, 0))
    &&& args.len() == 2 && list_of(*args[1]) is Some ==> quantifier_chain(
        args[0],
        list_of(*args[1]).unwrap(),
        0,
        false,
        c,
    )
}

/// `all p xs` — whether the pure predicate holds for every element,
/// short-circuiting on the first `false`.
pub fn native_all(args: &[Rc<Value>]) -> (c: Comp)
    ensures
        native_all_outcome(args@, c),
{
    match two_args(args) {
        Some((pred, list)) => match as_list(&list) {
            Some(items) => quantify_chain(&pred, &items, false),
            None => Comp::hole(0),
        },
        None => Comp::hole(0),
    }
}

/// What `native_update_at` returns on `args`.
pub open spec fn native_update_at_outcome(args: Seq<Rc<Value>>, c: Comp) -> bool {
    &&& !(args.len() == 3 && list_of(*args[0]) is Some && index_of(*args[1]) is Some
        && index_of(*args[1]).unwrap() < list_of(*args[0]).unwrap().len()) ==> c == Comp::Hole(
        0,
    )
    &&& args.len() == 3 && list_of(*args[0]) is Some && index_of(*args[1]) is Some
        && index_of(*args[1]).unwrap() < list_of(*args[0]).unwrap().len() ==> binds(
        c,
        forced_call(
            args[2],
            list_of(*args[0]).unwrap()[index_of(*args[1]).unwrap() as int],
        ),
        gen_name("uat"@, 0),
    )
    &&& args.len() == 3 && list_of(*args[0]) is Some && index_of(*args[1]) is Some
        && index_of(*args[1]).unwrap() < list_of(*args[0]).unwrap().len() ==> match c {
        Comp::Bind(_, _, rest) => replaces_at(
            list_of(*args[0]).unwrap(),
            index_of(*args[1]).unwrap() as int,
            returned_list(*rest),
            gen_name("uat"@, 0),
        ),
        _ => false,
    }
}

/// `ys` is `xs` with the element at `at` replaced by the variable `name`,
/// every other element kept in place.
pub open spec fn replaces_at(xs: Seq<Rc<Value>>, at: int, ys: Option<Seq<Rc<Value>>>, name: Seq<char>) -> bool {
    &&& ys is Some
    &&& ys.unwrap().len() == xs.len()
    &&& is_var_named(*ys.unwrap()[at], name)
    &&& forall|j: int| 0 <= j < xs.len() && j != at ==> #[trigger] ys.unwrap()[j] == xs[j]
}

/// `update-at xs i f` changes only the element at `i`: for an index inside
/// the list it binds `force f` on that element and returns a list of the
/// same length that holds that binder at `i` and the original elements
/// everywhere else.
pub proof fn lemma_update_at_replaces_one(args: Seq<Rc<Value>>, c: Comp)
    requires
        native_update_at_outcome(args, c),
        args.len() == 3,
        list_of(*args[0]) is Some,
        index_of(*args[1]) is Some,
        index_of(*args[1]).unwrap() < list_of(*args[0]).unwrap().len(),
    ensures
        ({
            let xs = list_of(*args[0]).unwrap();
            let i = index_of(*args[1]).unwrap() as int;
            &&& c matches Comp::Bind(call, name, rest)
            &&& *call == forced_call(args[2], xs[i])
            &&& returned_list(*rest) matches Some(ys) && ys.len() == xs.len() && is_var_named(
                *ys[i],
                name@,
            ) && forall|j: int| 0 <= j < xs.len() && j != i ==> #[trigger] ys[j] == xs[j]
        }),
{
}

/// `update-at xs i f` — apply the pure closure to the element at index `i`:
/// `force(f) xs[i] >>= $uat0. ret [ …, $uat0, … ]`; out-of-bounds is a
/// gradual hole.
pub fn native_update_at(args: &[Rc<Value>]) -> (c: Comp)
    ensures
        native_update_at_outcome(args@, c),
{
    match three_args(args) {
        Some((list, index, closure)) => match as_list(&list) {
            Some(mut items) => {
                proof {
                    assert(items@.len() == items.len());
                }
                match as_index(&index) {
                    Some(at) => if at < items.len() {
                        let binder = gen_binder("uat", 0);
                        let element = share(&items[at]);
                        items.set(at, Rc::new(Value::Var(binder.clone())));
                        let call = call_forced(&closure, &element);
                        Comp::Bind(
                            Rc::new(call),
                            binder,
                            Rc::new(Comp::Ret(Rc::new(Value::List(items)))),
                        )
                    } else {
                        Comp::hole(0)
                    },
                    None => Comp::hole(0),
                }
            },
            None => Comp::hole(0),
        },
        None => Comp::hole(0),
    }
}

/// The branch of one `update-where` level: on the boolean bound to `test`,
/// the left (true) arm binds `force f x` to `result` and conses that binder
/// onto the processed tail bound to `tail`; the right (false) arm conses `x`
/// itself onto it.
pub open spec fn update_where_decision(
    d: Comp,
    f: Rc<Value>,
    x: Rc<Value>,
    test: Seq<char>,
    result: Seq<char>,
    tail: Seq<char>,
) -> bool {
    match d {
        Comp::Case(s, l, r) => is_var_named(*s, test) && conses_onto(*r.body, x, tail) && match *l.body {
            Comp::Bind(call, rb, rest) => *call == forced_call(f, x) && rb@ == result && cons_head(
                *rest,
                tail,
            ) is Some && is_var_named(*cons_head(*rest, tail).unwrap(), result),
            _ => false,
        },
        _ => false,
    }
}

/// The unrolled `update-where p f xs` from element `k` on: test `force p
/// xs[k]` into `$uwtk`, process the rest into `$uwysk`, then put `f xs[k]`
/// or `xs[k]` in front; past the end, the empty list.
pub open spec fn update_where_chain(pred: Rc<Value>, f: Rc<Value>, xs: Seq<Rc<Value>>, k: nat, c: Comp) -> bool
    decreases xs.len() - k,
{
    if k >= xs.len() {
        returns_list(c, Seq::empty())
    } else {
        match c {
            Comp::Bind(test, tb, rest) => *test == forced_call(pred, xs[k as int]) && tb@ == gen_name(
                "uwt"@,
                k,
            ) && match *rest {
                Comp::Bind(tail, yb, decide) => yb@ == gen_name("uwys"@, k) && update_where_chain(
                    pred,
                    f,
                    xs,
                    k + 1,
                    *tail,
                ) && update_where_decision(
                    *decide,
                    f,
                    xs[k as int],
                    gen_name("uwt"@, k),
                    gen_name("uwr"@, k),
                    gen_name("uwys"@, k),
                ),
                _ => false,
            },
            _ => false,
        }
    }
}

/// What `native_update_where` returns on `args`.
pub open spec fn native_update_where_outcome(args: Seq<Rc<Value>>, c: Comp) -> bool {
    &&& !(args.len() == 3 && list_of(*args[2]) is Some) ==> c == Comp::Hole(0)
    &&& args.len() == 3 && list_of(*args[2]) == Some(Seq::<Rc<Value>>::empty()) ==> returns_list(
        c,
        Seq::empty(),
    )
    &&& args.len() == 3 && list_of(*args[2]) is Some && list_of(*args[2]).unwrap().len() > 0
        ==> binds(
        c,
        forced_call(args[0], list_of(*args[2]).unwrap()[0]),
        gen_name("uwt"@, 0),
    )
    &&& args.len() == 3 && list_of(*args[2]) is Some ==> update_where_chain(
        args[0],
        args[1],
        list_of(*args[2]).unwrap(),
        0,
        c,
    )
}

/// `update-where p f xs` — apply the pure closure to every element the pure
/// predicate accepts, keeping the rest and their order; each level binds the
/// processed tail once, like `where`.
pub fn native_update_where(args: &[Rc<Value>]) -> (c: Comp)
    ensures
        native_update_where_outcome(args@, c),
{
    let (pred, func, list) = match three_args(args) {
        Some(triple) => triple,
        None => {
            return Comp::hole(0);
        },
    };
    let items = match as_list(&list) {
        Some(items) => items,
        None => {
            return Comp::hole(0);
        },
    };
    let mut body = Comp::Ret(Rc::new(Value::List(Vec::new())));
    let mut index = items.len();
    while index > 0
        invariant
            index <= items@.len(),
            index == items@.len() ==> returns_list(body, Seq::empty()),
            index < items@.len() ==> binds(
                body,
                forced_call(pred, items@[index as int]),
                gen_name("uwt"@, index as nat),
            ),
            update_where_chain(pred, func, items@, index as nat, body),
        decreases index,
    {
        index = index - 1;
        let element = share(&items[index]);
        let test = call_forced(&pred, &element);
        let test_binder = gen_binder("uwt", index);
        let tail_binder = gen_binder("uwys", index);
        let result_binder = gen_binder("uwr", index);
        let transformed = Comp::Bind(
            Rc::new(call_forced(&func, &element)),
            result_binder.clone(),
            Rc::new(
                native_cons(
                    Rc::new(Value::Var(result_binder.clone())),
                    Value::Var(tail_binder.clone()),
                ),
            ),
        );
        let kept = native_cons(share(&element), Value::Var(tail_binder.clone()));
        let decide = Comp::case(Value::Var(test_binder.clone()), "$uwp", transformed, "$uwq", kept);
        body = Comp::Bind(
            Rc::new(test),
            test_binder,
            Rc::new(Comp::Bind(Rc::new(body), tail_binder, Rc::new(decide))),
        );
    }
    body
}

} // verus!
