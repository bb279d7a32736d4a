//! The bridge from the core calculus into the kernel's first stratum (S1):
//! which core forms have an S1 image, what that image is, and — for every
//! form that has none — the refusal naming it, filed under the exclusion
//! class that explains why.
//!
//! S1's value types are the base atoms `Integer`, `String`, and `Numeric`,
//! unit, products, sums, and ungraded thunks; its computation types are pure
//! returners and arrows. Its values are variables (as de Bruijn indices),
//! admitted constants, unit, integer and text literals, pairs, injections,
//! and thunks; its computations are lambdas, applications, returns, binds,
//! forces, and sum cases. Annotations are erased, and the grade operations
//! `dup` and `drop` erase to `return (v, v)` and `return ()`. The lowering
//! produces the S1 image as a plain tree; minting it into the kernel's own
//! arena is the caller's step.

use std::rc::Rc;
use vstd::prelude::*;

use crate::syntax::names_equal;
use crate::syntax::Comp;
use crate::syntax::Side;
use crate::syntax::Value;
use crate::types::CompType;
use crate::types::ValueType;

verus! {

/// Why a core form has no image in the kernel's first stratum.
#[derive(Clone, Debug, PartialEq, Eq)]
pub enum BridgeRejection {
    /// The free name is bound by no enclosing binder and names no admitted declaration.
    UnboundName(String),
    /// A value-position typed hole.
    ValueHole,
    /// A computation-position typed hole.
    ComputationHole,
    /// The unknown value type.
    UnknownValueType,
    /// The unknown computation type.
    UnknownComputationType,
    /// An effect performance (the target's returner is pure).
    Perform,
    /// An effect handler.
    Handle,
    /// A control-fragment resumption.
    Resume,
    /// A control-fragment delimiter.
    Reset,
    /// A control-fragment capture.
    Shift,
    /// A reified stack in value position.
    ReifiedStackValue,
    /// A reified-stack type.
    ReifiedStackType,
    /// A returner with a non-empty effect row.
    NonEmptyEffectRow,
    /// A native primitive call.
    Native,
    /// A declared-data constructor value.
    DataConstructor,
    /// A declared-data eliminator.
    DataEliminator,
    /// A declared-data nominal type.
    DataType,
    /// A list literal.
    ListValue,
    /// A list type.
    ListType,
    /// A list eliminator.
    ListEliminator,
    /// A record literal.
    RecordValue,
    /// A record type.
    RecordType,
    /// A record projection.
    RecordProjection,
    /// A lazy-product introduction.
    WithComputation,
    /// A lazy-product type.
    WithType,
    /// A lazy-product projection.
    Projection,
    /// A dependent-pair type.
    SigmaType,
    /// A dependent-pair eliminator.
    SplitEliminator,
    /// An identity type.
    PathType,
    /// A reflexivity proof.
    HereProof,
    /// An identity eliminator.
    WalkEliminator,
    /// The un-levelled code universe.
    UniverseType,
    /// A typed machine-numeric literal.
    MachineNumericLiteral,
    /// A base-type atom outside the target's stock of Integer, String, and Numeric.
    UnsupportedBaseAtom(String),
}

/// The exclusion class a refusal is filed under.
pub open spec fn exclusion_class_of(rejection: BridgeRejection) -> Seq<char> {
    match rejection {
        BridgeRejection::UnboundName(_) => "open-free-name"@,
        BridgeRejection::ValueHole => "hole-unknown"@,
        BridgeRejection::ComputationHole => "hole-unknown"@,
        BridgeRejection::UnknownValueType => "hole-unknown"@,
        BridgeRejection::UnknownComputationType => "hole-unknown"@,
        BridgeRejection::Perform => "effects-control"@,
        BridgeRejection::Handle => "effects-control"@,
        BridgeRejection::Resume => "effects-control"@,
        BridgeRejection::Reset => "effects-control"@,
        BridgeRejection::Shift => "effects-control"@,
        BridgeRejection::ReifiedStackValue => "effects-control"@,
        BridgeRejection::ReifiedStackType => "effects-control"@,
        BridgeRejection::NonEmptyEffectRow => "effects-control"@,
        BridgeRejection::Native => "native"@,
        BridgeRejection::DataConstructor => "declared-data"@,
        BridgeRejection::DataEliminator => "declared-data"@,
        BridgeRejection::DataType => "declared-data"@,
        BridgeRejection::ListValue => "structural-stock"@,
        BridgeRejection::ListType => "structural-stock"@,
        BridgeRejection::ListEliminator => "structural-stock"@,
        BridgeRejection::RecordValue => "structural-stock"@,
        BridgeRejection::RecordType => "structural-stock"@,
        BridgeRejection::RecordProjection => "structural-stock"@,
        BridgeRejection::WithComputation => "structural-stock"@,
        BridgeRejection::WithType => "structural-stock"@,
        BridgeRejection::Projection => "structural-stock"@,
        BridgeRejection::SigmaType => "sigma-split"@,
        BridgeRejection::SplitEliminator => "sigma-split"@,
        BridgeRejection::PathType => "identity"@,
        BridgeRejection::HereProof => "identity"@,
        BridgeRejection::WalkEliminator => "identity"@,
        BridgeRejection::UniverseType => "universe"@,
        BridgeRejection::MachineNumericLiteral => "machine-numeric"@,
        BridgeRejection::UnsupportedBaseAtom(_) => "machine-numeric"@,
    }
}

impl BridgeRejection {
    /// The stable exclusion class of this refusal: the rationale class the
    /// refused form belongs to.
    pub fn exclusion_class(&self) -> (class: &'static str)
        ensures
            class@ == exclusion_class_of(*self),
    {
        match self {
            BridgeRejection::UnboundName(_) => "open-free-name",
            BridgeRejection::ValueHole => "hole-unknown",
            BridgeRejection::ComputationHole => "hole-unknown",
            BridgeRejection::UnknownValueType => "hole-unknown",
            BridgeRejection::UnknownComputationType => "hole-unknown",
            BridgeRejection::Perform => "effects-control",
            BridgeRejection::Handle => "effects-control",
            BridgeRejection::Resume => "effects-control",
            BridgeRejection::Reset => "effects-control",
            BridgeRejection::Shift => "effects-control",
            BridgeRejection::ReifiedStackValue => "effects-control",
            BridgeRejection::ReifiedStackType => "effects-control",
            BridgeRejection::NonEmptyEffectRow => "effects-control",
            BridgeRejection::Native => "native",
            BridgeRejection::DataConstructor => "declared-data",
            BridgeRejection::DataEliminator => "declared-data",
            BridgeRejection::DataType => "declared-data",
            BridgeRejection::ListValue => "structural-stock",
            BridgeRejection::ListType => "structural-stock",
            BridgeRejection::ListEliminator => "structural-stock",
            BridgeRejection::RecordValue => "structural-stock",
            BridgeRejection::RecordType => "structural-stock",
            BridgeRejection::RecordProjection => "structural-stock",
            BridgeRejection::WithComputation => "structural-stock",
            BridgeRejection::WithType => "structural-stock",
            BridgeRejection::Projection => "structural-stock",
            BridgeRejection::SigmaType => "sigma-split",
            BridgeRejection::SplitEliminator => "sigma-split",
            BridgeRejection::PathType => "identity",
            BridgeRejection::HereProof => "identity",
            BridgeRejection::WalkEliminator => "identity",
            BridgeRejection::UniverseType => "universe",
            BridgeRejection::MachineNumericLiteral => "machine-numeric",
            BridgeRejection::UnsupportedBaseAtom(_) => "machine-numeric",
        }
    }
}

/// An S1 base atom.
#[derive(Clone, Copy, Debug, PartialEq, Eq, Structural)]
pub enum BaseType {
    /// The integers.
    Integer,
    /// The strings.
    String,
    /// The numerics.
    Numeric,
}

/// The side of an S1 injection.
#[derive(Clone, Copy, Debug, PartialEq, Eq, Structural)]
pub enum KernelSide {
    /// The left summand.
    Left,
    /// The right summand.
    Right,
}

/// An S1 value type.
#[derive(Debug, PartialEq, Eq)]
pub enum KernelValueType {
    /// A base atom.
    Base(BaseType),
    /// The unit type.
    Unit,
    /// A product.
    Product(Box<KernelValueType>, Box<KernelValueType>),
    /// A sum.
    Sum(Box<KernelValueType>, Box<KernelValueType>),
    /// An ungraded thunk type.
    Thunk(Box<KernelCompType>),
}

/// An S1 computation type.
#[derive(Debug, PartialEq, Eq)]
pub enum KernelCompType {
    /// A pure returner.
    Returner(Box<KernelValueType>),
    /// A function type.
    Arrow(Box<KernelValueType>, Box<KernelCompType>),
}

/// An S1 literal.
#[derive(Clone, Debug, PartialEq, Eq)]
pub enum KernelLiteral {
    /// A canonical integer: its sign and its magnitude.
    Integer {
        /// Whether the integer is strictly negative.
        negative: bool,
        /// The magnitude.
        magnitude: u64,
    },
    /// A text literal.
    Text(String),
}

/// An S1 value.
#[derive(Debug, PartialEq, Eq)]
pub enum KernelValue {
    /// A bound variable, by de Bruijn index (innermost binder is zero).
    Variable(u32),
    /// A reference to an admitted declaration, by admission index.
    Constant(u64),
    /// The unit value.
    Unit,
    /// A literal.
    Literal(KernelLiteral),
    /// A pair.
    Pair(Box<KernelValue>, Box<KernelValue>),
    /// An injection.
    Injection(KernelSide, Box<KernelValue>),
    /// A thunk.
    Thunk(Box<KernelComp>),
}

/// An S1 computation.
#[derive(Debug, PartialEq, Eq)]
pub enum KernelComp {
    /// A lambda; its body sees the argument at index zero.
    Lambda(Box<KernelComp>),
    /// An application.
    Application(Box<KernelComp>, Box<KernelValue>),
    /// A returner.
    Return(Box<KernelValue>),
    /// Forcing a thunk.
    Force(Box<KernelValue>),
    /// Sequencing; the body sees the bound value at index zero.
    Bind(Box<KernelComp>, Box<KernelComp>),
    /// A sum case; each arm sees its payload at index zero.
    Case(Box<KernelValue>, Box<KernelComp>, Box<KernelComp>),
}

/// One name the elaborator has admitted, with its admission index.
#[derive(Clone, Debug)]
pub struct ConstantEntry {
    /// The admitted name.
    pub name: String,
    /// Its admission index.
    pub index: u64,
}

/// The admission index the newest entry for `name` carries.
pub open spec fn constant_of(entries: Seq<ConstantEntry>, name: Seq<char>) -> Option<u64>
    decreases entries.len(),
{
    if entries.len() == 0 {
        None
    } else if entries.last().name@ == name {
        Some(entries.last().index)
    } else {
        constant_of(entries.drop_last(), name)
    }
}

/// The elaborator's naming environment for the bridge: which free names
/// resolve to which prior admitted declarations.
#[derive(Clone, Debug)]
pub struct BridgeContext {
    /// The admitted names, oldest first; a later entry for a name overrides.
    constants: Vec<ConstantEntry>,
}

impl BridgeContext {
    /// The admitted names, oldest first.
    pub closed spec fn entries(self) -> Seq<ConstantEntry> {
        self.constants@
    }

    /// An empty naming environment: the closed-program case.
    pub fn new() -> (c: BridgeContext)
        ensures
            c.entries().len() == 0,
    {
        BridgeContext { constants: Vec::new() }
    }

    /// Binds a free name to a prior declaration's admission index.
    pub fn with_constant(self, name: String, index: u64) -> (c: BridgeContext)
        ensures
            c.entries() == self.entries().push(ConstantEntry { name, index }),
            constant_of(c.entries(), name@) == Some(index),
    {
        let mut constants = self.constants;
        constants.push(ConstantEntry { name, index });
        let c = BridgeContext { constants };
        assert(c.entries().drop_last() =~= self.entries());
        c
    }

    /// The admission index a free name resolves to, if any.
    pub fn constant(&self, name: &str) -> (r: Option<u64>)
        ensures
            r == constant_of(self.entries(), name@),
    {
        let mut index = self.constants.len();
        assert(self.constants@.subrange(0, index as int) =~= self.constants@);
        while index > 0
            invariant
                index <= self.constants@.len(),
                constant_of(self.constants@.subrange(0, index as int), name@) == constant_of(
                    self.constants@,
                    name@,
                ),
            decreases index,
        {
            let ghost prefix = self.constants@.subrange(0, index as int);
            let entry = &self.constants[index - 1];
            if names_equal(entry.name.as_str(), name) {
                assert(prefix.last() == *entry);
                return Some(entry.index);
            }
            assert(prefix.drop_last() =~= self.constants@.subrange(0, index - 1));
            index = index - 1;
        }
        assert(self.constants@.subrange(0, 0) =~= Seq::<ConstantEntry>::empty());
        None
    }
}

/// The S1 base atom a core atom name denotes.
pub open spec fn base_of(name: Seq<char>) -> Option<BaseType> {
    if name == "Integer"@ {
        Some(BaseType::Integer)
    } else if name == "String"@ {
        Some(BaseType::String)
    } else if name == "Numeric"@ {
        Some(BaseType::Numeric)
    } else {
        None
    }
}

/// The S1 image of a core value type, or the refusal of the first
/// out-of-S1 former met left to right.
pub open spec fn value_type_image(ty: ValueType) -> Result<KernelValueType, BridgeRejection>
    decreases ty,
{
    match ty {
        ValueType::Atom(name) => match base_of(name@) {
            Some(base) => Ok(KernelValueType::Base(base)),
            None => Err(BridgeRejection::UnsupportedBaseAtom(name)),
        },
        ValueType::Unit => Ok(KernelValueType::Unit),
        ValueType::Prod(first, second) => match value_type_image(*first) {
            Err(e) => Err(e),
            Ok(a) => match value_type_image(*second) {
                Err(e) => Err(e),
                Ok(b) => Ok(KernelValueType::Product(Box::new(a), Box::new(b))),
            },
        },
        ValueType::Sum(first, second) => match value_type_image(*first) {
            Err(e) => Err(e),
            Ok(a) => match value_type_image(*second) {
                Err(e) => Err(e),
                Ok(b) => Ok(KernelValueType::Sum(Box::new(a), Box::new(b))),
            },
        },
        ValueType::Thunk(_, body) => match comp_type_image(*body) {
            Err(e) => Err(e),
            Ok(c) => Ok(KernelValueType::Thunk(Box::new(c))),
        },
        ValueType::List(_) => Err(BridgeRejection::ListType),
        ValueType::Record(_) => Err(BridgeRejection::RecordType),
        ValueType::Stk(..) => Err(BridgeRejection::ReifiedStackType),
        ValueType::Path { .. } => Err(BridgeRejection::PathType),
        ValueType::Data { .. } | ValueType::Sealed(_) => Err(BridgeRejection::DataType),
        ValueType::Universe => Err(BridgeRejection::UniverseType),
        ValueType::Sigma { .. } => Err(BridgeRejection::SigmaType),
        ValueType::Unknown => Err(BridgeRejection::UnknownValueType),
    }
}

/// The S1 image of a core computation type, or the refusal of the first
/// out-of-S1 former met left to right.
pub open spec fn comp_type_image(ty: CompType) -> Result<KernelCompType, BridgeRejection>
    decreases ty,
{
    match ty {
        CompType::F(result, row) => if row.labels@.len() != 0 {
            Err(BridgeRejection::NonEmptyEffectRow)
        } else {
            match value_type_image(*result) {
                Err(e) => Err(e),
                Ok(a) => Ok(KernelCompType::Returner(Box::new(a))),
            }
        },
        CompType::Arrow(domain, codomain) => match value_type_image(*domain) {
            Err(e) => Err(e),
            Ok(a) => match comp_type_image(*codomain) {
                Err(e) => Err(e),
                Ok(c) => Ok(KernelCompType::Arrow(Box::new(a), Box::new(c))),
            },
        },
        CompType::With(..) => Err(BridgeRejection::WithType),
        CompType::Unknown => Err(BridgeRejection::UnknownComputationType),
    }
}

/// The S1 base atom a core type-atom name denotes, or its refusal.
pub fn base_atom(name: &String) -> (r: Result<BaseType, BridgeRejection>)
    ensures
        r == (match base_of(name@) {
            Some(base) => Ok::<BaseType, BridgeRejection>(base),
            None => Err(BridgeRejection::UnsupportedBaseAtom(*name)),
        }),
{
    if names_equal(name.as_str(), "Integer") {
        Ok(BaseType::Integer)
    } else if names_equal(name.as_str(), "String") {
        Ok(BaseType::String)
    } else if names_equal(name.as_str(), "Numeric") {
        Ok(BaseType::Numeric)
    } else {
        Err(BridgeRejection::UnsupportedBaseAtom(name.clone()))
    }
}

/// Lowers a core value type into the S1 value-type vocabulary: its image
/// exactly when every former is in the S1 stock, else the refusal of the
/// first out-of-S1 former met.
pub fn lower_value_type(value_type: &ValueType) -> (r: Result<KernelValueType, BridgeRejection>)
    ensures
        r == value_type_image(*value_type),
    decreases value_type,
{
    match value_type {
        ValueType::Atom(name) => Ok(KernelValueType::Base(base_atom(name)?)),
        ValueType::Unit => Ok(KernelValueType::Unit),
        ValueType::Prod(first, second) => {
            let a = lower_value_type(first)?;
            let b = lower_value_type(second)?;
            Ok(KernelValueType::Product(Box::new(a), Box::new(b)))
        },
        ValueType::Sum(first, second) => {
            let a = lower_value_type(first)?;
            let b = lower_value_type(second)?;
            Ok(KernelValueType::Sum(Box::new(a), Box::new(b)))
        },
        ValueType::Thunk(_, body) => {
            let c = lower_comp_type(body)?;
            Ok(KernelValueType::Thunk(Box::new(c)))
        },
        ValueType::List(_) => Err(BridgeRejection::ListType),
        ValueType::Record(_) => Err(BridgeRejection::RecordType),
        ValueType::Stk(..) => Err(BridgeRejection::ReifiedStackType),
        ValueType::Path { .. } => Err(BridgeRejection::PathType),
        ValueType::Data { .. } | ValueType::Sealed(_) => Err(BridgeRejection::DataType),
        ValueType::Universe => Err(BridgeRejection::UniverseType),
        ValueType::Sigma { .. } => Err(BridgeRejection::SigmaType),
        ValueType::Unknown => Err(BridgeRejection::UnknownValueType),
    }
}

/// Lowers a core computation type into the S1 computation-type vocabulary;
/// see [`lower_value_type`].
pub fn lower_comp_type(comp_type: &CompType) -> (r: Result<KernelCompType, BridgeRejection>)
    ensures
        r == comp_type_image(*comp_type),
    decreases comp_type,
{
    match comp_type {
        CompType::F(result, row) => {
            if !row.is_empty() {
                return Err(BridgeRejection::NonEmptyEffectRow);
            }
            let a = lower_value_type(result)?;
            Ok(KernelCompType::Returner(Box::new(a)))
        },
        CompType::Arrow(domain, codomain) => {
            let a = lower_value_type(domain)?;
            let c = lower_comp_type(codomain)?;
            Ok(KernelCompType::Arrow(Box::new(a), Box::new(c)))
        },
        CompType::With(..) => Err(BridgeRejection::WithType),
        CompType::Unknown => Err(BridgeRejection::UnknownComputationType),
    }
}

/// The kernel injection side for a core side.
pub open spec fn side_of(side: Side) -> KernelSide {
    match side {
        Side::Fst => KernelSide::Left,
        Side::Snd => KernelSide::Right,
    }
}

/// The kernel injection side for a core side.
pub fn kernel_side(side: Side) -> (k: KernelSide)
    ensures
        k == side_of(side),
{
    match side {
        Side::Fst => KernelSide::Left,
        Side::Snd => KernelSide::Right,
    }
}

/// The magnitude of an integer.
pub open spec fn magnitude_of(n: i64) -> nat {
    if n < 0 {
        (-n) as nat
    } else {
        n as nat
    }
}

/// The canonical S1 integer literal for a core integer: its sign and its
/// magnitude.
pub open spec fn literal_of(n: i64) -> KernelLiteral {
    KernelLiteral::Integer { negative: n < 0, magnitude: magnitude_of(n) as u64 }
}

/// The S1 integer literal of a core integer stands for that very integer:
/// its sign and magnitude give the integer back, and zero is never marked
/// negative.
pub proof fn lemma_integer_literal_exact(n: i64)
    ensures
        literal_of(n) matches KernelLiteral::Integer { negative, magnitude } && (if negative {
            -(magnitude as int)
        } else {
            magnitude as int
        }) == n as int && (magnitude == 0 ==> !negative),
{
}

/// The canonical S1 integer literal for a core integer.
pub fn integer_literal(n: i64) -> (l: KernelLiteral)
    ensures
        l == literal_of(n),
{
    let magnitude = if n < 0 {
        if n == i64::MIN {
            0x8000_0000_0000_0000u64
        } else {
            (-n) as u64
        }
    } else {
        n as u64
    };
    KernelLiteral::Integer { negative: n < 0, magnitude }
}

/// The position, counted from the innermost, of the innermost binder named
/// `name`.
pub open spec fn binder_index(locals: Seq<Seq<char>>, name: Seq<char>) -> Option<nat>
    decreases locals.len(),
{
    if locals.len() == 0 {
        None
    } else if locals.last() == name {
        Some(0)
    } else {
        match binder_index(locals.drop_last(), name) {
            Some(i) => Some(i + 1),
            None => None,
        }
    }
}

/// What a core variable resolves to: the innermost binder of that name, else
/// an admitted constant, else the refusal of an unbound name.
pub open spec fn name_image(
    constants: Seq<ConstantEntry>,
    locals: Seq<Seq<char>>,
    name: String,
) -> Result<KernelValue, BridgeRejection> {
    match binder_index(locals, name@) {
        Some(i) => if i <= u32::MAX {
            Ok(KernelValue::Variable(i as u32))
        } else {
            Ok(KernelValue::Variable(u32::MAX))
        },
        None => match constant_of(constants, name@) {
            Some(index) => Ok(KernelValue::Constant(index)),
            None => Err(BridgeRejection::UnboundName(name)),
        },
    }
}

/// Binders further out than a run of non-matching inner binders keep their
/// position, shifted by the length of that run.
proof fn lemma_binder_index_suffix(locals: Seq<Seq<char>>, i: int, name: Seq<char>)
    requires
        0 <= i <= locals.len(),
        forall|j: int| i <= j < locals.len() ==> locals[j] != name,
    ensures
        binder_index(locals, name) == match binder_index(locals.subrange(0, i), name) {
            Some(k) => Some(k + (locals.len() - i) as nat),
            None => None::<nat>,
        },
    decreases locals.len() - i,
{
    if i == locals.len() {
        assert(locals.subrange(0, i) =~= locals);
    } else {
        assert(locals.drop_last().subrange(0, i) =~= locals.subrange(0, i));
        lemma_binder_index_suffix(locals.drop_last(), i, name);
    }
}

/// The names of a binder stack.
pub open spec fn names_of(locals: Seq<String>) -> Seq<Seq<char>> {
    locals.map_values(|s: String| s@)
}

/// Resolves a core variable: the innermost binder of that name by de Bruijn
/// index, else an admitted constant, else the refusal of an unbound name.
pub fn resolve_name(context: &BridgeContext, locals: &Vec<String>, name: &String) -> (r: Result<
    KernelValue,
    BridgeRejection,
>)
    ensures
        r == name_image(context.entries(), names_of(locals@), *name),
{
    let ghost names = names_of(locals@);
    let mut index = locals.len();
    while index > 0
        invariant
            index <= locals@.len(),
            names == names_of(locals@),
            forall|j: int| index <= j < locals@.len() ==> names[j] != name@,
        decreases index,
    {
        if names_equal(locals[index - 1].as_str(), name.as_str()) {
            proof {
                lemma_binder_index_suffix(names, index as int, name@);
                assert(names.subrange(0, index as int).last() == name@);
            }
            let steps = locals.len() - index;
            let position = if steps <= u32::MAX as usize {
                steps as u32
            } else {
                u32::MAX
            };
            return Ok(KernelValue::Variable(position));
        }
        index = index - 1;
    }
    proof {
        lemma_binder_index_suffix(names, 0, name@);
        assert(names.subrange(0, 0) =~= Seq::<Seq<char>>::empty());
    }
    match context.constant(name.as_str()) {
        Some(index) => Ok(KernelValue::Constant(index)),
        None => Err(BridgeRejection::UnboundName(name.clone())),
    }
}

/// The S1 image of a core value under the binders `locals` (innermost
/// last), or the refusal of the first out-of-S1 form met left to right.
pub open spec fn value_image(
    constants: Seq<ConstantEntry>,
    locals: Seq<Seq<char>>,
    value: Value,
) -> Result<KernelValue, BridgeRejection>
    decreases value,
{
    match value {
        Value::Var(name) => name_image(constants, locals, name),
        Value::Unit => Ok(KernelValue::Unit),
        Value::Int(n) => Ok(KernelValue::Literal(literal_of(n))),
        Value::Str(text) => Ok(KernelValue::Literal(KernelLiteral::Text(text))),
        Value::Pair(first, second) => match value_image(constants, locals, *first) {
            Err(e) => Err(e),
            Ok(a) => match value_image(constants, locals, *second) {
                Err(e) => Err(e),
                Ok(b) => Ok(KernelValue::Pair(Box::new(a), Box::new(b))),
            },
        },
        Value::Inj(side, body) => match value_image(constants, locals, *body) {
            Err(e) => Err(e),
            Ok(a) => Ok(KernelValue::Injection(side_of(side), Box::new(a))),
        },
        Value::Thunk(_, body) => match comp_image(constants, locals, *body) {
            Err(e) => Err(e),
            Ok(c) => Ok(KernelValue::Thunk(Box::new(c))),
        },
        Value::Annot(inner, _) => value_image(constants, locals, *inner),
        Value::Num(_) => Err(BridgeRejection::MachineNumericLiteral),
        Value::List(_) => Err(BridgeRejection::ListValue),
        Value::Record(_) => Err(BridgeRejection::RecordValue),
        Value::Hole(_) => Err(BridgeRejection::ValueHole),
        Value::Stk(_) => Err(BridgeRejection::ReifiedStackValue),
        Value::Here(_) => Err(BridgeRejection::HereProof),
        Value::Ctor { .. } => Err(BridgeRejection::DataConstructor),
    }
}

/// The S1 image of a core computation under the binders `locals`, or the
/// refusal of the first out-of-S1 form met left to right.
pub open spec fn comp_image(
    constants: Seq<ConstantEntry>,
    locals: Seq<Seq<char>>,
    comp: Comp,
) -> Result<KernelComp, BridgeRejection>
    decreases comp,
{
    match comp {
        Comp::Abs(binder, _, body) => match comp_image(constants, locals.push(binder@), *body) {
            Err(e) => Err(e),
            Ok(b) => Ok(KernelComp::Lambda(Box::new(b))),
        },
        Comp::App(head, argument) => match comp_image(constants, locals, *head) {
            Err(e) => Err(e),
            Ok(h) => match value_image(constants, locals, *argument) {
                Err(e) => Err(e),
                Ok(a) => Ok(KernelComp::Application(Box::new(h), Box::new(a))),
            },
        },
        Comp::Ret(value) => match value_image(constants, locals, *value) {
            Err(e) => Err(e),
            Ok(v) => Ok(KernelComp::Return(Box::new(v))),
        },
        Comp::Bind(bound, binder, body) => match comp_image(constants, locals, *bound) {
            Err(e) => Err(e),
            Ok(b) => match comp_image(constants, locals.push(binder@), *body) {
                Err(e) => Err(e),
                Ok(k) => Ok(KernelComp::Bind(Box::new(b), Box::new(k))),
            },
        },
        Comp::Force(value) => match value_image(constants, locals, *value) {
            Err(e) => Err(e),
            Ok(v) => Ok(KernelComp::Force(Box::new(v))),
        },
        Comp::Case(scrutinee, on_left, on_right) => match value_image(constants, locals, *scrutinee) {
            Err(e) => Err(e),
            Ok(s) => match comp_image(constants, locals.push(on_left.binder@), *on_left.body) {
                Err(e) => Err(e),
                Ok(l) => match comp_image(constants, locals.push(on_right.binder@), *on_right.body) {
                    Err(e) => Err(e),
                    Ok(r) => Ok(KernelComp::Case(Box::new(s), Box::new(l), Box::new(r))),
                },
            },
        },
        Comp::Dup(value) => match value_image(constants, locals, *value) {
            Err(e) => Err(e),
            Ok(v) => Ok(KernelComp::Return(Box::new(KernelValue::Pair(Box::new(v), Box::new(v))))),
        },
        Comp::Drop(value) => match value_image(constants, locals, *value) {
            Err(e) => Err(e),
            Ok(_) => Ok(KernelComp::Return(Box::new(KernelValue::Unit))),
        },
        Comp::ListCase { .. } => Err(BridgeRejection::ListEliminator),
        Comp::Split { .. } => Err(BridgeRejection::SplitEliminator),
        Comp::DataCase(..) => Err(BridgeRejection::DataEliminator),
        Comp::RecordProj { .. } => Err(BridgeRejection::RecordProjection),
        Comp::With(..) => Err(BridgeRejection::WithComputation),
        Comp::Prj(..) => Err(BridgeRejection::Projection),
        Comp::Perform(..) => Err(BridgeRejection::Perform),
        Comp::Handle { .. } => Err(BridgeRejection::Handle),
        Comp::Resume(..) => Err(BridgeRejection::Resume),
        Comp::Reset(_) => Err(BridgeRejection::Reset),
        Comp::Shift(..) => Err(BridgeRejection::Shift),
        Comp::Hole(_) => Err(BridgeRejection::ComputationHole),
        Comp::Native { .. } => Err(BridgeRejection::Native),
        Comp::Walk { .. } => Err(BridgeRejection::WalkEliminator),
    }
}

/// Lowers a computation under one more binder.
fn lower_under(
    context: &BridgeContext,
    locals: &mut Vec<String>,
    binder: &String,
    body: &Comp,
    bound: Ghost<Comp>,
) -> (r: Result<KernelComp, BridgeRejection>)
    requires
        decreases_to!(bound@ => *body),
    ensures
        r == comp_image(context.entries(), names_of(old(locals)@).push(binder@), *body),
        r is Ok ==> final(locals)@ == old(locals)@,
    decreases bound@, 0nat,
{
    locals.push(binder.clone());
    proof {
        assert(names_of(locals@) =~= names_of(old(locals)@).push(binder@));
    }
    let r = lower_term_comp(context, locals, body);
    if r.is_ok() {
        locals.pop();
        proof {
            assert(locals@ =~= old(locals)@);
        }
    }
    r
}

/// Lowers a core value into the S1 value vocabulary under `locals`.
fn lower_term_value(context: &BridgeContext, locals: &mut Vec<String>, value: &Value) -> (r: Result<
    KernelValue,
    BridgeRejection,
>)
    ensures
        r == value_image(context.entries(), names_of(old(locals)@), *value),
        r is Ok ==> final(locals)@ == old(locals)@,
    decreases *value, 1nat,
{
    match value {
        Value::Var(name) => resolve_name(context, locals, name),
        Value::Unit => Ok(KernelValue::Unit),
        Value::Int(n) => Ok(KernelValue::Literal(integer_literal(*n))),
        Value::Str(text) => Ok(KernelValue::Literal(KernelLiteral::Text(text.clone()))),
        Value::Pair(first, second) => {
            let a = lower_term_value(context, locals, first)?;
            let b = lower_term_value(context, locals, second)?;
            Ok(KernelValue::Pair(Box::new(a), Box::new(b)))
        },
        Value::Inj(side, body) => {
            let a = lower_term_value(context, locals, body)?;
            Ok(KernelValue::Injection(kernel_side(*side), Box::new(a)))
        },
        Value::Thunk(_, body) => {
            let c = lower_term_comp(context, locals, body)?;
            Ok(KernelValue::Thunk(Box::new(c)))
        },
        Value::Annot(inner, _) => lower_term_value(context, locals, inner),
        Value::Num(_) => Err(BridgeRejection::MachineNumericLiteral),
        Value::List(_) => Err(BridgeRejection::ListValue),
        Value::Record(_) => Err(BridgeRejection::RecordValue),
        Value::Hole(_) => Err(BridgeRejection::ValueHole),
        Value::Stk(_) => Err(BridgeRejection::ReifiedStackValue),
        Value::Here(_) => Err(BridgeRejection::HereProof),
        Value::Ctor { .. } => Err(BridgeRejection::DataConstructor),
    }
}

/// Lowers a core computation into the S1 computation vocabulary under
/// `locals`.
fn lower_term_comp(context: &BridgeContext, locals: &mut Vec<String>, comp: &Comp) -> (r: Result<
    KernelComp,
    BridgeRejection,
>)
    ensures
        r == comp_image(context.entries(), names_of(old(locals)@), *comp),
        r is Ok ==> final(locals)@ == old(locals)@,
    decreases *comp, 1nat,
{
    match comp {
        Comp::Abs(binder, _, body) => {
            let b = lower_under(context, locals, binder, body, Ghost(*comp))?;
            Ok(KernelComp::Lambda(Box::new(b)))
        },
        Comp::App(head, argument) => {
            let h = lower_term_comp(context, locals, head)?;
            let a = lower_term_value(context, locals, argument)?;
            Ok(KernelComp::Application(Box::new(h), Box::new(a)))
        },
        Comp::Ret(value) => {
            let v = lower_term_value(context, locals, value)?;
            Ok(KernelComp::Return(Box::new(v)))
        },
        Comp::Bind(bound, binder, body) => {
            let b = lower_term_comp(context, locals, bound)?;
            let k = lower_under(context, locals, binder, body, Ghost(*comp))?;
            Ok(KernelComp::Bind(Box::new(b), Box::new(k)))
        },
        Comp::Force(value) => {
            let v = lower_term_value(context, locals, value)?;
            Ok(KernelComp::Force(Box::new(v)))
        },
        Comp::Case(scrutinee, on_left, on_right) => {
            let s = lower_term_value(context, locals, scrutinee)?;
            let l = lower_under(context, locals, &on_left.binder, &on_left.body, Ghost(*comp))?;
            let r = lower_under(context, locals, &on_right.binder, &on_right.body, Ghost(*comp))?;
            Ok(KernelComp::Case(Box::new(s), Box::new(l), Box::new(r)))
        },
        Comp::Dup(value) => {
            let first = lower_term_value(context, locals, value)?;
            let second = lower_term_value(context, locals, value)?;
            Ok(KernelComp::Return(Box::new(KernelValue::Pair(Box::new(first), Box::new(second)))))
        },
        Comp::Drop(value) => {
            let _discarded = lower_term_value(context, locals, value)?;
            Ok(KernelComp::Return(Box::new(KernelValue::Unit)))
        },
        Comp::ListCase { .. } => Err(BridgeRejection::ListEliminator),
        Comp::Split { .. } => Err(BridgeRejection::SplitEliminator),
        Comp::DataCase(..) => Err(BridgeRejection::DataEliminator),
        Comp::RecordProj { .. } => Err(BridgeRejection::RecordProjection),
        Comp::With(..) => Err(BridgeRejection::WithComputation),
        Comp::Prj(..) => Err(BridgeRejection::Projection),
        Comp::Perform(..) => Err(BridgeRejection::Perform),
        Comp::Handle { .. } => Err(BridgeRejection::Handle),
        Comp::Resume(..) => Err(BridgeRejection::Resume),
        Comp::Reset(_) => Err(BridgeRejection::Reset),
        Comp::Shift(..) => Err(BridgeRejection::Shift),
        Comp::Hole(_) => Err(BridgeRejection::ComputationHole),
        Comp::Native { .. } => Err(BridgeRejection::Native),
        Comp::Walk { .. } => Err(BridgeRejection::WalkEliminator),
    }
}

/// The summand of a core sum type that an injection on `side` selects: the
/// first component for `Fst`, the second for `Snd`.
pub open spec fn core_summand(ty: ValueType, side: Side) -> Option<ValueType> {
    match ty {
        ValueType::Sum(first, second) => match side {
            Side::Fst => Some(*first),
            Side::Snd => Some(*second),
        },
        _ => None,
    }
}

/// The summand of an S1 sum type that an injection on `side` selects: the
/// first component for `Left`, the second for `Right`.
pub open spec fn kernel_summand(ty: KernelValueType, side: KernelSide) -> Option<KernelValueType> {
    match ty {
        KernelValueType::Sum(a, b) => match side {
            KernelSide::Left => Some(*a),
            KernelSide::Right => Some(*b),
        },
        _ => None,
    }
}

/// Lowering keeps an injection on its side: a core injection that lowers
/// becomes an S1 injection of its body's image, and in the image of any core
/// sum type that lowers, that S1 injection selects the image of the very
/// summand the core injection selects (the first core side is the S1 left
/// one, the second the right one).
pub proof fn lemma_injection_keeps_side(
    constants: Seq<ConstantEntry>,
    locals: Seq<Seq<char>>,
    side: Side,
    body: Rc<Value>,
    first: Rc<ValueType>,
    second: Rc<ValueType>,
)
    requires
        value_image(constants, locals, Value::Inj(side, body)) is Ok,
        value_type_image(*first) is Ok,
        value_type_image(*second) is Ok,
    ensures
        ({
            let sum = ValueType::Sum(first, second);
            match value_image(constants, locals, Value::Inj(side, body)) {
                Ok(KernelValue::Injection(k, x)) => {
                    &&& value_image(constants, locals, *body) == Ok::<KernelValue, BridgeRejection>(*x)
                    &&& kernel_summand(value_type_image(sum).unwrap(), k) == Some(
                        value_type_image(core_summand(sum, side).unwrap()).unwrap(),
                    )
                },
                _ => false,
            }
        }),
{
}

/// Lowers a closed core value into the S1 value vocabulary: its image
/// exactly when every form is in the S1 stock and every free name is an
/// admitted constant, else the refusal of the first form or name that is
/// not.
pub fn lower_value(context: &BridgeContext, value: &Value) -> (r: Result<KernelValue, BridgeRejection>)
    ensures
        r == value_image(context.entries(), Seq::empty(), *value),
{
    let mut locals: Vec<String> = Vec::new();
    proof {
        assert(names_of(locals@) =~= Seq::<Seq<char>>::empty());
    }
    lower_term_value(context, &mut locals, value)
}

/// Lowers a closed core computation into the S1 computation vocabulary; see
/// [`lower_value`].
pub fn lower_comp(context: &BridgeContext, comp: &Comp) -> (r: Result<KernelComp, BridgeRejection>)
    ensures
        r == comp_image(context.entries(), Seq::empty(), *comp),
{
    let mut locals: Vec<String> = Vec::new();
    proof {
        assert(names_of(locals@) =~= Seq::<Seq<char>>::empty());
    }
    lower_term_comp(context, &mut locals, comp)
}

/// Lowers a core **value** definition: its declared type and its body, the
/// type first.
pub fn lower_value_definition(context: &BridgeContext, value: &Value, declared: &ValueType) -> (r:
    Result<(KernelValueType, KernelValue), BridgeRejection>)
    ensures
        match (value_type_image(*declared), value_image(context.entries(), Seq::empty(), *value)) {
            (Err(e), _) => r == Err::<(KernelValueType, KernelValue), BridgeRejection>(e),
            (Ok(_), Err(e)) => r == Err::<(KernelValueType, KernelValue), BridgeRejection>(e),
            (Ok(t), Ok(v)) => r == Ok::<(KernelValueType, KernelValue), BridgeRejection>((t, v)),
        },
{
    let declared_id = lower_value_type(declared)?;
    let body_id = lower_value(context, value)?;
    Ok((declared_id, body_id))
}

/// Lowers a core **computation** definition into the value-polarity
/// declaration it enters the kernel as: `f : U C` with body `thunk c`.
pub fn lower_computation_definition(context: &BridgeContext, comp: &Comp, declared: &CompType) -> (r:
    Result<(KernelValueType, KernelValue), BridgeRejection>)
    ensures
        match (comp_type_image(*declared), comp_image(context.entries(), Seq::empty(), *comp)) {
            (Err(e), _) => r == Err::<(KernelValueType, KernelValue), BridgeRejection>(e),
            (Ok(_), Err(e)) => r == Err::<(KernelValueType, KernelValue), BridgeRejection>(e),
            (Ok(t), Ok(c)) => r == Ok::<(KernelValueType, KernelValue), BridgeRejection>(
                (KernelValueType::Thunk(Box::new(t)), KernelValue::Thunk(Box::new(c))),
            ),
        },
{
    let comp_type = lower_comp_type(declared)?;
    let computation = lower_comp(context, comp)?;
    Ok((KernelValueType::Thunk(Box::new(comp_type)), KernelValue::Thunk(Box::new(computation))))
}

} // verus!
