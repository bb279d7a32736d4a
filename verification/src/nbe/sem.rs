//! The semantic value domain: the glued values normalization by evaluation
//! produces, their per-run arena, and the guard word conversion reads before it
//! walks.
//!
//! Semantic values live in a per-run arena and name each other by `u32` ids.
//! Minting is constructor-only, evaluation may alias an id, a run's values are
//! dropped wholesale at its watermark, and id equality is positive-only
//! evidence of convertibility. Every child of every node is a `Copy` id — a
//! semantic child into this arena or a syntax child into the syntax store — so
//! no record here owns a term.

use vstd::prelude::*;
use vstd::string::StringSliceAdditionalSpecFns;

use crate::prim::NativePrim;
use crate::store::CompNodeId;
use crate::store::StackNodeId;
use crate::store::ValueNodeId;
use crate::syntax::NumLit;
use crate::syntax::Side;
use crate::syntax::names_equal;
use crate::types::DataId;
use crate::types::Grade;

verus! {

/// Identity of a semantic value in one run's arena.
#[derive(Clone, Copy, Debug, PartialEq, Eq, Structural)]
pub struct SemValueId(pub u32);

/// Identity of a weak-head-normal semantic computation in one run's arena.
#[derive(Clone, Copy, Debug, PartialEq, Eq, Structural)]
pub struct SemCompId(pub u32);

/// Identity of a first-order closure in one run's arena.
#[derive(Clone, Copy, Debug, PartialEq, Eq, Structural)]
pub struct ClosureId(pub u32);

/// Identity of an environment frame in one run's arena.
#[derive(Clone, Copy, Debug, PartialEq, Eq, Structural)]
pub struct EnvId(pub u32);

/// Identity of a neutral computation in one run's arena.
#[derive(Clone, Copy, Debug, PartialEq, Eq, Structural)]
pub struct NeutralId(pub u32);

/// Something the normalizer could not do because its arena said so.
#[derive(Clone, Copy, Debug, PartialEq, Eq, Structural)]
pub enum SemError {
    /// The id space of one node family is exhausted.
    IdSpaceExhausted,
    /// A semantic value id did not resolve in this arena.
    MissingValue(SemValueId),
    /// A semantic computation id did not resolve in this arena.
    MissingComp(SemCompId),
    /// A closure id did not resolve in this arena.
    MissingClosure(ClosureId),
    /// An environment id did not resolve in this arena.
    MissingEnv(EnvId),
    /// A neutral id did not resolve in this arena.
    MissingNeutral(NeutralId),
    /// A closure was applied to a different number of arguments than it binds.
    ClosureArity,
    /// A syntax value node id did not resolve in the syntax store.
    MissingSyntaxValue(ValueNodeId),
    /// A syntax computation node id did not resolve in the syntax store.
    MissingSyntaxComp(CompNodeId),
    /// Lowering a caller's term into the syntax store failed.
    SyntaxStore,
    /// A run exhausted the step budget that keeps evaluation total.
    StepLimit,
}

/// The **term face**: the source node a semantic value came from, kept exactly
/// while nothing inside the value has reduced.
#[derive(Clone, Copy, Debug, PartialEq, Eq, Structural)]
pub enum TermFace {
    /// Nothing is retained — readback rebuilds the term from the value.
    Rebuilt,
    /// The unreduced source node this semantic value came from.
    Retained(ValueNodeId),
}

impl TermFace {
    /// The retained source node, when the face carries one.
    pub fn retained(self) -> (r: Option<ValueNodeId>)
        ensures
            r == (match self {
                TermFace::Rebuilt => None,
                TermFace::Retained(term) => Some(term),
            }),
    {
        match self {
            TermFace::Rebuilt => None,
            TermFace::Retained(term) => Some(term),
        }
    }
}

/// The **unfolding face** of a neutral value: the lazily-forced value the
/// head's definition delivers, kept beside the neutral form.
#[derive(Clone, Copy, Debug, PartialEq, Eq, Structural)]
pub enum ValueUnfold {
    /// The head has no unfolding rule; this neutral is rigid.
    Rigid,
    /// The head has an unfolding rule at this height, not yet forced.
    Pending(u32),
    /// The unfolded face, forced once and retained.
    Forced(SemValueId),
    /// The head's unfolding rule made no progress and is not spent again.
    Blocked(u32),
}

impl ValueUnfold {
    /// The definitional height of the head's unfolding rule, when it has one
    /// that has not already been forced.
    pub fn height(self) -> (h: Option<u32>)
        ensures
            h == (match self {
                ValueUnfold::Pending(height) | ValueUnfold::Blocked(height) => Some(height),
                _ => None,
            }),
    {
        match self {
            ValueUnfold::Rigid | ValueUnfold::Forced(_) => None,
            ValueUnfold::Pending(height) | ValueUnfold::Blocked(height) => Some(height),
        }
    }

    /// Whether this face can still deliver an unfolding.
    pub fn unfoldable(self) -> (b: bool)
        ensures
            b == (self is Pending || self is Forced),
    {
        match self {
            ValueUnfold::Pending(_) | ValueUnfold::Forced(_) => true,
            _ => false,
        }
    }
}

/// The **unfolding face** of a neutral computation: the lazily-forced
/// computation obtained by unfolding the head's definition and re-applying the
/// recorded spine.
#[derive(Clone, Copy, Debug, PartialEq, Eq, Structural)]
pub enum CompUnfold {
    /// The head has no unfolding rule; this neutral is rigid.
    Rigid,
    /// The head has an unfolding rule at this height, not yet forced.
    Pending(u32),
    /// The unfolded face, forced once and retained.
    Forced(SemCompId),
    /// The head's unfolding rule made no progress and is not spent again.
    Blocked(u32),
}

impl CompUnfold {
    /// The definitional height of the head's unfolding rule, when it has one
    /// that has not already been forced.
    pub fn height(self) -> (h: Option<u32>)
        ensures
            h == (match self {
                CompUnfold::Pending(height) | CompUnfold::Blocked(height) => Some(height),
                _ => None,
            }),
    {
        match self {
            CompUnfold::Rigid | CompUnfold::Forced(_) => None,
            CompUnfold::Pending(height) | CompUnfold::Blocked(height) => Some(height),
        }
    }

    /// Whether this face can still deliver an unfolding.
    pub fn unfoldable(self) -> (b: bool)
        ensures
            b == (self is Pending || self is Forced),
    {
        match self {
            CompUnfold::Pending(_) | CompUnfold::Forced(_) => true,
            _ => false,
        }
    }
}

/// The FNV-1a prime.
pub const FNV_PRIME: u64 = 0x0000_0100_0000_01b3;

/// The FNV-1a offset basis.
pub const FNV_OFFSET: u64 = 0xcbf2_9ce4_8422_2325;

/// One FNV-1a step: xor a byte in, multiply by the prime modulo 2⁶⁴.
pub open spec fn fnv_step(hash: u64, byte: u64) -> u64 {
    (((hash ^ byte) as nat * FNV_PRIME as nat) % 0x1_0000_0000_0000_0000nat) as u64
}

/// The byte of `word` at little-endian position `index`.
pub open spec fn le_byte(word: u64, index: nat) -> u64 {
    (word >> ((8 * index) as u64)) & 0xff
}

/// Folding the first `count` little-endian bytes of `word` into `seed`.
pub open spec fn mix_prefix(seed: u64, word: u64, count: nat) -> u64
    decreases count,
{
    if count == 0 {
        seed
    } else {
        fnv_step(mix_prefix(seed, word, (count - 1) as nat), le_byte(word, (count - 1) as nat))
    }
}

/// Folding all eight little-endian bytes of `word` into `seed`.
pub open spec fn mix_spec(seed: u64, word: u64) -> u64 {
    mix_prefix(seed, word, 8)
}

/// Folding a byte sequence into a hash, one FNV step per byte, each byte
/// widened to a word first.
pub open spec fn mix_bytes_spec(seed: u64, bytes: Seq<u8>) -> u64
    decreases bytes.len(),
{
    if bytes.len() == 0 {
        seed
    } else {
        mix_spec(mix_bytes_spec(seed, bytes.drop_last()), bytes.last() as u64)
    }
}

/// Folding a concatenation is folding its first part and then its second
/// from the hash the first part left: a label can be hashed in pieces.
pub proof fn lemma_mix_bytes_concat(seed: u64, first: Seq<u8>, second: Seq<u8>)
    ensures
        mix_bytes_spec(seed, first + second) == mix_bytes_spec(mix_bytes_spec(seed, first), second),
    decreases second.len(),
{
    if second.len() == 0 {
        assert(first + second =~= first);
    } else {
        lemma_mix_bytes_concat(seed, first, second.drop_last());
        assert((first + second).drop_last() =~= first + second.drop_last());
        assert((first + second).last() == second.last());
    }
}

/// Folds one word into a running hash (FNV-1a over its little-endian bytes;
/// wrapping arithmetic is the algorithm, not an overflow).
pub fn mix(seed: u64, word: u64) -> (hash: u64)
    ensures
        hash == mix_spec(seed, word),
{
    let mut hash = seed;
    let mut index: u64 = 0;
    while index < 8
        invariant
            index <= 8,
            hash == mix_prefix(seed, word, index as nat),
        decreases 8 - index,
    {
        let byte = (word >> (8 * index)) & 0xff;
        hash = (hash ^ byte).wrapping_mul(FNV_PRIME);
        index = index + 1;
    }
    hash
}

/// The hash seed for a node kind: the kind tag folded into the FNV offset
/// basis, so two different kinds with identical children cannot collide.
pub fn seed(kind: u64) -> (hash: u64)
    ensures
        hash == mix_spec(FNV_OFFSET, kind),
{
    mix(FNV_OFFSET, kind)
}

/// Folds one word into a hash.
pub fn mix_word(accumulator: u64, word: u64) -> (hash: u64)
    ensures
        hash == mix_spec(accumulator, word),
{
    mix(accumulator, word)
}

/// Folds a byte string into a hash, byte by byte.
pub fn mix_bytes(accumulator: u64, bytes: &[u8]) -> (hash: u64)
    ensures
        hash == mix_bytes_spec(accumulator, bytes@),
{
    let mut hash = accumulator;
    let mut index: usize = 0;
    while index < bytes.len()
        invariant
            index <= bytes@.len(),
            hash == mix_bytes_spec(accumulator, bytes@.subrange(0, index as int)),
        decreases bytes@.len() - index,
    {
        proof {
            assert(bytes@.subrange(0, index as int + 1).drop_last() =~= bytes@.subrange(
                0,
                index as int,
            ));
        }
        hash = mix(hash, bytes[index] as u64);
        index = index + 1;
    }
    proof {
        assert(bytes@.subrange(0, bytes@.len() as int) =~= bytes@);
    }
    hash
}

/// Folding a payload's byte stream into a hash, one FNV-1a step per byte.
pub open spec fn payload_fold_spec(seed: u64, bytes: Seq<u8>) -> u64
    decreases bytes.len(),
{
    if bytes.len() == 0 {
        seed
    } else {
        fnv_step(payload_fold_spec(seed, bytes.drop_last()), bytes.last() as u64)
    }
}

/// Folds the byte stream a payload's `Hash` image writes into a running
/// hash: one FNV-1a step per byte.
pub fn fold_payload_bytes(accumulator: u64, bytes: &[u8]) -> (hash: u64)
    ensures
        hash == payload_fold_spec(accumulator, bytes@),
{
    let mut hash = accumulator;
    let mut index: usize = 0;
    while index < bytes.len()
        invariant
            index <= bytes@.len(),
            hash == payload_fold_spec(accumulator, bytes@.subrange(0, index as int)),
        decreases bytes@.len() - index,
    {
        proof {
            assert(bytes@.subrange(0, index as int + 1).drop_last() =~= bytes@.subrange(
                0,
                index as int,
            ));
        }
        hash = (hash ^ (bytes[index] as u64)).wrapping_mul(FNV_PRIME);
        index = index + 1;
    }
    proof {
        assert(bytes@.subrange(0, bytes@.len() as int) =~= bytes@);
    }
    hash
}

/// Folds a borrowed label into a hash, byte by byte over its UTF-8 encoding.
pub fn mix_str(accumulator: u64, text: &str) -> (hash: u64)
    ensures
        hash == mix_bytes_spec(accumulator, text.spec_bytes()),
{
    mix_bytes(accumulator, text.as_bytes())
}

/// The UTF-8 encoding of a concatenation is the concatenation of the
/// encodings.
pub proof fn lemma_encode_utf8_concat(first: Seq<char>, second: Seq<char>)
    ensures
        vstd::utf8::encode_utf8(first + second) == vstd::utf8::encode_utf8(first) + vstd::utf8::encode_utf8(
            second,
        ),
    decreases first.len(),
{
    if first.len() == 0 {
        assert(first + second =~= second);
        assert(vstd::utf8::encode_utf8(first) =~= Seq::<u8>::empty());
        assert(Seq::<u8>::empty() + vstd::utf8::encode_utf8(second) =~= vstd::utf8::encode_utf8(second));
    } else {
        lemma_encode_utf8_concat(first.drop_first(), second);
        assert((first + second)[0] == first[0]);
        assert((first + second).drop_first() =~= first.drop_first() + second);
        let head = vstd::utf8::encode_scalar(first[0] as u32);
        assert(head + (vstd::utf8::encode_utf8(first.drop_first()) + vstd::utf8::encode_utf8(second)) =~= (head
            + vstd::utf8::encode_utf8(first.drop_first())) + vstd::utf8::encode_utf8(second));
    }
}

/// Hashing text with [`mix_str`] hashes its UTF-8 bytes: the empty text
/// leaves the accumulator as it was, and a concatenation hashes as its
/// second part hashed after its first.
pub proof fn lemma_mix_str_concat(seed: u64, first: Seq<char>, second: Seq<char>)
    ensures
        mix_bytes_spec(seed, vstd::utf8::encode_utf8(Seq::<char>::empty())) == seed,
        mix_bytes_spec(seed, vstd::utf8::encode_utf8(first + second)) == mix_bytes_spec(
            mix_bytes_spec(seed, vstd::utf8::encode_utf8(first)),
            vstd::utf8::encode_utf8(second),
        ),
{
    lemma_encode_utf8_concat(first, second);
    lemma_mix_bytes_concat(seed, vstd::utf8::encode_utf8(first), vstd::utf8::encode_utf8(second));
}

/// The intrusive **guard word** every semantic node carries: a content hash
/// folded from the children's cached hashes, a rigidity bit, a hole bit, and a
/// saturating depth approximation. It is only ever read negatively.
#[derive(Clone, Copy, Debug, PartialEq, Eq, Structural)]
pub struct Guard {
    /// The folded content hash.
    pub hash: u64,
    /// Whether no unfolding rule is reachable anywhere inside this node.
    pub rigid: bool,
    /// Whether a hole occurs anywhere inside this node.
    pub holes: bool,
    /// A saturating approximation of this node's depth.
    pub depth: u32,
}

impl Guard {
    /// The guard word of a childless node hashing `seed`.
    pub fn leaf(seed: u64) -> (g: Guard)
        ensures
            g == (Guard { hash: seed, rigid: true, holes: false, depth: 1 }),
    {
        Guard { hash: seed, rigid: true, holes: false, depth: 1 }
    }

    /// The folded content hash.
    pub fn hash(self) -> (h: u64)
        ensures
            h == self.hash,
    {
        self.hash
    }

    /// Whether no unfolding rule is reachable inside the guarded node.
    pub fn rigid(self) -> (b: bool)
        ensures
            b == self.rigid,
    {
        self.rigid
    }

    /// Whether a hole occurs inside the guarded node.
    pub fn holes(self) -> (b: bool)
        ensures
            b == self.holes,
    {
        self.holes
    }

    /// A saturating approximation of the guarded node's depth.
    pub fn depth(self) -> (d: u32)
        ensures
            d == self.depth,
    {
        self.depth
    }

    /// Marks the guarded node as carrying a hole.
    pub fn with_hole(self) -> (g: Guard)
        ensures
            g == (Guard { holes: true, ..self }),
    {
        Guard { holes: true, ..self }
    }

    /// Marks the guarded node as carrying an unfolding rule.
    pub fn with_unfolding(self) -> (g: Guard)
        ensures
            g == (Guard { rigid: false, ..self }),
    {
        Guard { rigid: false, ..self }
    }

    /// Folds `child` into this guard: mixes the hashes, propagates the
    /// rigidity and hole bits, and gives a depth one greater than the deeper
    /// operand, saturating at `u32::MAX`.
    pub fn fold(self, child: Guard) -> (g: Guard)
        ensures
            g.hash == mix_spec(self.hash, child.hash),
            g.holes == (self.holes || child.holes),
            g.rigid == (self.rigid && child.rigid),
            g.depth == ({
                let deeper = if self.depth > child.depth {
                    self.depth
                } else {
                    child.depth
                };
                if deeper == u32::MAX {
                    u32::MAX as int
                } else {
                    deeper + 1
                }
            }),
    {
        let hash = mix(self.hash, child.hash);
        let deeper = if self.depth > child.depth {
            self.depth
        } else {
            child.depth
        };
        let depth = deeper.saturating_add(1);
        Guard { hash, rigid: self.rigid && child.rigid, holes: self.holes || child.holes, depth }
    }

    /// Whether this pair of guards settles the comparison as **distinct**
    /// without any structural work: both rigid, neither holed, hashes differ.
    pub fn settles_distinct(self, other: Guard) -> (b: bool)
        ensures
            b == (self.rigid && other.rigid && !self.holes && !other.holes && self.hash
                != other.hash),
    {
        let comparable = self.rigid && other.rigid && !self.holes && !other.holes;
        comparable && self.hash != other.hash
    }
}

/// A **rigid head**: what a neutral value is stuck on, named rather than
/// merely reported.
#[derive(Clone, Debug, PartialEq, Eq)]
pub enum Rigid {
    /// A variable generated on going under a binder, named by its de Bruijn
    /// level.
    Level(u32),
    /// A source variable with no binding in either environment.
    Free(String),
    /// A hole the elaborator has not filled.
    Hole(u64),
}

/// One labelled field of a semantic record.
#[derive(Clone, Debug, PartialEq, Eq)]
pub struct SemField {
    /// The field label.
    pub label: String,
    /// The field value.
    pub value: SemValueId,
}

/// A semantic **value** in weak-head-normal form.
#[derive(Clone, Debug, PartialEq, Eq)]
pub enum SemValueNode {
    /// The unit value.
    Unit,
    /// An integer literal.
    Int(i64),
    /// A string literal.
    Str(String),
    /// A typed numeric literal.
    Num(NumLit),
    /// An eager pair.
    Pair(SemValueId, SemValueId),
    /// A sum injection.
    Inj(Side, SemValueId),
    /// A list literal.
    List(Vec<SemValueId>),
    /// A record literal, its fields ordered by label.
    Record(Vec<SemField>),
    /// A graded thunk: a computation suspended over its environment.
    Thunk(Grade, ClosureId),
    /// A reflexivity witness.
    Here(SemValueId),
    /// A declared-data constructor value.
    Ctor { id: DataId, tag: usize, payload: SemValueId },
    /// A reified stack, named by its syntax node and compared as syntax.
    Reified(StackNodeId),
    /// A neutral value: a rigid head with no eliminator that could fire.
    Rigid(Rigid, ValueUnfold),
}

/// A semantic value together with its term face and its guard word.
#[derive(Clone, Debug)]
pub struct SemValue {
    /// The weak-head form.
    pub node: SemValueNode,
    /// The term face.
    pub face: TermFace,
    /// The cached guard word.
    pub guard: Guard,
}

impl SemValue {
    /// Pairs a node with its guard word, retaining no source term.
    pub fn new(node: SemValueNode, guard: Guard) -> (v: SemValue)
        ensures
            v.node == node,
            v.guard == guard,
            v.face == TermFace::Rebuilt,
    {
        SemValue { node, face: TermFace::Rebuilt, guard }
    }

    /// Retains `term` as this value's term face.
    pub fn retaining(self, term: ValueNodeId) -> (v: SemValue)
        ensures
            v.node == self.node,
            v.guard == self.guard,
            v.face == TermFace::Retained(term),
    {
        SemValue { face: TermFace::Retained(term), ..self }
    }

    /// The weak-head form.
    pub fn node(&self) -> (n: &SemValueNode)
        ensures
            *n == self.node,
    {
        &self.node
    }

    /// The term face.
    pub fn face(&self) -> (f: TermFace)
        ensures
            f == self.face,
    {
        self.face
    }

    /// The guard word.
    pub fn guard(&self) -> (g: Guard)
        ensures
            g == self.guard,
    {
        self.guard
    }
}

/// A semantic **computation** in weak-head-normal form.
#[derive(Clone, Copy, Debug, PartialEq, Eq, Structural)]
pub enum SemCompNode {
    /// A function, closed over its environment.
    Lambda(ClosureId),
    /// A returner carrying its value.
    Return(SemValueId),
    /// A lazy pair, each component closed over the environment.
    LazyPair(ClosureId, ClosureId),
    /// A neutral computation.
    Neutral(NeutralId),
}

/// A semantic computation together with its guard word.
#[derive(Clone, Copy, Debug)]
pub struct SemComp {
    /// The weak-head form.
    pub node: SemCompNode,
    /// The cached guard word.
    pub guard: Guard,
}

impl SemComp {
    /// Pairs a computation node with its guard word.
    pub fn new(node: SemCompNode, guard: Guard) -> (c: SemComp)
        ensures
            c.node == node,
            c.guard == guard,
    {
        SemComp { node, guard }
    }

    /// The weak-head form.
    pub fn node(&self) -> (n: SemCompNode)
        ensures
            n == self.node,
    {
        self.node
    }

    /// The guard word.
    pub fn guard(&self) -> (g: Guard)
        ensures
            g == self.guard,
    {
        self.guard
    }
}

/// One named arm of a frustrated declared-data elimination.
#[derive(Clone, Debug, PartialEq, Eq)]
pub struct DataArm {
    /// The constructor the arm answers.
    pub label: String,
    /// The arm body, binding the constructor payload.
    pub body: ClosureId,
}

/// The head a neutral computation is stuck on: a frustrated elimination, or a
/// former quarantined by policy (effects, handlers, control, natives).
#[derive(Clone, Debug, PartialEq, Eq)]
pub enum NeutralHead {
    /// Forcing a neutral value.
    Force(SemValueId),
    /// A sum elimination frustrated on its scrutinee.
    Case { scrutinee: SemValueId, on_left: ClosureId, on_right: ClosureId },
    /// A declared-data elimination frustrated on its scrutinee.
    DataCase { scrutinee: SemValueId, arms: Vec<DataArm> },
    /// A list elimination frustrated on its scrutinee.
    ListCase { scrutinee: SemValueId, nil: ClosureId, cons: ClosureId },
    /// A pair elimination frustrated on its scrutinee.
    Split { scrutinee: SemValueId, body: ClosureId },
    /// A record projection frustrated on its record.
    Project { record: SemValueId, label: String },
    /// An identity elimination frustrated on its path.
    Walk { scrutinee: SemValueId, base: ClosureId },
    /// A native primitive, never fired inside conversion.
    Native { prim: NativePrim, args: Vec<SemValueId> },
    /// A grade duplication — quarantined.
    Dup(SemValueId),
    /// A grade discard — quarantined.
    Drop(SemValueId),
    /// An effect performance — quarantined; the signature and operation stay
    /// on the syntax node this head names.
    Perform { source: CompNodeId, payload: SemValueId },
    /// An effect handler — quarantined.
    Handle { source: CompNodeId, scrutinee: ClosureId, ret: ClosureId, ops: Vec<ClosureId> },
    /// A resumption — quarantined.
    Resume { value: SemValueId, body: ClosureId },
    /// A delimiter — quarantined.
    Reset(ClosureId),
    /// A capture — quarantined.
    Shift(ClosureId),
    /// A computation hole.
    Hole(u64),
    /// A canonical computation that met an eliminator its polarity cannot
    /// accept.
    Mismatch(SemCompId),
}

/// One frustrated eliminator in a neutral computation's spine.
#[derive(Clone, Copy, Debug, PartialEq, Eq, Structural)]
pub enum Elim {
    /// Application to an argument.
    Apply(SemValueId),
    /// Projection from a lazy pair.
    Project(Side),
    /// A sequencing continuation, binding the returned value.
    Sequence(ClosureId),
}

/// A copy of a sequence of `Copy` ids, element for element.
pub fn copy_vec<T: Copy>(items: &Vec<T>) -> (r: Vec<T>)
    ensures
        r@ == items@,
{
    let mut out: Vec<T> = Vec::new();
    let mut index: usize = 0;
    while index < items.len()
        invariant
            index <= items@.len(),
            out@ == items@.subrange(0, index as int),
        decreases items@.len() - index,
    {
        out.push(items[index]);
        index = index + 1;
        proof {
            assert(out@ =~= items@.subrange(0, index as int));
        }
    }
    proof {
        assert(items@.subrange(0, items@.len() as int) =~= items@);
    }
    out
}

/// A copy of a declared-data arm list, arm for arm.
pub fn copy_arms(arms: &Vec<DataArm>) -> (r: Vec<DataArm>)
    ensures
        r@ == arms@,
{
    let mut out: Vec<DataArm> = Vec::new();
    let mut index: usize = 0;
    while index < arms.len()
        invariant
            index <= arms@.len(),
            out@ == arms@.subrange(0, index as int),
        decreases arms@.len() - index,
    {
        let arm = &arms[index];
        out.push(DataArm { label: arm.label.clone(), body: arm.body });
        index = index + 1;
        proof {
            assert(out@ =~= arms@.subrange(0, index as int));
        }
    }
    proof {
        assert(arms@.subrange(0, arms@.len() as int) =~= arms@);
    }
    out
}

/// Two neutral heads are the same head: the same former over the same ids,
/// their id lists equal element for element.
pub open spec fn same_head(a: NeutralHead, b: NeutralHead) -> bool {
    match (a, b) {
        (
            NeutralHead::DataCase { scrutinee: s1, arms: a1 },
            NeutralHead::DataCase { scrutinee: s2, arms: a2 },
        ) => s1 == s2 && a1@ == a2@,
        (NeutralHead::Native { prim: p1, args: a1 }, NeutralHead::Native { prim: p2, args: a2 }) => p1
            == p2 && a1@ == a2@,
        (
            NeutralHead::Handle { source: s1, scrutinee: c1, ret: r1, ops: o1 },
            NeutralHead::Handle { source: s2, scrutinee: c2, ret: r2, ops: o2 },
        ) => s1 == s2 && c1 == c2 && r1 == r2 && o1@ == o2@,
        (NeutralHead::DataCase { .. }, _) => false,
        (NeutralHead::Native { .. }, _) => false,
        (NeutralHead::Handle { .. }, _) => false,
        _ => a == b,
    }
}

impl NeutralHead {
    /// A copy of this head, the same head.
    pub fn duplicate(&self) -> (h: NeutralHead)
        ensures
            same_head(h, *self),
    {
        match self {
            NeutralHead::Force(v) => NeutralHead::Force(*v),
            NeutralHead::Case { scrutinee, on_left, on_right } => NeutralHead::Case {
                scrutinee: *scrutinee,
                on_left: *on_left,
                on_right: *on_right,
            },
            NeutralHead::DataCase { scrutinee, arms } => NeutralHead::DataCase {
                scrutinee: *scrutinee,
                arms: copy_arms(arms),
            },
            NeutralHead::ListCase { scrutinee, nil, cons } => NeutralHead::ListCase {
                scrutinee: *scrutinee,
                nil: *nil,
                cons: *cons,
            },
            NeutralHead::Split { scrutinee, body } => NeutralHead::Split {
                scrutinee: *scrutinee,
                body: *body,
            },
            NeutralHead::Project { record, label } => NeutralHead::Project {
                record: *record,
                label: label.clone(),
            },
            NeutralHead::Walk { scrutinee, base } => NeutralHead::Walk {
                scrutinee: *scrutinee,
                base: *base,
            },
            NeutralHead::Native { prim, args } => NeutralHead::Native {
                prim: *prim,
                args: copy_vec(args),
            },
            NeutralHead::Dup(v) => NeutralHead::Dup(*v),
            NeutralHead::Drop(v) => NeutralHead::Drop(*v),
            NeutralHead::Perform { source, payload } => NeutralHead::Perform {
                source: *source,
                payload: *payload,
            },
            NeutralHead::Handle { source, scrutinee, ret, ops } => NeutralHead::Handle {
                source: *source,
                scrutinee: *scrutinee,
                ret: *ret,
                ops: copy_vec(ops),
            },
            NeutralHead::Resume { value, body } => NeutralHead::Resume {
                value: *value,
                body: *body,
            },
            NeutralHead::Reset(c) => NeutralHead::Reset(*c),
            NeutralHead::Shift(c) => NeutralHead::Shift(*c),
            NeutralHead::Hole(h) => NeutralHead::Hole(*h),
            NeutralHead::Mismatch(c) => NeutralHead::Mismatch(*c),
        }
    }
}

/// A neutral computation: its head, the spine that could not fire, and the
/// unfolding face grown alongside them.
#[derive(Clone, Debug)]
pub struct Neutral {
    /// The stuck head.
    pub head: NeutralHead,
    /// The frustrated eliminators, outermost last.
    pub spine: Vec<Elim>,
    /// The unfolding face, built incrementally as the spine grows.
    pub unfold: CompUnfold,
}

impl Neutral {
    /// A neutral with an empty spine and the given unfolding face.
    pub fn new(head: NeutralHead, unfold: CompUnfold) -> (n: Neutral)
        ensures
            n.head == head,
            n.spine@.len() == 0,
            n.unfold == unfold,
    {
        Neutral { head, spine: Vec::new(), unfold }
    }

    /// The stuck head.
    pub fn head(&self) -> (h: &NeutralHead)
        ensures
            *h == self.head,
    {
        &self.head
    }

    /// The frustrated eliminators, outermost last.
    pub fn spine(&self) -> (s: &Vec<Elim>)
        ensures
            s@ == self.spine@,
    {
        &self.spine
    }

    /// The number of frustrated eliminators.
    pub fn spine_len(&self) -> (n: usize)
        ensures
            n == self.spine@.len(),
    {
        self.spine.len()
    }

    /// The unfolding face.
    pub fn unfold(&self) -> (u: CompUnfold)
        ensures
            u == self.unfold,
    {
        self.unfold
    }

    /// Extends the spine by one eliminator, carrying the head's unfolding rule
    /// along so both faces grow together: a face forced or blocked at the
    /// shorter spine is reset to pending at `height`, or to rigid without one.
    pub fn extended(&self, elim: Elim, height: Option<u32>) -> (n: Neutral)
        ensures
            same_head(n.head, self.head),
            n.spine@ == self.spine@.push(elim),
            n.unfold == (match height {
                None => CompUnfold::Rigid,
                Some(h) => CompUnfold::Pending(h),
            }),
    {
        let mut spine = copy_vec(&self.spine);
        spine.push(elim);
        let unfold = match height {
            None => CompUnfold::Rigid,
            Some(height) => CompUnfold::Pending(height),
        };
        Neutral { head: self.head.duplicate(), spine, unfold }
    }
}

/// A **first-order closure**: an environment and a syntax body, never a host
/// closure, with the memo cell of a nullary closure.
#[derive(Clone, Debug)]
pub struct Closure {
    /// The captured environment.
    pub env: EnvId,
    /// The binders this closure abstracts, in order.
    pub binders: Vec<String>,
    /// The syntax body, named in the store rather than owned.
    pub body: CompNodeId,
    /// The memoized result of a nullary closure.
    pub memo: Option<SemCompId>,
}

impl Closure {
    /// A closure over `env` abstracting `binders` in `body`.
    pub fn new(env: EnvId, binders: Vec<String>, body: CompNodeId) -> (c: Closure)
        ensures
            c.env == env,
            c.binders == binders,
            c.body == body,
            c.memo == None::<SemCompId>,
    {
        Closure { env, binders, body, memo: None }
    }

    /// The captured environment.
    pub fn env(&self) -> (e: EnvId)
        ensures
            e == self.env,
    {
        self.env
    }

    /// The abstracted binders, in order.
    pub fn binders(&self) -> (b: &Vec<String>)
        ensures
            *b == self.binders,
    {
        &self.binders
    }

    /// The syntax body.
    pub fn body(&self) -> (b: CompNodeId)
        ensures
            b == self.body,
    {
        self.body
    }

    /// The memoized nullary result, once one has been forced.
    pub fn memo(&self) -> (m: Option<SemCompId>)
        ensures
            m == self.memo,
    {
        self.memo
    }
}

/// One environment frame: a name bound to a semantic value, over the rest.
#[derive(Clone, Debug)]
pub struct EnvFrame {
    /// The bound name.
    pub name: String,
    /// The value bound to it.
    pub value: SemValueId,
    /// The enclosing environment.
    pub rest: EnvId,
}

/// The arena population at one instant — the watermark a run truncates back
/// to.
#[derive(Clone, Copy, Debug, PartialEq, Eq, Structural)]
pub struct Watermark {
    /// The value-node population.
    pub values: usize,
    /// The computation-node population.
    pub comps: usize,
    /// The closure population.
    pub closures: usize,
    /// The environment-frame population.
    pub envs: usize,
    /// The neutral population.
    pub neutrals: usize,
}

/// The walk `lookup` makes from `env` through `frames`, within `fuel` steps:
/// the empty environment (id zero) binds nothing, an id that names no frame
/// is missing, a frame binding `name` answers its value, and any other frame
/// hands on to its enclosing id. Frame `n` answers to id `n + 1`. `None` when
/// the fuel runs out first.
pub open spec fn env_walk(frames: Seq<EnvFrame>, env: EnvId, name: Seq<char>, fuel: nat) -> Option<
    Result<Option<SemValueId>, SemError>,
>
    decreases fuel,
{
    if fuel == 0 {
        None
    } else if env.0 == 0 {
        Some(Ok(None))
    } else if env.0 > frames.len() {
        Some(Err(SemError::MissingEnv(env)))
    } else if frames[env.0 - 1].name@ == name {
        Some(Ok(Some(frames[env.0 - 1].value)))
    } else {
        env_walk(frames, frames[env.0 - 1].rest, name, (fuel - 1) as nat)
    }
}

/// How `name` resolves in `env`: the walk given one step per frame and one
/// more. A chain of links that ends passes each frame at most once, so it
/// always ends within that budget; only a chain that runs in a cycle, along
/// which following the links never ends, exhausts it, and it is refused with
/// `StepLimit`.
pub open spec fn env_resolve(frames: Seq<EnvFrame>, env: EnvId, name: Seq<char>) -> Result<
    Option<SemValueId>,
    SemError,
> {
    match env_walk(frames, env, name, frames.len() + 1) {
        Some(r) => r,
        None => Err(SemError::StepLimit),
    }
}

/// The binding [`env_resolve`] finds for `name` in `env`: `None` when the
/// walk finds none, or fails.
pub open spec fn env_lookup(frames: Seq<EnvFrame>, env: EnvId, name: Seq<char>) -> Option<SemValueId> {
    match env_resolve(frames, env, name) {
        Ok(found) => found,
        Err(_) => None,
    }
}

/// The id one link out from `env`: a frame's enclosing id; any other id
/// stays where it is.
pub open spec fn env_step(frames: Seq<EnvFrame>, env: EnvId) -> EnvId {
    if 1 <= env.0 <= frames.len() {
        frames[env.0 - 1].rest
    } else {
        env
    }
}

/// The id `i` links out from `env`.
pub open spec fn env_visit(frames: Seq<EnvFrame>, env: EnvId, i: nat) -> EnvId
    decreases i,
{
    if i == 0 {
        env
    } else {
        env_step(frames, env_visit(frames, env, (i - 1) as nat))
    }
}

/// The walk passes `env` on: it is a frame that does not bind `name`.
pub open spec fn env_passes(frames: Seq<EnvFrame>, env: EnvId, name: Seq<char>) -> bool {
    1 <= env.0 <= frames.len() && frames[env.0 - 1].name@ != name
}

/// The per-run arena holding every semantic node the normalizer mints.
#[derive(Clone, Debug)]
pub struct SemArena {
    /// The value nodes.
    values: Vec<SemValue>,
    /// The weak-head-normal computation nodes.
    comps: Vec<SemComp>,
    /// The closure nodes.
    closures: Vec<Closure>,
    /// The environment frames; the empty environment is the zero id and owns
    /// no frame, so a frame at vector position `n` answers to id `n + 1`.
    envs: Vec<EnvFrame>,
    /// The neutral nodes.
    neutrals: Vec<Neutral>,
}

/// The next arena id for a family of the given current population.
pub fn next_index(len: usize) -> (r: Result<u32, SemError>)
    ensures
        len <= u32::MAX ==> r == Ok::<u32, SemError>(len as u32),
        len > u32::MAX ==> r == Err::<u32, SemError>(SemError::IdSpaceExhausted),
{
    if len <= u32::MAX as usize {
        Ok(len as u32)
    } else {
        Err(SemError::IdSpaceExhausted)
    }
}

impl SemArena {
    /// The environment frames, in minting order.
    pub closed spec fn frames(self) -> Seq<EnvFrame> {
        self.envs@
    }

    /// The value nodes, in minting order; a node's index is its id.
    pub closed spec fn value_nodes(self) -> Seq<SemValue> {
        self.values@
    }

    /// The computation nodes, in minting order.
    pub closed spec fn comp_nodes(self) -> Seq<SemComp> {
        self.comps@
    }

    /// The closure nodes, in minting order.
    pub closed spec fn closure_nodes(self) -> Seq<Closure> {
        self.closures@
    }

    /// The neutral nodes, in minting order.
    pub closed spec fn neutral_nodes(self) -> Seq<Neutral> {
        self.neutrals@
    }

    /// The empty environment: every run's root scope.
    pub fn empty_env() -> (e: EnvId)
        ensures
            e == EnvId(0),
    {
        EnvId(0)
    }

    /// A fresh, empty arena.
    pub fn new() -> (a: SemArena)
        ensures
            a.value_nodes().len() == 0,
            a.comp_nodes().len() == 0,
            a.closure_nodes().len() == 0,
            a.frames().len() == 0,
            a.neutral_nodes().len() == 0,
    {
        SemArena {
            values: Vec::new(),
            comps: Vec::new(),
            closures: Vec::new(),
            envs: Vec::new(),
            neutrals: Vec::new(),
        }
    }

    /// The current population, for a later [`Self::truncate_to`].
    pub fn watermark(&self) -> (m: Watermark)
        ensures
            m.values == self.value_nodes().len(),
            m.comps == self.comp_nodes().len(),
            m.closures == self.closure_nodes().len(),
            m.envs == self.frames().len(),
            m.neutrals == self.neutral_nodes().len(),
            m == (Watermark {
                values: self.value_nodes().len() as usize,
                comps: self.comp_nodes().len() as usize,
                closures: self.closure_nodes().len() as usize,
                envs: self.frames().len() as usize,
                neutrals: self.neutral_nodes().len() as usize,
            }),
    {
        Watermark {
            values: self.values.len(),
            comps: self.comps.len(),
            closures: self.closures.len(),
            envs: self.envs.len(),
            neutrals: self.neutrals.len(),
        }
    }

    /// Drops every node minted after `mark`, wholesale: every family is cut
    /// back to its recorded population, and ids below the mark keep resolving
    /// to the same nodes.
    pub fn truncate_to(&mut self, mark: Watermark)
        ensures
            final(self).value_nodes() == old(self).value_nodes().subrange(
                0,
                min_len(mark.values, old(self).value_nodes().len()),
            ),
            final(self).comp_nodes() == old(self).comp_nodes().subrange(
                0,
                min_len(mark.comps, old(self).comp_nodes().len()),
            ),
            final(self).closure_nodes() == old(self).closure_nodes().subrange(
                0,
                min_len(mark.closures, old(self).closure_nodes().len()),
            ),
            final(self).frames() == old(self).frames().subrange(
                0,
                min_len(mark.envs, old(self).frames().len()),
            ),
            final(self).neutral_nodes() == old(self).neutral_nodes().subrange(
                0,
                min_len(mark.neutrals, old(self).neutral_nodes().len()),
            ),
    {
        self.values.truncate(mark.values);
        self.comps.truncate(mark.comps);
        self.closures.truncate(mark.closures);
        self.envs.truncate(mark.envs);
        self.neutrals.truncate(mark.neutrals);
    }

    /// The number of value nodes currently minted.
    pub fn value_count(&self) -> (n: usize)
        ensures
            n == self.value_nodes().len(),
    {
        self.values.len()
    }

    /// Mints a value node: appends it and returns its fresh id.
    pub fn mint_value(&mut self, value: SemValue) -> (r: Result<SemValueId, SemError>)
        ensures
            old(self).value_nodes().len() <= u32::MAX ==> r == Ok::<SemValueId, SemError>(
                SemValueId(old(self).value_nodes().len() as u32),
            ) && final(self).value_nodes() == old(self).value_nodes().push(value),
            old(self).value_nodes().len() > u32::MAX ==> r == Err::<SemValueId, SemError>(
                SemError::IdSpaceExhausted,
            ) && final(self).value_nodes() == old(self).value_nodes(),
            final(self).comp_nodes() == old(self).comp_nodes(),
            final(self).closure_nodes() == old(self).closure_nodes(),
            final(self).frames() == old(self).frames(),
            final(self).neutral_nodes() == old(self).neutral_nodes(),
    {
        let index = next_index(self.values.len())?;
        self.values.push(value);
        Ok(SemValueId(index))
    }

    /// Mints a computation node: appends it and returns its fresh id.
    pub fn mint_comp(&mut self, comp: SemComp) -> (r: Result<SemCompId, SemError>)
        ensures
            old(self).comp_nodes().len() <= u32::MAX ==> r == Ok::<SemCompId, SemError>(
                SemCompId(old(self).comp_nodes().len() as u32),
            ) && final(self).comp_nodes() == old(self).comp_nodes().push(comp),
            old(self).comp_nodes().len() > u32::MAX ==> r == Err::<SemCompId, SemError>(
                SemError::IdSpaceExhausted,
            ) && final(self).comp_nodes() == old(self).comp_nodes(),
            final(self).value_nodes() == old(self).value_nodes(),
            final(self).closure_nodes() == old(self).closure_nodes(),
            final(self).frames() == old(self).frames(),
            final(self).neutral_nodes() == old(self).neutral_nodes(),
    {
        let index = next_index(self.comps.len())?;
        self.comps.push(comp);
        Ok(SemCompId(index))
    }

    /// Mints a closure node: appends it and returns its fresh id.
    pub fn mint_closure(&mut self, closure: Closure) -> (r: Result<ClosureId, SemError>)
        ensures
            old(self).closure_nodes().len() <= u32::MAX ==> r == Ok::<ClosureId, SemError>(
                ClosureId(old(self).closure_nodes().len() as u32),
            ) && final(self).closure_nodes() == old(self).closure_nodes().push(closure),
            old(self).closure_nodes().len() > u32::MAX ==> r == Err::<ClosureId, SemError>(
                SemError::IdSpaceExhausted,
            ) && final(self).closure_nodes() == old(self).closure_nodes(),
            final(self).value_nodes() == old(self).value_nodes(),
            final(self).comp_nodes() == old(self).comp_nodes(),
            final(self).frames() == old(self).frames(),
            final(self).neutral_nodes() == old(self).neutral_nodes(),
    {
        let index = next_index(self.closures.len())?;
        self.closures.push(closure);
        Ok(ClosureId(index))
    }

    /// Mints a neutral node: appends it and returns its fresh id.
    pub fn mint_neutral(&mut self, neutral: Neutral) -> (r: Result<NeutralId, SemError>)
        ensures
            old(self).neutral_nodes().len() <= u32::MAX ==> r == Ok::<NeutralId, SemError>(
                NeutralId(old(self).neutral_nodes().len() as u32),
            ) && final(self).neutral_nodes() == old(self).neutral_nodes().push(neutral),
            old(self).neutral_nodes().len() > u32::MAX ==> r == Err::<NeutralId, SemError>(
                SemError::IdSpaceExhausted,
            ) && final(self).neutral_nodes() == old(self).neutral_nodes(),
            final(self).value_nodes() == old(self).value_nodes(),
            final(self).comp_nodes() == old(self).comp_nodes(),
            final(self).closure_nodes() == old(self).closure_nodes(),
            final(self).frames() == old(self).frames(),
    {
        let index = next_index(self.neutrals.len())?;
        self.neutrals.push(neutral);
        Ok(NeutralId(index))
    }

    /// Extends `env` with `name` bound to `value`: in the result `name`
    /// resolves to `value` and every other name resolves as it did in `env`.
    pub fn bind(&mut self, env: EnvId, name: String, value: SemValueId) -> (r: Result<
        EnvId,
        SemError,
    >)
        ensures
            old(self).frames().len() < u32::MAX ==> r == Ok::<EnvId, SemError>(
                EnvId((old(self).frames().len() + 1) as u32),
            ) && final(self).frames() == old(self).frames().push(
                EnvFrame { name, value, rest: env },
            ),
            old(self).frames().len() >= u32::MAX ==> r == Err::<EnvId, SemError>(
                SemError::IdSpaceExhausted,
            ) && final(self).frames() == old(self).frames(),
            final(self).value_nodes() == old(self).value_nodes(),
            final(self).comp_nodes() == old(self).comp_nodes(),
            final(self).closure_nodes() == old(self).closure_nodes(),
            final(self).neutral_nodes() == old(self).neutral_nodes(),
            r matches Ok(id) ==> env_resolve(final(self).frames(), id, name@) == Ok::<
                Option<SemValueId>,
                SemError,
            >(Some(value)),
            r matches Ok(id) ==> forall|other: Seq<char>|
                other != name@ ==> #[trigger] env_resolve(final(self).frames(), id, other)
                    == env_resolve(final(self).frames(), env, other),
    {
        if self.envs.len() >= u32::MAX as usize {
            return Err(SemError::IdSpaceExhausted);
        }
        let index = (self.envs.len() + 1) as u32;
        let ghost before = self.envs@;
        let ghost frame = EnvFrame { name, value, rest: env };
        self.envs.push(EnvFrame { name, value, rest: env });
        proof {
            assert(self.envs@ == before.push(frame));
            assert(self.envs@[index as int - 1] == frame);
            let after = self.envs@;
            assert(env_walk(after, EnvId(index), name@, after.len() + 1) == Some(
                Ok::<Option<SemValueId>, SemError>(Some(value)),
            ));
            assert forall|other: Seq<char>|
                other != name@ implies #[trigger] env_resolve(after, EnvId(index), other)
                    == env_resolve(after, env, other) by {
                lemma_resolve_step(after, EnvId(index), other);
            }
        }
        Ok(EnvId(index))
    }

    /// Resolves `name` in `env`, innermost binding first, following each
    /// frame's enclosing id: `None` when the walk reaches the empty
    /// environment, `MissingEnv` for an id on the way that names no frame.
    pub fn lookup(&self, env: EnvId, name: &str) -> (r: Result<Option<SemValueId>, SemError>)
        ensures
            r == env_resolve(self.frames(), env, name@),
    {
        let len = self.envs.len();
        let ghost frames = self.envs@;
        let mut current = env;
        let mut steps: usize = 0;
        loop
            invariant
                steps <= len,
                len == frames.len(),
                frames == self.envs@,
                env_walk(frames, env, name@, (len + 1) as nat) == env_walk(
                    frames,
                    current,
                    name@,
                    (len + 1 - steps) as nat,
                ),
            decreases len - steps,
        {
            if current.0 == 0 {
                return Ok(None);
            }
            if current.0 as usize > len {
                return Err(SemError::MissingEnv(current));
            }
            let frame = &self.envs[(current.0 - 1) as usize];
            if names_equal(frame.name.as_str(), name) {
                return Ok(Some(frame.value));
            }
            if steps == len {
                proof {
                    assert(env_walk(frames, frame.rest, name@, 0) is None);
                }
                return Err(SemError::StepLimit);
            }
            current = frame.rest;
            steps = steps + 1;
        }
    }

    /// Resolves a value id.
    pub fn value(&self, id: SemValueId) -> (r: Result<&SemValue, SemError>)
        ensures
            id.0 < self.value_nodes().len() ==> (r matches Ok(v) && *v == self.value_nodes()[id.0 as int]),
            id.0 >= self.value_nodes().len() ==> (r matches Err(e) && e == SemError::MissingValue(id)),
    {
        if (id.0 as usize) < self.values.len() {
            Ok(&self.values[id.0 as usize])
        } else {
            Err(SemError::MissingValue(id))
        }
    }

    /// Resolves a computation id.
    pub fn comp(&self, id: SemCompId) -> (r: Result<SemComp, SemError>)
        ensures
            id.0 < self.comp_nodes().len() ==> (r matches Ok(c) && c == self.comp_nodes()[id.0 as int]),
            id.0 >= self.comp_nodes().len() ==> (r matches Err(e) && e == SemError::MissingComp(id)),
    {
        if (id.0 as usize) < self.comps.len() {
            Ok(self.comps[id.0 as usize])
        } else {
            Err(SemError::MissingComp(id))
        }
    }

    /// Resolves a closure id.
    pub fn closure(&self, id: ClosureId) -> (r: Result<&Closure, SemError>)
        ensures
            id.0 < self.closure_nodes().len() ==> (r matches Ok(c) && *c == self.closure_nodes()[id.0 as int]),
            id.0 >= self.closure_nodes().len() ==> (r matches Err(e) && e == SemError::MissingClosure(
                id,
            )),
    {
        if (id.0 as usize) < self.closures.len() {
            Ok(&self.closures[id.0 as usize])
        } else {
            Err(SemError::MissingClosure(id))
        }
    }

    /// Resolves a neutral id.
    pub fn neutral(&self, id: NeutralId) -> (r: Result<&Neutral, SemError>)
        ensures
            id.0 < self.neutral_nodes().len() ==> (r matches Ok(n) && *n == self.neutral_nodes()[id.0 as int]),
            id.0 >= self.neutral_nodes().len() ==> (r matches Err(e) && e == SemError::MissingNeutral(
                id,
            )),
    {
        if (id.0 as usize) < self.neutrals.len() {
            Ok(&self.neutrals[id.0 as usize])
        } else {
            Err(SemError::MissingNeutral(id))
        }
    }

    /// Writes a forced unfolding face back onto a neutral — cell-local
    /// memoization on the node that owns the face; nothing else changes.
    pub fn set_unfold_face(&mut self, id: NeutralId, face: CompUnfold) -> (r: Result<
        (),
        SemError,
    >)
        ensures
            id.0 < old(self).neutral_nodes().len() ==> r is Ok && final(self).neutral_nodes() == old(
                self,
            ).neutral_nodes().update(
                id.0 as int,
                Neutral { unfold: face, ..old(self).neutral_nodes()[id.0 as int] },
            ),
            id.0 >= old(self).neutral_nodes().len() ==> r == Err::<(), SemError>(
                SemError::MissingNeutral(id),
            ) && final(self).neutral_nodes() == old(self).neutral_nodes(),
            final(self).value_nodes() == old(self).value_nodes(),
            final(self).comp_nodes() == old(self).comp_nodes(),
            final(self).closure_nodes() == old(self).closure_nodes(),
            final(self).frames() == old(self).frames(),
    {
        if (id.0 as usize) < self.neutrals.len() {
            self.neutrals[id.0 as usize].unfold = face;
            Ok(())
        } else {
            Err(SemError::MissingNeutral(id))
        }
    }

    /// Writes a forced unfolding face back onto a neutral **value**: the face
    /// changes when the node is a rigid one, and nothing changes when it is
    /// canonical.
    pub fn set_value_unfold(&mut self, id: SemValueId, face: ValueUnfold) -> (r: Result<
        (),
        SemError,
    >)
        ensures
            id.0 < old(self).value_nodes().len() ==> r is Ok && final(self).value_nodes() == (match old(
                self,
            ).value_nodes()[id.0 as int].node {
                SemValueNode::Rigid(head, _) => old(self).value_nodes().update(
                    id.0 as int,
                    SemValue {
                        node: SemValueNode::Rigid(head, face),
                        ..old(self).value_nodes()[id.0 as int]
                    },
                ),
                _ => old(self).value_nodes(),
            }),
            id.0 >= old(self).value_nodes().len() ==> r == Err::<(), SemError>(
                SemError::MissingValue(id),
            ) && final(self).value_nodes() == old(self).value_nodes(),
            final(self).comp_nodes() == old(self).comp_nodes(),
            final(self).closure_nodes() == old(self).closure_nodes(),
            final(self).frames() == old(self).frames(),
            final(self).neutral_nodes() == old(self).neutral_nodes(),
    {
        if (id.0 as usize) < self.values.len() {
            let index = id.0 as usize;
            let current = &self.values[index];
            let replacement = match &current.node {
                SemValueNode::Rigid(head, _) => Some(
                    SemValue {
                        node: SemValueNode::Rigid(duplicate_rigid(head), face),
                        face: current.face,
                        guard: current.guard,
                    },
                ),
                _ => None,
            };
            if let Some(updated) = replacement {
                self.values.set(index, updated);
            }
            Ok(())
        } else {
            Err(SemError::MissingValue(id))
        }
    }

    /// Writes a forced result into a nullary closure's thunk cell; nothing
    /// else changes.
    pub fn set_closure_memo(&mut self, id: ClosureId, result: SemCompId) -> (r: Result<
        (),
        SemError,
    >)
        ensures
            id.0 < old(self).closure_nodes().len() ==> r is Ok && final(self).closure_nodes() == old(
                self,
            ).closure_nodes().update(
                id.0 as int,
                Closure { memo: Some(result), ..old(self).closure_nodes()[id.0 as int] },
            ),
            id.0 >= old(self).closure_nodes().len() ==> r == Err::<(), SemError>(
                SemError::MissingClosure(id),
            ) && final(self).closure_nodes() == old(self).closure_nodes(),
            final(self).value_nodes() == old(self).value_nodes(),
            final(self).comp_nodes() == old(self).comp_nodes(),
            final(self).frames() == old(self).frames(),
            final(self).neutral_nodes() == old(self).neutral_nodes(),
    {
        if (id.0 as usize) < self.closures.len() {
            self.closures[id.0 as usize].memo = Some(result);
            Ok(())
        } else {
            Err(SemError::MissingClosure(id))
        }
    }
}

/// A copy of a rigid head, equal to it.
pub fn duplicate_rigid(head: &Rigid) -> (r: Rigid)
    ensures
        r == *head,
{
    match head {
        Rigid::Level(level) => Rigid::Level(*level),
        Rigid::Free(name) => Rigid::Free(name.clone()),
        Rigid::Hole(hole) => Rigid::Hole(*hole),
    }
}

/// `longer` starts with every element of `shorter`, in place.
pub open spec fn keeps_prefix<T>(shorter: Seq<T>, longer: Seq<T>) -> bool {
    &&& longer.len() >= shorter.len()
    &&& forall|i: int| 0 <= i < shorter.len() ==> #[trigger] longer[i] == shorter[i]
}

/// Truncating an arena that grew from one holding exactly the populations
/// of `mark` gives that arena back, family by family: every id minted before
/// the mark resolves as before, and every id minted after it is gone.
pub proof fn lemma_truncate_restores(before: SemArena, after: SemArena, mark: Watermark)
    requires
        grows(before, after),
        before.value_nodes().len() == mark.values,
        before.comp_nodes().len() == mark.comps,
        before.closure_nodes().len() == mark.closures,
        before.frames().len() == mark.envs,
        before.neutral_nodes().len() == mark.neutrals,
    ensures
        after.value_nodes().subrange(0, min_len(mark.values, after.value_nodes().len())) == before.value_nodes(),
        after.comp_nodes().subrange(0, min_len(mark.comps, after.comp_nodes().len())) == before.comp_nodes(),
        after.closure_nodes().subrange(0, min_len(mark.closures, after.closure_nodes().len()))
            == before.closure_nodes(),
        after.frames().subrange(0, min_len(mark.envs, after.frames().len())) == before.frames(),
        after.neutral_nodes().subrange(0, min_len(mark.neutrals, after.neutral_nodes().len()))
            == before.neutral_nodes(),
{
    assert(after.value_nodes().subrange(0, min_len(mark.values, after.value_nodes().len())) =~= before.value_nodes());
    assert(after.comp_nodes().subrange(0, min_len(mark.comps, after.comp_nodes().len())) =~= before.comp_nodes());
    assert(after.closure_nodes().subrange(0, min_len(mark.closures, after.closure_nodes().len())) =~= before.closure_nodes());
    assert(after.frames().subrange(0, min_len(mark.envs, after.frames().len())) =~= before.frames());
    assert(after.neutral_nodes().subrange(0, min_len(mark.neutrals, after.neutral_nodes().len())) =~= before.neutral_nodes());
}

/// Every family of `after` starts with the nodes of the same family of
/// `before`: the arena only grew in between, and every id minted before
/// still names the same node.
pub open spec fn grows(before: SemArena, after: SemArena) -> bool {
    &&& keeps_prefix(before.value_nodes(), after.value_nodes())
    &&& keeps_prefix(before.comp_nodes(), after.comp_nodes())
    &&& keeps_prefix(before.closure_nodes(), after.closure_nodes())
    &&& keeps_prefix(before.frames(), after.frames())
    &&& keeps_prefix(before.neutral_nodes(), after.neutral_nodes())
}

/// The smaller of a recorded population and the current one.
pub open spec fn min_len(mark: usize, len: nat) -> int {
    if mark < len {
        mark as int
    } else {
        len as int
    }
}

/// One link out of `env` is one visit further along.
pub proof fn lemma_visit_shift(frames: Seq<EnvFrame>, env: EnvId, i: nat)
    ensures
        env_visit(frames, env, i + 1) == env_visit(frames, env_step(frames, env), i),
    decreases i,
{
    if i > 0 {
        let k = (i - 1) as nat;
        lemma_visit_shift(frames, env, k);
        assert(env_visit(frames, env, i + 1) == env_step(frames, env_visit(frames, env, i)));
        assert(env_visit(frames, env, k + 1) == env_visit(frames, env_step(frames, env), k));
        assert(env_visit(frames, env_step(frames, env), i) == env_step(
            frames,
            env_visit(frames, env_step(frames, env), k),
        ));
    } else {
        assert(env_visit(frames, env, 1) == env_step(frames, env_visit(frames, env, 0)));
    }
}

/// The walk runs out of fuel exactly when every id it visits within the fuel
/// passes it on.
pub proof fn lemma_walk_runs_out(frames: Seq<EnvFrame>, env: EnvId, name: Seq<char>, fuel: nat)
    ensures
        env_walk(frames, env, name, fuel) is None <==> forall|i: nat|
            i < fuel ==> #[trigger] env_passes(frames, env_visit(frames, env, i), name),
    decreases fuel,
{
    if fuel > 0 {
        let next = env_step(frames, env);
        lemma_walk_runs_out(frames, next, name, (fuel - 1) as nat);
        assert(env_visit(frames, env, 0) == env);
        assert forall|i: nat| i < fuel - 1 implies env_visit(frames, env, i + 1) == env_visit(
            frames,
            next,
            i,
        ) by {
            lemma_visit_shift(frames, env, i);
        }
        if env_passes(frames, env, name) {
            assert(env_walk(frames, env, name, fuel) == env_walk(frames, next, name, (fuel - 1) as nat));
            if env_walk(frames, env, name, fuel) is None {
                assert forall|i: nat| i < fuel implies #[trigger] env_passes(
                    frames,
                    env_visit(frames, env, i),
                    name,
                ) by {
                    if i > 0 {
                        let k = (i - 1) as nat;
                        assert(env_visit(frames, env, k + 1) == env_visit(frames, next, k));
                        assert(env_passes(frames, env_visit(frames, next, k), name));
                    }
                }
            } else {
                if forall|i: nat| i < fuel ==> #[trigger] env_passes(frames, env_visit(frames, env, i), name) {
                    assert forall|k: nat| k < fuel - 1 implies #[trigger] env_passes(
                        frames,
                        env_visit(frames, next, k),
                        name,
                    ) by {
                        assert(env_visit(frames, env, k + 1) == env_visit(frames, next, k));
                        assert(env_passes(frames, env_visit(frames, env, k + 1), name));
                    }
                }
            }
        } else {
            assert(!env_passes(frames, env_visit(frames, env, 0), name));
        }
    }
}

/// Two visits to the same id repeat from there on: the walk is periodic.
pub proof fn lemma_visit_periodic(frames: Seq<EnvFrame>, env: EnvId, i: nat, j: nat, t: nat)
    requires
        env_visit(frames, env, i) == env_visit(frames, env, j),
    ensures
        env_visit(frames, env, i + t) == env_visit(frames, env, j + t),
    decreases t,
{
    if t > 0 {
        lemma_visit_periodic(frames, env, i, j, (t - 1) as nat);
        assert(env_visit(frames, env, i + t) == env_step(frames, env_visit(frames, env, (i + t - 1) as nat)));
        assert(env_visit(frames, env, j + t) == env_step(frames, env_visit(frames, env, (j + t - 1) as nat)));
    }
}

/// Once a walk returns to an id it visited, every visit passes it on when
/// every visit before the return did.
pub proof fn lemma_cycle_passes(frames: Seq<EnvFrame>, env: EnvId, name: Seq<char>, i: nat, j: nat, m: nat)
    requires
        i < j,
        env_visit(frames, env, i) == env_visit(frames, env, j),
        forall|k: nat| k < j ==> #[trigger] env_passes(frames, env_visit(frames, env, k), name),
    ensures
        env_passes(frames, env_visit(frames, env, m), name),
    decreases m,
{
    if m >= j {
        let t = (m - j) as nat;
        lemma_visit_periodic(frames, env, i, j, t);
        lemma_cycle_passes(frames, env, name, i, j, i + t);
    }
}

/// Of `n + 1` values below `n`, two are equal.
pub proof fn lemma_pigeonhole(f: spec_fn(nat) -> nat, n: nat)
    requires
        forall|i: nat| i <= n ==> #[trigger] f(i) < n,
    ensures
        exists|i: nat, j: nat| #![trigger f(i), f(j)] i < j <= n && f(i) == f(j),
    decreases n,
{
    if n == 0 {
        assert(f(0) < 0);
    } else {
        let t = f(n);
        if exists|i: nat| i < n && #[trigger] f(i) == t {
            let i = choose|i: nat| i < n && #[trigger] f(i) == t;
            assert(i < n <= n && f(i) == f(n));
        } else {
            let top = (n - 1) as nat;
            let g = |i: nat| if f(i) == top { t } else { f(i) };
            assert forall|i: nat| i <= top implies #[trigger] g(i) < top by {
                assert(f(i) < n);
                assert(f(i) != t);
            }
            lemma_pigeonhole(g, top);
            let (i, j) = choose|i: nat, j: nat| #![trigger g(i), g(j)] i < j <= top && g(i) == g(j);
            assert(f(i) != t && f(j) != t);
            assert(f(i) == f(j));
        }
    }
}

/// A walk that runs out of the budget of one step per frame and one more
/// runs in a cycle: no fuel is ever enough.
pub proof fn lemma_walk_never_ends(frames: Seq<EnvFrame>, env: EnvId, name: Seq<char>, fuel: nat)
    requires
        env_walk(frames, env, name, frames.len() + 1) is None,
    ensures
        env_walk(frames, env, name, fuel) is None,
{
    let n = frames.len();
    lemma_walk_runs_out(frames, env, name, n + 1);
    lemma_walk_runs_out(frames, env, name, fuel);
    let f = |i: nat| (env_visit(frames, env, i).0 - 1) as nat;
    assert forall|i: nat| i <= n implies #[trigger] f(i) < n by {
        assert(env_passes(frames, env_visit(frames, env, i), name));
    }
    lemma_pigeonhole(f, n);
    let (i, j) = choose|i: nat, j: nat| #![trigger f(i), f(j)] i < j <= n && f(i) == f(j);
    assert(env_passes(frames, env_visit(frames, env, i), name));
    assert(env_passes(frames, env_visit(frames, env, j), name));
    assert(env_visit(frames, env, i) == env_visit(frames, env, j));
    assert forall|m: nat| m < fuel implies #[trigger] env_passes(frames, env_visit(frames, env, m), name) by {
        lemma_cycle_passes(frames, env, name, i, j, m);
    }
}

/// A walk that ends within some fuel ends the same way given more.
pub proof fn lemma_walk_more_fuel(frames: Seq<EnvFrame>, env: EnvId, name: Seq<char>, fuel: nat, more: nat)
    requires
        env_walk(frames, env, name, fuel) is Some,
        fuel <= more,
    ensures
        env_walk(frames, env, name, more) == env_walk(frames, env, name, fuel),
    decreases fuel,
{
    if fuel > 0 && env.0 != 0 && env.0 <= frames.len() && frames[env.0 - 1].name@ != name {
        lemma_walk_more_fuel(frames, frames[env.0 - 1].rest, name, (fuel - 1) as nat, (more - 1) as nat);
    }
}

/// A frame that does not bind `name` resolves it as its enclosing
/// environment does.
pub proof fn lemma_resolve_step(frames: Seq<EnvFrame>, env: EnvId, name: Seq<char>)
    requires
        env_passes(frames, env, name),
    ensures
        env_resolve(frames, env, name) == env_resolve(frames, frames[env.0 - 1].rest, name),
{
    let n = frames.len();
    let rest = frames[env.0 - 1].rest;
    assert(env_walk(frames, env, name, n + 1) == env_walk(frames, rest, name, n));
    if env_walk(frames, rest, name, n) is Some {
        lemma_walk_more_fuel(frames, rest, name, n, n + 1);
    } else {
        lemma_walk_never_ends(frames, env, name, n + 2);
        assert(env_walk(frames, env, name, n + 2) == env_walk(frames, rest, name, n + 1));
    }
}

} // verus!
