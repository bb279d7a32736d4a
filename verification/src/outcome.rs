//! The shared runtime-outcome vocabulary of the gandr machines: an evaluation
//! reaches a terminal, a defined blame, or an undefined stuck.

use vstd::prelude::*;

use crate::syntax::Comp;

verus! {

/// A **defined** runtime halt: a typed outcome that is not an undefined stuck.
#[derive(Clone, Copy, Debug, PartialEq, Eq, Structural)]
pub enum Blame {
    /// A gradual hole reached an elimination.
    Hole,
    /// A `shift` reached no enclosing `reset`.
    ShiftNoReset,
    /// A `perform` reached no matching handler.
    PerformNoHandler,
}

/// An **undefined** stuck configuration: reachable only on an ill-typed input.
#[derive(Clone, Copy, Debug, PartialEq, Eq, Structural)]
pub enum StuckReason {
    /// An ill-typed application.
    AppliedNonFunction,
    /// An ill-typed sequencing.
    SequencedNonReturner,
    /// `force` was applied to a value that is not a thunk.
    ForcedNonThunk,
    /// `case` scrutinized a value that is not an injection.
    CasedNonSum,
    /// A declared-data `case` scrutinized a value that is not a matching
    /// constructor.
    DataCasedNonCtor,
    /// A list-case scrutinized a value that is not a list.
    ListCasedNonList,
    /// `split` scrutinized a value that is not a pair.
    SplitNonProduct,
    /// A projection met a focus that is not a lazy pair.
    ProjectedNonPair,
    /// A record projection scrutinized a value that is not a record.
    RecordProjNonRecord,
    /// A record projection scrutinized a record that has no such field.
    RecordProjMissingField,
    /// `resume` was applied to a value that is not a reified stack.
    ResumedNonStack,
    /// The identity eliminator scrutinized a value that is not a `here`.
    WalkOnNonHere,
    /// A former the machine does not yet realize.
    UnsupportedByReference,
    /// A closure body id did not resolve in its arena.
    InvalidClosureBody,
    /// The continuation-key allocator exhausted its identity space.
    FreshContinuationNameExhausted,
    /// The step budget was exhausted.
    StepLimit,
}

/// The final outcome of a machine run.
#[derive(Clone, Debug, PartialEq, Eq)]
pub enum Eval {
    /// A terminal computation reached at the empty continuation.
    Value(Comp),
    /// A defined runtime halt.
    Blame(Blame),
    /// An undefined stuck configuration.
    Stuck(StuckReason),
}

/// The maximum number of reduction steps a machine takes before halting with
/// [`StuckReason::StepLimit`].
pub const STEP_BUDGET: u64 = 1_000_000;

} // verus!
