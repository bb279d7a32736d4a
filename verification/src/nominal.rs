//! gandr's nominal **sort vocabulary**: the name-spaces gandr allocates onto
//! the shared atom substrate, split by role.

use vstd::prelude::*;

verus! {

/// The sorts of machine-minted atom gandr allocates. **Atom-role** sorts are
/// pure names; **variable-role** sorts are substitutable unknowns that enter a
/// solver substitution's domain. Keeping the two disjoint preserves unitary
/// most-general unifiers.
#[derive(Clone, Copy, Debug, PartialEq, Eq, Structural)]
pub enum GandrSort {
    /// **Atom-role.** A machine continuation-environment key.
    ContKey,
    /// **Atom-role.** A pipeline hoist binder.
    TmpHoist,
    /// **Atom-role.** A pipeline hole address.
    HoleAddr,
    /// **Variable-role (reserved).** A solver type-variable.
    TyVar,
    /// **Variable-role (reserved).** A solver grade-variable.
    GradeVar,
}

impl GandrSort {
    /// Whether this sort is variable-role (a substitutable unknown) rather
    /// than atom-role (a pure name).
    pub fn is_unifiable(&self) -> (b: bool)
        ensures
            b == (*self == GandrSort::TyVar || *self == GandrSort::GradeVar),
    {
        match *self {
            GandrSort::ContKey | GandrSort::TmpHoist | GandrSort::HoleAddr => false,
            GandrSort::TyVar | GandrSort::GradeVar => true,
        }
    }
}

} // verus!
