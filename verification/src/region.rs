//! The parser-agnostic seam for changed-region detection: a front end lowers a
//! revision to its ordered top-level items, and the checkpoint engine reads
//! only those items, never a concrete parser.

use vstd::prelude::*;

use crate::syntax::Term;
use crate::types::Ty;

verus! {

/// One lowered top-level item: an optional definition name, an optional
/// ascription, and the lowered core term — the content key the
/// unchanged-region test compares.
#[derive(Clone, Debug, PartialEq, Eq)]
pub struct Item {
    /// The defined name; `None` for an expression item.
    pub name: Option<String>,
    /// The recorded ascription, when the front end supplies one.
    pub ascription: Option<Ty>,
    /// The lowered core term.
    pub term: Term,
}

impl Item {
    /// Builds a lowered item from its name, ascription, and term, verbatim.
    pub fn new(name: Option<String>, ascription: Option<Ty>, term: Term) -> (i: Item)
        ensures
            i.name == name,
            i.ascription == ascription,
            i.term == term,
    {
        Item { name, ascription, term }
    }
}

/// The ordered top-level items of one program revision.
#[derive(Clone, Debug, PartialEq, Eq)]
pub struct Program {
    /// The lowered items, in source order.
    pub items: Vec<Item>,
}

impl Program {
    /// Builds a program from its ordered items, verbatim and in order.
    pub fn new(items: Vec<Item>) -> (p: Program)
        ensures
            p.items == items,
    {
        Program { items }
    }
}

/// The parser-agnostic seam: a front end that lowers a source revision to its
/// ordered top-level items.
pub trait ItemSource {
    /// The revision representation the front end reads.
    type Revision;

    /// Lowers one program revision to its ordered top-level items.
    fn items(&self, revision: &Self::Revision) -> Program;
}

} // verus!
