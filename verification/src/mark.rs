//! The semantic marking of a term: per-node facts (the analyzed and
//! synthesized types and the node's marks) keyed by stable arena identity,
//! with a compatibility table from structural child-index paths to those
//! identities.
//!
//! A marking keeps both tables in key order, so iteration is deterministic:
//! node facts by stable id (values, then computations, then stacks, each by
//! arena index), compatibility paths lexicographically.

use vstd::prelude::*;

use crate::store::CompNodeId;
use crate::store::StackNodeId;
use crate::store::ValueNodeId;
use crate::types::Grade;
use crate::types::Ty;

verus! {

/// A stable node identity for marking facts: the typed arena id of a value,
/// computation, or reified-stack node.
#[derive(Clone, Copy, Debug, PartialEq, Eq, Structural)]
pub enum MarkNodeId {
    /// A value node.
    Value(ValueNodeId),
    /// A computation node.
    Comp(CompNodeId),
    /// A reified stack node.
    Stack(StackNodeId),
}

/// The position of an id in the stable-id order: values first, then
/// computations, then stacks, each by arena index.
pub open spec fn id_rank(id: MarkNodeId) -> int {
    match id {
        MarkNodeId::Value(v) => v.0 as int,
        MarkNodeId::Comp(c) => 0x1_0000_0000 + c.0,
        MarkNodeId::Stack(s) => 0x2_0000_0000 + s.0,
    }
}

/// The rank of an id, computed.
pub fn id_code(id: MarkNodeId) -> (k: u64)
    ensures
        k == id_rank(id),
{
    match id {
        MarkNodeId::Value(v) => v.0 as u64,
        MarkNodeId::Comp(c) => 0x1_0000_0000u64 + c.0 as u64,
        MarkNodeId::Stack(s) => 0x2_0000_0000u64 + s.0 as u64,
    }
}

/// Two ids with one rank are one id.
pub proof fn lemma_id_rank_injective(a: MarkNodeId, b: MarkNodeId)
    requires
        id_rank(a) == id_rank(b),
    ensures
        a == b,
{
}

/// A typed error boundary: the type a node was checked against and the type
/// it actually produced.
#[derive(Clone, Debug, PartialEq, Eq)]
pub struct Boundary {
    /// The analyzed (checked-against) type.
    pub expected: Ty,
    /// The synthesized type the node produced.
    pub actual: Ty,
}

impl Boundary {
    /// Builds a boundary from the expected and actual types.
    pub fn new(expected: Ty, actual: Ty) -> (b: Boundary)
        ensures
            b.expected == expected,
            b.actual == actual,
    {
        Boundary { expected, actual }
    }
}

/// One semantic mark on a node. Every kind but the empty hole is an error.
#[derive(Clone, Debug, PartialEq, Eq)]
pub enum Mark {
    /// An unfilled hole: the program is well-typed, the hole is open.
    EmptyHole(u64),
    /// The synthesized type is not a consistent subtype of the analyzed one.
    TypeMismatch(Boundary),
    /// Two returners agree on their payload but not on their effect rows.
    EffectRowMismatch(Boundary),
    /// An elimination's principal premise has a type of the wrong shape.
    ShapeMismatch {
        /// The type constructor that was expected.
        expected: &'static str,
        /// The type the premise synthesized.
        actual: Ty,
    },
    /// A variable with no hypothesis in scope.
    FreeVariable {
        /// The variable's name.
        name: String,
    },
    /// A thunk's usage budget is smaller than what is demanded of it.
    GradeBudget {
        /// The demanded grade.
        required: Grade,
        /// The thunk's grade.
        available: Grade,
    },
    /// A thunk that cannot be forced at all.
    Thunkability {
        /// The thunk's grade.
        available: Grade,
    },
    /// A well-formed node with no typing rule in this direction.
    Stuck {
        /// A hint for making progress.
        hint: &'static str,
    },
}

/// Whether a mark is an error: every kind but the empty hole.
pub open spec fn is_error_mark(mark: Mark) -> bool {
    !(mark is EmptyHole)
}

impl Mark {
    /// Whether this mark is an error (every kind but the empty hole).
    pub fn is_error(&self) -> (r: bool)
        ensures
            r == is_error_mark(*self),
    {
        match self {
            Mark::EmptyHole(_) => false,
            _ => true,
        }
    }
}

/// The decoration of one node.
#[derive(Clone, Debug, PartialEq, Eq)]
pub struct NodeFacts {
    /// The type the node was checked against; `None` in inference mode.
    pub analyzed: Option<Ty>,
    /// The type the node produced.
    pub synthesized: Option<Ty>,
    /// The node's own marks (its children's marks are on the children).
    pub marks: Vec<Mark>,
    /// The slot an incremental edit layer sets; the marker leaves it `false`.
    pub dirty: bool,
}

/// Some mark among `marks` is an error.
pub open spec fn some_error(marks: Seq<Mark>) -> bool {
    exists|k: int| 0 <= k < marks.len() && is_error_mark(#[trigger] marks[k])
}

impl NodeFacts {
    /// Whether this node carries an error mark (empty holes excepted).
    pub fn has_error(&self) -> (r: bool)
        ensures
            r == some_error(self.marks@),
    {
        let mut k: usize = 0;
        while k < self.marks.len()
            invariant
                k <= self.marks@.len(),
                forall|i: int| 0 <= i < k ==> !is_error_mark(#[trigger] self.marks@[i]),
            decreases self.marks@.len() - k,
        {
            if self.marks[k].is_error() {
                return true;
            }
            k = k + 1;
        }
        false
    }
}

/// A structural child-index path, as a compatibility key.
pub open spec fn path_less_from(a: Seq<u32>, b: Seq<u32>, k: nat) -> bool
    decreases a.len() - k,
{
    if k >= a.len() {
        k < b.len()
    } else if k >= b.len() {
        false
    } else if a[k as int] != b[k as int] {
        a[k as int] < b[k as int]
    } else {
        path_less_from(a, b, k + 1)
    }
}

/// `a` orders before `b`: lexicographically, a proper prefix first.
pub open spec fn path_less(a: Seq<u32>, b: Seq<u32>) -> bool {
    path_less_from(a, b, 0)
}

/// The path order is transitive.
pub proof fn lemma_path_less_from_transitive(a: Seq<u32>, b: Seq<u32>, c: Seq<u32>, k: nat)
    requires
        path_less_from(a, b, k),
        path_less_from(b, c, k),
    ensures
        path_less_from(a, c, k),
    decreases a.len() - k,
{
    if k < a.len() && k < b.len() && k < c.len() && a[k as int] == b[k as int] && b[k as int]
        == c[k as int] {
        lemma_path_less_from_transitive(a, b, c, k + 1);
    }
}

/// No path orders before itself.
pub proof fn lemma_path_less_from_irreflexive(a: Seq<u32>, k: nat)
    ensures
        !path_less_from(a, a, k),
    decreases a.len() - k,
{
    if k < a.len() {
        lemma_path_less_from_irreflexive(a, k + 1);
    }
}

/// Whether path `a` orders before path `b`.
pub fn path_before(a: &[u32], b: &[u32]) -> (r: bool)
    ensures
        r == path_less(a@, b@),
{
    let mut k: usize = 0;
    while k < a.len() && k < b.len()
        invariant
            k <= a@.len(),
            k <= b@.len(),
            path_less_from(a@, b@, k as nat) == path_less(a@, b@),
        decreases a@.len() - k,
    {
        if a[k] != b[k] {
            return a[k] < b[k];
        }
        k = k + 1;
    }
    k == a.len() && k < b.len()
}

/// Whether two paths are the same.
pub fn same_path(a: &[u32], b: &[u32]) -> (r: bool)
    ensures
        r == (a@ == b@),
{
    if a.len() != b.len() {
        return false;
    }
    let mut k: usize = 0;
    while k < a.len()
        invariant
            k <= a@.len(),
            a@.len() == b@.len(),
            forall|i: int| 0 <= i < k ==> a@[i] == b@[i],
        decreases a@.len() - k,
    {
        if a[k] != b[k] {
            return false;
        }
        k = k + 1;
    }
    proof {
        assert(a@ =~= b@);
    }
    true
}

/// A complete marking of a term: every decorated node's facts by stable id,
/// the compatibility paths, and the root's synthesized type.
pub struct Marking {
    /// Node facts, strictly increasing by stable id.
    facts: Vec<(MarkNodeId, NodeFacts)>,
    /// Compatibility paths, strictly increasing lexicographically.
    compatibility: Vec<(Vec<u32>, MarkNodeId)>,
    /// The root term's synthesized type.
    root: Ty,
}

/// The facts table is strictly increasing by stable id.
pub open spec fn facts_ordered(facts: Seq<(MarkNodeId, NodeFacts)>) -> bool {
    forall|i: int, j: int|
        0 <= i < j < facts.len() ==> id_rank(#[trigger] facts[i].0) < id_rank(#[trigger] facts[j].0)
}

/// The compatibility table is strictly increasing by path.
pub open spec fn paths_ordered(paths: Seq<(Vec<u32>, MarkNodeId)>) -> bool {
    forall|i: int, j: int|
        0 <= i < j < paths.len() ==> path_less(#[trigger] paths[i].0@, #[trigger] paths[j].0@)
}

/// The facts recorded at `id`, if any.
pub open spec fn facts_at(facts: Seq<(MarkNodeId, NodeFacts)>, id: MarkNodeId) -> Option<NodeFacts> {
    if exists|k: int| 0 <= k < facts.len() && #[trigger] facts[k].0 == id {
        let k = choose|k: int| 0 <= k < facts.len() && #[trigger] facts[k].0 == id;
        Some(facts[k].1)
    } else {
        None
    }
}

/// The id recorded at `path`, if any.
pub open spec fn id_at(paths: Seq<(Vec<u32>, MarkNodeId)>, path: Seq<u32>) -> Option<MarkNodeId> {
    if exists|k: int| 0 <= k < paths.len() && #[trigger] paths[k].0@ == path {
        let k = choose|k: int| 0 <= k < paths.len() && #[trigger] paths[k].0@ == path;
        Some(paths[k].1)
    } else {
        None
    }
}

/// Every `(id, mark)` pair of `facts`, in table order then mark order.
pub open spec fn all_marks(facts: Seq<(MarkNodeId, NodeFacts)>) -> Seq<(MarkNodeId, Mark)>
    decreases facts.len(),
{
    if facts.len() == 0 {
        Seq::empty()
    } else {
        all_marks(facts.drop_last()) + facts.last().1.marks@.map_values(
            |m: Mark| (facts.last().0, m),
        )
    }
}

/// The error pairs among `pairs`, in order.
pub open spec fn error_marks(pairs: Seq<(MarkNodeId, Mark)>) -> Seq<(MarkNodeId, Mark)>
    decreases pairs.len(),
{
    if pairs.len() == 0 {
        Seq::empty()
    } else if is_error_mark(pairs.last().1) {
        error_marks(pairs.drop_last()).push(pairs.last())
    } else {
        error_marks(pairs.drop_last())
    }
}

/// Some error pair survives the filter exactly when some pair is an error.
pub proof fn lemma_error_marks_nonempty(pairs: Seq<(MarkNodeId, Mark)>)
    ensures
        error_marks(pairs).len() > 0 <==> exists|i: int|
            0 <= i < pairs.len() && is_error_mark(#[trigger] pairs[i].1),
    decreases pairs.len(),
{
    if pairs.len() > 0 {
        let front = pairs.drop_last();
        lemma_error_marks_nonempty(front);
        if exists|i: int| 0 <= i < front.len() && is_error_mark(#[trigger] front[i].1) {
            let i = choose|i: int| 0 <= i < front.len() && is_error_mark(#[trigger] front[i].1);
            assert(pairs[i] == front[i]);
        }
        if exists|i: int| 0 <= i < pairs.len() && is_error_mark(#[trigger] pairs[i].1) {
            let i = choose|i: int| 0 <= i < pairs.len() && is_error_mark(#[trigger] pairs[i].1);
            if i < front.len() {
                assert(front[i] == pairs[i]);
            }
        }
    }
}

/// Some pair of the table's marks is an error exactly when some entry's
/// marks hold an error.
pub proof fn lemma_all_marks_errors(facts: Seq<(MarkNodeId, NodeFacts)>)
    ensures
        (exists|i: int| 0 <= i < all_marks(facts).len() && is_error_mark(#[trigger] all_marks(facts)[i].1))
            <==> exists|k: int| 0 <= k < facts.len() && some_error(#[trigger] facts[k].1.marks@),
    decreases facts.len(),
{
    if facts.len() > 0 {
        let front = facts.drop_last();
        let last = facts.last();
        let tail = last.1.marks@.map_values(|m: Mark| (last.0, m));
        lemma_all_marks_errors(front);
        let whole = all_marks(facts);
        assert(whole == all_marks(front) + tail);
        if exists|i: int| 0 <= i < whole.len() && is_error_mark(#[trigger] whole[i].1) {
            let i = choose|i: int| 0 <= i < whole.len() && is_error_mark(#[trigger] whole[i].1);
            if i < all_marks(front).len() {
                assert(whole[i] == all_marks(front)[i]);
                let k = choose|k: int| 0 <= k < front.len() && some_error(#[trigger] front[k].1.marks@);
                assert(facts[k] == front[k]);
            } else {
                let j = i - all_marks(front).len();
                assert(whole[i] == tail[j]);
                assert(is_error_mark(last.1.marks@[j]));
                assert(some_error(facts[facts.len() - 1].1.marks@));
            }
        }
        if exists|k: int| 0 <= k < facts.len() && some_error(#[trigger] facts[k].1.marks@) {
            let k = choose|k: int| 0 <= k < facts.len() && some_error(#[trigger] facts[k].1.marks@);
            if k < front.len() {
                assert(front[k] == facts[k]);
                let i = choose|i: int|
                    0 <= i < all_marks(front).len() && is_error_mark(#[trigger] all_marks(front)[i].1);
                assert(whole[i] == all_marks(front)[i]);
            } else {
                let j = choose|j: int| 0 <= j < last.1.marks@.len() && is_error_mark(#[trigger] last.1.marks@[j]);
                let i = all_marks(front).len() + j;
                assert(whole[i] == tail[j]);
                assert(is_error_mark(whole[i].1));
            }
        }
    }
}

/// A marking lists an error pair exactly when some node carries an error
/// mark: `errors` is non-empty exactly when `has_errors` holds.
pub proof fn lemma_errors_exactly_when_has_errors(m: Marking)
    ensures
        error_marks(all_marks(m.entries())).len() > 0 <==> exists|k: int|
            0 <= k < m.entries().len() && some_error(#[trigger] m.entries()[k].1.marks@),
{
    lemma_error_marks_nonempty(all_marks(m.entries()));
    lemma_all_marks_errors(m.entries());
}

/// The pairs of `pairs`, with the mark read through its reference.
pub open spec fn owned_pairs(pairs: Seq<(MarkNodeId, &Mark)>) -> Seq<(MarkNodeId, Mark)> {
    pairs.map_values(|p: (MarkNodeId, &Mark)| (p.0, *p.1))
}

/// In an ordered table, each entry is what its id looks up.
pub proof fn lemma_facts_at_entry(facts: Seq<(MarkNodeId, NodeFacts)>, k: int)
    requires
        facts_ordered(facts),
        0 <= k < facts.len(),
    ensures
        facts_at(facts, facts[k].0) == Some(facts[k].1),
{
    let id = facts[k].0;
    let k2 = choose|k2: int| 0 <= k2 < facts.len() && #[trigger] facts[k2].0 == id;
    if k2 < k {
        assert(id_rank(facts[k2].0) < id_rank(facts[k].0));
    } else if k < k2 {
        assert(id_rank(facts[k].0) < id_rank(facts[k2].0));
    }
}

/// In an ordered table, each entry is what its path looks up.
pub proof fn lemma_id_at_entry(paths: Seq<(Vec<u32>, MarkNodeId)>, k: int)
    requires
        paths_ordered(paths),
        0 <= k < paths.len(),
    ensures
        id_at(paths, paths[k].0@) == Some(paths[k].1),
{
    lemma_path_less_from_irreflexive(paths[k].0@, 0);
    assert(paths[k].0@ == paths[k].0@);
}

impl Marking {
    /// Both tables are in key order.
    #[verifier::type_invariant]
    spec fn wf(&self) -> bool {
        facts_ordered(self.facts@) && paths_ordered(self.compatibility@)
    }

    /// The facts table, in stable-id order.
    pub closed spec fn entries(&self) -> Seq<(MarkNodeId, NodeFacts)> {
        self.facts@
    }

    /// The compatibility table, in path order.
    pub closed spec fn paths(&self) -> Seq<(Vec<u32>, MarkNodeId)> {
        self.compatibility@
    }

    /// The root term's synthesized type.
    pub closed spec fn root_ty(&self) -> Ty {
        self.root
    }

    /// The facts recorded at `id`, as the marking's map from ids to facts.
    pub open spec fn facts_of(&self, id: MarkNodeId) -> Option<NodeFacts> {
        facts_at(self.entries(), id)
    }

    /// The id recorded at a compatibility path.
    pub open spec fn path_id(&self, path: Seq<u32>) -> Option<MarkNodeId> {
        id_at(self.paths(), path)
    }

    /// A marking with no decorated node yet, for a root of type `root`.
    pub fn new(root: Ty) -> (m: Marking)
        ensures
            m.entries().len() == 0,
            m.paths().len() == 0,
            m.root_ty() == root,
    {
        Marking { facts: Vec::new(), compatibility: Vec::new(), root }
    }

    /// The facts at a stable node id, if any.
    pub fn get(&self, id: MarkNodeId) -> (r: Option<&NodeFacts>)
        ensures
            match r {
                Some(f) => self.facts_of(id) == Some(*f),
                None => self.facts_of(id) is None,
            },
    {
        proof {
            use_type_invariant(self);
        }
        let key = id_code(id);
        let mut k: usize = 0;
        while k < self.facts.len()
            invariant
                self.wf(),
                k <= self.facts@.len(),
                key == id_rank(id),
                forall|i: int| 0 <= i < k ==> #[trigger] self.facts@[i].0 != id,
            decreases self.facts@.len() - k,
        {
            if id_code(self.facts[k].0) == key {
                proof {
                    lemma_id_rank_injective(self.facts@[k as int].0, id);
                    lemma_facts_at_entry(self.facts@, k as int);
                }
                return Some(&self.facts[k].1);
            }
            proof {
                assert(self.facts@[k as int].0 != id);
            }
            k = k + 1;
        }
        None
    }

    /// The id recorded at a compatibility path, if any.
    fn lookup_path(&self, path: &[u32]) -> (r: Option<MarkNodeId>)
        ensures
            r == self.path_id(path@),
    {
        proof {
            use_type_invariant(self);
        }
        let mut k: usize = 0;
        while k < self.compatibility.len()
            invariant
                self.wf(),
                k <= self.compatibility@.len(),
                forall|i: int| 0 <= i < k ==> #[trigger] self.compatibility@[i].0@ != path@,
            decreases self.compatibility@.len() - k,
        {
            if same_path(self.compatibility[k].0.as_slice(), path) {
                proof {
                    lemma_id_at_entry(self.compatibility@, k as int);
                }
                return Some(self.compatibility[k].1);
            }
            k = k + 1;
        }
        None
    }

    /// The facts at a compatibility path: the path's stable id, then that
    /// id's facts.
    pub fn get_compat_path(&self, path: &[u32]) -> (r: Option<&NodeFacts>)
        ensures
            match self.path_id(path@) {
                Some(id) => match r {
                    Some(f) => self.facts_of(id) == Some(*f),
                    None => self.facts_of(id) is None,
                },
                None => r is None,
            },
    {
        match self.lookup_path(path) {
            Some(id) => self.get(id),
            None => None,
        }
    }

    /// Every `(stable id, facts)` pair, in stable-id order.
    pub fn iter(&self) -> (r: &[(MarkNodeId, NodeFacts)])
        ensures
            r@ == self.entries(),
            facts_ordered(r@),
    {
        proof {
            use_type_invariant(self);
        }
        self.facts.as_slice()
    }

    /// Every `(path, stable id)` compatibility pair, in path order.
    pub fn compatibility_paths(&self) -> (r: &[(Vec<u32>, MarkNodeId)])
        ensures
            r@ == self.paths(),
            paths_ordered(r@),
    {
        proof {
            use_type_invariant(self);
        }
        self.compatibility.as_slice()
    }

    /// The root term's synthesized type.
    pub fn root_type(&self) -> (r: &Ty)
        ensures
            *r == self.root_ty(),
    {
        &self.root
    }

    /// The number of decorated nodes.
    pub fn len(&self) -> (r: usize)
        ensures
            r == self.entries().len(),
    {
        self.facts.len()
    }

    /// Whether no node is decorated.
    pub fn is_empty(&self) -> (r: bool)
        ensures
            r == (self.entries().len() == 0),
    {
        self.facts.len() == 0
    }

    /// Every `(stable id, mark)` pair, in stable-id order then mark order.
    pub fn marks(&self) -> (r: Vec<(MarkNodeId, &Mark)>)
        ensures
            owned_pairs(r@) == all_marks(self.entries()),
    {
        let mut out: Vec<(MarkNodeId, &Mark)> = Vec::new();
        let mut k: usize = 0;
        while k < self.facts.len()
            invariant
                k <= self.facts@.len(),
                owned_pairs(out@) == all_marks(self.facts@.subrange(0, k as int)),
            decreases self.facts@.len() - k,
        {
            let id = self.facts[k].0;
            let marks = &self.facts[k].1.marks;
            let ghost start = out@;
            let mut j: usize = 0;
            while j < marks.len()
                invariant
                    j <= marks@.len(),
                    out@.len() == start.len() + j,
                    out@.subrange(0, start.len() as int) == start,
                    forall|i: int| 0 <= i < j ==> #[trigger] out@[start.len() + i] == (id, &marks@[i]),
                decreases marks@.len() - j,
            {
                out.push((id, &marks[j]));
                proof {
                    assert(out@.subrange(0, start.len() as int) =~= start);
                }
                j = j + 1;
            }
            proof {
                let grown = self.facts@.subrange(0, k + 1);
                assert(grown.drop_last() =~= self.facts@.subrange(0, k as int));
                assert(grown.last() == self.facts@[k as int]);
                let tail = marks@.map_values(|m: Mark| (id, m));
                assert forall|i: int| 0 <= i < out@.len() implies #[trigger] owned_pairs(out@)[i]
                    == (owned_pairs(start) + tail)[i] by {
                    if i < start.len() {
                        assert(out@[i] == out@.subrange(0, start.len() as int)[i]);
                    } else {
                        assert(out@[start.len() + (i - start.len())] == (id, &marks@[i - start.len()]));
                    }
                }
                assert(owned_pairs(out@) =~= owned_pairs(start) + tail);
            }
            k = k + 1;
        }
        proof {
            assert(self.facts@.subrange(0, self.facts@.len() as int) =~= self.facts@);
        }
        out
    }

    /// Every error `(stable id, mark)` pair, in stable-id order then mark
    /// order.
    pub fn errors(&self) -> (r: Vec<(MarkNodeId, &Mark)>)
        ensures
            owned_pairs(r@) == error_marks(all_marks(self.entries())),
            r@.len() > 0 <==> exists|k: int|
                0 <= k < self.entries().len() && some_error(#[trigger] self.entries()[k].1.marks@),
    {
        proof {
            lemma_errors_exactly_when_has_errors(*self);
        }
        let all = self.marks();
        let mut out: Vec<(MarkNodeId, &Mark)> = Vec::new();
        let mut k: usize = 0;
        while k < all.len()
            invariant
                k <= all@.len(),
                owned_pairs(out@) == error_marks(owned_pairs(all@.subrange(0, k as int))),
            decreases all@.len() - k,
        {
            let pair = all[k];
            proof {
                let grown = owned_pairs(all@.subrange(0, k + 1));
                assert(grown.drop_last() =~= owned_pairs(all@.subrange(0, k as int)));
                assert(grown.last() == (pair.0, *pair.1));
            }
            let ghost before = out@;
            if pair.1.is_error() {
                out.push(pair);
                proof {
                    assert(owned_pairs(out@) =~= owned_pairs(before).push((pair.0, *pair.1)));
                }
            }
            k = k + 1;
        }
        proof {
            assert(all@.subrange(0, all@.len() as int) =~= all@);
        }
        out
    }

    /// Whether any node carries an error mark (empty holes excepted).
    pub fn has_errors(&self) -> (r: bool)
        ensures
            r == exists|k: int| 0 <= k < self.entries().len() && some_error(#[trigger] self.entries()[k].1.marks@),
    {
        let mut k: usize = 0;
        while k < self.facts.len()
            invariant
                k <= self.facts@.len(),
                forall|i: int| 0 <= i < k ==> !some_error(#[trigger] self.facts@[i].1.marks@),
            decreases self.facts@.len() - k,
        {
            if self.facts[k].1.has_error() {
                return true;
            }
            k = k + 1;
        }
        false
    }

    /// Records `facts` for `id`, reached along the compatibility `path`: an
    /// earlier record for the same id, or the same path, is replaced.
    pub fn record(&mut self, path: Vec<u32>, id: MarkNodeId, facts: NodeFacts)
        ensures
            final(self).root_ty() == old(self).root_ty(),
            final(self).facts_of(id) == Some(facts),
            forall|other: MarkNodeId|
                other != id ==> #[trigger] final(self).facts_of(other) == old(self).facts_of(other),
            final(self).path_id(path@) == Some(id),
            forall|other: Seq<u32>|
                other != path@ ==> #[trigger] final(self).path_id(other) == old(self).path_id(other),
    {
        proof {
            use_type_invariant(&*self);
        }
        let mut table: Vec<(MarkNodeId, NodeFacts)> = Vec::new();
        std::mem::swap(&mut table, &mut self.facts);
        record_facts(&mut table, id, facts);
        self.facts = table;
        let mut paths: Vec<(Vec<u32>, MarkNodeId)> = Vec::new();
        std::mem::swap(&mut paths, &mut self.compatibility);
        record_path(&mut paths, path, id);
        self.compatibility = paths;
    }

}

/// Binds `id` to `facts` in the facts table.
fn record_facts(table: &mut Vec<(MarkNodeId, NodeFacts)>, id: MarkNodeId, facts: NodeFacts)
    requires
        facts_ordered(old(table)@),
    ensures
        facts_ordered(final(table)@),
        facts_at(final(table)@, id) == Some(facts),
        forall|other: MarkNodeId|
            other != id ==> #[trigger] facts_at(final(table)@, other) == facts_at(
                old(table)@,
                other,
            ),
{
    let key = id_code(id);
    let mut at: usize = 0;
    while at < table.len() && id_code(table[at].0) < key
        invariant
            at <= table@.len(),
            table@ == old(table)@,
            key == id_rank(id),
            forall|k: int| 0 <= k < at ==> id_rank(#[trigger] table@[k].0) < key,
        decreases table@.len() - at,
    {
        at = at + 1;
    }
    let ghost before = table@;
    if at < table.len() && id_code(table[at].0) == key {
        proof {
            lemma_id_rank_injective(before[at as int].0, id);
        }
        table.set(at, (id, facts));
        proof {
            assert(table@ == before.update(at as int, (id, facts)));
            assert(table@[at as int].0 == id);
            assert forall|other: MarkNodeId| other != id implies #[trigger] facts_at(
                table@,
                other,
            ) == facts_at(before, other) by {
                assert forall|k: int| 0 <= k < before.len() implies (#[trigger] before[k].0
                    == other) == (table@[k].0 == other) by {
                    if k != at {
                        assert(table@[k] == before[k]);
                    }
                }
                if exists|k: int| 0 <= k < before.len() && #[trigger] before[k].0 == other {
                    let k = choose|k: int| 0 <= k < before.len() && #[trigger] before[k].0 == other;
                    assert(table@[k].0 == other);
                    let k2 = choose|k2: int|
                        0 <= k2 < table@.len() && #[trigger] table@[k2].0 == other;
                    if k != k2 {
                        if k < k2 {
                            assert(id_rank(before[k].0) < id_rank(before[k2].0));
                        } else {
                            assert(id_rank(before[k2].0) < id_rank(before[k].0));
                        }
                    }
                    assert(table@[k2] == before[k2]);
                }
            }
            assert(facts_at(table@, id) == Some(facts)) by {
                let k2 = choose|k2: int|
                    0 <= k2 < table@.len() && #[trigger] table@[k2].0 == id;
                if k2 != at {
                    if k2 < at {
                        assert(id_rank(table@[k2].0) < id_rank(table@[at as int].0));
                    } else {
                        assert(id_rank(table@[at as int].0) < id_rank(table@[k2].0));
                    }
                }
            }
        }
    } else {
        table.insert(at, (id, facts));
        proof {
            assert(table@ == before.insert(at as int, (id, facts)));
            assert(table@[at as int].0 == id);
            assert(at < before.len() ==> key < id_rank(before[at as int].0));
            assert(facts_ordered(table@)) by {
                assert forall|i: int, j: int|
                    0 <= i < j < table@.len() implies id_rank(#[trigger] table@[i].0)
                    < id_rank(#[trigger] table@[j].0) by {
                    if j < at {
                        assert(table@[i] == before[i] && table@[j] == before[j]);
                    } else if j == at {
                        assert(table@[i] == before[i]);
                    } else if i > at {
                        assert(table@[i] == before[i - 1] && table@[j] == before[j - 1]);
                    } else if i == at {
                        assert(table@[j] == before[j - 1]);
                        if j - 1 > at {
                            assert(id_rank(before[at as int].0) < id_rank(before[j - 1].0));
                        }
                    } else {
                        assert(table@[i] == before[i] && table@[j] == before[j - 1]);
                        assert(id_rank(before[i].0) < key);
                    }
                }
            }
            assert forall|other: MarkNodeId| other != id implies #[trigger] facts_at(
                table@,
                other,
            ) == facts_at(before, other) by {
                if exists|k: int| 0 <= k < before.len() && #[trigger] before[k].0 == other {
                    let k = choose|k: int| 0 <= k < before.len() && #[trigger] before[k].0 == other;
                    let shifted = if k < at { k } else { k + 1 };
                    assert(table@[shifted] == before[k]);
                    let k2 = choose|k2: int|
                        0 <= k2 < table@.len() && #[trigger] table@[k2].0 == other;
                    if k2 != shifted {
                        if k2 < shifted {
                            assert(id_rank(table@[k2].0) < id_rank(table@[shifted].0));
                        } else {
                            assert(id_rank(table@[shifted].0) < id_rank(table@[k2].0));
                        }
                    }
                }
                if exists|k2: int|
                    0 <= k2 < table@.len() && #[trigger] table@[k2].0 == other {
                    let k2 = choose|k2: int|
                        0 <= k2 < table@.len() && #[trigger] table@[k2].0 == other;
                    assert(k2 != at);
                    let back = if k2 < at { k2 } else { k2 - 1 };
                    assert(before[back] == table@[k2]);
                }
            }
            assert(facts_at(table@, id) == Some(facts)) by {
                let k2 = choose|k2: int|
                    0 <= k2 < table@.len() && #[trigger] table@[k2].0 == id;
                if k2 != at {
                    if k2 < at {
                        assert(id_rank(table@[k2].0) < id_rank(table@[at as int].0));
                    } else {
                        assert(id_rank(table@[at as int].0) < id_rank(table@[k2].0));
                    }
                }
            }
        }
    }
}

/// Binds `path` to `id` in the compatibility table.
fn record_path(table: &mut Vec<(Vec<u32>, MarkNodeId)>, path: Vec<u32>, id: MarkNodeId)
    requires
        paths_ordered(old(table)@),
    ensures
        paths_ordered(final(table)@),
        id_at(final(table)@, path@) == Some(id),
        forall|other: Seq<u32>|
            other != path@ ==> #[trigger] id_at(final(table)@, other) == id_at(
                old(table)@,
                other,
            ),
{
    let mut at: usize = 0;
    while at < table.len() && path_before(table[at].0.as_slice(), path.as_slice())
        invariant
            at <= table@.len(),
            table@ == old(table)@,
            forall|k: int|
                0 <= k < at ==> path_less(#[trigger] table@[k].0@, path@),
        decreases table@.len() - at,
    {
        at = at + 1;
    }
    let ghost before = table@;
    proof {
        assert forall|i: int, j: int|
            0 <= i < j < before.len() implies (#[trigger] before[i].0@ != #[trigger] before[j].0@) by {
            lemma_path_less_from_irreflexive(before[i].0@, 0);
        }
        assert forall|k: int| 0 <= k < at implies #[trigger] before[k].0@ != path@ by {
            lemma_path_less_from_irreflexive(path@, 0);
        }
    }
    if at < table.len() && same_path(table[at].0.as_slice(), path.as_slice()) {
        let ghost p = path@;
        table.set(at, (path, id));
        proof {
            assert(table@ == before.update(at as int, (table@[at as int].0, id)));
            assert(table@[at as int].0@ == p);
            assert forall|k: int| 0 <= k < before.len() && k != at implies #[trigger] before[k].0@ != p by {
                if k > at {
                    assert(path_less(before[at as int].0@, before[k].0@));
                    lemma_path_less_from_irreflexive(p, 0);
                }
            }
            assert(paths_ordered(table@)) by {
                assert forall|i: int, j: int|
                    0 <= i < j < table@.len() implies path_less(
                    #[trigger] table@[i].0@,
                    #[trigger] table@[j].0@,
                ) by {
                    assert(before[i].0@ == table@[i].0@);
                    assert(before[j].0@ == table@[j].0@);
                }
            }
            assert forall|other: Seq<u32>| other != p implies #[trigger] id_at(
                table@,
                other,
            ) == id_at(before, other) by {
                assert forall|k: int| 0 <= k < before.len() implies (#[trigger] before[k].0@
                    == other) == (table@[k].0@ == other) by {
                    if k != at {
                        assert(table@[k] == before[k]);
                    }
                }
                if exists|k: int| 0 <= k < before.len() && #[trigger] before[k].0@ == other {
                    let k = choose|k: int| 0 <= k < before.len() && #[trigger] before[k].0@ == other;
                    let k2 = choose|k2: int|
                        0 <= k2 < table@.len() && #[trigger] table@[k2].0@
                            == other;
                    if k != k2 {
                        assert(before[k2].0@ == other);
                    }
                    assert(table@[k2] == before[k2]);
                }
            }
            assert(id_at(table@, p) == Some(id)) by {
                let k2 = choose|k2: int|
                    0 <= k2 < table@.len() && #[trigger] table@[k2].0@ == p;
                if k2 != at {
                    assert(before[k2].0@ == p);
                }
            }
        }
    } else {
        let ghost p = path@;
        proof {
            if at < before.len() {
                assert(before[at as int].0@ != p);
            }
            assert forall|k: int| 0 <= k < before.len() implies #[trigger] before[k].0@ != p by {
                if k > at {
                    if before[k].0@ == p {
                        assert(path_less(before[at as int].0@, before[k].0@));
                        lemma_path_less_from_transitive(p, before[at as int].0@, p, 0);
                        lemma_path_less_from_irreflexive(p, 0);
                    }
                }
            }
        }
        table.insert(at, (path, id));
        proof {
            assert(table@ == before.insert(at as int, (table@[at as int].0, id)));
            assert(table@[at as int].0@ == p);
            assert(paths_ordered(table@)) by {
                assert forall|i: int, j: int|
                    0 <= i < j < table@.len() implies path_less(
                    #[trigger] table@[i].0@,
                    #[trigger] table@[j].0@,
                ) by {
                    if j < at {
                        assert(table@[i] == before[i]);
                        assert(table@[j] == before[j]);
                    } else if j == at {
                        assert(table@[i] == before[i]);
                    } else if i > at {
                        assert(table@[i] == before[i - 1]);
                        assert(table@[j] == before[j - 1]);
                    } else if i == at {
                        assert(table@[j] == before[j - 1]);
                        assert(!path_less(before[at as int].0@, p));
                        assert(p != before[at as int].0@);
                        lemma_path_less_total(p, before[at as int].0@);
                        if j - 1 > at {
                            assert(path_less(before[at as int].0@, before[j - 1].0@));
                            lemma_path_less_from_transitive(p, before[at as int].0@, before[j - 1].0@, 0);
                        }
                    } else {
                        assert(table@[i] == before[i]);
                        assert(table@[j] == before[j - 1]);
                        assert(path_less(before[i].0@, p));
                        if j - 1 > at {
                            lemma_path_less_total(p, before[at as int].0@);
                            assert(path_less(before[at as int].0@, before[j - 1].0@));
                            lemma_path_less_from_transitive(p, before[at as int].0@, before[j - 1].0@, 0);
                            lemma_path_less_from_transitive(before[i].0@, p, before[j - 1].0@, 0);
                        } else {
                            lemma_path_less_total(p, before[at as int].0@);
                            lemma_path_less_from_transitive(before[i].0@, p, before[at as int].0@, 0);
                        }
                    }
                }
            }
            assert forall|other: Seq<u32>| other != p implies #[trigger] id_at(
                table@,
                other,
            ) == id_at(before, other) by {
                if exists|k: int| 0 <= k < before.len() && #[trigger] before[k].0@ == other {
                    let k = choose|k: int| 0 <= k < before.len() && #[trigger] before[k].0@ == other;
                    let shifted = if k < at { k } else { k + 1 };
                    assert(table@[shifted] == before[k]);
                    let k2 = choose|k2: int|
                        0 <= k2 < table@.len() && #[trigger] table@[k2].0@
                            == other;
                    assert(k2 != at);
                    let back = if k2 < at { k2 } else { k2 - 1 };
                    assert(before[back] == table@[k2]);
                    if back != k {
                        if back < k {
                            assert(path_less(before[back].0@, before[k].0@));
                        } else {
                            assert(path_less(before[k].0@, before[back].0@));
                        }
                        lemma_path_less_from_irreflexive(other, 0);
                    }
                }
                if exists|k2: int|
                    0 <= k2 < table@.len() && #[trigger] table@[k2].0@
                        == other {
                    let k2 = choose|k2: int|
                        0 <= k2 < table@.len() && #[trigger] table@[k2].0@
                            == other;
                    assert(k2 != at);
                    let back = if k2 < at { k2 } else { k2 - 1 };
                    assert(before[back] == table@[k2]);
                }
            }
            assert(id_at(table@, p) == Some(id)) by {
                let k2 = choose|k2: int|
                    0 <= k2 < table@.len() && #[trigger] table@[k2].0@ == p;
                if k2 != at {
                    let back = if k2 < at { k2 } else { k2 - 1 };
                    assert(before[back] == table@[k2]);
                }
            }
        }
    }
}

/// Two different paths are ordered one way or the other.
pub proof fn lemma_path_less_total(a: Seq<u32>, b: Seq<u32>)
    requires
        a != b,
    ensures
        path_less(a, b) || path_less(b, a),
{
    assert(a.subrange(0, 0) =~= b.subrange(0, 0));
    lemma_path_total_from(a, b, 0);
}

/// Paths that agree below `k` and differ are ordered from `k` on.
proof fn lemma_path_total_from(a: Seq<u32>, b: Seq<u32>, k: nat)
    requires
        k <= a.len(),
        k <= b.len(),
        a.subrange(0, k as int) == b.subrange(0, k as int),
        a != b,
    ensures
        path_less_from(a, b, k) || path_less_from(b, a, k),
    decreases a.len() - k,
{
    if k < a.len() && k < b.len() && a[k as int] == b[k as int] {
        assert(a.subrange(0, (k + 1) as int) =~= a.subrange(0, k as int).push(a[k as int]));
        assert(b.subrange(0, (k + 1) as int) =~= b.subrange(0, k as int).push(b[k as int]));
        lemma_path_total_from(a, b, k + 1);
    } else if k >= a.len() && k >= b.len() {
        assert(a =~= a.subrange(0, k as int));
        assert(b =~= b.subrange(0, k as int));
    }
}

} // verus!
