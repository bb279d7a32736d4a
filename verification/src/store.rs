//! The syntax store: a flat carrier of value, computation, and stack nodes
//! whose children are handles into the same store.
//!
//! Nodes are appended in topological order: every child handle names a node
//! minted before its parent. That order is the store's well-formedness
//! invariant, and it is what lets reading a node back out recurse on the
//! handle itself.

pub mod spelling;

use std::rc::Rc;
use vstd::prelude::*;

use crate::prim::NativePrim;
use crate::store::spelling::comp_node_spells;
use crate::store::spelling::extends;
use crate::store::spelling::value_children_spelled;
use crate::store::spelling::stack_children_spelled;
use crate::store::spelling::lemma_values_element;
use crate::store::spelling::lemma_value_children_spelled;
use crate::store::spelling::lemma_stack_children_spelled;
use crate::store::spelling::lemma_fields_element;
use crate::store::spelling::lemma_comp_children_spelled;
use crate::store::spelling::lemma_clauses_element;
use crate::store::spelling::lemma_branches_element;
use crate::store::spelling::comp_children_spelled;
use crate::store::spelling::referent;
use crate::store::spelling::lemma_branch_spelling_kept;
use crate::store::spelling::lemma_branches_spelling_kept;
use crate::store::spelling::lemma_clauses_spelling_kept;
use crate::store::spelling::lemma_comp_node_spelling_kept;
use crate::store::spelling::lemma_comp_spelling_kept;
use crate::store::spelling::lemma_fields_spelling_kept;
use crate::store::spelling::lemma_push_extends;
use crate::store::spelling::lemma_stack_node_spelling_kept;
use crate::store::spelling::lemma_value_node_spelling_kept;
use crate::store::spelling::lemma_value_spelling_kept;
use crate::store::spelling::lemma_values_spelling_kept;
use crate::store::spelling::spells_branch;
use crate::store::spelling::spells_branches;
use crate::store::spelling::spells_clauses;
use crate::store::spelling::spells_comp;
use crate::store::spelling::spells_fields;
use crate::store::spelling::spells_stack;
use crate::store::spelling::spells_value;
use crate::store::spelling::spells_values;
use crate::store::spelling::stack_node_spells;
use crate::store::spelling::value_node_spells;
use crate::syntax::share;
use crate::syntax::Branch;
use crate::syntax::Comp;
use crate::syntax::FieldValue;
use crate::syntax::NumLit;
use crate::syntax::OpClause;
use crate::syntax::Side;
use crate::syntax::SplitMotive;
use crate::syntax::Stack;
use crate::syntax::Value;
use crate::syntax::WalkBase;
use crate::syntax::WalkMotive;
use crate::types::DataId;
use crate::types::EffectSig;
use crate::types::Grade;
use crate::types::ValueType;

verus! {

/// The handle of a value node in the syntax store.
#[derive(Clone, Copy, Debug, PartialEq, Eq, Structural)]
pub struct ValueNodeId(pub u32);

/// The handle of a computation node in the syntax store.
#[derive(Clone, Copy, Debug, PartialEq, Eq, Structural)]
pub struct CompNodeId(pub u32);

/// The handle of a stack node in the syntax store.
#[derive(Clone, Copy, Debug, PartialEq, Eq, Structural)]
pub struct StackNodeId(pub u32);

/// How deep a caller's term may nest before lowering refuses it.
pub const NESTING_LIMIT: u32 = 100000;

/// Why the store refused a request.
#[derive(Clone, Copy, Debug, PartialEq, Eq, Structural)]
pub enum StoreError {
    /// The 32-bit handle space is full.
    IdSpaceExhausted,
    /// A node named a child that does not precede it.
    DanglingChild,
    /// A handle names no node of the requested kind.
    Missing(u32),
    /// A term nests deeper than the nesting budget.
    TooDeep,
}

/// One labelled field of a record node.
#[derive(Clone, Debug)]
pub struct FieldNode {
    /// The field label.
    pub label: String,
    /// The field value.
    pub value: ValueNodeId,
}

/// A binder and the computation node it scopes over.
#[derive(Clone, Debug)]
pub struct BranchNode {
    /// The bound name.
    pub binder: String,
    /// The body.
    pub body: CompNodeId,
}

/// One operation clause of a handler node.
#[derive(Clone, Debug)]
pub struct ClauseNode {
    /// The handled operation.
    pub op: String,
    /// The payload binder.
    pub payload: String,
    /// The resumption binder.
    pub resume: String,
    /// The clause body.
    pub body: CompNodeId,
}

/// A value node.
#[derive(Clone, Debug)]
pub enum ValueNode {
    /// A variable occurrence.
    Var(String),
    /// The unit value.
    Unit,
    /// An integer literal.
    Int(i64),
    /// A string literal.
    Str(String),
    /// A typed numeric literal.
    Num(NumLit),
    /// An eager pair.
    Pair(ValueNodeId, ValueNodeId),
    /// A sum injection.
    Inj(Side, ValueNodeId),
    /// A list literal.
    List(Vec<ValueNodeId>),
    /// A record literal.
    Record(Vec<FieldNode>),
    /// A graded thunk.
    Thunk(Grade, CompNodeId),
    /// A type ascription; the type stays a shared term.
    Annot(ValueNodeId, Rc<ValueType>),
    /// A typed hole.
    Hole(u64),
    /// A reified stack.
    Stk(StackNodeId),
    /// A reflexivity witness.
    Here(ValueNodeId),
    /// A declared-data constructor value.
    Ctor { id: DataId, tag: usize, payload: ValueNodeId },
}

/// A computation node.
#[derive(Clone, Debug)]
pub enum CompNode {
    /// A function.
    Abs(String, Option<Rc<ValueType>>, CompNodeId),
    /// An application.
    App(CompNodeId, ValueNodeId),
    /// A returner.
    Ret(ValueNodeId),
    /// Sequencing.
    Bind(CompNodeId, String, CompNodeId),
    /// Forcing a thunk.
    Force(ValueNodeId),
    /// A sum elimination.
    Case(ValueNodeId, BranchNode, BranchNode),
    /// A declared-data elimination.
    DataCase(ValueNodeId, Vec<BranchNode>),
    /// A list elimination.
    ListCase { scrut: ValueNodeId, nil: CompNodeId, head: String, tail: String, cons: CompNodeId },
    /// A pair elimination.
    Split {
        scrut: ValueNodeId,
        fst_name: String,
        snd_name: String,
        motive: Option<Rc<SplitMotive>>,
        body: CompNodeId,
    },
    /// A record projection.
    RecordProj { record: ValueNodeId, label: String },
    /// A lazy pair.
    With(CompNodeId, CompNodeId),
    /// A lazy-pair projection.
    Prj(Side, CompNodeId),
    /// A grade duplication.
    Dup(ValueNodeId),
    /// A grade discard.
    Drop(ValueNodeId),
    /// An effect performance.
    Perform(Rc<EffectSig>, String, ValueNodeId),
    /// An effect handler.
    Handle { sig: Rc<EffectSig>, scrutinee: CompNodeId, ret: BranchNode, ops: Vec<ClauseNode> },
    /// A resumption.
    Resume(ValueNodeId, CompNodeId),
    /// A delimiter.
    Reset(CompNodeId),
    /// A capture.
    Shift(String, CompNodeId),
    /// A computation hole.
    Hole(u64),
    /// A native primitive applied to its arguments.
    Native { prim: NativePrim, args: Vec<ValueNodeId> },
    /// An identity elimination.
    Walk { scrut: ValueNodeId, motive: Rc<WalkMotive>, base: BranchNode },
}

/// A stack node.
#[derive(Clone, Debug)]
pub enum StackNode {
    /// The empty stack.
    Empty,
    /// An argument frame.
    Arg(ValueNodeId, StackNodeId),
    /// A sequencing frame.
    Bind(String, CompNodeId, StackNodeId),
    /// A projection frame.
    Prj(Side, StackNodeId),
}

/// A node of any kind.
#[derive(Clone, Debug)]
pub enum SyntaxNode {
    /// A value node.
    Value(ValueNode),
    /// A computation node.
    Comp(CompNode),
    /// A stack node.
    Stack(StackNode),
}

/// One handle.
pub open spec fn ids1(a: u32) -> Seq<u32> {
    seq![a]
}

/// Two handles.
pub open spec fn ids2(a: u32, b: u32) -> Seq<u32> {
    seq![a, b]
}

/// Three handles.
pub open spec fn ids3(a: u32, b: u32, c: u32) -> Seq<u32> {
    seq![a, b, c]
}

/// The handles a value node names, in order.
pub open spec fn value_children(node: ValueNode) -> Seq<u32> {
    match node {
        ValueNode::Pair(a, b) => ids2(a.0, b.0),
        ValueNode::Inj(_, a) => ids1(a.0),
        ValueNode::List(items) => items@.map_values(|i: ValueNodeId| i.0),
        ValueNode::Record(fields) => fields@.map_values(|f: FieldNode| f.value.0),
        ValueNode::Thunk(_, c) => ids1(c.0),
        ValueNode::Annot(a, _) => ids1(a.0),
        ValueNode::Stk(s) => ids1(s.0),
        ValueNode::Here(a) => ids1(a.0),
        ValueNode::Ctor { payload, .. } => ids1(payload.0),
        _ => Seq::empty(),
    }
}

/// The handles a computation node names, in order.
pub open spec fn comp_children(node: CompNode) -> Seq<u32> {
    match node {
        CompNode::Abs(_, _, body) => ids1(body.0),
        CompNode::App(f, a) => ids2(f.0, a.0),
        CompNode::Ret(v) => ids1(v.0),
        CompNode::Bind(c, _, k) => ids2(c.0, k.0),
        CompNode::Force(v) => ids1(v.0),
        CompNode::Case(v, l, r) => ids3(v.0, l.body.0, r.body.0),
        CompNode::DataCase(v, arms) => ids1(v.0) + arms@.map_values(|a: BranchNode| a.body.0),
        CompNode::ListCase { scrut, nil, cons, .. } => ids3(scrut.0, nil.0, cons.0),
        CompNode::Split { scrut, body, .. } => ids2(scrut.0, body.0),
        CompNode::RecordProj { record, .. } => ids1(record.0),
        CompNode::With(a, b) => ids2(a.0, b.0),
        CompNode::Prj(_, c) => ids1(c.0),
        CompNode::Dup(v) => ids1(v.0),
        CompNode::Drop(v) => ids1(v.0),
        CompNode::Perform(_, _, v) => ids1(v.0),
        CompNode::Handle { scrutinee, ret, ops, .. } => ids2(scrutinee.0, ret.body.0)
            + ops@.map_values(|c: ClauseNode| c.body.0),
        CompNode::Resume(v, c) => ids2(v.0, c.0),
        CompNode::Reset(c) => ids1(c.0),
        CompNode::Shift(_, c) => ids1(c.0),
        CompNode::Hole(_) => Seq::empty(),
        CompNode::Native { args, .. } => args@.map_values(|a: ValueNodeId| a.0),
        CompNode::Walk { scrut, base, .. } => ids2(scrut.0, base.body.0),
    }
}

/// The handles a stack node names, in order.
pub open spec fn stack_children(node: StackNode) -> Seq<u32> {
    match node {
        StackNode::Empty => Seq::empty(),
        StackNode::Arg(v, s) => ids2(v.0, s.0),
        StackNode::Bind(_, c, s) => ids2(c.0, s.0),
        StackNode::Prj(_, s) => ids1(s.0),
    }
}

/// A value node spelling a term over `nodes` names only stored nodes.
pub proof fn lemma_spelled_value_children_below(nodes: Seq<SyntaxNode>, node: ValueNode, v: Value)
    requires
        value_node_spells(nodes, node, nodes.len() as int, v),
    ensures
        all_below(value_children(node), nodes.len() as int),
{
    let bound = nodes.len() as int;
    lemma_value_children_spelled(nodes, node, bound, v);
    let kids = value_children(node);
    assert forall|j: int| 0 <= j < kids.len() implies #[trigger] kids[j] < bound by {
        match node {
            ValueNode::List(items) => {
                lemma_values_element(nodes, bound, items@, v->List_0@, j);
            },
            ValueNode::Record(fields) => {
                lemma_fields_element(nodes, bound, fields@, v->Record_0@, j);
            },
            _ => {},
        }
    }
}

/// A computation node spelling a term over `nodes` names only stored nodes.
pub proof fn lemma_spelled_comp_children_below(nodes: Seq<SyntaxNode>, node: CompNode, c: Comp)
    requires
        comp_node_spells(nodes, node, nodes.len() as int, c),
    ensures
        all_below(comp_children(node), nodes.len() as int),
{
    let bound = nodes.len() as int;
    lemma_comp_children_spelled(nodes, node, bound, c);
    let kids = comp_children(node);
    assert forall|j: int| 0 <= j < kids.len() implies #[trigger] kids[j] < bound by {
        match node {
            CompNode::DataCase(a, arms) => {
                if j > 0 {
                    lemma_branches_element(nodes, bound, arms@, c->DataCase_1@, j - 1);
                }
            },
            CompNode::Handle { scrutinee, ret, ops, .. } => {
                if j > 1 {
                    lemma_clauses_element(nodes, bound, ops@, c->Handle_ops@, j - 2);
                }
            },
            CompNode::Native { args, .. } => {
                lemma_values_element(nodes, bound, args@, c->Native_args@, j);
            },
            _ => {},
        }
    }
}

/// A stack node spelling a term over `nodes` names only stored nodes.
pub proof fn lemma_spelled_stack_children_below(nodes: Seq<SyntaxNode>, node: StackNode, st: Stack)
    requires
        stack_node_spells(nodes, node, nodes.len() as int, st),
    ensures
        all_below(stack_children(node), nodes.len() as int),
{
    let bound = nodes.len() as int;
    lemma_stack_children_spelled(nodes, node, bound, st);
    let kids = stack_children(node);
    assert forall|j: int| 0 <= j < kids.len() implies #[trigger] kids[j] < bound by {
    }
}

/// `term` is a closed inert value within `depth` levels: literals, names and
/// holes under the pair, injection, list, record, witness and constructor
/// formers, with no thunk, ascription or reified stack anywhere in it.
pub open spec fn inert_value(term: Value, depth: nat) -> bool
    decreases depth,
{
    depth > 0 && {
        let below = (depth - 1) as nat;
        match term {
            Value::Pair(a, b) => inert_value(*a, below) && inert_value(*b, below),
            Value::Inj(_, a) => inert_value(*a, below),
            Value::List(xs) => forall|i: int| 0 <= i < xs@.len() ==> inert_value(*#[trigger] xs@[i], below),
            Value::Record(fs) => forall|i: int|
                0 <= i < fs@.len() ==> inert_value(*(#[trigger] fs@[i]).value, below),
            Value::Thunk(_, _) => false,
            Value::Annot(_, _) => false,
            Value::Stk(_) => false,
            Value::Here(a) => inert_value(*a, below),
            Value::Ctor { payload, .. } => inert_value(*payload, below),
            _ => true,
        }
    }
}

/// The number of value nodes in `term`, counted within `depth` levels.
pub open spec fn value_size(term: Value, depth: nat) -> nat
    decreases depth, 0nat, 0nat,
{
    if depth == 0 {
        0
    } else {
        let below = (depth - 1) as nat;
        match term {
            Value::Pair(a, b) => 1 + value_size(*a, below) + value_size(*b, below),
            Value::Inj(_, a) => 1 + value_size(*a, below),
            Value::List(xs) => 1 + values_size(xs@, below),
            Value::Record(fs) => 1 + fields_size(fs@, below),
            Value::Here(a) => 1 + value_size(*a, below),
            Value::Ctor { payload, .. } => 1 + value_size(*payload, below),
            _ => 1,
        }
    }
}

/// The sizes of the values `xs`, summed.
pub open spec fn values_size(xs: Seq<Rc<Value>>, depth: nat) -> nat
    decreases depth, 1nat, xs.len(),
{
    if xs.len() == 0 {
        0
    } else {
        values_size(xs.drop_last(), depth) + value_size(*xs.last(), depth)
    }
}

/// The sizes of the field values of `fs`, summed.
pub open spec fn fields_size(fs: Seq<FieldValue>, depth: nat) -> nat
    decreases depth, 1nat, fs.len(),
{
    if fs.len() == 0 {
        0
    } else {
        fields_size(fs.drop_last(), depth) + value_size(*fs.last().value, depth)
    }
}

/// The sizes of a prefix of a run are summed by the first entries: one more
/// entry adds its own size.
pub proof fn lemma_values_size_take(xs: Seq<Rc<Value>>, depth: nat, k: int)
    requires
        0 <= k < xs.len(),
    ensures
        values_size(xs.take(k + 1), depth) == values_size(xs.take(k), depth) + value_size(*xs[k], depth),
        values_size(xs.take(k + 1), depth) <= values_size(xs, depth),
    decreases xs.len(),
{
    assert(xs.take(k + 1).drop_last() =~= xs.take(k));
    assert(xs.take(k + 1).last() == xs[k]);
    if k + 1 < xs.len() {
        lemma_values_size_take(xs.drop_last(), depth, k);
        assert(xs.drop_last().take(k + 1) =~= xs.take(k + 1));
        assert(xs.drop_last().take(k) =~= xs.take(k));
    } else {
        assert(xs.take(k + 1) =~= xs);
    }
}

/// [`lemma_values_size_take`] for field runs.
pub proof fn lemma_fields_size_take(fs: Seq<FieldValue>, depth: nat, k: int)
    requires
        0 <= k < fs.len(),
    ensures
        fields_size(fs.take(k + 1), depth) == fields_size(fs.take(k), depth) + value_size(*fs[k].value, depth),
        fields_size(fs.take(k + 1), depth) <= fields_size(fs, depth),
    decreases fs.len(),
{
    assert(fs.take(k + 1).drop_last() =~= fs.take(k));
    assert(fs.take(k + 1).last() == fs[k]);
    if k + 1 < fs.len() {
        lemma_fields_size_take(fs.drop_last(), depth, k);
        assert(fs.drop_last().take(k + 1) =~= fs.take(k + 1));
        assert(fs.drop_last().take(k) =~= fs.take(k));
    } else {
        assert(fs.take(k + 1) =~= fs);
    }
}

/// An inert value nests within its depth.
pub proof fn lemma_inert_value_fits(term: Value, depth: nat)
    requires
        inert_value(term, depth),
    ensures
        value_fits(term, depth),
    decreases depth,
{
    let below = (depth - 1) as nat;
    match term {
        Value::Pair(a, b) => {
            lemma_inert_value_fits(referent(&a), below);
            lemma_inert_value_fits(referent(&b), below);
        },
        Value::Inj(_, a) => lemma_inert_value_fits(referent(&a), below),
        Value::List(xs) => {
            assert forall|i: int| 0 <= i < xs@.len() implies value_fits(*#[trigger] xs@[i], below) by {
                lemma_inert_value_fits(referent(&xs@[i]), below);
            }
        },
        Value::Record(fs) => {
            assert forall|i: int| 0 <= i < fs@.len() implies value_fits(*(#[trigger] fs@[i]).value, below) by {
                lemma_inert_value_fits(referent(&fs@[i].value), below);
            }
        },
        Value::Here(a) => lemma_inert_value_fits(referent(&a), below),
        Value::Ctor { payload, .. } => lemma_inert_value_fits(referent(&payload), below),
        _ => {},
    }
}

/// An inert value stays inert, and keeps its size, with a larger depth
/// budget.
pub proof fn lemma_inert_value_deeper(term: Value, depth: nat, more: nat)
    requires
        inert_value(term, depth),
        depth <= more,
    ensures
        inert_value(term, more),
        value_size(term, more) == value_size(term, depth),
    decreases depth, 0nat,
{
    let below = (depth - 1) as nat;
    let over = (more - 1) as nat;
    match term {
        Value::Pair(a, b) => {
            lemma_inert_value_deeper(referent(&a), below, over);
            lemma_inert_value_deeper(referent(&b), below, over);
        },
        Value::Inj(_, a) => lemma_inert_value_deeper(referent(&a), below, over),
        Value::List(xs) => {
            assert forall|i: int| 0 <= i < xs@.len() implies inert_value(*#[trigger] xs@[i], over) by {
                lemma_inert_value_deeper(referent(&xs@[i]), below, over);
            }
            lemma_values_size_deeper(xs@, below, over);
        },
        Value::Record(fs) => {
            assert forall|i: int| 0 <= i < fs@.len() implies inert_value(*(#[trigger] fs@[i]).value, over) by {
                lemma_inert_value_deeper(referent(&fs@[i].value), below, over);
            }
            lemma_fields_size_deeper(fs@, below, over);
        },
        Value::Here(a) => lemma_inert_value_deeper(referent(&a), below, over),
        Value::Ctor { payload, .. } => lemma_inert_value_deeper(referent(&payload), below, over),
        _ => {},
    }
}

/// [`lemma_inert_value_deeper`] for the sizes of a run.
pub proof fn lemma_values_size_deeper(xs: Seq<Rc<Value>>, depth: nat, more: nat)
    requires
        forall|i: int| 0 <= i < xs.len() ==> inert_value(*#[trigger] xs[i], depth),
        depth <= more,
    ensures
        values_size(xs, more) == values_size(xs, depth),
    decreases depth, xs.len() + 1,
{
    if xs.len() > 0 {
        assert(inert_value(*xs[xs.len() - 1], depth));
        lemma_inert_value_deeper(referent(&xs.last()), depth, more);
        assert forall|i: int| 0 <= i < xs.drop_last().len() implies inert_value(*#[trigger] xs.drop_last()[i], depth) by {
            assert(xs.drop_last()[i] == xs[i]);
        }
        lemma_values_size_deeper(xs.drop_last(), depth, more);
    }
}

/// [`lemma_inert_value_deeper`] for the sizes of a field run.
pub proof fn lemma_fields_size_deeper(fs: Seq<FieldValue>, depth: nat, more: nat)
    requires
        forall|i: int| 0 <= i < fs.len() ==> inert_value(*(#[trigger] fs[i]).value, depth),
        depth <= more,
    ensures
        fields_size(fs, more) == fields_size(fs, depth),
    decreases depth, fs.len() + 1,
{
    if fs.len() > 0 {
        assert(inert_value(*fs[fs.len() - 1].value, depth));
        lemma_inert_value_deeper(referent(&fs.last().value), depth, more);
        assert forall|i: int| 0 <= i < fs.drop_last().len() implies inert_value(*(#[trigger] fs.drop_last()[i]).value, depth) by {
            assert(fs.drop_last()[i] == fs[i]);
        }
        lemma_fields_size_deeper(fs.drop_last(), depth, more);
    }
}

/// `term` nests within `depth` levels: lowering spends one level of its
/// depth budget on each node it writes, a child one level below its parent.
pub open spec fn value_fits(term: Value, depth: nat) -> bool
    decreases depth, 0nat,
{
    depth > 0 && {
        let below = (depth - 1) as nat;
        match term {
            Value::Pair(a, b) => value_fits(*a, below) && value_fits(*b, below),
            Value::Inj(_, a) => value_fits(*a, below),
            Value::List(xs) => forall|i: int| 0 <= i < xs@.len() ==> value_fits(*#[trigger] xs@[i], below),
            Value::Record(fs) => forall|i: int|
                0 <= i < fs@.len() ==> value_fits(*(#[trigger] fs@[i]).value, below),
            Value::Thunk(_, c) => comp_fits(*c, below),
            Value::Annot(a, _) => value_fits(*a, below),
            Value::Stk(st) => stack_fits(*st, below),
            Value::Here(a) => value_fits(*a, below),
            Value::Ctor { payload, .. } => value_fits(*payload, below),
            _ => true,
        }
    }
}

/// [`value_fits`] for computations.
pub open spec fn comp_fits(term: Comp, depth: nat) -> bool
    decreases depth, 0nat,
{
    depth > 0 && {
        let below = (depth - 1) as nat;
        match term {
            Comp::Abs(_, _, b) => comp_fits(*b, below),
            Comp::App(f, a) => comp_fits(*f, below) && value_fits(*a, below),
            Comp::Ret(a) => value_fits(*a, below),
            Comp::Bind(m, _, k) => comp_fits(*m, below) && comp_fits(*k, below),
            Comp::Force(a) => value_fits(*a, below),
            Comp::Case(a, l, r) => value_fits(*a, below) && comp_fits(*l.body, below) && comp_fits(
                *r.body,
                below,
            ),
            Comp::DataCase(a, arms) => value_fits(*a, below) && forall|i: int|
                0 <= i < arms@.len() ==> comp_fits(*(#[trigger] arms@[i]).body, below),
            Comp::ListCase { scrut, nil, cons, .. } => value_fits(*scrut, below) && comp_fits(*nil, below)
                && comp_fits(*cons, below),
            Comp::Split { scrut, body, .. } => value_fits(*scrut, below) && comp_fits(*body, below),
            Comp::RecordProj { record, .. } => value_fits(*record, below),
            Comp::With(a, b) => comp_fits(*a, below) && comp_fits(*b, below),
            Comp::Prj(_, a) => comp_fits(*a, below),
            Comp::Dup(a) => value_fits(*a, below),
            Comp::Drop(a) => value_fits(*a, below),
            Comp::Perform(_, _, a) => value_fits(*a, below),
            Comp::Handle { scrutinee, ret, ops, .. } => comp_fits(*scrutinee, below) && comp_fits(
                *ret.body,
                below,
            ) && forall|i: int| 0 <= i < ops@.len() ==> comp_fits(*(#[trigger] ops@[i]).body, below),
            Comp::Resume(a, b) => value_fits(*a, below) && comp_fits(*b, below),
            Comp::Reset(b) => comp_fits(*b, below),
            Comp::Shift(_, b) => comp_fits(*b, below),
            Comp::Hole(_) => true,
            Comp::Native { args, .. } => forall|i: int|
                0 <= i < args@.len() ==> value_fits(*#[trigger] args@[i], below),
            Comp::Walk { scrut, base, .. } => value_fits(*scrut, below) && comp_fits(*base.body, below),
        }
    }
}

/// [`value_fits`] for stacks.
pub open spec fn stack_fits(term: Stack, depth: nat) -> bool
    decreases depth, 0nat,
{
    depth > 0 && {
        let below = (depth - 1) as nat;
        match term {
            Stack::Empty => true,
            Stack::Arg(a, rest) => value_fits(*a, below) && stack_fits(*rest, below),
            Stack::Bind(_, b, rest) => comp_fits(*b, below) && stack_fits(*rest, below),
            Stack::Prj(_, rest) => stack_fits(*rest, below),
        }
    }
}

/// A value that lowers to a single node: it names no other term.
pub open spec fn leaf_value(term: Value) -> bool {
    match term {
        Value::Var(_) | Value::Unit | Value::Int(_) | Value::Str(_) | Value::Num(_) | Value::Hole(
            _,
        ) => true,
        _ => false,
    }
}

/// A literal or a hole: a value that evaluates to itself and names nothing.
pub open spec fn plain_value(term: Value) -> bool {
    term is Unit || term is Int || term is Str || term is Num || term is Hole
}

/// A computation that lowers to a single node: it names no other term.
pub open spec fn leaf_comp(term: Comp) -> bool {
    term is Hole
}

/// The handles a node names, in order.
pub open spec fn node_children(node: SyntaxNode) -> Seq<u32> {
    match node {
        SyntaxNode::Value(v) => value_children(v),
        SyntaxNode::Comp(c) => comp_children(c),
        SyntaxNode::Stack(s) => stack_children(s),
    }
}

/// Every handle in `ids` is below `bound`.
pub open spec fn all_below(ids: Seq<u32>, bound: int) -> bool {
    forall|j: int| 0 <= j < ids.len() ==> (#[trigger] ids[j]) < bound
}

/// The one-, two-, and three-handle cases of [`all_below`], unfolded.
pub proof fn lemma_small_below()
    ensures
        forall|a: u32, bound: int| #[trigger] all_below(ids1(a), bound) == (a < bound),
        forall|a: u32, b: u32, bound: int| #[trigger] all_below(ids2(a, b), bound) == (a < bound
            && b < bound),
        forall|a: u32, b: u32, c: u32, bound: int| #[trigger] all_below(ids3(a, b, c), bound)
            == (a < bound && b < bound && c < bound),
        forall|bound: int| #[trigger] all_below(Seq::<u32>::empty(), bound),
{
    assert forall|a: u32, bound: int| #[trigger] all_below(ids1(a), bound) == (a < bound) by {
        if a < bound {
            assert forall|j: int| 0 <= j < seq![a].len() implies (#[trigger] seq![a][j]) < bound by {
                assert(j == 0);
            }
        } else {
            assert(seq![a][0] == a);
        }
    }
    assert forall|a: u32, b: u32, bound: int| #[trigger] all_below(ids2(a, b), bound) == (a
        < bound && b < bound) by {
        let s = seq![a, b];
        if a < bound && b < bound {
            assert forall|j: int| 0 <= j < s.len() implies (#[trigger] s[j]) < bound by {
                assert(j == 0 || j == 1);
            }
        } else {
            assert(s[0] == a && s[1] == b);
        }
    }
    assert forall|a: u32, b: u32, c: u32, bound: int| #[trigger] all_below(ids3(a, b, c), bound)
        == (a < bound && b < bound && c < bound) by {
        let s = seq![a, b, c];
        if a < bound && b < bound && c < bound {
            assert forall|j: int| 0 <= j < s.len() implies (#[trigger] s[j]) < bound by {
                assert(j == 0 || j == 1 || j == 2);
            }
        } else {
            assert(s[0] == a && s[1] == b && s[2] == c);
        }
    }
}

/// Whether every value handle precedes `bound`.
fn values_below(ids: &Vec<ValueNodeId>, bound: usize) -> (b: bool)
    ensures
        b == all_below(ids@.map_values(|i: ValueNodeId| i.0), bound as int),
{
    let ghost mapped = ids@.map_values(|i: ValueNodeId| i.0);
    let mut index: usize = 0;
    while index < ids.len()
        invariant
            index <= ids@.len(),
            mapped == ids@.map_values(|i: ValueNodeId| i.0),
            forall|j: int| 0 <= j < index ==> mapped[j] < bound,
        decreases ids@.len() - index,
    {
        if ids[index].0 as usize >= bound {
            assert(mapped[index as int] >= bound);
            return false;
        }
        index = index + 1;
    }
    true
}

/// Whether every field value precedes `bound`.
fn fields_below(fields: &Vec<FieldNode>, bound: usize) -> (b: bool)
    ensures
        b == all_below(fields@.map_values(|f: FieldNode| f.value.0), bound as int),
{
    let ghost mapped = fields@.map_values(|f: FieldNode| f.value.0);
    let mut index: usize = 0;
    while index < fields.len()
        invariant
            index <= fields@.len(),
            mapped == fields@.map_values(|f: FieldNode| f.value.0),
            forall|j: int| 0 <= j < index ==> mapped[j] < bound,
        decreases fields@.len() - index,
    {
        if fields[index].value.0 as usize >= bound {
            assert(mapped[index as int] >= bound);
            return false;
        }
        index = index + 1;
    }
    true
}

/// Whether every branch body precedes `bound`.
fn branches_below(arms: &Vec<BranchNode>, bound: usize) -> (b: bool)
    ensures
        b == all_below(arms@.map_values(|a: BranchNode| a.body.0), bound as int),
{
    let ghost mapped = arms@.map_values(|a: BranchNode| a.body.0);
    let mut index: usize = 0;
    while index < arms.len()
        invariant
            index <= arms@.len(),
            mapped == arms@.map_values(|a: BranchNode| a.body.0),
            forall|j: int| 0 <= j < index ==> mapped[j] < bound,
        decreases arms@.len() - index,
    {
        if arms[index].body.0 as usize >= bound {
            assert(mapped[index as int] >= bound);
            return false;
        }
        index = index + 1;
    }
    true
}

/// Whether every clause body precedes `bound`.
fn clauses_below(ops: &Vec<ClauseNode>, bound: usize) -> (b: bool)
    ensures
        b == all_below(ops@.map_values(|c: ClauseNode| c.body.0), bound as int),
{
    let ghost mapped = ops@.map_values(|c: ClauseNode| c.body.0);
    let mut index: usize = 0;
    while index < ops.len()
        invariant
            index <= ops@.len(),
            mapped == ops@.map_values(|c: ClauseNode| c.body.0),
            forall|j: int| 0 <= j < index ==> mapped[j] < bound,
        decreases ops@.len() - index,
    {
        if ops[index].body.0 as usize >= bound {
            assert(mapped[index as int] >= bound);
            return false;
        }
        index = index + 1;
    }
    true
}

/// Whether a node's handles all precede `bound`.
pub fn children_below(node: &SyntaxNode, bound: usize) -> (b: bool)
    ensures
        b == all_below(node_children(*node), bound as int),
{
    let n = bound as u64;
    proof {
        lemma_small_below();
    }
    match node {
        SyntaxNode::Value(v) => match v {
            ValueNode::Pair(a, b) => (a.0 as u64) < n && (b.0 as u64) < n,
            ValueNode::Inj(_, a) => (a.0 as u64) < n,
            ValueNode::List(items) => values_below(items, bound),
            ValueNode::Record(fields) => fields_below(fields, bound),
            ValueNode::Thunk(_, c) => (c.0 as u64) < n,
            ValueNode::Annot(a, _) => (a.0 as u64) < n,
            ValueNode::Stk(s) => (s.0 as u64) < n,
            ValueNode::Here(a) => (a.0 as u64) < n,
            ValueNode::Ctor { payload, .. } => (payload.0 as u64) < n,
            _ => true,
        },
        SyntaxNode::Comp(c) => match c {
            CompNode::Abs(_, _, body) => (body.0 as u64) < n,
            CompNode::App(f, a) => (f.0 as u64) < n && (a.0 as u64) < n,
            CompNode::Ret(v) => (v.0 as u64) < n,
            CompNode::Bind(c, _, k) => (c.0 as u64) < n && (k.0 as u64) < n,
            CompNode::Force(v) => (v.0 as u64) < n,
            CompNode::Case(v, l, r) => (v.0 as u64) < n && (l.body.0 as u64) < n && (r.body.0
                as u64) < n,
            CompNode::DataCase(v, arms) => {
                let tail = branches_below(arms, bound);
                proof {
                    let ghost all = comp_children(*c);
                    let ghost rest = arms@.map_values(|a: BranchNode| a.body.0);
                    assert(all == ids1(v.0) + rest);
                    assert(all_below(all, bound as int) == ((v.0 as u64) < n && all_below(
                        rest,
                        bound as int,
                    ))) by {
                        if all_below(all, bound as int) {
                            assert forall|j: int| 0 <= j < rest.len() implies rest[j] < bound by {
                                assert(all[j + 1] == rest[j]);
                            }
                            assert(all[0] == v.0);
                        }
                        if (v.0 as u64) < n && all_below(rest, bound as int) {
                            assert forall|j: int| 0 <= j < all.len() implies all[j] < bound by {
                                if j > 0 {
                                    assert(all[j] == rest[j - 1]);
                                }
                            }
                        }
                    }
                }
                (v.0 as u64) < n && tail
            },
            CompNode::ListCase { scrut, nil, cons, .. } => (scrut.0 as u64) < n && (nil.0 as u64)
                < n && (cons.0 as u64) < n,
            CompNode::Split { scrut, body, .. } => (scrut.0 as u64) < n && (body.0 as u64) < n,
            CompNode::RecordProj { record, .. } => (record.0 as u64) < n,
            CompNode::With(a, b) => (a.0 as u64) < n && (b.0 as u64) < n,
            CompNode::Prj(_, c) => (c.0 as u64) < n,
            CompNode::Dup(v) => (v.0 as u64) < n,
            CompNode::Drop(v) => (v.0 as u64) < n,
            CompNode::Perform(_, _, v) => (v.0 as u64) < n,
            CompNode::Handle { scrutinee, ret, ops, .. } => {
                let tail = clauses_below(ops, bound);
                proof {
                    let ghost all = comp_children(*c);
                    let ghost rest = ops@.map_values(|c: ClauseNode| c.body.0);
                    assert(all == ids2(scrutinee.0, ret.body.0) + rest);
                    assert(all_below(all, bound as int) == ((scrutinee.0 as u64) < n && (
                    ret.body.0 as u64) < n && all_below(rest, bound as int))) by {
                        if all_below(all, bound as int) {
                            assert forall|j: int| 0 <= j < rest.len() implies rest[j] < bound by {
                                assert(all[j + 2] == rest[j]);
                            }
                            assert(all[0] == scrutinee.0);
                            assert(all[1] == ret.body.0);
                        }
                        if (scrutinee.0 as u64) < n && (ret.body.0 as u64) < n && all_below(
                            rest,
                            bound as int,
                        ) {
                            assert forall|j: int| 0 <= j < all.len() implies all[j] < bound by {
                                if j > 1 {
                                    assert(all[j] == rest[j - 2]);
                                }
                            }
                        }
                    }
                }
                (scrutinee.0 as u64) < n && (ret.body.0 as u64) < n && tail
            },
            CompNode::Resume(v, c) => (v.0 as u64) < n && (c.0 as u64) < n,
            CompNode::Reset(c) => (c.0 as u64) < n,
            CompNode::Shift(_, c) => (c.0 as u64) < n,
            CompNode::Hole(_) => true,
            CompNode::Native { args, .. } => values_below(args, bound),
            CompNode::Walk { scrut, base, .. } => (scrut.0 as u64) < n && (base.body.0 as u64) < n,
        },
        SyntaxNode::Stack(s) => match s {
            StackNode::Empty => true,
            StackNode::Arg(v, s) => (v.0 as u64) < n && (s.0 as u64) < n,
            StackNode::Bind(_, c, s) => (c.0 as u64) < n && (s.0 as u64) < n,
            StackNode::Prj(_, s) => (s.0 as u64) < n,
        },
    }
}

/// The syntax store.
#[derive(Clone, Debug)]
pub struct FlatArena {
    /// The nodes, in topological order: a node's handle is its position.
    nodes: Vec<SyntaxNode>,
}

impl FlatArena {
    /// Every node names only nodes minted before it.
    pub closed spec fn wf(self) -> bool {
        forall|i: int| 0 <= i < self.nodes@.len() ==> all_below(
            node_children(#[trigger] self.nodes@[i]),
            i,
        )
    }

    /// The nodes, in minting order.
    pub closed spec fn nodes(self) -> Seq<SyntaxNode> {
        self.nodes@
    }

    /// An empty store.
    pub fn new() -> (s: FlatArena)
        ensures
            s.wf(),
            s.nodes().len() == 0,
    {
        FlatArena { nodes: Vec::new() }
    }

    /// The number of nodes held.
    pub fn len(&self) -> (n: usize)
        ensures
            n == self.nodes().len(),
    {
        self.nodes.len()
    }

    /// Appends `node` when every handle it names precedes it, returning its
    /// handle; refuses it otherwise and leaves the store unchanged.
    pub fn push(&mut self, node: SyntaxNode) -> (r: Result<u32, StoreError>)
        ensures
            old(self).wf() ==> final(self).wf(),
            all_below(node_children(node), old(self).nodes().len() as int) && old(
                self,
            ).nodes().len() <= u32::MAX ==> r == Ok::<u32, StoreError>(
                old(self).nodes().len() as u32,
            ) && final(self).nodes() == old(self).nodes().push(node),
            !all_below(node_children(node), old(self).nodes().len() as int) ==> r == Err::<
                u32,
                StoreError,
            >(StoreError::DanglingChild) && final(self).nodes() == old(self).nodes(),
            all_below(node_children(node), old(self).nodes().len() as int) && old(
                self,
            ).nodes().len() > u32::MAX ==> r == Err::<u32, StoreError>(
                StoreError::IdSpaceExhausted,
            ) && final(self).nodes() == old(self).nodes(),
    {
        if !children_below(&node, self.nodes.len()) {
            return Err(StoreError::DanglingChild);
        }
        if self.nodes.len() > u32::MAX as usize {
            return Err(StoreError::IdSpaceExhausted);
        }
        let index = self.nodes.len() as u32;
        let ghost before = self.nodes@;
        self.nodes.push(node);
        proof {
            if old(self).wf() {
                assert forall|i: int| 0 <= i < self.nodes@.len() implies all_below(
                    node_children(#[trigger] self.nodes@[i]),
                    i,
                ) by {
                    if i < before.len() {
                        assert(self.nodes@[i] == before[i]);
                        assert(all_below(node_children(before[i]), i));
                    } else {
                        assert(self.nodes@[i] == node);
                    }
                }
            }
        }
        Ok(index)
    }

    /// Appends a value node; see [`Self::push`].
    pub fn push_value(&mut self, node: ValueNode) -> (r: Result<ValueNodeId, StoreError>)
        ensures
            old(self).wf() ==> final(self).wf(),
            r matches Ok(id) ==> id.0 == old(self).nodes().len() && final(self).nodes() == old(
                self,
            ).nodes().push(SyntaxNode::Value(node)) && all_below(value_children(node), id.0 as int),
            r is Err ==> final(self).nodes() == old(self).nodes(),
            r is Ok <==> all_below(value_children(node), old(self).nodes().len() as int) && old(
                self,
            ).nodes().len() <= u32::MAX,
            !all_below(value_children(node), old(self).nodes().len() as int) ==> r == Err::<
                ValueNodeId,
                StoreError,
            >(StoreError::DanglingChild),
            all_below(value_children(node), old(self).nodes().len() as int) && old(self).nodes().len()
                > u32::MAX ==> r == Err::<ValueNodeId, StoreError>(StoreError::IdSpaceExhausted),
    {
        let ghost wrapped = SyntaxNode::Value(node);
        let index = self.push(SyntaxNode::Value(node))?;
        Ok(ValueNodeId(index))
    }

    /// Appends a computation node; see [`Self::push`].
    pub fn push_comp(&mut self, node: CompNode) -> (r: Result<CompNodeId, StoreError>)
        ensures
            old(self).wf() ==> final(self).wf(),
            r matches Ok(id) ==> id.0 == old(self).nodes().len() && final(self).nodes() == old(
                self,
            ).nodes().push(SyntaxNode::Comp(node)) && all_below(comp_children(node), id.0 as int),
            r is Err ==> final(self).nodes() == old(self).nodes(),
            r is Ok <==> all_below(comp_children(node), old(self).nodes().len() as int) && old(
                self,
            ).nodes().len() <= u32::MAX,
            !all_below(comp_children(node), old(self).nodes().len() as int) ==> r == Err::<
                CompNodeId,
                StoreError,
            >(StoreError::DanglingChild),
            all_below(comp_children(node), old(self).nodes().len() as int) && old(self).nodes().len()
                > u32::MAX ==> r == Err::<CompNodeId, StoreError>(StoreError::IdSpaceExhausted),
    {
        let index = self.push(SyntaxNode::Comp(node))?;
        Ok(CompNodeId(index))
    }

    /// Appends a stack node; see [`Self::push`].
    pub fn push_stack(&mut self, node: StackNode) -> (r: Result<StackNodeId, StoreError>)
        ensures
            old(self).wf() ==> final(self).wf(),
            r matches Ok(id) ==> id.0 == old(self).nodes().len() && final(self).nodes() == old(
                self,
            ).nodes().push(SyntaxNode::Stack(node)),
            r is Err ==> final(self).nodes() == old(self).nodes(),
            r is Ok <==> all_below(stack_children(node), old(self).nodes().len() as int) && old(
                self,
            ).nodes().len() <= u32::MAX,
            !all_below(stack_children(node), old(self).nodes().len() as int) ==> r == Err::<
                StackNodeId,
                StoreError,
            >(StoreError::DanglingChild),
            all_below(stack_children(node), old(self).nodes().len() as int) && old(self).nodes().len()
                > u32::MAX ==> r == Err::<StackNodeId, StoreError>(StoreError::IdSpaceExhausted),
    {
        let index = self.push(SyntaxNode::Stack(node))?;
        Ok(StackNodeId(index))
    }

    /// Lowers a caller's value into the store, children first, returning the
    /// handle of its root; `depth` bounds how deep the term may nest. The
    /// root spells `term`, and every node already stored stays where it was.
    #[verifier::rlimit(40)]
    fn lower_value(&mut self, term: &Value, depth: u32) -> (r: Result<ValueNodeId, StoreError>)
        ensures
            old(self).wf() ==> final(self).wf(),
            extends(final(self).nodes(), old(self).nodes()),
            r matches Ok(id) ==> spells_value(final(self).nodes(), id.0, *term),
            depth == 0 ==> r == Err::<ValueNodeId, StoreError>(StoreError::TooDeep),
            r is Ok ==> value_fits(*term, depth as nat),
            value_fits(*term, depth as nat) ==> r != Err::<ValueNodeId, StoreError>(StoreError::TooDeep),
            r matches Err(e) ==> e == StoreError::TooDeep || e == StoreError::IdSpaceExhausted,
            r matches Err(e) ==> (e == StoreError::IdSpaceExhausted ==> final(self).nodes().len()
                > u32::MAX),
            depth > 0 && leaf_value(*term) ==> (r is Ok <==> old(self).nodes().len() <= u32::MAX),
            depth > 0 && leaf_value(*term) && r is Ok ==> final(self).nodes().len() == old(
                self,
            ).nodes().len() + 1,
            inert_value(*term, depth as nat) ==> final(self).nodes().len() <= old(self).nodes().len()
                + value_size(*term, depth as nat),
        decreases depth, 0nat,
    {
        if depth == 0 {
            return Err(StoreError::TooDeep);
        }
        let below = depth - 1;
        let node = match term {
            Value::Var(name) => ValueNode::Var(name.clone()),
            Value::Unit => ValueNode::Unit,
            Value::Int(literal) => ValueNode::Int(*literal),
            Value::Str(literal) => ValueNode::Str(literal.clone()),
            Value::Num(literal) => ValueNode::Num(*literal),
            Value::Pair(fst, snd) => {
                let ghost start = self.nodes();
                let a = self.lower_value(fst, below)?;
                let ghost mid = self.nodes();
                let b = self.lower_value(snd, below)?;
                proof {
                    lemma_value_spelling_kept(mid, self.nodes(), a.0, referent(fst));
                }
                ValueNode::Pair(a, b)
            },
            Value::Inj(side, payload) => ValueNode::Inj(*side, self.lower_value(payload, below)?),
            Value::List(items) => {
                let mut ids: Vec<ValueNodeId> = Vec::new();
                let mut index: usize = 0;
                proof {
                    assert(items@.subrange(0, 0).len() == 0);
                }
                let ghost start = self.nodes();
                while index < items.len()
                    invariant
                        index <= items@.len(),
                        start == old(self).nodes(),
                        inert_value(*term, depth as nat) ==> self.nodes().len() <= start.len()
                            + values_size(items@.take(index as int), below as nat),
                        inert_value(*term, depth as nat) ==> forall|i: int|
                            0 <= i < items@.len() ==> inert_value(*#[trigger] items@[i], below as nat),
                        inert_value(*term, depth as nat) ==> value_size(*term, depth as nat) == 1
                            + values_size(items@, below as nat),
                        below < depth,
                        !leaf_value(*term),
                        old(self).wf() ==> self.wf(),
                        extends(self.nodes(), old(self).nodes()),
                        spells_values(
                            self.nodes(),
                            self.nodes().len() as int,
                            ids@,
                            items@.subrange(0, index as int),
                        ),
                        value_fits(*term, depth as nat) ==> forall|i: int|
                            0 <= i < items@.len() ==> value_fits(*#[trigger] items@[i], below as nat),
                        forall|j: int| 0 <= j < index ==> value_fits(*#[trigger] items@[j], below as nat),
                    decreases items@.len() - index,
                {
                    let ghost prev = self.nodes();
                    let ghost done = ids@;
                    proof {
                        lemma_values_size_take(items@, below as nat, index as int);
                    }
                    proof {
                        if inert_value(*term, depth as nat) {
                            assert(inert_value(*items@[index as int], below as nat));
                        }
                    }
                    let id = self.lower_value(&items[index], below)?;
                    proof {
                        lemma_values_spelling_kept(
                            prev,
                            self.nodes(),
                            prev.len() as int,
                            self.nodes().len() as int,
                            done,
                            items@.subrange(0, index as int),
                        );
                    }
                    ids.push(id);
                    proof {
                        let grown = items@.subrange(0, index + 1);
                        assert(grown.drop_last() =~= items@.subrange(0, index as int));
                        assert(ids@.drop_last() =~= done);
                    }
                    index = index + 1;
                }
                proof {
                    assert(items@.subrange(0, items@.len() as int) =~= items@);
                    assert(items@.take(items@.len() as int) =~= items@);
                }
                ValueNode::List(ids)
            },
            Value::Record(fields) => {
                let mut lowered: Vec<FieldNode> = Vec::new();
                let mut index: usize = 0;
                proof {
                    assert(fields@.subrange(0, 0).len() == 0);
                }
                let ghost start = self.nodes();
                while index < fields.len()
                    invariant
                        index <= fields@.len(),
                        start == old(self).nodes(),
                        inert_value(*term, depth as nat) ==> self.nodes().len() <= start.len()
                            + fields_size(fields@.take(index as int), below as nat),
                        inert_value(*term, depth as nat) ==> forall|i: int|
                            0 <= i < fields@.len() ==> inert_value(*(#[trigger] fields@[i]).value, below as nat),
                        inert_value(*term, depth as nat) ==> value_size(*term, depth as nat) == 1
                            + fields_size(fields@, below as nat),
                        below < depth,
                        !leaf_value(*term),
                        old(self).wf() ==> self.wf(),
                        extends(self.nodes(), old(self).nodes()),
                        spells_fields(
                            self.nodes(),
                            self.nodes().len() as int,
                            lowered@,
                            fields@.subrange(0, index as int),
                        ),
                        value_fits(*term, depth as nat) ==> forall|i: int|
                            0 <= i < fields@.len() ==> value_fits(*(#[trigger] fields@[i]).value, below as nat),
                        forall|j: int| 0 <= j < index ==> value_fits(*(#[trigger] fields@[j]).value, below as nat),
                    decreases fields@.len() - index,
                {
                    let ghost prev = self.nodes();
                    let ghost done = lowered@;
                    proof {
                        lemma_fields_size_take(fields@, below as nat, index as int);
                    }
                    proof {
                        if inert_value(*term, depth as nat) {
                            assert(inert_value(*fields@[index as int].value, below as nat));
                        }
                    }
                    let id = self.lower_value(&fields[index].value, below)?;
                    proof {
                        lemma_fields_spelling_kept(
                            prev,
                            self.nodes(),
                            prev.len() as int,
                            self.nodes().len() as int,
                            done,
                            fields@.subrange(0, index as int),
                        );
                    }
                    lowered.push(FieldNode { label: fields[index].label.clone(), value: id });
                    proof {
                        let grown = fields@.subrange(0, index + 1);
                        assert(grown.drop_last() =~= fields@.subrange(0, index as int));
                        assert(lowered@.drop_last() =~= done);
                    }
                    index = index + 1;
                }
                proof {
                    assert(fields@.subrange(0, fields@.len() as int) =~= fields@);
                    assert(fields@.take(fields@.len() as int) =~= fields@);
                }
                ValueNode::Record(lowered)
            },
            Value::Thunk(grade, body) => ValueNode::Thunk(*grade, self.lower_comp(body, below)?),
            Value::Annot(inner, ty) => ValueNode::Annot(self.lower_value(inner, below)?, share(ty)),
            Value::Hole(hole) => ValueNode::Hole(*hole),
            Value::Stk(stack) => ValueNode::Stk(self.lower_stack(stack, below)?),
            Value::Here(witness) => ValueNode::Here(self.lower_value(witness, below)?),
            Value::Ctor { id, tag, payload } => ValueNode::Ctor {
                id: DataId { serial: id.serial, name: id.name.clone() },
                tag: *tag,
                payload: self.lower_value(payload, below)?,
            },
        };
        let ghost before = self.nodes();
        let ghost stored = node;
        proof {
            assert(value_node_spells(before, stored, before.len() as int, *term));
            lemma_spelled_value_children_below(before, stored, *term);
        }
        let r = self.push_value(node);
        proof {
            if r is Ok {
                lemma_push_extends(before, SyntaxNode::Value(stored));
                lemma_value_node_spelling_kept(
                    before,
                    self.nodes(),
                    stored,
                    before.len() as int,
                    before.len() as int,
                    *term,
                );
            }
        }
        r
    }

    /// Lowers a binder and its body.
    fn lower_branch(&mut self, branch: &Branch, depth: u32) -> (r: Result<BranchNode, StoreError>)
        ensures
            old(self).wf() ==> final(self).wf(),
            extends(final(self).nodes(), old(self).nodes()),
            r matches Ok(node) ==> spells_branch(
                final(self).nodes(),
                final(self).nodes().len() as int,
                node,
                *branch,
            ),
            depth == 0 ==> r is Err,
            r is Ok ==> comp_fits(*branch.body, depth as nat),
            comp_fits(*branch.body, depth as nat) ==> r != Err::<BranchNode, StoreError>(StoreError::TooDeep),
            r matches Err(e) ==> e == StoreError::TooDeep || e == StoreError::IdSpaceExhausted,
            r matches Err(e) ==> (e == StoreError::IdSpaceExhausted ==> final(self).nodes().len()
                > u32::MAX),
            depth > 0 && leaf_comp(*branch.body) ==> (r is Ok <==> old(self).nodes().len()
                <= u32::MAX),
            r matches Ok(node) ==> node.binder@ == branch.binder@,
        decreases depth, 1nat,
    {
        let body = self.lower_comp(&branch.body, depth)?;
        Ok(BranchNode { binder: branch.binder.clone(), body })
    }

    /// Lowers a caller's computation into the store; see [`Self::lower_value`].
    #[verifier::rlimit(80)]
    fn lower_comp(&mut self, term: &Comp, depth: u32) -> (r: Result<CompNodeId, StoreError>)
        ensures
            old(self).wf() ==> final(self).wf(),
            extends(final(self).nodes(), old(self).nodes()),
            r matches Ok(id) ==> spells_comp(final(self).nodes(), id.0, *term),
            depth == 0 ==> r == Err::<CompNodeId, StoreError>(StoreError::TooDeep),
            r is Ok ==> comp_fits(*term, depth as nat),
            comp_fits(*term, depth as nat) ==> r != Err::<CompNodeId, StoreError>(StoreError::TooDeep),
            r matches Err(e) ==> e == StoreError::TooDeep || e == StoreError::IdSpaceExhausted,
            r matches Err(e) ==> (e == StoreError::IdSpaceExhausted ==> final(self).nodes().len()
                > u32::MAX),
            depth > 0 && leaf_comp(*term) ==> (r is Ok <==> old(self).nodes().len() <= u32::MAX),
            depth > 0 && leaf_comp(*term) && r is Ok ==> final(self).nodes().len() == old(
                self,
            ).nodes().len() + 1,
        decreases depth, 0nat,
    {
        if depth == 0 {
            return Err(StoreError::TooDeep);
        }
        let below = depth - 1;
        let node = match term {
            Comp::Abs(binder, ann, body) => {
                let ann = match ann {
                    Some(ty) => Some(share(ty)),
                    None => None,
                };
                CompNode::Abs(binder.clone(), ann, self.lower_comp(body, below)?)
            },
            Comp::App(head, arg) => {
                let head_id = self.lower_comp(head, below)?;
                let ghost mid = self.nodes();
                let arg_id = self.lower_value(arg, below)?;
                proof {
                    lemma_comp_spelling_kept(mid, self.nodes(), head_id.0, referent(head));
                }
                CompNode::App(head_id, arg_id)
            },
            Comp::Ret(value) => CompNode::Ret(self.lower_value(value, below)?),
            Comp::Bind(bound, binder, cont) => {
                let bound_id = self.lower_comp(bound, below)?;
                let ghost mid = self.nodes();
                let cont_id = self.lower_comp(cont, below)?;
                proof {
                    lemma_comp_spelling_kept(mid, self.nodes(), bound_id.0, referent(bound));
                }
                CompNode::Bind(bound_id, binder.clone(), cont_id)
            },
            Comp::Force(value) => CompNode::Force(self.lower_value(value, below)?),
            Comp::Case(scrut, left, right) => {
                let scrut_id = self.lower_value(scrut, below)?;
                let ghost first = self.nodes();
                let left_node = self.lower_branch(left, below)?;
                let ghost second = self.nodes();
                let right_node = self.lower_branch(right, below)?;
                proof {
                    lemma_value_spelling_kept(first, self.nodes(), scrut_id.0, referent(scrut));
                    lemma_branch_spelling_kept(
                        second,
                        self.nodes(),
                        second.len() as int,
                        self.nodes().len() as int,
                        left_node,
                        *left,
                    );
                }
                CompNode::Case(scrut_id, left_node, right_node)
            },
            Comp::DataCase(scrut, arms) => {
                let scrut_id = self.lower_value(scrut, below)?;
                let mut lowered: Vec<BranchNode> = Vec::new();
                let mut index: usize = 0;
                proof {
                    assert(arms@.subrange(0, 0).len() == 0);
                }
                while index < arms.len()
                    invariant
                        index <= arms@.len(),
                        below < depth,
                        !leaf_comp(*term),
                        old(self).wf() ==> self.wf(),
                        extends(self.nodes(), old(self).nodes()),
                        spells_value(self.nodes(), scrut_id.0, referent(scrut)),
                        spells_branches(
                            self.nodes(),
                            self.nodes().len() as int,
                            lowered@,
                            arms@.subrange(0, index as int),
                        ),
                        comp_fits(*term, depth as nat) ==> forall|i: int|
                            0 <= i < arms@.len() ==> comp_fits(*(#[trigger] arms@[i]).body, below as nat),
                        forall|j: int| 0 <= j < index ==> comp_fits(*(#[trigger] arms@[j]).body, below as nat),
                    decreases arms@.len() - index,
                {
                    let ghost prev = self.nodes();
                    let ghost done = lowered@;
                    let arm = self.lower_branch(&arms[index], below)?;
                    proof {
                        lemma_branches_spelling_kept(
                            prev,
                            self.nodes(),
                            prev.len() as int,
                            self.nodes().len() as int,
                            done,
                            arms@.subrange(0, index as int),
                        );
                        lemma_value_spelling_kept(prev, self.nodes(), scrut_id.0, referent(scrut));
                    }
                    lowered.push(arm);
                    proof {
                        let grown = arms@.subrange(0, index + 1);
                        assert(grown.drop_last() =~= arms@.subrange(0, index as int));
                        assert(lowered@.drop_last() =~= done);
                    }
                    index = index + 1;
                }
                proof {
                    assert(arms@.subrange(0, arms@.len() as int) =~= arms@);
                }
                CompNode::DataCase(scrut_id, lowered)
            },
            Comp::ListCase { scrut, nil, head, tail, cons } => {
                let scrut_id = self.lower_value(scrut, below)?;
                let ghost first = self.nodes();
                let nil_id = self.lower_comp(nil, below)?;
                let ghost second = self.nodes();
                let cons_id = self.lower_comp(cons, below)?;
                proof {
                    lemma_value_spelling_kept(first, self.nodes(), scrut_id.0, referent(scrut));
                    lemma_comp_spelling_kept(second, self.nodes(), nil_id.0, referent(nil));
                }
                CompNode::ListCase {
                    scrut: scrut_id,
                    nil: nil_id,
                    head: head.clone(),
                    tail: tail.clone(),
                    cons: cons_id,
                }
            },
            Comp::Split { scrut, fst_name, snd_name, motive, body } => {
                let scrut_id = self.lower_value(scrut, below)?;
                let ghost first = self.nodes();
                let body_id = self.lower_comp(body, below)?;
                proof {
                    lemma_value_spelling_kept(first, self.nodes(), scrut_id.0, referent(scrut));
                }
                let motive = match motive {
                    Some(m) => Some(share(m)),
                    None => None,
                };
                CompNode::Split {
                    scrut: scrut_id,
                    fst_name: fst_name.clone(),
                    snd_name: snd_name.clone(),
                    motive,
                    body: body_id,
                }
            },
            Comp::RecordProj { record, label } => CompNode::RecordProj {
                record: self.lower_value(record, below)?,
                label: label.clone(),
            },
            Comp::With(fst, snd) => {
                let a = self.lower_comp(fst, below)?;
                let ghost mid = self.nodes();
                let b = self.lower_comp(snd, below)?;
                proof {
                    lemma_comp_spelling_kept(mid, self.nodes(), a.0, referent(fst));
                }
                CompNode::With(a, b)
            },
            Comp::Prj(side, body) => CompNode::Prj(*side, self.lower_comp(body, below)?),
            Comp::Dup(value) => CompNode::Dup(self.lower_value(value, below)?),
            Comp::Drop(value) => CompNode::Drop(self.lower_value(value, below)?),
            Comp::Perform(sig, op, payload) => CompNode::Perform(
                share(sig),
                op.clone(),
                self.lower_value(payload, below)?,
            ),
            Comp::Handle { sig, scrutinee, ret, ops } => {
                let scrutinee_id = self.lower_comp(scrutinee, below)?;
                let ghost first = self.nodes();
                let ret_node = self.lower_branch(ret, below)?;
                proof {
                    lemma_comp_spelling_kept(first, self.nodes(), scrutinee_id.0, referent(scrutinee));
                }
                let mut clauses: Vec<ClauseNode> = Vec::new();
                let mut index: usize = 0;
                proof {
                    assert(ops@.subrange(0, 0).len() == 0);
                }
                while index < ops.len()
                    invariant
                        index <= ops@.len(),
                        below < depth,
                        !leaf_comp(*term),
                        old(self).wf() ==> self.wf(),
                        extends(self.nodes(), old(self).nodes()),
                        spells_comp(self.nodes(), scrutinee_id.0, referent(scrutinee)),
                        spells_branch(self.nodes(), self.nodes().len() as int, ret_node, *ret),
                        spells_clauses(
                            self.nodes(),
                            self.nodes().len() as int,
                            clauses@,
                            ops@.subrange(0, index as int),
                        ),
                        comp_fits(*term, depth as nat) ==> forall|i: int|
                            0 <= i < ops@.len() ==> comp_fits(*(#[trigger] ops@[i]).body, below as nat),
                        forall|j: int| 0 <= j < index ==> comp_fits(*(#[trigger] ops@[j]).body, below as nat),
                    decreases ops@.len() - index,
                {
                    let ghost prev = self.nodes();
                    let ghost done = clauses@;
                    let clause = &ops[index];
                    let body = self.lower_comp(&clause.body, below)?;
                    proof {
                        lemma_clauses_spelling_kept(
                            prev,
                            self.nodes(),
                            prev.len() as int,
                            self.nodes().len() as int,
                            done,
                            ops@.subrange(0, index as int),
                        );
                        lemma_comp_spelling_kept(prev, self.nodes(), scrutinee_id.0, referent(scrutinee));
                        lemma_branch_spelling_kept(
                            prev,
                            self.nodes(),
                            prev.len() as int,
                            self.nodes().len() as int,
                            ret_node,
                            *ret,
                        );
                    }
                    clauses.push(
                        ClauseNode {
                            op: clause.op.clone(),
                            payload: clause.payload.clone(),
                            resume: clause.resume.clone(),
                            body,
                        },
                    );
                    proof {
                        let grown = ops@.subrange(0, index + 1);
                        assert(grown.drop_last() =~= ops@.subrange(0, index as int));
                        assert(clauses@.drop_last() =~= done);
                    }
                    index = index + 1;
                }
                proof {
                    assert(ops@.subrange(0, ops@.len() as int) =~= ops@);
                }
                CompNode::Handle { sig: share(sig), scrutinee: scrutinee_id, ret: ret_node, ops: clauses }
            },
            Comp::Resume(value, body) => {
                let value_id = self.lower_value(value, below)?;
                let ghost mid = self.nodes();
                let body_id = self.lower_comp(body, below)?;
                proof {
                    lemma_value_spelling_kept(mid, self.nodes(), value_id.0, referent(value));
                }
                CompNode::Resume(value_id, body_id)
            },
            Comp::Reset(body) => CompNode::Reset(self.lower_comp(body, below)?),
            Comp::Shift(binder, body) => CompNode::Shift(binder.clone(), self.lower_comp(body, below)?),
            Comp::Hole(hole) => CompNode::Hole(*hole),
            Comp::Native { prim, args } => {
                let mut ids: Vec<ValueNodeId> = Vec::new();
                let mut index: usize = 0;
                proof {
                    assert(args@.subrange(0, 0).len() == 0);
                }
                while index < args.len()
                    invariant
                        index <= args@.len(),
                        below < depth,
                        !leaf_comp(*term),
                        old(self).wf() ==> self.wf(),
                        extends(self.nodes(), old(self).nodes()),
                        spells_values(
                            self.nodes(),
                            self.nodes().len() as int,
                            ids@,
                            args@.subrange(0, index as int),
                        ),
                        comp_fits(*term, depth as nat) ==> forall|i: int|
                            0 <= i < args@.len() ==> value_fits(*#[trigger] args@[i], below as nat),
                        forall|j: int| 0 <= j < index ==> value_fits(*#[trigger] args@[j], below as nat),
                    decreases args@.len() - index,
                {
                    let ghost prev = self.nodes();
                    let ghost done = ids@;
                    let id = self.lower_value(&args[index], below)?;
                    proof {
                        lemma_values_spelling_kept(
                            prev,
                            self.nodes(),
                            prev.len() as int,
                            self.nodes().len() as int,
                            done,
                            args@.subrange(0, index as int),
                        );
                    }
                    ids.push(id);
                    proof {
                        let grown = args@.subrange(0, index + 1);
                        assert(grown.drop_last() =~= args@.subrange(0, index as int));
                        assert(ids@.drop_last() =~= done);
                    }
                    index = index + 1;
                }
                proof {
                    assert(args@.subrange(0, args@.len() as int) =~= args@);
                }
                CompNode::Native { prim: *prim, args: ids }
            },
            Comp::Walk { scrut, motive, base } => {
                let scrut_id = self.lower_value(scrut, below)?;
                let ghost first = self.nodes();
                let body = self.lower_comp(&base.body, below)?;
                proof {
                    lemma_value_spelling_kept(first, self.nodes(), scrut_id.0, referent(scrut));
                }
                CompNode::Walk {
                    scrut: scrut_id,
                    motive: share(motive),
                    base: BranchNode { binder: base.x.clone(), body },
                }
            },
        };
        let ghost before = self.nodes();
        let ghost stored = node;
        proof {
            assert(comp_node_spells(before, stored, before.len() as int, *term));
            lemma_spelled_comp_children_below(before, stored, *term);
        }
        let r = self.push_comp(node);
        proof {
            if r is Ok {
                lemma_push_extends(before, SyntaxNode::Comp(stored));
                lemma_comp_node_spelling_kept(
                    before,
                    self.nodes(),
                    stored,
                    before.len() as int,
                    before.len() as int,
                    *term,
                );
            }
        }
        r
    }

    /// Lowers a caller's stack into the store; see [`Self::lower_value`].
    fn lower_stack(&mut self, term: &Stack, depth: u32) -> (r: Result<StackNodeId, StoreError>)
        ensures
            old(self).wf() ==> final(self).wf(),
            extends(final(self).nodes(), old(self).nodes()),
            r matches Ok(id) ==> spells_stack(final(self).nodes(), id.0, *term),
            depth == 0 ==> r == Err::<StackNodeId, StoreError>(StoreError::TooDeep),
            r is Ok ==> stack_fits(*term, depth as nat),
            stack_fits(*term, depth as nat) ==> r != Err::<StackNodeId, StoreError>(StoreError::TooDeep),
            r matches Err(e) ==> e == StoreError::TooDeep || e == StoreError::IdSpaceExhausted,
            r matches Err(e) ==> (e == StoreError::IdSpaceExhausted ==> final(self).nodes().len()
                > u32::MAX),
            depth > 0 && *term is Empty ==> (r is Ok <==> old(self).nodes().len() <= u32::MAX),
            depth > 0 && *term is Empty && r is Ok ==> final(self).nodes().len() == old(
                self,
            ).nodes().len() + 1,
        decreases depth, 0nat,
    {
        if depth == 0 {
            return Err(StoreError::TooDeep);
        }
        let below = depth - 1;
        let node = match term {
            Stack::Empty => StackNode::Empty,
            Stack::Arg(arg, rest) => {
                let arg_id = self.lower_value(arg, below)?;
                let ghost mid = self.nodes();
                let rest_id = self.lower_stack(rest, below)?;
                proof {
                    lemma_value_spelling_kept(mid, self.nodes(), arg_id.0, referent(arg));
                }
                StackNode::Arg(arg_id, rest_id)
            },
            Stack::Bind(binder, body, rest) => {
                let body_id = self.lower_comp(body, below)?;
                let ghost mid = self.nodes();
                let rest_id = self.lower_stack(rest, below)?;
                proof {
                    lemma_comp_spelling_kept(mid, self.nodes(), body_id.0, referent(body));
                }
                StackNode::Bind(binder.clone(), body_id, rest_id)
            },
            Stack::Prj(side, rest) => StackNode::Prj(*side, self.lower_stack(rest, below)?),
        };
        let ghost before = self.nodes();
        let ghost stored = node;
        proof {
            assert(stack_node_spells(before, stored, before.len() as int, *term));
            lemma_spelled_stack_children_below(before, stored, *term);
        }
        let r = self.push_stack(node);
        proof {
            if r is Ok {
                lemma_push_extends(before, SyntaxNode::Stack(stored));
                lemma_stack_node_spelling_kept(
                    before,
                    self.nodes(),
                    stored,
                    before.len() as int,
                    before.len() as int,
                    *term,
                );
            }
        }
        r
    }

    /// Lowers a caller's value into the store and returns its root handle.
    pub fn alloc_value(&mut self, term: &Value) -> (r: Result<ValueNodeId, StoreError>)
        ensures
            old(self).wf() ==> final(self).wf(),
            final(self).nodes().len() >= old(self).nodes().len(),
            extends(final(self).nodes(), old(self).nodes()),
            r matches Ok(id) ==> spells_value(final(self).nodes(), id.0, *term),
            r matches Err(e) ==> e == StoreError::TooDeep || e == StoreError::IdSpaceExhausted,
            r matches Err(e) ==> (e == StoreError::IdSpaceExhausted ==> final(self).nodes().len()
                > u32::MAX),
            r is Ok ==> value_fits(*term, NESTING_LIMIT as nat),
            value_fits(*term, NESTING_LIMIT as nat) ==> r matches Ok(_) || r matches Err(StoreError::IdSpaceExhausted),
            leaf_value(*term) ==> (r is Ok <==> old(self).nodes().len() <= u32::MAX),
            leaf_value(*term) && r is Ok ==> final(self).nodes().len() == old(self).nodes().len() + 1,
            inert_value(*term, NESTING_LIMIT as nat) ==> final(self).nodes().len() <= old(self).nodes().len()
                + value_size(*term, NESTING_LIMIT as nat),
    {
        self.lower_value(term, NESTING_LIMIT)
    }

    /// Lowers a caller's computation into the store and returns its root
    /// handle.
    pub fn alloc_comp(&mut self, term: &Comp) -> (r: Result<CompNodeId, StoreError>)
        ensures
            old(self).wf() ==> final(self).wf(),
            final(self).nodes().len() >= old(self).nodes().len(),
            extends(final(self).nodes(), old(self).nodes()),
            r matches Ok(id) ==> spells_comp(final(self).nodes(), id.0, *term),
            r matches Err(e) ==> e == StoreError::TooDeep || e == StoreError::IdSpaceExhausted,
            r matches Err(e) ==> (e == StoreError::IdSpaceExhausted ==> final(self).nodes().len()
                > u32::MAX),
            r is Ok ==> comp_fits(*term, NESTING_LIMIT as nat),
            comp_fits(*term, NESTING_LIMIT as nat) ==> r matches Ok(_) || r matches Err(StoreError::IdSpaceExhausted),
            leaf_comp(*term) ==> (r is Ok <==> old(self).nodes().len() <= u32::MAX),
            leaf_comp(*term) && r is Ok ==> final(self).nodes().len() == old(self).nodes().len() + 1,
    {
        self.lower_comp(term, NESTING_LIMIT)
    }

    /// The value node at `index` names only earlier nodes.
    pub proof fn lemma_value_children_below(&self, id: ValueNodeId, node: ValueNode)
        requires
            self.wf(),
            id.0 < self.nodes().len(),
            self.nodes()[id.0 as int] == SyntaxNode::Value(node),
        ensures
            all_below(value_children(node), id.0 as int),
    {
        assert(all_below(node_children(self.nodes@[id.0 as int]), id.0 as int));
    }

    /// The computation node at `index` names only earlier nodes.
    pub proof fn lemma_comp_children_below(&self, id: CompNodeId, node: CompNode)
        requires
            self.wf(),
            id.0 < self.nodes().len(),
            self.nodes()[id.0 as int] == SyntaxNode::Comp(node),
        ensures
            all_below(comp_children(node), id.0 as int),
    {
        assert(all_below(node_children(self.nodes@[id.0 as int]), id.0 as int));
    }

    /// The stack node at `index` names only earlier nodes.
    pub proof fn lemma_stack_children_below(&self, id: StackNodeId, node: StackNode)
        requires
            self.wf(),
            id.0 < self.nodes().len(),
            self.nodes()[id.0 as int] == SyntaxNode::Stack(node),
        ensures
            all_below(stack_children(node), id.0 as int),
    {
        assert(all_below(node_children(self.nodes@[id.0 as int]), id.0 as int));
    }

    /// Reads the value a handle names back out as an ordinary term.
    pub fn value(&self, id: ValueNodeId) -> (r: Result<Value, StoreError>)
        requires
            self.wf(),
        ensures
            r matches Ok(v) ==> spells_value(self.nodes(), id.0, v),
            r is Err ==> forall|v: Value| !spells_value(self.nodes(), id.0, v),
        decreases id.0, 1nat,
    {
        let node = self.value_node(id)?;
        proof {
            self.lemma_value_children_below(id, *node);
            lemma_small_below();
            assert forall|v: Value| #[trigger] spells_value(self.nodes(), id.0, v) implies value_children_spelled(
                self.nodes(),
                *node,
                id.0 as int,
                v,
            ) by {
                lemma_value_children_spelled(self.nodes(), *node, id.0 as int, v);
            }
        }
        let term = match node {
            ValueNode::Var(name) => Value::Var(name.clone()),
            ValueNode::Unit => Value::Unit,
            ValueNode::Int(literal) => Value::Int(*literal),
            ValueNode::Str(literal) => Value::Str(literal.clone()),
            ValueNode::Num(literal) => Value::Num(*literal),
            ValueNode::Pair(fst, snd) => Value::Pair(
                Rc::new(self.value(*fst)?),
                Rc::new(self.value(*snd)?),
            ),
            ValueNode::Inj(side, payload) => Value::Inj(*side, Rc::new(self.value(*payload)?)),
            ValueNode::List(items) => {
                let ghost mapped = items@.map_values(|i: ValueNodeId| i.0);
                let mut out: Vec<Rc<Value>> = Vec::new();
                let mut index: usize = 0;
                proof {
                    assert(items@.subrange(0, 0).len() == 0);
                }
                while index < items.len()
                    invariant
                        index <= items@.len(),
                        self.wf(),
                        mapped == items@.map_values(|i: ValueNodeId| i.0),
                        all_below(mapped, id.0 as int),
                        spells_values(self.nodes(), id.0 as int, items@.subrange(0, index as int), out@),
                        *node == ValueNode::List(*items),
                        forall|v: Value| #[trigger] spells_value(self.nodes(), id.0, v) ==> value_children_spelled(
                            self.nodes(),
                            *node,
                            id.0 as int,
                            v,
                        ),
                    decreases items@.len() - index,
                {
                    assert(mapped[index as int] == items@[index as int].0);
                    let ghost done = out@;
                    let element = match self.value(items[index]) {
                        Ok(element) => element,
                        Err(e) => {
                            proof {
                                assert forall|v: Value| !spells_value(self.nodes(), id.0, v) by {
                                    if spells_value(self.nodes(), id.0, v) {
                                        lemma_values_element(
                                            self.nodes(),
                                            id.0 as int,
                                            items@,
                                            v->List_0@,
                                            index as int,
                                        );
                                    }
                                }
                            }
                            return Err(e);
                        },
                    };
                    out.push(Rc::new(element));
                    proof {
                        let grown = items@.subrange(0, index + 1);
                        assert(grown.drop_last() =~= items@.subrange(0, index as int));
                        assert(out@.drop_last() =~= done);
                    }
                    index = index + 1;
                }
                proof {
                    assert(items@.subrange(0, items@.len() as int) =~= items@);
                }
                Value::List(out)
            },
            ValueNode::Record(fields) => {
                let ghost mapped = fields@.map_values(|f: FieldNode| f.value.0);
                let mut out: Vec<FieldValue> = Vec::new();
                let mut index: usize = 0;
                proof {
                    assert(fields@.subrange(0, 0).len() == 0);
                }
                while index < fields.len()
                    invariant
                        index <= fields@.len(),
                        self.wf(),
                        mapped == fields@.map_values(|f: FieldNode| f.value.0),
                        all_below(mapped, id.0 as int),
                        spells_fields(self.nodes(), id.0 as int, fields@.subrange(0, index as int), out@),
                        *node == ValueNode::Record(*fields),
                        forall|v: Value| #[trigger] spells_value(self.nodes(), id.0, v) ==> value_children_spelled(
                            self.nodes(),
                            *node,
                            id.0 as int,
                            v,
                        ),
                    decreases fields@.len() - index,
                {
                    assert(mapped[index as int] == fields@[index as int].value.0);
                    let ghost done = out@;
                    let field = match self.value(fields[index].value) {
                        Ok(field) => field,
                        Err(e) => {
                            proof {
                                assert forall|v: Value| !spells_value(self.nodes(), id.0, v) by {
                                    if spells_value(self.nodes(), id.0, v) {
                                        lemma_fields_element(
                                            self.nodes(),
                                            id.0 as int,
                                            fields@,
                                            v->Record_0@,
                                            index as int,
                                        );
                                    }
                                }
                            }
                            return Err(e);
                        },
                    };
                    out.push(FieldValue { label: fields[index].label.clone(), value: Rc::new(field) });
                    proof {
                        let grown = fields@.subrange(0, index + 1);
                        assert(grown.drop_last() =~= fields@.subrange(0, index as int));
                        assert(out@.drop_last() =~= done);
                    }
                    index = index + 1;
                }
                proof {
                    assert(fields@.subrange(0, fields@.len() as int) =~= fields@);
                }
                Value::Record(out)
            },
            ValueNode::Thunk(grade, body) => Value::Thunk(*grade, Rc::new(self.comp(*body)?)),
            ValueNode::Annot(inner, ty) => Value::Annot(Rc::new(self.value(*inner)?), share(ty)),
            ValueNode::Hole(hole) => Value::Hole(*hole),
            ValueNode::Stk(stack) => Value::Stk(Rc::new(self.stack(*stack)?)),
            ValueNode::Here(witness) => Value::Here(Rc::new(self.value(*witness)?)),
            ValueNode::Ctor { id: data, tag, payload } => Value::Ctor {
                id: DataId { serial: data.serial, name: data.name.clone() },
                tag: *tag,
                payload: Rc::new(self.value(*payload)?),
            },
        };
        proof {
            assert(value_node_spells(self.nodes(), *node, id.0 as int, term));
        }
        Ok(term)
    }

    /// Reads a binder node back out.
    fn branch(&self, branch: &BranchNode, bound: Ghost<u32>) -> (r: Result<Branch, StoreError>)
        requires
            self.wf(),
            branch.body.0 < bound@,
        ensures
            r matches Ok(b) ==> spells_branch(self.nodes(), bound@ as int, *branch, b),
            r is Err ==> forall|b: Branch| !spells_branch(self.nodes(), bound@ as int, *branch, b),
        decreases bound@, 0nat,
    {
        proof {
            assert forall|b: Branch| spells_branch(self.nodes(), bound@ as int, *branch, b) implies spells_comp(
                self.nodes(),
                branch.body.0,
                *b.body,
            ) by {}
        }
        let body = self.comp(branch.body)?;
        Ok(Branch { binder: branch.binder.clone(), body: Rc::new(body) })
    }

    /// Reads the computation a handle names back out as an ordinary term.
    pub fn comp(&self, id: CompNodeId) -> (r: Result<Comp, StoreError>)
        requires
            self.wf(),
        ensures
            r matches Ok(c) ==> spells_comp(self.nodes(), id.0, c),
            r is Err ==> forall|c: Comp| !spells_comp(self.nodes(), id.0, c),
        decreases id.0, 1nat,
    {
        let node = self.comp_node(id)?;
        proof {
            self.lemma_comp_children_below(id, *node);
            lemma_small_below();
            assert forall|c: Comp| #[trigger] spells_comp(self.nodes(), id.0, c) implies comp_children_spelled(
                self.nodes(),
                *node,
                id.0 as int,
                c,
            ) by {
                lemma_comp_children_spelled(self.nodes(), *node, id.0 as int, c);
            }
        }
        let term = match node {
            CompNode::Abs(binder, ann, body) => {
                let ann = match ann {
                    Some(ty) => Some(share(ty)),
                    None => None,
                };
                Comp::Abs(binder.clone(), ann, Rc::new(self.comp(*body)?))
            },
            CompNode::App(head, arg) => Comp::App(
                Rc::new(self.comp(*head)?),
                Rc::new(self.value(*arg)?),
            ),
            CompNode::Ret(value) => Comp::Ret(Rc::new(self.value(*value)?)),
            CompNode::Bind(bound, binder, cont) => Comp::Bind(
                Rc::new(self.comp(*bound)?),
                binder.clone(),
                Rc::new(self.comp(*cont)?),
            ),
            CompNode::Force(value) => Comp::Force(Rc::new(self.value(*value)?)),
            CompNode::Case(scrut, left, right) => Comp::Case(
                Rc::new(self.value(*scrut)?),
                self.branch(left, Ghost(id.0))?,
                self.branch(right, Ghost(id.0))?,
            ),
            CompNode::DataCase(scrut, arms) => {
                let ghost all = comp_children(*node);
                let ghost mapped = arms@.map_values(|a: BranchNode| a.body.0);
                assert(all == ids1(scrut.0) + mapped);
                assert(all[0] == scrut.0);
                let scrut = self.value(*scrut)?;
                let mut out: Vec<Branch> = Vec::new();
                let mut index: usize = 0;
                proof {
                    assert(arms@.subrange(0, 0).len() == 0);
                }
                while index < arms.len()
                    invariant
                        index <= arms@.len(),
                        self.wf(),
                        mapped == arms@.map_values(|a: BranchNode| a.body.0),
                        all == ids1(all[0]) + mapped,
                        all_below(all, id.0 as int),
                        spells_branches(self.nodes(), id.0 as int, arms@.subrange(0, index as int), out@),
                        *node == CompNode::DataCase(node->DataCase_0, *arms),
                        forall|c: Comp| #[trigger] spells_comp(self.nodes(), id.0, c) ==> comp_children_spelled(
                            self.nodes(),
                            *node,
                            id.0 as int,
                            c,
                        ),
                    decreases arms@.len() - index,
                {
                    assert(all[index + 1] == mapped[index as int]);
                    let ghost done = out@;
                    let arm = match self.branch(&arms[index], Ghost(id.0)) {
                        Ok(arm) => arm,
                        Err(e) => {
                            proof {
                                assert forall|c: Comp| !spells_comp(self.nodes(), id.0, c) by {
                                    if spells_comp(self.nodes(), id.0, c) {
                                        lemma_branches_element(
                                            self.nodes(),
                                            id.0 as int,
                                            arms@,
                                            c->DataCase_1@,
                                            index as int,
                                        );
                                    }
                                }
                            }
                            return Err(e);
                        },
                    };
                    out.push(arm);
                    proof {
                        let grown = arms@.subrange(0, index + 1);
                        assert(grown.drop_last() =~= arms@.subrange(0, index as int));
                        assert(out@.drop_last() =~= done);
                    }
                    index = index + 1;
                }
                proof {
                    assert(arms@.subrange(0, arms@.len() as int) =~= arms@);
                }
                Comp::DataCase(Rc::new(scrut), out)
            },
            CompNode::ListCase { scrut, nil, head, tail, cons } => Comp::ListCase {
                scrut: Rc::new(self.value(*scrut)?),
                nil: Rc::new(self.comp(*nil)?),
                head: head.clone(),
                tail: tail.clone(),
                cons: Rc::new(self.comp(*cons)?),
            },
            CompNode::Split { scrut, fst_name, snd_name, motive, body } => {
                let motive = match motive {
                    Some(m) => Some(share(m)),
                    None => None,
                };
                Comp::Split {
                    scrut: Rc::new(self.value(*scrut)?),
                    fst_name: fst_name.clone(),
                    snd_name: snd_name.clone(),
                    motive,
                    body: Rc::new(self.comp(*body)?),
                }
            },
            CompNode::RecordProj { record, label } => Comp::RecordProj {
                record: Rc::new(self.value(*record)?),
                label: label.clone(),
            },
            CompNode::With(fst, snd) => Comp::With(
                Rc::new(self.comp(*fst)?),
                Rc::new(self.comp(*snd)?),
            ),
            CompNode::Prj(side, body) => Comp::Prj(*side, Rc::new(self.comp(*body)?)),
            CompNode::Dup(value) => Comp::Dup(Rc::new(self.value(*value)?)),
            CompNode::Drop(value) => Comp::Drop(Rc::new(self.value(*value)?)),
            CompNode::Perform(sig, op, payload) => Comp::Perform(
                share(sig),
                op.clone(),
                Rc::new(self.value(*payload)?),
            ),
            CompNode::Handle { sig, scrutinee, ret, ops } => {
                let ghost all = comp_children(*node);
                let ghost mapped = ops@.map_values(|c: ClauseNode| c.body.0);
                assert(all == ids2(scrutinee.0, ret.body.0) + mapped);
                assert(all[0] == scrutinee.0 && all[1] == ret.body.0);
                let scrutinee = self.comp(*scrutinee)?;
                let ret = self.branch(ret, Ghost(id.0))?;
                let mut out: Vec<OpClause> = Vec::new();
                let mut index: usize = 0;
                proof {
                    assert(ops@.subrange(0, 0).len() == 0);
                }
                while index < ops.len()
                    invariant
                        index <= ops@.len(),
                        self.wf(),
                        mapped == ops@.map_values(|c: ClauseNode| c.body.0),
                        all == ids2(all[0], all[1]) + mapped,
                        all_below(all, id.0 as int),
                        spells_clauses(self.nodes(), id.0 as int, ops@.subrange(0, index as int), out@),
                        *node == (CompNode::Handle {
                            sig: node->Handle_sig,
                            scrutinee: node->Handle_scrutinee,
                            ret: node->Handle_ret,
                            ops: *ops,
                        }),
                        forall|c: Comp| #[trigger] spells_comp(self.nodes(), id.0, c) ==> comp_children_spelled(
                            self.nodes(),
                            *node,
                            id.0 as int,
                            c,
                        ),
                    decreases ops@.len() - index,
                {
                    assert(all[index + 2] == mapped[index as int]);
                    let ghost done = out@;
                    let clause = &ops[index];
                    let body = match self.comp(clause.body) {
                        Ok(body) => body,
                        Err(e) => {
                            proof {
                                assert forall|c: Comp| !spells_comp(self.nodes(), id.0, c) by {
                                    if spells_comp(self.nodes(), id.0, c) {
                                        lemma_clauses_element(
                                            self.nodes(),
                                            id.0 as int,
                                            ops@,
                                            c->Handle_ops@,
                                            index as int,
                                        );
                                    }
                                }
                            }
                            return Err(e);
                        },
                    };
                    out.push(
                        OpClause {
                            op: clause.op.clone(),
                            payload: clause.payload.clone(),
                            resume: clause.resume.clone(),
                            body: Rc::new(body),
                        },
                    );
                    proof {
                        let grown = ops@.subrange(0, index + 1);
                        assert(grown.drop_last() =~= ops@.subrange(0, index as int));
                        assert(out@.drop_last() =~= done);
                    }
                    index = index + 1;
                }
                proof {
                    assert(ops@.subrange(0, ops@.len() as int) =~= ops@);
                }
                Comp::Handle { sig: share(sig), scrutinee: Rc::new(scrutinee), ret, ops: out }
            },
            CompNode::Resume(value, body) => Comp::Resume(
                Rc::new(self.value(*value)?),
                Rc::new(self.comp(*body)?),
            ),
            CompNode::Reset(body) => Comp::Reset(Rc::new(self.comp(*body)?)),
            CompNode::Shift(binder, body) => Comp::Shift(binder.clone(), Rc::new(self.comp(*body)?)),
            CompNode::Hole(hole) => Comp::Hole(*hole),
            CompNode::Native { prim, args } => {
                let ghost mapped = args@.map_values(|a: ValueNodeId| a.0);
                let mut out: Vec<Rc<Value>> = Vec::new();
                let mut index: usize = 0;
                proof {
                    assert(args@.subrange(0, 0).len() == 0);
                }
                while index < args.len()
                    invariant
                        index <= args@.len(),
                        self.wf(),
                        mapped == args@.map_values(|a: ValueNodeId| a.0),
                        all_below(mapped, id.0 as int),
                        spells_values(self.nodes(), id.0 as int, args@.subrange(0, index as int), out@),
                        *node == (CompNode::Native { prim: node->Native_prim, args: *args }),
                        forall|c: Comp| #[trigger] spells_comp(self.nodes(), id.0, c) ==> comp_children_spelled(
                            self.nodes(),
                            *node,
                            id.0 as int,
                            c,
                        ),
                    decreases args@.len() - index,
                {
                    assert(mapped[index as int] == args@[index as int].0);
                    let ghost done = out@;
                    let arg = match self.value(args[index]) {
                        Ok(arg) => arg,
                        Err(e) => {
                            proof {
                                assert forall|c: Comp| !spells_comp(self.nodes(), id.0, c) by {
                                    if spells_comp(self.nodes(), id.0, c) {
                                        lemma_values_element(
                                            self.nodes(),
                                            id.0 as int,
                                            args@,
                                            c->Native_args@,
                                            index as int,
                                        );
                                    }
                                }
                            }
                            return Err(e);
                        },
                    };
                    out.push(Rc::new(arg));
                    proof {
                        let grown = args@.subrange(0, index + 1);
                        assert(grown.drop_last() =~= args@.subrange(0, index as int));
                        assert(out@.drop_last() =~= done);
                    }
                    index = index + 1;
                }
                proof {
                    assert(args@.subrange(0, args@.len() as int) =~= args@);
                }
                Comp::Native { prim: *prim, args: out }
            },
            CompNode::Walk { scrut, motive, base } => Comp::Walk {
                scrut: Rc::new(self.value(*scrut)?),
                motive: share(motive),
                base: WalkBase { x: base.binder.clone(), body: Rc::new(self.comp(base.body)?) },
            },
        };
        proof {
            assert(comp_node_spells(self.nodes(), *node, id.0 as int, term));
        }
        Ok(term)
    }

    /// Reads the stack a handle names back out as an ordinary term.
    pub fn stack(&self, id: StackNodeId) -> (r: Result<Stack, StoreError>)
        requires
            self.wf(),
        ensures
            r matches Ok(s) ==> spells_stack(self.nodes(), id.0, s),
            r is Err ==> forall|s: Stack| !spells_stack(self.nodes(), id.0, s),
        decreases id.0, 1nat,
    {
        let node = self.stack_node(id)?;
        proof {
            self.lemma_stack_children_below(id, *node);
            lemma_small_below();
            assert forall|s: Stack| #[trigger] spells_stack(self.nodes(), id.0, s) implies stack_children_spelled(
                self.nodes(),
                *node,
                s,
            ) by {
                lemma_stack_children_spelled(self.nodes(), *node, id.0 as int, s);
            }
        }
        let term = match node {
            StackNode::Empty => Stack::Empty,
            StackNode::Arg(arg, rest) => Stack::Arg(
                Rc::new(self.value(*arg)?),
                Rc::new(self.stack(*rest)?),
            ),
            StackNode::Bind(binder, body, rest) => Stack::Bind(
                binder.clone(),
                Rc::new(self.comp(*body)?),
                Rc::new(self.stack(*rest)?),
            ),
            StackNode::Prj(side, rest) => Stack::Prj(*side, Rc::new(self.stack(*rest)?)),
        };
        proof {
            assert(stack_node_spells(self.nodes(), *node, id.0 as int, term));
        }
        Ok(term)
    }

    /// The value node a handle names.
    pub fn value_node(&self, id: ValueNodeId) -> (r: Result<&ValueNode, StoreError>)
        ensures
            match r {
                Ok(node) => id.0 < self.nodes().len() && self.nodes()[id.0 as int]
                    == SyntaxNode::Value(*node),
                Err(e) => e == StoreError::Missing(id.0) && !(id.0 < self.nodes().len()
                    && self.nodes()[id.0 as int] is Value),
            },
    {
        if (id.0 as usize) < self.nodes.len() {
            match &self.nodes[id.0 as usize] {
                SyntaxNode::Value(node) => Ok(node),
                _ => Err(StoreError::Missing(id.0)),
            }
        } else {
            Err(StoreError::Missing(id.0))
        }
    }

    /// The computation node a handle names.
    pub fn comp_node(&self, id: CompNodeId) -> (r: Result<&CompNode, StoreError>)
        ensures
            match r {
                Ok(node) => id.0 < self.nodes().len() && self.nodes()[id.0 as int]
                    == SyntaxNode::Comp(*node),
                Err(e) => e == StoreError::Missing(id.0) && !(id.0 < self.nodes().len()
                    && self.nodes()[id.0 as int] is Comp),
            },
    {
        if (id.0 as usize) < self.nodes.len() {
            match &self.nodes[id.0 as usize] {
                SyntaxNode::Comp(node) => Ok(node),
                _ => Err(StoreError::Missing(id.0)),
            }
        } else {
            Err(StoreError::Missing(id.0))
        }
    }

    /// The stack node a handle names.
    pub fn stack_node(&self, id: StackNodeId) -> (r: Result<&StackNode, StoreError>)
        ensures
            match r {
                Ok(node) => id.0 < self.nodes().len() && self.nodes()[id.0 as int]
                    == SyntaxNode::Stack(*node),
                Err(e) => e == StoreError::Missing(id.0) && !(id.0 < self.nodes().len()
                    && self.nodes()[id.0 as int] is Stack),
            },
    {
        if (id.0 as usize) < self.nodes.len() {
            match &self.nodes[id.0 as usize] {
                SyntaxNode::Stack(node) => Ok(node),
                _ => Err(StoreError::Missing(id.0)),
            }
        } else {
            Err(StoreError::Missing(id.0))
        }
    }
}

} // verus!
