//! What a stored node means: the term a node and the nodes below it spell.
//!
//! A node spells a term when it has the term's constructor and payloads and
//! each child handle names an earlier node spelling the matching component.
//! Lowering writes nodes that spell the caller's term, and reading a node
//! back returns a term the node spells; appending nodes never changes what an
//! earlier node spells.

use std::rc::Rc;
use vstd::prelude::*;

use crate::store::BranchNode;
use crate::store::ClauseNode;
use crate::store::CompNode;
use crate::store::FieldNode;
use crate::store::StackNode;
use crate::store::SyntaxNode;
use crate::store::ValueNode;
use crate::store::ValueNodeId;
use crate::syntax::FieldValue;
use crate::syntax::OpClause;
use crate::syntax::Branch;
use crate::syntax::Comp;
use crate::syntax::Stack;
use crate::syntax::Value;

verus! {

/// Node `id` of `nodes` spells the value `v`.
pub open spec fn spells_value(nodes: Seq<SyntaxNode>, id: u32, v: Value) -> bool
    decreases id, 3nat, 0nat,
{
    if id < nodes.len() {
        match nodes[id as int] {
            SyntaxNode::Value(node) => value_node_spells(nodes, node, id as int, v),
            _ => false,
        }
    } else {
        false
    }
}

/// The value node `node`, its children below `bound`, spells `v`.
pub open spec fn value_node_spells(nodes: Seq<SyntaxNode>, node: ValueNode, bound: int, v: Value) -> bool
    decreases bound, 2nat, 0nat,
{
    match node {
        ValueNode::Var(a) => v matches Value::Var(b) && a == b,
        ValueNode::Unit => v is Unit,
        ValueNode::Int(a) => v matches Value::Int(b) && a == b,
        ValueNode::Str(a) => v matches Value::Str(b) && a == b,
        ValueNode::Num(a) => v matches Value::Num(b) && a == b,
        ValueNode::Pair(a, b) => v matches Value::Pair(x, y) && a.0 < bound && b.0 < bound
            && spells_value(nodes, a.0, *x) && spells_value(nodes, b.0, *y),
        ValueNode::Inj(side, a) => v matches Value::Inj(other, x) && side == other && a.0
            < bound && spells_value(nodes, a.0, *x),
        ValueNode::List(items) => v matches Value::List(xs) && spells_values(
            nodes,
            bound,
            items@,
            xs@,
        ),
        ValueNode::Record(fields) => v matches Value::Record(gs) && spells_fields(
            nodes,
            bound,
            fields@,
            gs@,
        ),
        ValueNode::Thunk(grade, body) => v matches Value::Thunk(g, c) && grade == g && body.0
            < bound && spells_comp(nodes, body.0, *c),
        ValueNode::Annot(a, ty) => v matches Value::Annot(x, t) && ty == t && a.0 < bound
            && spells_value(nodes, a.0, *x),
        ValueNode::Hole(a) => v matches Value::Hole(b) && a == b,
        ValueNode::Stk(s) => v matches Value::Stk(st) && s.0 < bound && spells_stack(
            nodes,
            s.0,
            *st,
        ),
        ValueNode::Here(a) => v matches Value::Here(x) && a.0 < bound && spells_value(
            nodes,
            a.0,
            *x,
        ),
        ValueNode::Ctor { id: data, tag, payload } => v matches Value::Ctor {
            id: d,
            tag: t,
            payload: p,
        } && data == d && tag == t && payload.0 < bound && spells_value(nodes, payload.0, *p),
    }
}

/// Each handle of `ids`, all below `parent`, spells the matching value of
/// `xs`.
pub open spec fn spells_values(nodes: Seq<SyntaxNode>, parent: int, ids: Seq<ValueNodeId>, xs: Seq<Rc<Value>>) -> bool
    decreases parent, 1nat, ids.len(),
{
    ids.len() == xs.len() && (ids.len() == 0 || (ids.last().0 < parent && spells_value(
        nodes,
        ids.last().0,
        *xs.last(),
    ) && spells_values(nodes, parent, ids.drop_last(), xs.drop_last())))
}

/// Each field node, its value below `parent`, spells the matching field.
pub open spec fn spells_fields(nodes: Seq<SyntaxNode>, parent: int, fs: Seq<FieldNode>, gs: Seq<FieldValue>) -> bool
    decreases parent, 1nat, fs.len(),
{
    fs.len() == gs.len() && (fs.len() == 0 || (fs.last().label == gs.last().label
        && fs.last().value.0 < parent && spells_value(nodes, fs.last().value.0, *gs.last().value)
        && spells_fields(nodes, parent, fs.drop_last(), gs.drop_last())))
}

/// Each branch node spells the matching branch.
pub open spec fn spells_branches(nodes: Seq<SyntaxNode>, parent: int, arms: Seq<BranchNode>, bs: Seq<Branch>) -> bool
    decreases parent, 1nat, arms.len(),
{
    arms.len() == bs.len() && (arms.len() == 0 || (spells_branch(nodes, parent, arms.last(), bs.last())
        && spells_branches(nodes, parent, arms.drop_last(), bs.drop_last())))
}

/// Each clause node spells the matching operation clause.
pub open spec fn spells_clauses(nodes: Seq<SyntaxNode>, parent: int, ops: Seq<ClauseNode>, os: Seq<OpClause>) -> bool
    decreases parent, 1nat, ops.len(),
{
    ops.len() == os.len() && (ops.len() == 0 || (ops.last().op == os.last().op && ops.last().payload
        == os.last().payload && ops.last().resume == os.last().resume && ops.last().body.0 < parent
        && spells_comp(nodes, ops.last().body.0, *os.last().body) && spells_clauses(
        nodes,
        parent,
        ops.drop_last(),
        os.drop_last(),
    )))
}

/// A branch node under a parent at `parent` spells the branch `b`.
pub open spec fn spells_branch(nodes: Seq<SyntaxNode>, parent: int, node: BranchNode, b: Branch) -> bool
    decreases parent, 1nat, 0nat,
{
    node.binder == b.binder && node.body.0 < parent && spells_comp(nodes, node.body.0, *b.body)
}

/// Node `id` of `nodes` spells the computation `c`.
pub open spec fn spells_comp(nodes: Seq<SyntaxNode>, id: u32, c: Comp) -> bool
    decreases id, 3nat, 0nat,
{
    if id < nodes.len() {
        match nodes[id as int] {
            SyntaxNode::Comp(node) => comp_node_spells(nodes, node, id as int, c),
            _ => false,
        }
    } else {
        false
    }
}

/// The comp node `node`, its children below `bound`, spells `c`.
pub open spec fn comp_node_spells(nodes: Seq<SyntaxNode>, node: CompNode, bound: int, c: Comp) -> bool
    decreases bound, 2nat, 0nat,
{
    match node {
        CompNode::Abs(name, ann, body) => c matches Comp::Abs(n, a, b) && name == n && ann
            == a && body.0 < bound && spells_comp(nodes, body.0, *b),
        CompNode::App(f, a) => c matches Comp::App(g, x) && f.0 < bound && a.0 < bound
            && spells_comp(nodes, f.0, *g) && spells_value(nodes, a.0, *x),
        CompNode::Ret(a) => c matches Comp::Ret(x) && a.0 < bound && spells_value(
            nodes,
            a.0,
            *x,
        ),
        CompNode::Bind(first, name, cont) => c matches Comp::Bind(t, n, u) && name == n
            && first.0 < bound && cont.0 < bound && spells_comp(nodes, first.0, *t) && spells_comp(
            nodes,
            cont.0,
            *u,
        ),
        CompNode::Force(a) => c matches Comp::Force(x) && a.0 < bound && spells_value(
            nodes,
            a.0,
            *x,
        ),
        CompNode::Case(a, left, right) => c matches Comp::Case(x, l, r) && a.0 < bound
            && spells_value(nodes, a.0, *x) && spells_branch(nodes, bound, left, l)
            && spells_branch(nodes, bound, right, r),
        CompNode::DataCase(a, arms) => c matches Comp::DataCase(x, bs) && a.0 < bound
            && spells_value(nodes, a.0, *x) && spells_branches(nodes, bound, arms@, bs@),
        CompNode::ListCase { scrut, nil, head, tail, cons } => c matches Comp::ListCase {
            scrut: s,
            nil: n,
            head: h,
            tail: t,
            cons: k,
        } && head == h && tail == t && scrut.0 < bound && nil.0 < bound && cons.0 < bound
            && spells_value(nodes, scrut.0, *s) && spells_comp(nodes, nil.0, *n)
            && spells_comp(nodes, cons.0, *k),
        CompNode::Split { scrut, fst_name, snd_name, motive, body } => c matches Comp::Split {
            scrut: s,
            fst_name: f,
            snd_name: n,
            motive: m,
            body: b,
        } && fst_name == f && snd_name == n && motive == m && scrut.0 < bound && body.0 < bound
            && spells_value(nodes, scrut.0, *s) && spells_comp(nodes, body.0, *b),
        CompNode::RecordProj { record, label } => c matches Comp::RecordProj {
            record: r,
            label: l,
        } && label == l && record.0 < bound && spells_value(nodes, record.0, *r),
        CompNode::With(a, b) => c matches Comp::With(x, y) && a.0 < bound && b.0 < bound
            && spells_comp(nodes, a.0, *x) && spells_comp(nodes, b.0, *y),
        CompNode::Prj(side, a) => c matches Comp::Prj(s, x) && side == s && a.0 < bound
            && spells_comp(nodes, a.0, *x),
        CompNode::Dup(a) => c matches Comp::Dup(x) && a.0 < bound && spells_value(
            nodes,
            a.0,
            *x,
        ),
        CompNode::Drop(a) => c matches Comp::Drop(x) && a.0 < bound && spells_value(
            nodes,
            a.0,
            *x,
        ),
        CompNode::Perform(sig, op, a) => c matches Comp::Perform(s, o, x) && sig == s && op
            == o && a.0 < bound && spells_value(nodes, a.0, *x),
        CompNode::Handle { sig, scrutinee, ret, ops } => c matches Comp::Handle {
            sig: s,
            scrutinee: t,
            ret: r,
            ops: os,
        } && sig == s && scrutinee.0 < bound && spells_comp(nodes, scrutinee.0, *t)
            && spells_branch(nodes, bound, ret, r) && spells_clauses(nodes, bound, ops@, os@),
        CompNode::Resume(a, b) => c matches Comp::Resume(x, y) && a.0 < bound && b.0 < bound
            && spells_value(nodes, a.0, *x) && spells_comp(nodes, b.0, *y),
        CompNode::Reset(a) => c matches Comp::Reset(x) && a.0 < bound && spells_comp(
            nodes,
            a.0,
            *x,
        ),
        CompNode::Shift(name, a) => c matches Comp::Shift(n, x) && name == n && a.0 < bound
            && spells_comp(nodes, a.0, *x),
        CompNode::Hole(a) => c matches Comp::Hole(b) && a == b,
        CompNode::Native { prim, args } => c matches Comp::Native { prim: p, args: xs }
            && prim == p && spells_values(nodes, bound, args@, xs@),
        CompNode::Walk { scrut, motive, base } => c matches Comp::Walk {
            scrut: s,
            motive: m,
            base: b,
        } && motive == m && base.binder == b.x && scrut.0 < bound && base.body.0 < bound
            && spells_value(nodes, scrut.0, *s) && spells_comp(nodes, base.body.0, *b.body),
    }
}

/// Node `id` of `nodes` spells the stack `s`.
pub open spec fn spells_stack(nodes: Seq<SyntaxNode>, id: u32, s: Stack) -> bool
    decreases id, 3nat, 0nat,
{
    if id < nodes.len() {
        match nodes[id as int] {
            SyntaxNode::Stack(node) => stack_node_spells(nodes, node, id as int, s),
            _ => false,
        }
    } else {
        false
    }
}

/// The stack node `node`, its children below `bound`, spells `s`.
pub open spec fn stack_node_spells(nodes: Seq<SyntaxNode>, node: StackNode, bound: int, s: Stack) -> bool
    decreases bound, 2nat, 0nat,
{
    match node {
        StackNode::Empty => s is Empty,
        StackNode::Arg(a, rest) => s matches Stack::Arg(x, r) && a.0 < bound && rest.0 < bound
            && spells_value(nodes, a.0, *x) && spells_stack(nodes, rest.0, *r),
        StackNode::Bind(name, body, rest) => s matches Stack::Bind(n, b, r) && name == n
            && body.0 < bound && rest.0 < bound && spells_comp(nodes, body.0, *b) && spells_stack(
            nodes,
            rest.0,
            *r,
        ),
        StackNode::Prj(side, rest) => s matches Stack::Prj(sd, r) && side == sd && rest.0
            < bound && spells_stack(nodes, rest.0, *r),
    }
}

/// `longer` keeps every node of `shorter` where it was.
pub open spec fn extends(longer: Seq<SyntaxNode>, shorter: Seq<SyntaxNode>) -> bool {
    shorter.len() <= longer.len() && forall|i: int|
        0 <= i < shorter.len() ==> #[trigger] longer[i] == shorter[i]
}

/// The value a handle points to.
pub open spec fn pointee<T>(handle: Rc<T>) -> T {
    *handle
}

/// The value a borrowed handle points to.
pub open spec fn referent<T>(handle: &Rc<T>) -> T {
    **handle
}

/// Appending one node keeps every earlier node.
pub proof fn lemma_push_extends(nodes: Seq<SyntaxNode>, node: SyntaxNode)
    ensures
        extends(nodes.push(node), nodes),
{
}

/// Appending nodes does not change what a value node spells.
pub proof fn lemma_value_spelling_kept(short: Seq<SyntaxNode>, long: Seq<SyntaxNode>, id: u32, v: Value)
    requires
        extends(long, short),
        spells_value(short, id, v),
    ensures
        spells_value(long, id, v),
    decreases id, 3nat, 0nat,
{
    assert(long[id as int] == short[id as int]);
    if let SyntaxNode::Value(node) = short[id as int] {
        lemma_value_node_spelling_kept(short, long, node, id as int, id as int, v);
    }
}

/// Appending nodes does not change what a computation node spells.
pub proof fn lemma_comp_spelling_kept(short: Seq<SyntaxNode>, long: Seq<SyntaxNode>, id: u32, c: Comp)
    requires
        extends(long, short),
        spells_comp(short, id, c),
    ensures
        spells_comp(long, id, c),
    decreases id, 3nat, 0nat,
{
    assert(long[id as int] == short[id as int]);
    if let SyntaxNode::Comp(node) = short[id as int] {
        lemma_comp_node_spelling_kept(short, long, node, id as int, id as int, c);
    }
}

/// Appending nodes does not change what a stack node spells.
pub proof fn lemma_stack_spelling_kept(short: Seq<SyntaxNode>, long: Seq<SyntaxNode>, id: u32, s: Stack)
    requires
        extends(long, short),
        spells_stack(short, id, s),
    ensures
        spells_stack(long, id, s),
    decreases id, 3nat, 0nat,
{
    assert(long[id as int] == short[id as int]);
    if let SyntaxNode::Stack(node) = short[id as int] {
        lemma_stack_node_spelling_kept(short, long, node, id as int, id as int, s);
    }
}

/// A value node keeps spelling its term in a longer store and under a
/// higher bound.
pub proof fn lemma_value_node_spelling_kept(
    short: Seq<SyntaxNode>,
    long: Seq<SyntaxNode>,
    node: ValueNode,
    low: int,
    high: int,
    v: Value,
)
    requires
        extends(long, short),
        low <= high,
        value_node_spells(short, node, low, v),
    ensures
        value_node_spells(long, node, high, v),
    decreases low, 2nat, 0nat,
{
    match node {
        ValueNode::Pair(a, b) => {
            lemma_value_spelling_kept(short, long, a.0, pointee(v->Pair_0));
            lemma_value_spelling_kept(short, long, b.0, pointee(v->Pair_1));
        },
        ValueNode::Inj(_, a) => {
            lemma_value_spelling_kept(short, long, a.0, pointee(v->Inj_1));
        },
        ValueNode::List(items) => {
            lemma_values_spelling_kept(short, long, low, high, items@, v->List_0@);
        },
        ValueNode::Record(fields) => {
            lemma_fields_spelling_kept(short, long, low, high, fields@, v->Record_0@);
        },
        ValueNode::Thunk(_, body) => {
            lemma_comp_spelling_kept(short, long, body.0, pointee(v->Thunk_1));
        },
        ValueNode::Annot(a, _) => {
            lemma_value_spelling_kept(short, long, a.0, pointee(v->Annot_0));
        },
        ValueNode::Stk(st) => {
            lemma_stack_spelling_kept(short, long, st.0, pointee(v->Stk_0));
        },
        ValueNode::Here(a) => {
            lemma_value_spelling_kept(short, long, a.0, pointee(v->Here_0));
        },
        ValueNode::Ctor { payload, .. } => {
            lemma_value_spelling_kept(short, long, payload.0, pointee(v->Ctor_payload));
        },
        _ => {},
    }
}

/// A computation node keeps spelling its term in a longer store and under a
/// higher bound.
pub proof fn lemma_comp_node_spelling_kept(
    short: Seq<SyntaxNode>,
    long: Seq<SyntaxNode>,
    node: CompNode,
    low: int,
    high: int,
    c: Comp,
)
    requires
        extends(long, short),
        low <= high,
        comp_node_spells(short, node, low, c),
    ensures
        comp_node_spells(long, node, high, c),
    decreases low, 2nat, 0nat,
{
    match node {
        CompNode::Abs(_, _, body) => {
            lemma_comp_spelling_kept(short, long, body.0, pointee(c->Abs_2));
        },
        CompNode::App(f, a) => {
            lemma_comp_spelling_kept(short, long, f.0, pointee(c->App_0));
            lemma_value_spelling_kept(short, long, a.0, pointee(c->App_1));
        },
        CompNode::Ret(a) => {
            lemma_value_spelling_kept(short, long, a.0, pointee(c->Ret_0));
        },
        CompNode::Bind(bound, _, cont) => {
            lemma_comp_spelling_kept(short, long, bound.0, pointee(c->Bind_0));
            lemma_comp_spelling_kept(short, long, cont.0, pointee(c->Bind_2));
        },
        CompNode::Force(a) => {
            lemma_value_spelling_kept(short, long, a.0, pointee(c->Force_0));
        },
        CompNode::Case(a, left, right) => {
            lemma_value_spelling_kept(short, long, a.0, pointee(c->Case_0));
            lemma_branch_spelling_kept(short, long, low, high, left, c->Case_1);
            lemma_branch_spelling_kept(short, long, low, high, right, c->Case_2);
        },
        CompNode::DataCase(a, arms) => {
            lemma_value_spelling_kept(short, long, a.0, pointee(c->DataCase_0));
            lemma_branches_spelling_kept(short, long, low, high, arms@, c->DataCase_1@);
        },
        CompNode::ListCase { scrut, nil, cons, .. } => {
            lemma_value_spelling_kept(short, long, scrut.0, pointee(c->ListCase_scrut));
            lemma_comp_spelling_kept(short, long, nil.0, pointee(c->ListCase_nil));
            lemma_comp_spelling_kept(short, long, cons.0, pointee(c->ListCase_cons));
        },
        CompNode::Split { scrut, body, .. } => {
            lemma_value_spelling_kept(short, long, scrut.0, pointee(c->Split_scrut));
            lemma_comp_spelling_kept(short, long, body.0, pointee(c->Split_body));
        },
        CompNode::RecordProj { record, .. } => {
            lemma_value_spelling_kept(short, long, record.0, pointee(c->RecordProj_record));
        },
        CompNode::With(a, b) => {
            lemma_comp_spelling_kept(short, long, a.0, pointee(c->With_0));
            lemma_comp_spelling_kept(short, long, b.0, pointee(c->With_1));
        },
        CompNode::Prj(_, a) => {
            lemma_comp_spelling_kept(short, long, a.0, pointee(c->Prj_1));
        },
        CompNode::Dup(a) => {
            lemma_value_spelling_kept(short, long, a.0, pointee(c->Dup_0));
        },
        CompNode::Drop(a) => {
            lemma_value_spelling_kept(short, long, a.0, pointee(c->Drop_0));
        },
        CompNode::Perform(_, _, a) => {
            lemma_value_spelling_kept(short, long, a.0, pointee(c->Perform_2));
        },
        CompNode::Handle { scrutinee, ret, ops, .. } => {
            lemma_comp_spelling_kept(short, long, scrutinee.0, pointee(c->Handle_scrutinee));
            lemma_branch_spelling_kept(short, long, low, high, ret, c->Handle_ret);
            lemma_clauses_spelling_kept(short, long, low, high, ops@, c->Handle_ops@);
        },
        CompNode::Resume(a, b) => {
            lemma_value_spelling_kept(short, long, a.0, pointee(c->Resume_0));
            lemma_comp_spelling_kept(short, long, b.0, pointee(c->Resume_1));
        },
        CompNode::Reset(a) => {
            lemma_comp_spelling_kept(short, long, a.0, pointee(c->Reset_0));
        },
        CompNode::Shift(_, a) => {
            lemma_comp_spelling_kept(short, long, a.0, pointee(c->Shift_1));
        },
        CompNode::Native { args, .. } => {
            lemma_values_spelling_kept(short, long, low, high, args@, c->Native_args@);
        },
        CompNode::Walk { scrut, base, .. } => {
            lemma_value_spelling_kept(short, long, scrut.0, pointee(c->Walk_scrut));
            lemma_comp_spelling_kept(short, long, base.body.0, pointee(c->Walk_base.body));
        },
        CompNode::Hole(_) => {},
    }
}

/// A stack node keeps spelling its term in a longer store and under a
/// higher bound.
pub proof fn lemma_stack_node_spelling_kept(
    short: Seq<SyntaxNode>,
    long: Seq<SyntaxNode>,
    node: StackNode,
    low: int,
    high: int,
    s: Stack,
)
    requires
        extends(long, short),
        low <= high,
        stack_node_spells(short, node, low, s),
    ensures
        stack_node_spells(long, node, high, s),
    decreases low, 2nat, 0nat,
{
    match node {
        StackNode::Arg(a, rest) => {
            lemma_value_spelling_kept(short, long, a.0, pointee(s->Arg_0));
            lemma_stack_spelling_kept(short, long, rest.0, pointee(s->Arg_1));
        },
        StackNode::Bind(_, body, rest) => {
            lemma_comp_spelling_kept(short, long, body.0, pointee(s->Bind_1));
            lemma_stack_spelling_kept(short, long, rest.0, pointee(s->Bind_2));
        },
        StackNode::Prj(_, rest) => {
            lemma_stack_spelling_kept(short, long, rest.0, pointee(s->Prj_1));
        },
        StackNode::Empty => {},
    }
}

/// A branch node keeps spelling its branch in a longer store and under a
/// higher bound.
pub proof fn lemma_branch_spelling_kept(
    short: Seq<SyntaxNode>,
    long: Seq<SyntaxNode>,
    low: int,
    high: int,
    node: BranchNode,
    b: Branch,
)
    requires
        extends(long, short),
        low <= high,
        spells_branch(short, low, node, b),
    ensures
        spells_branch(long, high, node, b),
    decreases low, 1nat, 0nat,
{
    lemma_comp_spelling_kept(short, long, node.body.0, pointee(b.body));
}

/// A run of value handles keeps spelling its values in a longer store and
/// under a higher bound.
pub proof fn lemma_values_spelling_kept(
    short: Seq<SyntaxNode>,
    long: Seq<SyntaxNode>,
    low: int,
    high: int,
    ids: Seq<ValueNodeId>,
    xs: Seq<Rc<Value>>,
)
    requires
        extends(long, short),
        low <= high,
        spells_values(short, low, ids, xs),
    ensures
        spells_values(long, high, ids, xs),
    decreases low, 1nat, ids.len(),
{
    if ids.len() > 0 {
        lemma_value_spelling_kept(short, long, ids.last().0, pointee(xs.last()));
        lemma_values_spelling_kept(short, long, low, high, ids.drop_last(), xs.drop_last());
    }
}

/// A run of field nodes keeps spelling its fields in a longer store and
/// under a higher bound.
pub proof fn lemma_fields_spelling_kept(
    short: Seq<SyntaxNode>,
    long: Seq<SyntaxNode>,
    low: int,
    high: int,
    fs: Seq<FieldNode>,
    gs: Seq<FieldValue>,
)
    requires
        extends(long, short),
        low <= high,
        spells_fields(short, low, fs, gs),
    ensures
        spells_fields(long, high, fs, gs),
    decreases low, 1nat, fs.len(),
{
    if fs.len() > 0 {
        lemma_value_spelling_kept(short, long, fs.last().value.0, pointee(gs.last().value));
        lemma_fields_spelling_kept(short, long, low, high, fs.drop_last(), gs.drop_last());
    }
}

/// A run of branch nodes keeps spelling its branches in a longer store and
/// under a higher bound.
pub proof fn lemma_branches_spelling_kept(
    short: Seq<SyntaxNode>,
    long: Seq<SyntaxNode>,
    low: int,
    high: int,
    arms: Seq<BranchNode>,
    bs: Seq<Branch>,
)
    requires
        extends(long, short),
        low <= high,
        spells_branches(short, low, arms, bs),
    ensures
        spells_branches(long, high, arms, bs),
    decreases low, 1nat, arms.len(),
{
    if arms.len() > 0 {
        lemma_branch_spelling_kept(short, long, low, high, arms.last(), bs.last());
        lemma_branches_spelling_kept(short, long, low, high, arms.drop_last(), bs.drop_last());
    }
}

/// A run of clause nodes keeps spelling its clauses in a longer store and
/// under a higher bound.
pub proof fn lemma_clauses_spelling_kept(
    short: Seq<SyntaxNode>,
    long: Seq<SyntaxNode>,
    low: int,
    high: int,
    ops: Seq<ClauseNode>,
    os: Seq<OpClause>,
)
    requires
        extends(long, short),
        low <= high,
        spells_clauses(short, low, ops, os),
    ensures
        spells_clauses(long, high, ops, os),
    decreases low, 1nat, ops.len(),
{
    if ops.len() > 0 {
        lemma_comp_spelling_kept(short, long, ops.last().body.0, pointee(os.last().body));
        lemma_clauses_spelling_kept(short, long, low, high, ops.drop_last(), os.drop_last());
    }
}

/// What spelling `v` asks of the children of the value node `node`: each
/// child spells the matching component of `v`.
pub open spec fn value_children_spelled(nodes: Seq<SyntaxNode>, node: ValueNode, bound: int, v: Value) -> bool {
    match node {
        ValueNode::Pair(a, b) => v is Pair && spells_value(nodes, a.0, *v->Pair_0) && spells_value(
            nodes,
            b.0,
            *v->Pair_1,
        ),
        ValueNode::Inj(_, a) => v is Inj && spells_value(nodes, a.0, *v->Inj_1),
        ValueNode::List(items) => v is List && spells_values(nodes, bound, items@, v->List_0@),
        ValueNode::Record(fields) => v is Record && spells_fields(nodes, bound, fields@, v->Record_0@),
        ValueNode::Thunk(_, body) => v is Thunk && spells_comp(nodes, body.0, *v->Thunk_1),
        ValueNode::Annot(a, _) => v is Annot && spells_value(nodes, a.0, *v->Annot_0),
        ValueNode::Stk(st) => v is Stk && spells_stack(nodes, st.0, *v->Stk_0),
        ValueNode::Here(a) => v is Here && spells_value(nodes, a.0, *v->Here_0),
        ValueNode::Ctor { payload, .. } => v is Ctor && spells_value(nodes, payload.0, *v->Ctor_payload),
        _ => true,
    }
}

/// What spelling `c` asks of the children of the computation node `node`.
pub open spec fn comp_children_spelled(nodes: Seq<SyntaxNode>, node: CompNode, bound: int, c: Comp) -> bool {
    match node {
        CompNode::Abs(_, _, body) => c is Abs && spells_comp(nodes, body.0, *c->Abs_2),
        CompNode::App(f, a) => c is App && spells_comp(nodes, f.0, *c->App_0) && spells_value(
            nodes,
            a.0,
            *c->App_1,
        ),
        CompNode::Ret(a) => c is Ret && spells_value(nodes, a.0, *c->Ret_0),
        CompNode::Bind(first, _, cont) => c is Bind && spells_comp(nodes, first.0, *c->Bind_0)
            && spells_comp(nodes, cont.0, *c->Bind_2),
        CompNode::Force(a) => c is Force && spells_value(nodes, a.0, *c->Force_0),
        CompNode::Case(a, left, right) => c is Case && spells_value(nodes, a.0, *c->Case_0)
            && spells_branch(nodes, bound, left, c->Case_1) && spells_branch(nodes, bound, right, c->Case_2),
        CompNode::DataCase(a, arms) => c is DataCase && spells_value(nodes, a.0, *c->DataCase_0)
            && spells_branches(nodes, bound, arms@, c->DataCase_1@),
        CompNode::ListCase { scrut, nil, cons, .. } => c is ListCase && spells_value(
            nodes,
            scrut.0,
            *c->ListCase_scrut,
        ) && spells_comp(nodes, nil.0, *c->ListCase_nil) && spells_comp(nodes, cons.0, *c->ListCase_cons),
        CompNode::Split { scrut, body, .. } => c is Split && spells_value(nodes, scrut.0, *c->Split_scrut)
            && spells_comp(nodes, body.0, *c->Split_body),
        CompNode::RecordProj { record, .. } => c is RecordProj && spells_value(
            nodes,
            record.0,
            *c->RecordProj_record,
        ),
        CompNode::With(a, b) => c is With && spells_comp(nodes, a.0, *c->With_0) && spells_comp(
            nodes,
            b.0,
            *c->With_1,
        ),
        CompNode::Prj(_, a) => c is Prj && spells_comp(nodes, a.0, *c->Prj_1),
        CompNode::Dup(a) => c is Dup && spells_value(nodes, a.0, *c->Dup_0),
        CompNode::Drop(a) => c is Drop && spells_value(nodes, a.0, *c->Drop_0),
        CompNode::Perform(_, _, a) => c is Perform && spells_value(nodes, a.0, *c->Perform_2),
        CompNode::Handle { scrutinee, ret, ops, .. } => c is Handle && spells_comp(
            nodes,
            scrutinee.0,
            *c->Handle_scrutinee,
        ) && spells_branch(nodes, bound, ret, c->Handle_ret) && spells_clauses(
            nodes,
            bound,
            ops@,
            c->Handle_ops@,
        ),
        CompNode::Resume(a, b) => c is Resume && spells_value(nodes, a.0, *c->Resume_0) && spells_comp(
            nodes,
            b.0,
            *c->Resume_1,
        ),
        CompNode::Reset(a) => c is Reset && spells_comp(nodes, a.0, *c->Reset_0),
        CompNode::Shift(_, a) => c is Shift && spells_comp(nodes, a.0, *c->Shift_1),
        CompNode::Native { args, .. } => c is Native && spells_values(nodes, bound, args@, c->Native_args@),
        CompNode::Walk { scrut, base, .. } => c is Walk && spells_value(nodes, scrut.0, *c->Walk_scrut)
            && spells_comp(nodes, base.body.0, *c->Walk_base.body),
        CompNode::Hole(_) => true,
    }
}

/// What spelling `s` asks of the children of the stack node `node`.
pub open spec fn stack_children_spelled(nodes: Seq<SyntaxNode>, node: StackNode, s: Stack) -> bool {
    match node {
        StackNode::Arg(a, rest) => s is Arg && spells_value(nodes, a.0, *s->Arg_0) && spells_stack(
            nodes,
            rest.0,
            *s->Arg_1,
        ),
        StackNode::Bind(_, body, rest) => s is Bind && spells_comp(nodes, body.0, *s->Bind_1)
            && spells_stack(nodes, rest.0, *s->Bind_2),
        StackNode::Prj(_, rest) => s is Prj && spells_stack(nodes, rest.0, *s->Prj_1),
        StackNode::Empty => true,
    }
}

/// A value node that spells `v` has children spelling `v`'s components.
pub proof fn lemma_value_children_spelled(nodes: Seq<SyntaxNode>, node: ValueNode, bound: int, v: Value)
    requires
        value_node_spells(nodes, node, bound, v),
    ensures
        value_children_spelled(nodes, node, bound, v),
{
}

/// A computation node that spells `c` has children spelling its components.
pub proof fn lemma_comp_children_spelled(nodes: Seq<SyntaxNode>, node: CompNode, bound: int, c: Comp)
    requires
        comp_node_spells(nodes, node, bound, c),
    ensures
        comp_children_spelled(nodes, node, bound, c),
{
}

/// A stack node that spells `s` has children spelling its components.
pub proof fn lemma_stack_children_spelled(nodes: Seq<SyntaxNode>, node: StackNode, bound: int, s: Stack)
    requires
        stack_node_spells(nodes, node, bound, s),
    ensures
        stack_children_spelled(nodes, node, s),
{
}

/// Each handle of a spelled run spells its value.
pub proof fn lemma_values_element(nodes: Seq<SyntaxNode>, parent: int, ids: Seq<ValueNodeId>, xs: Seq<Rc<Value>>, k: int)
    requires
        spells_values(nodes, parent, ids, xs),
        0 <= k < ids.len(),
    ensures
        spells_value(nodes, ids[k].0, *xs[k]),
    decreases ids.len(),
{
    if k < ids.len() - 1 {
        lemma_values_element(nodes, parent, ids.drop_last(), xs.drop_last(), k);
    }
}

/// Each field node of a spelled run spells its field's value.
pub proof fn lemma_fields_element(nodes: Seq<SyntaxNode>, parent: int, fs: Seq<FieldNode>, gs: Seq<FieldValue>, k: int)
    requires
        spells_fields(nodes, parent, fs, gs),
        0 <= k < fs.len(),
    ensures
        spells_value(nodes, fs[k].value.0, *gs[k].value),
    decreases fs.len(),
{
    if k < fs.len() - 1 {
        lemma_fields_element(nodes, parent, fs.drop_last(), gs.drop_last(), k);
    }
}

/// Each branch node of a spelled run spells its branch.
pub proof fn lemma_branches_element(nodes: Seq<SyntaxNode>, parent: int, arms: Seq<BranchNode>, bs: Seq<Branch>, k: int)
    requires
        spells_branches(nodes, parent, arms, bs),
        0 <= k < arms.len(),
    ensures
        spells_branch(nodes, parent, arms[k], bs[k]),
    decreases arms.len(),
{
    if k < arms.len() - 1 {
        lemma_branches_element(nodes, parent, arms.drop_last(), bs.drop_last(), k);
    }
}

/// Each clause node of a spelled run spells its clause's body.
pub proof fn lemma_clauses_element(nodes: Seq<SyntaxNode>, parent: int, ops: Seq<ClauseNode>, os: Seq<OpClause>, k: int)
    requires
        spells_clauses(nodes, parent, ops, os),
        0 <= k < ops.len(),
    ensures
        spells_comp(nodes, ops[k].body.0, *os[k].body),
    decreases ops.len(),
{
    if k < ops.len() - 1 {
        lemma_clauses_element(nodes, parent, ops.drop_last(), os.drop_last(), k);
    }
}

} // verus!
