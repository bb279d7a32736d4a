//! Readback: a semantic value back into syntax, in one of three modes.
//!
//! * [`QuoteMode::Retained`] prefers the **term face** — a value that never
//!   reduced hands back the source node it came from, rebuilding nothing;
//! * [`QuoteMode::Canonical`] ignores the term face and rebuilds, so binders
//!   come out in canonical form — a de Bruijn level rendered into a name —
//!   and two results are comparable by structure alone;
//! * [`QuoteMode::Unfolding`] rebuilds and additionally spends the
//!   definitional environment, so a definition's body appears in the result.
//!
//! Going under a binder draws a fresh level and binds the source name to a
//! rigid variable at it, so the binder rendered into the result depends only
//! on how many binders are open.

use std::rc::Rc;
use vstd::prelude::*;

use crate::nbe::defs::Definition;
use crate::nbe::eval::copy_names;
use crate::nbe::eval::eval_comp_at;
use crate::nbe::eval::runs_to_abs;
use crate::nbe::eval::unfoldable_head;
use crate::nbe::eval::unfolds_to_literal;
use crate::nbe::eval::head_definition;
use crate::nbe::eval::literal_form;
use crate::nbe::eval::has_room;
use crate::nbe::eval::sem_cost;
use crate::nbe::eval::sem_items_cost;
use crate::nbe::eval::sem_fields_cost;
use crate::nbe::eval::lemma_sem_cost_stable;
use crate::nbe::eval::lemma_sem_items_cost_take;
use crate::nbe::eval::lemma_sem_fields_cost_take;
use crate::nbe::eval::evaluated_fields;
use crate::nbe::eval::evaluated_value;
use crate::nbe::eval::evaluated_values;
use crate::nbe::eval::force_value;
use crate::nbe::eval::mint_value;
use crate::nbe::eval::unfold_neutral;
use crate::nbe::eval::value_node;
use crate::nbe::eval::ForceMode;
use crate::nbe::lemma_interner_sound_extends;
use crate::nbe::reads_back;
use crate::nbe::sem::copy_vec;
use crate::nbe::sem::same_head;
use crate::nbe::sem::grows;
use crate::nbe::sem::SemArena;
use crate::nbe::sem::SemField;
use crate::nbe::sem::ClosureId;
use crate::nbe::sem::EnvId;
use crate::nbe::sem::Elim;
use crate::nbe::sem::NeutralHead;
use crate::nbe::sem::Rigid;
use crate::nbe::sem::SemCompId;
use crate::nbe::sem::SemCompNode;
use crate::nbe::sem::SemError;
use crate::nbe::sem::SemValueId;
use crate::nbe::sem::SemValueNode;
use crate::nbe::sem::TermFace;
use crate::nbe::sem::ValueUnfold;
use crate::nbe::Normalizer;
use crate::nbe::level_after;
use crate::store::all_below;
use crate::store::comp_children;
use crate::store::value_children;
use crate::store::spelling::referent;
use crate::store::inert_value;
use crate::store::lemma_small_below;
use crate::store::spelling::extends;
use crate::store::spelling::lemma_stack_spelling_kept;
use crate::store::spelling::lemma_value_children_spelled;
use crate::store::spelling::pointee;
use crate::store::spelling::spells_fields;
use crate::store::spelling::spells_value;
use crate::store::spelling::spells_values;
use crate::store::BranchNode;
use crate::store::ClauseNode;
use crate::store::CompNode;
use crate::store::CompNodeId;
use crate::store::FieldNode;
use crate::store::SyntaxNode;
use crate::store::ValueNode;
use crate::store::ValueNodeId;
use crate::syntax::share;
use crate::syntax::FieldValue;
use crate::syntax::Value;
use crate::syntax::WalkMotive;
use crate::text::decimal;
use crate::text::decimal_chars;
use crate::text::string_of;
use crate::types::CompType;

verus! {

/// How readback treats the term face and the definitional environment.
#[derive(Clone, Copy, Debug, PartialEq, Eq, Structural)]
pub enum QuoteMode {
    /// Prefer the term face and unfold nothing.
    Retained,
    /// Ignore the term face and unfold nothing.
    Canonical,
    /// Rebuild and spend the definitional environment, within the fuel.
    Unfolding,
}

/// The depth budget one readback may spend.
pub const QUOTE_DEPTH: u32 = 20000;

/// The name a de Bruijn level is rendered into: the level's decimal digits
/// between guillemets, which the surface grammar cannot produce, so a
/// generated binder never collides with a source name.
pub open spec fn level_chars(level: nat) -> Seq<char> {
    seq!['\u{ab}'] + decimal_chars(level) + seq!['\u{bb}']
}

/// The name a de Bruijn level is rendered into.
pub fn level_name(level: u32) -> (name: String)
    ensures
        name@ == level_chars(level as nat),
{
    let mut chars: Vec<char> = Vec::new();
    chars.push('\u{ab}');
    let mut digits = decimal(level as u64);
    chars.append(&mut digits);
    chars.push('\u{bb}');
    proof {
        assert(chars@ =~= level_chars(level as nat));
    }
    string_of(chars.as_slice())
}

/// Syntax node `n` of `nodes` reads back the semantic value `id` of `a` in
/// `mode`: in the retained mode a value retaining a term face reads back as
/// that very node; otherwise a value reads back as the matching value former
/// over the readbacks of its children, a rigid variable as its name (a level
/// rendered as its level name), a hole as itself, a reified stack as the
/// stack node it names, and a thunk as a thunk of the same grade, whose body
/// is not described here.
pub open spec fn quoted_value(a: SemArena, nodes: Seq<SyntaxNode>, mode: QuoteMode, id: SemValueId, n: u32) -> bool
    decreases n, 2nat, 0nat,
{
    if id.0 < a.value_nodes().len() {
        let value = a.value_nodes()[id.0 as int];
        if mode == QuoteMode::Retained && value.face is Retained {
            n == value.face->Retained_0.0
        } else if n < nodes.len() {
            match nodes[n as int] {
                SyntaxNode::Value(v) => quoted_node(a, nodes, mode, value.node, v, n as int),
                _ => false,
            }
        } else {
            false
        }
    } else {
        false
    }
}

/// The value node `v`, its children below `bound`, reads back the weak-head
/// form `shape` in `mode`.
pub open spec fn quoted_node(
    a: SemArena,
    nodes: Seq<SyntaxNode>,
    mode: QuoteMode,
    shape: SemValueNode,
    v: ValueNode,
    bound: int,
) -> bool
    decreases bound, 1nat, 0nat,
{
    match shape {
        SemValueNode::Unit => v == ValueNode::Unit,
        SemValueNode::Int(k) => v == ValueNode::Int(k),
        SemValueNode::Str(text) => v == ValueNode::Str(text),
        SemValueNode::Num(literal) => v == ValueNode::Num(literal),
        SemValueNode::Reified(stack) => v == ValueNode::Stk(stack) && stack.0 < bound,
        SemValueNode::Rigid(head, _) => match head {
            Rigid::Level(level) => match v {
                ValueNode::Var(name) => name@ == level_chars(level as nat),
                _ => false,
            },
            Rigid::Free(name) => v == ValueNode::Var(name),
            Rigid::Hole(hole) => v == ValueNode::Hole(hole),
        },
        SemValueNode::Pair(i, j) => match v {
            ValueNode::Pair(x, y) => x.0 < bound && y.0 < bound && quoted_value(a, nodes, mode, i, x.0)
                && quoted_value(a, nodes, mode, j, y.0),
            _ => false,
        },
        SemValueNode::Inj(side, i) => match v {
            ValueNode::Inj(s, x) => s == side && x.0 < bound && quoted_value(a, nodes, mode, i, x.0),
            _ => false,
        },
        SemValueNode::Here(i) => match v {
            ValueNode::Here(x) => x.0 < bound && quoted_value(a, nodes, mode, i, x.0),
            _ => false,
        },
        SemValueNode::Ctor { id: data, tag, payload } => match v {
            ValueNode::Ctor { id: d, tag: t, payload: x } => d == data && t == tag && x.0 < bound
                && quoted_value(a, nodes, mode, payload, x.0),
            _ => false,
        },
        SemValueNode::List(ids) => match v {
            ValueNode::List(xs) => quoted_values(a, nodes, mode, bound, ids@, xs@),
            _ => false,
        },
        SemValueNode::Record(fields) => match v {
            ValueNode::Record(out) => quoted_fields(a, nodes, mode, bound, fields@, out@),
            _ => false,
        },
        SemValueNode::Thunk(grade, _) => match v {
            ValueNode::Thunk(g, _) => g == grade,
            _ => false,
        },
    }
}

/// Each handle of `xs`, all below `parent`, reads back the matching id of
/// `ids`.
pub open spec fn quoted_values(
    a: SemArena,
    nodes: Seq<SyntaxNode>,
    mode: QuoteMode,
    parent: int,
    ids: Seq<SemValueId>,
    xs: Seq<ValueNodeId>,
) -> bool
    decreases parent, 0nat, ids.len(),
{
    ids.len() == xs.len() && (ids.len() == 0 || (xs.last().0 < parent && quoted_value(
        a,
        nodes,
        mode,
        ids.last(),
        xs.last().0,
    ) && quoted_values(a, nodes, mode, parent, ids.drop_last(), xs.drop_last())))
}

/// Each field node, its value below `parent`, reads back the matching
/// semantic field under the same label.
pub open spec fn quoted_fields(
    a: SemArena,
    nodes: Seq<SyntaxNode>,
    mode: QuoteMode,
    parent: int,
    fields: Seq<SemField>,
    out: Seq<FieldNode>,
) -> bool
    decreases parent, 0nat, fields.len(),
{
    fields.len() == out.len() && (fields.len() == 0 || (fields.last().label == out.last().label
        && out.last().value.0 < parent && quoted_value(
        a,
        nodes,
        mode,
        fields.last().value,
        out.last().value.0,
    ) && quoted_fields(a, nodes, mode, parent, fields.drop_last(), out.drop_last())))
}

/// What a readback established keeps holding while the arena and the store
/// only grow.
pub proof fn lemma_quoted_value_stable(
    a: SemArena,
    b: SemArena,
    nodes: Seq<SyntaxNode>,
    more: Seq<SyntaxNode>,
    mode: QuoteMode,
    id: SemValueId,
    n: u32,
)
    requires
        quoted_value(a, nodes, mode, id, n),
        grows(a, b),
        extends(more, nodes),
    ensures
        quoted_value(b, more, mode, id, n),
    decreases n, 2nat, 0nat,
{
    let value = a.value_nodes()[id.0 as int];
    assert(b.value_nodes()[id.0 as int] == value);
    if !(mode == QuoteMode::Retained && value.face is Retained) {
        assert(more[n as int] == nodes[n as int]);
        let v = nodes[n as int]->Value_0;
        match value.node {
            SemValueNode::Pair(i, j) => {
                lemma_quoted_value_stable(a, b, nodes, more, mode, i, v->Pair_0.0);
                lemma_quoted_value_stable(a, b, nodes, more, mode, j, v->Pair_1.0);
            },
            SemValueNode::Inj(_, i) => {
                lemma_quoted_value_stable(a, b, nodes, more, mode, i, v->Inj_1.0);
            },
            SemValueNode::Here(i) => {
                lemma_quoted_value_stable(a, b, nodes, more, mode, i, v->Here_0.0);
            },
            SemValueNode::Ctor { payload, .. } => {
                lemma_quoted_value_stable(a, b, nodes, more, mode, payload, v->Ctor_payload.0);
            },
            SemValueNode::List(ids) => {
                lemma_quoted_values_stable(a, b, nodes, more, mode, n as int, ids@, v->List_0@);
            },
            SemValueNode::Record(fields) => {
                lemma_quoted_fields_stable(a, b, nodes, more, mode, n as int, fields@, v->Record_0@);
            },
            _ => {},
        }
    }
}

/// [`lemma_quoted_value_stable`] for a run of handles.
pub proof fn lemma_quoted_values_stable(
    a: SemArena,
    b: SemArena,
    nodes: Seq<SyntaxNode>,
    more: Seq<SyntaxNode>,
    mode: QuoteMode,
    parent: int,
    ids: Seq<SemValueId>,
    xs: Seq<ValueNodeId>,
)
    requires
        quoted_values(a, nodes, mode, parent, ids, xs),
        grows(a, b),
        extends(more, nodes),
    ensures
        quoted_values(b, more, mode, parent, ids, xs),
    decreases parent, 0nat, ids.len(),
{
    if ids.len() > 0 {
        lemma_quoted_value_stable(a, b, nodes, more, mode, ids.last(), xs.last().0);
        lemma_quoted_values_stable(a, b, nodes, more, mode, parent, ids.drop_last(), xs.drop_last());
    }
}

/// [`lemma_quoted_value_stable`] for a run of record fields.
pub proof fn lemma_quoted_fields_stable(
    a: SemArena,
    b: SemArena,
    nodes: Seq<SyntaxNode>,
    more: Seq<SyntaxNode>,
    mode: QuoteMode,
    parent: int,
    fields: Seq<SemField>,
    out: Seq<FieldNode>,
)
    requires
        quoted_fields(a, nodes, mode, parent, fields, out),
        grows(a, b),
        extends(more, nodes),
    ensures
        quoted_fields(b, more, mode, parent, fields, out),
    decreases parent, 0nat, fields.len(),
{
    if fields.len() > 0 {
        lemma_quoted_value_stable(a, b, nodes, more, mode, fields.last().value, out.last().value.0);
        lemma_quoted_fields_stable(a, b, nodes, more, mode, parent, fields.drop_last(), out.drop_last());
    }
}

/// A run read back element by element, every handle below `parent`, reads
/// back as a run.
pub proof fn lemma_quoted_values_gather(
    a: SemArena,
    nodes: Seq<SyntaxNode>,
    mode: QuoteMode,
    parent: int,
    ids: Seq<SemValueId>,
    xs: Seq<ValueNodeId>,
)
    requires
        ids.len() == xs.len(),
        forall|k: int| 0 <= k < ids.len() ==> (#[trigger] xs[k]).0 < parent && quoted_value(
            a,
            nodes,
            mode,
            ids[k],
            xs[k].0,
        ),
    ensures
        quoted_values(a, nodes, mode, parent, ids, xs),
    decreases ids.len(),
{
    if ids.len() > 0 {
        let k = ids.len() - 1;
        assert(xs[k] == xs.last());
        assert forall|j: int| 0 <= j < ids.drop_last().len() implies (
        #[trigger] xs.drop_last()[j]).0 < parent && quoted_value(
            a,
            nodes,
            mode,
            ids.drop_last()[j],
            xs.drop_last()[j].0,
        ) by {
            assert(xs.drop_last()[j] == xs[j]);
            assert(ids.drop_last()[j] == ids[j]);
        }
        lemma_quoted_values_gather(a, nodes, mode, parent, ids.drop_last(), xs.drop_last());
    }
}

/// A record read back field by field, every value below `parent`, reads
/// back as a record.
pub proof fn lemma_quoted_fields_gather(
    a: SemArena,
    nodes: Seq<SyntaxNode>,
    mode: QuoteMode,
    parent: int,
    fields: Seq<SemField>,
    out: Seq<FieldNode>,
)
    requires
        fields.len() == out.len(),
        forall|k: int| 0 <= k < fields.len() ==> (#[trigger] out[k]).label == fields[k].label
            && out[k].value.0 < parent && quoted_value(a, nodes, mode, fields[k].value, out[k].value.0),
    ensures
        quoted_fields(a, nodes, mode, parent, fields, out),
    decreases fields.len(),
{
    if fields.len() > 0 {
        let k = fields.len() - 1;
        assert(out[k] == out.last());
        assert forall|j: int| 0 <= j < fields.drop_last().len() implies (
        #[trigger] out.drop_last()[j]).label == fields.drop_last()[j].label
            && out.drop_last()[j].value.0 < parent && quoted_value(
            a,
            nodes,
            mode,
            fields.drop_last()[j].value,
            out.drop_last()[j].value.0,
        ) by {
            assert(out.drop_last()[j] == out[j]);
            assert(fields.drop_last()[j] == fields[j]);
        }
        lemma_quoted_fields_gather(a, nodes, mode, parent, fields.drop_last(), out.drop_last());
    }
}

/// Value node `node` of `nodes` is inert: literals, variables, holes, and
/// reified stacks under the value formers, with no thunk and no ascription
/// outside a reified stack.
pub open spec fn value_inert(nodes: Seq<SyntaxNode>, node: u32) -> bool
    decreases node, 2nat, 0nat,
{
    if node < nodes.len() {
        match nodes[node as int] {
            SyntaxNode::Value(v) => value_node_inert(nodes, v, node as int),
            _ => false,
        }
    } else {
        false
    }
}

/// [`value_inert`] for the value node `v`, its children below `bound`.
pub open spec fn value_node_inert(nodes: Seq<SyntaxNode>, v: ValueNode, bound: int) -> bool
    decreases bound, 1nat, 0nat,
{
    match v {
        ValueNode::Pair(a, b) => a.0 < bound && b.0 < bound && value_inert(nodes, a.0) && value_inert(
            nodes,
            b.0,
        ),
        ValueNode::Inj(_, a) => a.0 < bound && value_inert(nodes, a.0),
        ValueNode::List(items) => values_inert(nodes, bound, items@),
        ValueNode::Record(fields) => fields_inert(nodes, bound, fields@),
        ValueNode::Thunk(_, _) => false,
        ValueNode::Annot(_, _) => false,
        ValueNode::Here(a) => a.0 < bound && value_inert(nodes, a.0),
        ValueNode::Ctor { payload, .. } => payload.0 < bound && value_inert(nodes, payload.0),
        _ => true,
    }
}

/// [`value_inert`] for every handle of `ids`, all below `parent`.
pub open spec fn values_inert(nodes: Seq<SyntaxNode>, parent: int, ids: Seq<ValueNodeId>) -> bool
    decreases parent, 0nat, ids.len(),
{
    ids.len() == 0 || (ids.last().0 < parent && value_inert(nodes, ids.last().0) && values_inert(
        nodes,
        parent,
        ids.drop_last(),
    ))
}

/// [`value_inert`] for every field value of `fields`, all below `parent`.
pub open spec fn fields_inert(nodes: Seq<SyntaxNode>, parent: int, fields: Seq<FieldNode>) -> bool
    decreases parent, 0nat, fields.len(),
{
    fields.len() == 0 || (fields.last().value.0 < parent && value_inert(
        nodes,
        fields.last().value.0,
    ) && fields_inert(nodes, parent, fields.drop_last()))
}

/// The term `t` is inert within `fuel` levels of nesting: literals,
/// variables, holes, and reified stacks under the value formers, with no
/// thunk and no ascription outside a reified stack.
pub open spec fn inert_term(t: Value, fuel: nat) -> bool
    decreases fuel,
{
    fuel > 0 && match t {
        Value::Pair(x, y) => inert_term(*x, (fuel - 1) as nat) && inert_term(*y, (fuel - 1) as nat),
        Value::Inj(_, x) => inert_term(*x, (fuel - 1) as nat),
        Value::List(xs) => forall|i: int|
            0 <= i < xs@.len() ==> inert_term(*#[trigger] xs@[i], (fuel - 1) as nat),
        Value::Record(fs) => forall|i: int|
            0 <= i < fs@.len() ==> inert_term(*(#[trigger] fs@[i]).value, (fuel - 1) as nat),
        Value::Thunk(_, _) => false,
        Value::Annot(_, _) => false,
        Value::Here(x) => inert_term(*x, (fuel - 1) as nat),
        Value::Ctor { payload, .. } => inert_term(*payload, (fuel - 1) as nat),
        _ => true,
    }
}

/// A closed inert value is an inert term, with any larger depth budget.
pub proof fn lemma_inert_value_is_inert_term(t: Value, depth: nat, more: nat)
    requires
        inert_value(t, depth),
        depth <= more,
    ensures
        inert_term(t, more),
    decreases depth,
{
    let below = (depth - 1) as nat;
    let over = (more - 1) as nat;
    match t {
        Value::Pair(a, b) => {
            lemma_inert_value_is_inert_term(referent(&a), below, over);
            lemma_inert_value_is_inert_term(referent(&b), below, over);
        },
        Value::Inj(_, a) => lemma_inert_value_is_inert_term(referent(&a), below, over),
        Value::List(xs) => {
            assert forall|i: int| 0 <= i < xs@.len() implies inert_term(*#[trigger] xs@[i], over) by {
                lemma_inert_value_is_inert_term(referent(&xs@[i]), below, over);
            }
        },
        Value::Record(fs) => {
            assert forall|i: int| 0 <= i < fs@.len() implies inert_term(*(#[trigger] fs@[i]).value, over) by {
                lemma_inert_value_is_inert_term(referent(&fs@[i].value), below, over);
            }
        },
        Value::Here(a) => lemma_inert_value_is_inert_term(referent(&a), below, over),
        Value::Ctor { payload, .. } => lemma_inert_value_is_inert_term(referent(&payload), below, over),
        _ => {},
    }
}

/// A node spelling an inert term is an inert node.
pub proof fn lemma_inert_term_node(nodes: Seq<SyntaxNode>, node: u32, t: Value, fuel: nat)
    requires
        spells_value(nodes, node, t),
        inert_term(t, fuel),
    ensures
        value_inert(nodes, node),
    decreases node, 2nat, 0nat,
{
    let v = nodes[node as int]->Value_0;
    lemma_value_children_spelled(nodes, v, node as int, t);
    let below = (fuel - 1) as nat;
    match v {
        ValueNode::Pair(x, y) => {
            lemma_inert_term_node(nodes, x.0, pointee(t->Pair_0), below);
            lemma_inert_term_node(nodes, y.0, pointee(t->Pair_1), below);
        },
        ValueNode::Inj(_, x) => {
            lemma_inert_term_node(nodes, x.0, pointee(t->Inj_1), below);
        },
        ValueNode::Here(x) => {
            lemma_inert_term_node(nodes, x.0, pointee(t->Here_0), below);
        },
        ValueNode::Ctor { payload, .. } => {
            lemma_inert_term_node(nodes, payload.0, pointee(t->Ctor_payload), below);
        },
        ValueNode::List(items) => {
            lemma_inert_terms_nodes(nodes, node as int, items@, t->List_0@, below);
        },
        ValueNode::Record(fields) => {
            lemma_inert_fields_nodes(nodes, node as int, fields@, t->Record_0@, below);
        },
        _ => {},
    }
}

/// [`lemma_inert_term_node`] for a list's elements.
pub proof fn lemma_inert_terms_nodes(
    nodes: Seq<SyntaxNode>,
    parent: int,
    ids: Seq<ValueNodeId>,
    xs: Seq<Rc<Value>>,
    fuel: nat,
)
    requires
        spells_values(nodes, parent, ids, xs),
        forall|i: int| 0 <= i < xs.len() ==> inert_term(*#[trigger] xs[i], fuel),
    ensures
        values_inert(nodes, parent, ids),
    decreases parent, 0nat, ids.len(),
{
    if ids.len() > 0 {
        let k = xs.len() - 1;
        assert(inert_term(*xs[k], fuel));
        lemma_inert_term_node(nodes, ids.last().0, pointee(xs.last()), fuel);
        assert forall|i: int| 0 <= i < xs.drop_last().len() implies inert_term(
            *#[trigger] xs.drop_last()[i],
            fuel,
        ) by {
            assert(xs.drop_last()[i] == xs[i]);
        }
        lemma_inert_terms_nodes(nodes, parent, ids.drop_last(), xs.drop_last(), fuel);
    }
}

/// [`lemma_inert_term_node`] for a record's fields.
pub proof fn lemma_inert_fields_nodes(
    nodes: Seq<SyntaxNode>,
    parent: int,
    fields: Seq<FieldNode>,
    gs: Seq<FieldValue>,
    fuel: nat,
)
    requires
        spells_fields(nodes, parent, fields, gs),
        forall|i: int| 0 <= i < gs.len() ==> inert_term(*(#[trigger] gs[i]).value, fuel),
    ensures
        fields_inert(nodes, parent, fields),
    decreases parent, 0nat, fields.len(),
{
    if fields.len() > 0 {
        let k = gs.len() - 1;
        assert(inert_term(*gs[k].value, fuel));
        lemma_inert_term_node(nodes, fields.last().value.0, pointee(gs.last().value), fuel);
        assert forall|i: int| 0 <= i < gs.drop_last().len() implies inert_term(
            *(#[trigger] gs.drop_last()[i]).value,
            fuel,
        ) by {
            assert(gs.drop_last()[i] == gs[i]);
        }
        lemma_inert_fields_nodes(nodes, parent, fields.drop_last(), gs.drop_last(), fuel);
    }
}

/// Reading back, canonically, what an inert value evaluates to in the empty
/// environment gives a node spelling the very term the value spelled:
/// readback after evaluation is the identity on inert values.
pub proof fn lemma_quote_after_eval_inert(
    a: SemArena,
    b: SemArena,
    entries: Seq<Definition>,
    nodes: Seq<SyntaxNode>,
    more: Seq<SyntaxNode>,
    node: u32,
    id: SemValueId,
    q: u32,
    t: Value,
)
    requires
        value_inert(nodes, node),
        spells_value(nodes, node, t),
        evaluated_value(a, entries, nodes, EnvId(0), node, id),
        quoted_value(b, more, QuoteMode::Canonical, id, q),
        grows(a, b),
        extends(more, nodes),
    ensures
        spells_value(more, q, t),
    decreases node, 2nat, 0nat,
{
    let v = nodes[node as int]->Value_0;
    let shape = a.value_nodes()[id.0 as int].node;
    assert(b.value_nodes()[id.0 as int] == a.value_nodes()[id.0 as int]);
    let w = more[q as int]->Value_0;
    lemma_value_children_spelled(nodes, v, node as int, t);
    match v {
        ValueNode::Pair(x, y) => {
            lemma_quote_after_eval_inert(a, b, entries, nodes, more, x.0, shape->Pair_0, w->Pair_0.0, pointee(t->Pair_0));
            lemma_quote_after_eval_inert(a, b, entries, nodes, more, y.0, shape->Pair_1, w->Pair_1.0, pointee(t->Pair_1));
        },
        ValueNode::Inj(_, x) => {
            lemma_quote_after_eval_inert(a, b, entries, nodes, more, x.0, shape->Inj_1, w->Inj_1.0, pointee(t->Inj_1));
        },
        ValueNode::Here(x) => {
            lemma_quote_after_eval_inert(a, b, entries, nodes, more, x.0, shape->Here_0, w->Here_0.0, pointee(t->Here_0));
        },
        ValueNode::Ctor { payload, .. } => {
            lemma_quote_after_eval_inert(a, b, entries, nodes, more, payload.0, shape->Ctor_payload, w->Ctor_payload.0, pointee(t->Ctor_payload));
        },
        ValueNode::List(items) => {
            lemma_quote_after_eval_inert_values(a, b, entries, nodes, more, node as int, q as int, items@, shape->List_0@, w->List_0@, t->List_0@);
        },
        ValueNode::Record(fields) => {
            lemma_quote_after_eval_inert_fields(a, b, entries, nodes, more, node as int, q as int, fields@, shape->Record_0@, w->Record_0@, t->Record_0@);
        },
        ValueNode::Stk(st) => {
            lemma_stack_spelling_kept(nodes, more, st.0, pointee(t->Stk_0));
        },
        _ => {},
    }
}

/// [`lemma_quote_after_eval_inert`] for a list's elements.
pub proof fn lemma_quote_after_eval_inert_values(
    a: SemArena,
    b: SemArena,
    entries: Seq<Definition>,
    nodes: Seq<SyntaxNode>,
    more: Seq<SyntaxNode>,
    parent: int,
    quoted: int,
    items: Seq<ValueNodeId>,
    ids: Seq<SemValueId>,
    xs: Seq<ValueNodeId>,
    terms: Seq<Rc<Value>>,
)
    requires
        values_inert(nodes, parent, items),
        spells_values(nodes, parent, items, terms),
        evaluated_values(a, entries, nodes, EnvId(0), parent, items, ids),
        quoted_values(b, more, QuoteMode::Canonical, quoted, ids, xs),
        grows(a, b),
        extends(more, nodes),
    ensures
        spells_values(more, quoted, xs, terms),
    decreases parent, 0nat, items.len(),
{
    if items.len() > 0 {
        lemma_quote_after_eval_inert(a, b, entries, nodes, more, items.last().0, ids.last(), xs.last().0, pointee(terms.last()));
        lemma_quote_after_eval_inert_values(a, b, entries, nodes, more, parent, quoted, items.drop_last(), ids.drop_last(), xs.drop_last(), terms.drop_last());
    }
}

/// [`lemma_quote_after_eval_inert`] for a record's fields.
pub proof fn lemma_quote_after_eval_inert_fields(
    a: SemArena,
    b: SemArena,
    entries: Seq<Definition>,
    nodes: Seq<SyntaxNode>,
    more: Seq<SyntaxNode>,
    parent: int,
    quoted: int,
    fields: Seq<FieldNode>,
    sem: Seq<SemField>,
    out: Seq<FieldNode>,
    terms: Seq<FieldValue>,
)
    requires
        fields_inert(nodes, parent, fields),
        spells_fields(nodes, parent, fields, terms),
        evaluated_fields(a, entries, nodes, EnvId(0), parent, fields, sem),
        quoted_fields(b, more, QuoteMode::Canonical, quoted, sem, out),
        grows(a, b),
        extends(more, nodes),
    ensures
        spells_fields(more, quoted, out, terms),
    decreases parent, 0nat, fields.len(),
{
    if fields.len() > 0 {
        lemma_quote_after_eval_inert(a, b, entries, nodes, more, fields.last().value.0, sem.last().value, out.last().value.0, pointee(terms.last().value));
        lemma_quote_after_eval_inert_fields(a, b, entries, nodes, more, parent, quoted, fields.drop_last(), sem.drop_last(), out.drop_last(), terms.drop_last());
    }
}

/// The first of a list of names, or the empty name.
fn first_name(names: &Vec<String>) -> (name: String)
    ensures
        names@.len() > 0 ==> name == names@[0],
{
    if names.len() > 0 {
        names[0].clone()
    } else {
        String::new()
    }
}

/// The second of a list of names, or the empty name.
fn second_name(names: &Vec<String>) -> (name: String)
    ensures
        names@.len() > 1 ==> name == names@[1],
{
    if names.len() > 1 {
        names[1].clone()
    } else {
        String::new()
    }
}

/// Appends a value node to the syntax store.
fn emit_value(nbe: &mut Normalizer, node: ValueNode) -> (r: Result<ValueNodeId, SemError>)
    requires
        old(nbe).wf(),
    ensures
        reads_back(*old(nbe), *final(nbe)),
        final(nbe).arena == old(nbe).arena,
        r matches Ok(id) ==> id.0 == old(nbe).syntax.nodes().len() && final(nbe).syntax.nodes()
            == old(nbe).syntax.nodes().push(SyntaxNode::Value(node)) && all_below(
            value_children(node),
            id.0 as int,
        ),
        r is Ok <==> all_below(value_children(node), old(nbe).syntax.nodes().len() as int) && old(
            nbe,
        ).syntax.nodes().len() <= u32::MAX,
        r matches Err(e) ==> e is SyntaxStore && final(nbe).syntax.nodes() == old(nbe).syntax.nodes(),
{
    let ghost before = nbe.syntax.nodes();
    let pushed = nbe.syntax.push_value(node);
    proof {
        lemma_interner_sound_extends(nbe.interner, before, nbe.syntax.nodes());
    }
    match pushed {
        Ok(id) => Ok(id),
        Err(_) => Err(SemError::SyntaxStore),
    }
}

/// Appends a computation node to the syntax store.
fn emit_comp(nbe: &mut Normalizer, node: CompNode) -> (r: Result<CompNodeId, SemError>)
    requires
        old(nbe).wf(),
    ensures
        reads_back(*old(nbe), *final(nbe)),
        final(nbe).arena == old(nbe).arena,
        r matches Ok(id) ==> id.0 == old(nbe).syntax.nodes().len() && final(nbe).syntax.nodes()
            == old(nbe).syntax.nodes().push(SyntaxNode::Comp(node)) && all_below(
            comp_children(node),
            id.0 as int,
        ),
        r is Ok <==> all_below(comp_children(node), old(nbe).syntax.nodes().len() as int) && old(
            nbe,
        ).syntax.nodes().len() <= u32::MAX,
        r matches Err(e) ==> e is SyntaxStore && final(nbe).syntax.nodes() == old(nbe).syntax.nodes(),
{
    let ghost before = nbe.syntax.nodes();
    let pushed = nbe.syntax.push_comp(node);
    proof {
        lemma_interner_sound_extends(nbe.interner, before, nbe.syntax.nodes());
    }
    match pushed {
        Ok(id) => Ok(id),
        Err(_) => Err(SemError::SyntaxStore),
    }
}

/// Opens a closure under fresh levels: binds each binder to a rigid variable
/// at a new level, and drives the body to weak-head normal form. Returns the
/// rendered level names, one per binder.
pub fn open(nbe: &mut Normalizer, closure: ClosureId, depth: u32) -> (r: Result<
    (Vec<String>, SemCompId),
    SemError,
>)
    requires
        old(nbe).wf(),
    ensures
        reads_back(*old(nbe), *final(nbe)),
        final(nbe).syntax == old(nbe).syntax,
        closure.0 >= old(nbe).arena.closure_nodes().len() ==> r == Err::<
            (Vec<String>, SemCompId),
            SemError,
        >(SemError::MissingClosure(closure)),
        r matches Ok((names, c)) ==> opened_as(*old(nbe), *final(nbe), closure, names@, c),
        depth > 0 && runs_to_abs(
            old(nbe).arena,
            old(nbe).syntax.nodes(),
            closure,
            old(nbe).arena.closure_nodes()[closure.0 as int].binders@.len(),
        ) && old(nbe).arena.value_nodes().len() + old(nbe).arena.closure_nodes()[closure.0 as int].binders@.len()
            <= u32::MAX + 1 ==> r is Ok,
{
    let (mut env, binders, body) = {
        let cell = nbe.arena.closure(closure)?;
        (cell.env, copy_names(&cell.binders), cell.body)
    };
    let ghost clo = old(nbe).arena.closure_nodes()[closure.0 as int];
    let mut names: Vec<String> = Vec::new();
    let mut index: usize = 0;
    while index < binders.len()
        invariant
            index <= binders@.len(),
            names@.len() == index,
            reads_back(*old(nbe), *nbe),
            nbe.syntax == old(nbe).syntax,
            closure.0 < old(nbe).arena.closure_nodes().len(),
            clo == old(nbe).arena.closure_nodes()[closure.0 as int],
            binders@ == clo.binders@,
            body == clo.body,
            forall|j: int| 0 <= j < index ==> (#[trigger] names@[j])@ == level_chars(
                level_after(old(nbe).next_level, j as nat) as nat,
            ),
            nbe.next_level == level_after(old(nbe).next_level, index as nat),
            nbe.arena.closure_nodes() == old(nbe).arena.closure_nodes(),
            nbe.arena.comp_nodes() == old(nbe).arena.comp_nodes(),
            nbe.arena.value_nodes().len() == old(nbe).arena.value_nodes().len() + index,
            nbe.arena.frames().len() == old(nbe).arena.frames().len() + index,
            index == 0 ==> env == clo.env,
            index > 0 ==> env.0 == nbe.arena.frames().len(),
        decreases binders@.len() - index,
    {
        let level = nbe.fresh_level();
        let rigid = mint_value(nbe, SemValueNode::Rigid(Rigid::Level(level), ValueUnfold::Rigid), None)?;
        env = nbe.arena.bind(env, binders[index].clone(), rigid)?;
        names.push(level_name(level));
        index = index + 1;
    }
    let whnf = eval_comp_at(nbe, env, body, depth)?;
    Ok((names, whnf))
}

/// `after` opened closure `closure` of `before` as `names` over the
/// weak-head computation `c`: one name per binder, the `j`-th rendering
/// the `j`-th fresh level drawn, and the level counter advanced past them.
pub open spec fn opened_as(before: Normalizer, after: Normalizer, closure: ClosureId, names: Seq<String>, c: SemCompId) -> bool {
    &&& closure.0 < before.arena.closure_nodes().len()
    &&& names.len() == before.arena.closure_nodes()[closure.0 as int].binders@.len()
    &&& forall|j: int| 0 <= j < names.len() ==> (#[trigger] names[j])@ == level_chars(
        level_after(before.next_level, j as nat) as nat,
    )
    &&& after.next_level == level_after(before.next_level, names.len())
    &&& c.0 < after.arena.comp_nodes().len()
}

/// Reads a semantic value back into the syntax store.
#[verifier::loop_isolation(false)]
#[verifier::rlimit(80)]
#[verifier::spinoff_prover]
pub fn quote_value_at(nbe: &mut Normalizer, id: SemValueId, mode: QuoteMode, depth: u32) -> (r:
    Result<ValueNodeId, SemError>)
    requires
        old(nbe).wf(),
    ensures
        reads_back(*old(nbe), *final(nbe)),
        mode == QuoteMode::Retained && id.0 < old(nbe).arena.value_nodes().len() && depth > 0
            ==> (old(nbe).arena.value_nodes()[id.0 as int].face matches TermFace::Retained(term)
            ==> r == Ok::<ValueNodeId, SemError>(term)),
        mode != QuoteMode::Unfolding ==> (r matches Ok(n) ==> quoted_value(
            final(nbe).arena,
            final(nbe).syntax.nodes(),
            mode,
            id,
            n.0,
        )),
        depth > 0 && id.0 < old(nbe).arena.value_nodes().len() && plain_form(
            old(nbe).arena.value_nodes()[id.0 as int].node,
        ) && old(nbe).syntax.nodes().len() <= u32::MAX ==> r is Ok,
        mode == QuoteMode::Unfolding && id.0 < old(nbe).arena.value_nodes().len() && !unfoldable_head(
            old(nbe).arena,
            old(nbe).defs.entries(),
            id,
            ForceMode::Unfold,
        ) ==> (r matches Ok(n) ==> former_readback(
            old(nbe).arena.value_nodes()[id.0 as int].node,
            final(nbe).syntax.nodes()[n.0 as int],
        )),
        mode == QuoteMode::Unfolding && depth > 0 && id.0 < old(nbe).arena.value_nodes().len() && unfoldable_head(
            old(nbe).arena,
            old(nbe).defs.entries(),
            id,
            ForceMode::Unfold,
        ) && old(nbe).fuel > 0 && unfolds_to_literal(
            old(nbe).arena,
            old(nbe).defs.entries(),
            old(nbe).syntax.nodes(),
            id,
        ) && has_room(old(nbe).arena.value_nodes().len()) ==> (r matches Ok(n)
            ==> final(nbe).syntax.nodes()[n.0 as int] == old(nbe).syntax.nodes()[head_definition(
            old(nbe).arena,
            old(nbe).defs.entries(),
            id,
        )->Some_0.body.0 as int]) && (old(nbe).syntax.nodes().len() <= u32::MAX ==> r is Ok),
        mode == QuoteMode::Canonical && sem_cost(old(nbe).arena, id, depth as nat) is Some
            && old(nbe).syntax.nodes().len() + sem_cost(old(nbe).arena, id, depth as nat)->Some_0
            <= u32::MAX + 1 ==> (r matches Ok(n) && n.0 < final(nbe).syntax.nodes().len()
            && final(nbe).syntax.nodes().len() <= old(nbe).syntax.nodes().len() + sem_cost(
            old(nbe).arena,
            id,
            depth as nat,
        )->Some_0),
    decreases depth, 0nat,
{
    if depth == 0 {
        return Err(SemError::StepLimit);
    }
    let below = depth - 1;
    if mode == QuoteMode::Retained {
        match nbe.arena.value(id)?.face {
            TermFace::Retained(term) => {
                return Ok(term);
            },
            TermFace::Rebuilt => {},
        }
    }
    let target = if mode == QuoteMode::Unfolding {
        force_value(nbe, id, ForceMode::Unfold)?
    } else {
        id
    };
    let ghost start = *nbe;
    let ghost good = mode == QuoteMode::Canonical && sem_cost(old(nbe).arena, id, depth as nat) is Some
        && old(nbe).syntax.nodes().len() + sem_cost(old(nbe).arena, id, depth as nat)->Some_0 <= u32::MAX + 1;
    let ghost syn_start = old(nbe).syntax.nodes().len();
    let copied = value_node(nbe, target)?;
    let ghost shape = nbe.arena.value_nodes()[target.0 as int].node;
    let syntax = match copied {
        SemValueNode::Unit => ValueNode::Unit,
        SemValueNode::Int(literal) => ValueNode::Int(literal),
        SemValueNode::Str(literal) => ValueNode::Str(literal),
        SemValueNode::Num(literal) => ValueNode::Num(literal),
        SemValueNode::Reified(stack) => ValueNode::Stk(stack),
        SemValueNode::Rigid(head, _) => match head {
            Rigid::Level(level) => ValueNode::Var(level_name(level)),
            Rigid::Free(name) => ValueNode::Var(name),
            Rigid::Hole(hole) => ValueNode::Hole(hole),
        },
        SemValueNode::Pair(fst, snd) => {
            let fst_node = quote_value_at(nbe, fst, mode, below)?;
            let ghost middle = *nbe;
            proof {
                if good {
                    lemma_sem_cost_stable(start.arena, middle.arena, snd, below as nat);
                }
            }
            let snd_node = quote_value_at(nbe, snd, mode, below)?;
            proof {
                if mode != QuoteMode::Unfolding {
                    lemma_quoted_value_stable(
                        middle.arena,
                        nbe.arena,
                        middle.syntax.nodes(),
                        nbe.syntax.nodes(),
                        mode,
                        fst,
                        fst_node.0,
                    );
                }
            }
            ValueNode::Pair(fst_node, snd_node)
        },
        SemValueNode::Inj(side, payload) => ValueNode::Inj(
            side,
            quote_value_at(nbe, payload, mode, below)?,
        ),
        SemValueNode::Here(witness) => ValueNode::Here(quote_value_at(nbe, witness, mode, below)?),
        SemValueNode::Ctor { id: data, tag, payload } => ValueNode::Ctor {
            id: data,
            tag,
            payload: quote_value_at(nbe, payload, mode, below)?,
        },
        SemValueNode::List(items) => {
            let mut out: Vec<ValueNodeId> = Vec::new();
            let mut index: usize = 0;
            while index < items.len()
                invariant
                    index <= items@.len(),
                    below < depth,
                    reads_back(*old(nbe), *nbe),
                    mode == QuoteMode::Retained && id.0 < old(nbe).arena.value_nodes().len() ==> old(
                        nbe,
                    ).arena.value_nodes()[id.0 as int].face == TermFace::Rebuilt,
                    out@.len() == index,
                    mode != QuoteMode::Unfolding ==> forall|k: int|
                        0 <= k < index ==> quoted_value(
                            nbe.arena,
                            nbe.syntax.nodes(),
                            mode,
                            items@[k],
                            (#[trigger] out@[k]).0,
                        ),
                    good ==> mode == QuoteMode::Canonical && sem_items_cost(old(nbe).arena, items@, below as nat) is Some
                        && syn_start + 1 + sem_items_cost(old(nbe).arena, items@, below as nat)->Some_0 <= u32::MAX + 1,
                    good ==> sem_items_cost(old(nbe).arena, items@.take(index as int), below as nat) is Some
                        && nbe.syntax.nodes().len() <= syn_start + sem_items_cost(
                        old(nbe).arena,
                        items@.take(index as int),
                        below as nat,
                    )->Some_0,
                    good ==> forall|k: int| 0 <= k < index ==> (#[trigger] out@[k]).0 < nbe.syntax.nodes().len(),
                decreases items@.len() - index,
            {
                let ghost before = *nbe;
                proof {
                    if good {
                        lemma_sem_items_cost_take(old(nbe).arena, items@, below as nat, index as int);
                        lemma_sem_cost_stable(old(nbe).arena, nbe.arena, items@[index as int], below as nat);
                    }
                }
                let element = quote_value_at(nbe, items[index], mode, below)?;
                let ghost prior = out@;
                out.push(element);
                index = index + 1;
                proof {
                    if mode != QuoteMode::Unfolding {
                        assert forall|k: int| 0 <= k < index implies quoted_value(
                            nbe.arena,
                            nbe.syntax.nodes(),
                            mode,
                            items@[k],
                            (#[trigger] out@[k]).0,
                        ) by {
                            if k < index - 1 {
                                assert(out@[k] == prior[k]);
                                lemma_quoted_value_stable(
                                    before.arena,
                                    nbe.arena,
                                    before.syntax.nodes(),
                                    nbe.syntax.nodes(),
                                    mode,
                                    items@[k],
                                    out@[k].0,
                                );
                            }
                        }
                    }
                }
            }
            proof {
                assert(items@.take(items@.len() as int) =~= items@);
            }
            ValueNode::List(out)
        },
        SemValueNode::Record(fields) => {
            let mut out: Vec<FieldNode> = Vec::new();
            let mut index: usize = 0;
            while index < fields.len()
                invariant
                    index <= fields@.len(),
                    below < depth,
                    reads_back(*old(nbe), *nbe),
                    mode == QuoteMode::Retained && id.0 < old(nbe).arena.value_nodes().len() ==> old(
                        nbe,
                    ).arena.value_nodes()[id.0 as int].face == TermFace::Rebuilt,
                    out@.len() == index,
                    forall|k: int| 0 <= k < index ==> (#[trigger] out@[k]).label == fields@[k].label,
                    good ==> mode == QuoteMode::Canonical && sem_fields_cost(old(nbe).arena, fields@, below as nat) is Some
                        && syn_start + 1 + sem_fields_cost(old(nbe).arena, fields@, below as nat)->Some_0 <= u32::MAX + 1,
                    good ==> sem_fields_cost(old(nbe).arena, fields@.take(index as int), below as nat) is Some
                        && nbe.syntax.nodes().len() <= syn_start + sem_fields_cost(
                        old(nbe).arena,
                        fields@.take(index as int),
                        below as nat,
                    )->Some_0,
                    good ==> forall|k: int| 0 <= k < index ==> (#[trigger] out@[k]).value.0 < nbe.syntax.nodes().len(),
                    mode != QuoteMode::Unfolding ==> forall|k: int|
                        0 <= k < index ==> quoted_value(
                            nbe.arena,
                            nbe.syntax.nodes(),
                            mode,
                            fields@[k].value,
                            (#[trigger] out@[k]).value.0,
                        ),
                decreases fields@.len() - index,
            {
                let ghost before = *nbe;
                proof {
                    if good {
                        lemma_sem_fields_cost_take(old(nbe).arena, fields@, below as nat, index as int);
                        lemma_sem_cost_stable(old(nbe).arena, nbe.arena, fields@[index as int].value, below as nat);
                    }
                }
                let value = quote_value_at(nbe, fields[index].value, mode, below)?;
                let ghost prior = out@;
                out.push(FieldNode { label: fields[index].label.clone(), value });
                index = index + 1;
                proof {
                    assert forall|k: int| 0 <= k < index implies (#[trigger] out@[k]).label
                        == fields@[k].label by {
                        if k < index - 1 {
                            assert(out@[k] == prior[k]);
                        }
                    }
                    if mode != QuoteMode::Unfolding {
                        assert forall|k: int| 0 <= k < index implies quoted_value(
                            nbe.arena,
                            nbe.syntax.nodes(),
                            mode,
                            fields@[k].value,
                            (#[trigger] out@[k]).value.0,
                        ) by {
                            if k < index - 1 {
                                assert(out@[k] == prior[k]);
                                lemma_quoted_value_stable(
                                    before.arena,
                                    nbe.arena,
                                    before.syntax.nodes(),
                                    nbe.syntax.nodes(),
                                    mode,
                                    fields@[k].value,
                                    out@[k].value.0,
                                );
                            }
                        }
                    }
                }
            }
            proof {
                assert(fields@.take(fields@.len() as int) =~= fields@);
            }
            ValueNode::Record(out)
        },
        SemValueNode::Thunk(grade, closure) => {
            let (_, whnf) = open(nbe, closure, below)?;
            ValueNode::Thunk(grade, quote_comp_at(nbe, whnf, mode, below)?)
        },
    };
    let ghost before = *nbe;
    let ghost emitted = syntax;
    proof {
        if mode == QuoteMode::Unfolding && id.0 < old(nbe).arena.value_nodes().len() && unfoldable_head(
            old(nbe).arena,
            old(nbe).defs.entries(),
            id,
            ForceMode::Unfold,
        ) && old(nbe).fuel > 0 && unfolds_to_literal(
            old(nbe).arena,
            old(nbe).defs.entries(),
            old(nbe).syntax.nodes(),
            id,
        ) && has_room(old(nbe).arena.value_nodes().len()) {
            let bid = head_definition(old(nbe).arena, old(nbe).defs.entries(), id)->Some_0.body;
            let bv = old(nbe).syntax.nodes()[bid.0 as int]->Value_0;
            assert(shape == literal_form(bv));
            assert(emitted == bv);
            assert(nbe.syntax.nodes() == old(nbe).syntax.nodes());
            nbe.syntax.lemma_value_children_below(bid, bv);
            assert(all_below(value_children(emitted), nbe.syntax.nodes().len() as int));
        }
        if good {
            lemma_small_below();
            let len = nbe.syntax.nodes().len() as int;
            match emitted {
                ValueNode::List(xs) => {
                    assert forall|k: int| 0 <= k < value_children(emitted).len() implies #[trigger] value_children(
                        emitted,
                    )[k] < len by {
                        assert(value_children(emitted)[k] == xs@[k].0);
                    }
                },
                ValueNode::Record(fs) => {
                    assert forall|k: int| 0 <= k < value_children(emitted).len() implies #[trigger] value_children(
                        emitted,
                    )[k] < len by {
                        assert(value_children(emitted)[k] == fs@[k].value.0);
                    }
                },
                _ => {},
            }
            assert(all_below(value_children(emitted), len));
            assert(len <= u32::MAX);
        }
    }
    let n = emit_value(nbe, syntax)?;
    proof {
        if mode == QuoteMode::Unfolding && id.0 < old(nbe).arena.value_nodes().len() && unfoldable_head(
            old(nbe).arena,
            old(nbe).defs.entries(),
            id,
            ForceMode::Unfold,
        ) && old(nbe).fuel > 0 && unfolds_to_literal(
            old(nbe).arena,
            old(nbe).defs.entries(),
            old(nbe).syntax.nodes(),
            id,
        ) && has_room(old(nbe).arena.value_nodes().len()) {
            let body = old(nbe).syntax.nodes()[head_definition(old(nbe).arena, old(nbe).defs.entries(), id)->Some_0.body.0 as int];
            assert(shape == literal_form(body->Value_0));
            assert(body == SyntaxNode::Value(emitted));
            assert(nbe.syntax.nodes()[n.0 as int] == SyntaxNode::Value(emitted));
        }
        if mode != QuoteMode::Unfolding {
            assert(nbe.syntax.nodes()[n.0 as int] == SyntaxNode::Value(emitted));
            assert(nbe.arena.value_nodes()[id.0 as int] == start.arena.value_nodes()[id.0 as int]);
            match shape {
                SemValueNode::Pair(i, j) => {
                    let x = emitted->Pair_0;
                    let y = emitted->Pair_1;
                    assert(value_children(emitted)[0] == x.0);
                    assert(value_children(emitted)[1] == y.0);
                    lemma_quoted_value_stable(before.arena, nbe.arena, before.syntax.nodes(), nbe.syntax.nodes(), mode, i, x.0);
                    lemma_quoted_value_stable(before.arena, nbe.arena, before.syntax.nodes(), nbe.syntax.nodes(), mode, j, y.0);
                },
                SemValueNode::Inj(_, i) => {
                    let x = emitted->Inj_1;
                    assert(value_children(emitted)[0] == x.0);
                    lemma_quoted_value_stable(before.arena, nbe.arena, before.syntax.nodes(), nbe.syntax.nodes(), mode, i, x.0);
                },
                SemValueNode::Reified(_) => {
                    assert(value_children(emitted)[0] == emitted->Stk_0.0);
                },
                SemValueNode::Here(i) => {
                    let x = emitted->Here_0;
                    assert(value_children(emitted)[0] == x.0);
                    lemma_quoted_value_stable(before.arena, nbe.arena, before.syntax.nodes(), nbe.syntax.nodes(), mode, i, x.0);
                },
                SemValueNode::Ctor { payload, .. } => {
                    let x = emitted->Ctor_payload;
                    assert(value_children(emitted)[0] == x.0);
                    lemma_quoted_value_stable(before.arena, nbe.arena, before.syntax.nodes(), nbe.syntax.nodes(), mode, payload, x.0);
                },
                SemValueNode::List(ids) => {
                    let xs = emitted->List_0@;
                    assert forall|k: int| 0 <= k < ids@.len() implies (#[trigger] xs[k]).0 < n.0
                        && quoted_value(nbe.arena, nbe.syntax.nodes(), mode, ids@[k], xs[k].0) by {
                        assert(value_children(emitted)[k] == xs[k].0);
                        lemma_quoted_value_stable(before.arena, nbe.arena, before.syntax.nodes(), nbe.syntax.nodes(), mode, ids@[k], xs[k].0);
                    }
                    lemma_quoted_values_gather(nbe.arena, nbe.syntax.nodes(), mode, n.0 as int, ids@, xs);
                },
                SemValueNode::Record(fields) => {
                    let out = emitted->Record_0@;
                    assert forall|k: int| 0 <= k < fields@.len() implies (#[trigger] out[k]).label
                        == fields@[k].label && out[k].value.0 < n.0 && quoted_value(
                        nbe.arena,
                        nbe.syntax.nodes(),
                        mode,
                        fields@[k].value,
                        out[k].value.0,
                    ) by {
                        assert(value_children(emitted)[k] == out[k].value.0);
                        lemma_quoted_value_stable(before.arena, nbe.arena, before.syntax.nodes(), nbe.syntax.nodes(), mode, fields@[k].value, out[k].value.0);
                    }
                    lemma_quoted_fields_gather(nbe.arena, nbe.syntax.nodes(), mode, n.0 as int, fields@, out);
                },
                _ => {},
            }
        }
    }
    Ok(n)
}

/// Syntax node `n` reads back the semantic computation `c` of `a` in `mode`,
/// at its head: a returner as a returner of its value's readback, a function
/// as an abstraction carrying no annotation, and a lazy pair as a lazy pair;
/// bodies under binders are not described here, and neutral computations
/// are described by [`neutral_spine_readback`].
pub open spec fn quoted_comp_head(a: SemArena, nodes: Seq<SyntaxNode>, mode: QuoteMode, c: SemCompId, n: u32) -> bool {
    &&& c.0 < a.comp_nodes().len()
    &&& match a.comp_nodes()[c.0 as int].node {
        SemCompNode::Return(v) => n < nodes.len() && match nodes[n as int] {
            SyntaxNode::Comp(CompNode::Ret(x)) => x.0 < n && quoted_value(a, nodes, mode, v, x.0),
            _ => false,
        },
        SemCompNode::Lambda(_) => n < nodes.len() && nodes[n as int] matches SyntaxNode::Comp(
            CompNode::Abs(_, None, _),
        ),
        SemCompNode::LazyPair(_, _) => n < nodes.len() && nodes[n as int] matches SyntaxNode::Comp(
            CompNode::With(_, _),
        ),
        SemCompNode::Neutral(_) => true,
    }
}

/// A weak-head form that reads back as a single leaf node: a literal or a
/// hole.
pub open spec fn plain_form(node: SemValueNode) -> bool {
    node is Unit || node is Int || node is Str || node is Num || node matches SemValueNode::Rigid(
        Rigid::Hole(_),
        _,
    )
}

/// Computation `id` of `a` is a neutral stuck on a hole with nothing applied
/// to it: reading it back writes one hole node.
pub open spec fn stuck_hole_at(a: SemArena, id: SemCompId) -> bool {
    &&& id.0 < a.comp_nodes().len()
    &&& a.comp_nodes()[id.0 as int].node matches SemCompNode::Neutral(n)
    &&& n.0 < a.neutral_nodes().len()
    &&& a.neutral_nodes()[n.0 as int].head is Hole
    &&& a.neutral_nodes()[n.0 as int].spine@.len() == 0
}

/// The value node a weak-head form reads back as, at its outermost former:
/// the same literal, injection side, grade, stack, hole or constructor tag,
/// and a variable for any other rigid head.
pub open spec fn former_readback(shape: SemValueNode, node: SyntaxNode) -> bool {
    match node {
        SyntaxNode::Value(v) => match shape {
            SemValueNode::Unit => v is Unit,
            SemValueNode::Int(i) => v == ValueNode::Int(i),
            SemValueNode::Str(text) => v == ValueNode::Str(text),
            SemValueNode::Num(x) => v == ValueNode::Num(x),
            SemValueNode::Pair(_, _) => v is Pair,
            SemValueNode::Inj(side, _) => match v {
                ValueNode::Inj(other, _) => other == side,
                _ => false,
            },
            SemValueNode::List(_) => v is List,
            SemValueNode::Record(_) => v is Record,
            SemValueNode::Thunk(g, _) => match v {
                ValueNode::Thunk(h, _) => h == g,
                _ => false,
            },
            SemValueNode::Here(_) => v is Here,
            SemValueNode::Ctor { tag, .. } => match v {
                ValueNode::Ctor { tag: other, .. } => other == tag,
                _ => false,
            },
            SemValueNode::Reified(st) => v == ValueNode::Stk(st),
            SemValueNode::Rigid(Rigid::Hole(h), _) => v == ValueNode::Hole(h),
            SemValueNode::Rigid(_, _) => v is Var,
        },
        _ => false,
    }
}

/// The computation node a neutral head reads back as: the same former,
/// carrying the head's hole, projected label and primitive, and as many
/// arms, arguments and clauses as the head. A mismatch reads back as the
/// computation it wraps, whatever that is.
pub open spec fn head_readback(head: NeutralHead, node: SyntaxNode) -> bool {
    match node {
        SyntaxNode::Comp(c) => match head {
            NeutralHead::Force(_) => c is Force,
            NeutralHead::Case { .. } => c is Case,
            NeutralHead::DataCase { arms, .. } => match c {
                CompNode::DataCase(_, out) => out@.len() == arms@.len(),
                _ => false,
            },
            NeutralHead::ListCase { .. } => c is ListCase,
            NeutralHead::Split { .. } => c is Split,
            NeutralHead::Project { label, .. } => match c {
                CompNode::RecordProj { label: other, .. } => other@ == label@,
                _ => false,
            },
            NeutralHead::Walk { .. } => c is Walk,
            NeutralHead::Native { prim, args } => match c {
                CompNode::Native { prim: other, args: out } => other == prim && out@.len()
                    == args@.len(),
                _ => false,
            },
            NeutralHead::Dup(_) => c is Dup,
            NeutralHead::Drop(_) => c is Drop,
            NeutralHead::Perform { .. } => c is Perform,
            NeutralHead::Handle { ops, .. } => match c {
                CompNode::Handle { ops: out, .. } => out@.len() == ops@.len(),
                _ => false,
            },
            NeutralHead::Resume { .. } => c is Resume,
            NeutralHead::Reset(_) => c is Reset,
            NeutralHead::Shift(_) => c is Shift,
            NeutralHead::Hole(h) => c == CompNode::Hole(h),
            NeutralHead::Mismatch(_) => true,
        },
        _ => false,
    }
}

/// The computation node an eliminator reads back as: an application, the
/// same projection, or a sequencing.
pub open spec fn elim_readback(e: Elim, node: SyntaxNode) -> bool {
    match node {
        SyntaxNode::Comp(c) => match e {
            Elim::Apply(_) => c is App,
            Elim::Project(side) => match c {
                CompNode::Prj(other, _) => other == side,
                _ => false,
            },
            Elim::Sequence(_) => c is Bind,
        },
        _ => false,
    }
}

/// The values a neutral head holds read back as the matching children of
/// `node`: the scrutinee of a case, a data case, a list case, a split or a
/// walk, the forced value, the projected record, the duplicated or dropped
/// value, the performed payload, the resumed value, and each argument of a
/// stuck primitive. Closure bodies under a head are not described here.
pub open spec fn head_slots_read_back(
    a: SemArena,
    nodes: Seq<SyntaxNode>,
    mode: QuoteMode,
    head: NeutralHead,
    node: SyntaxNode,
) -> bool {
    match node {
        SyntaxNode::Comp(c) => match head {
            NeutralHead::Force(v) => match c {
                CompNode::Force(x) => quoted_value(a, nodes, mode, v, x.0),
                _ => false,
            },
            NeutralHead::Case { scrutinee, .. } => match c {
                CompNode::Case(x, _, _) => quoted_value(a, nodes, mode, scrutinee, x.0),
                _ => false,
            },
            NeutralHead::DataCase { scrutinee, .. } => match c {
                CompNode::DataCase(x, _) => quoted_value(a, nodes, mode, scrutinee, x.0),
                _ => false,
            },
            NeutralHead::ListCase { scrutinee, .. } => match c {
                CompNode::ListCase { scrut, .. } => quoted_value(a, nodes, mode, scrutinee, scrut.0),
                _ => false,
            },
            NeutralHead::Split { scrutinee, .. } => match c {
                CompNode::Split { scrut, .. } => quoted_value(a, nodes, mode, scrutinee, scrut.0),
                _ => false,
            },
            NeutralHead::Project { record, .. } => match c {
                CompNode::RecordProj { record: x, .. } => quoted_value(a, nodes, mode, record, x.0),
                _ => false,
            },
            NeutralHead::Walk { scrutinee, .. } => match c {
                CompNode::Walk { scrut, .. } => quoted_value(a, nodes, mode, scrutinee, scrut.0),
                _ => false,
            },
            NeutralHead::Native { args, .. } => match c {
                CompNode::Native { args: out, .. } => out@.len() == args@.len() && forall|i: int|
                    0 <= i < out@.len() ==> quoted_value(a, nodes, mode, args@[i], (#[trigger] out@[i]).0),
                _ => false,
            },
            NeutralHead::Dup(v) => match c {
                CompNode::Dup(x) => quoted_value(a, nodes, mode, v, x.0),
                _ => false,
            },
            NeutralHead::Drop(v) => match c {
                CompNode::Drop(x) => quoted_value(a, nodes, mode, v, x.0),
                _ => false,
            },
            NeutralHead::Perform { payload, .. } => match c {
                CompNode::Perform(_, _, x) => quoted_value(a, nodes, mode, payload, x.0),
                _ => false,
            },
            NeutralHead::Resume { value, .. } => match c {
                CompNode::Resume(x, _) => quoted_value(a, nodes, mode, value, x.0),
                _ => false,
            },
            _ => true,
        },
        _ => false,
    }
}

/// Syntax node `n` reads back the neutral made of `head` with the
/// eliminators `spine` applied, innermost first: with nothing applied, the
/// head's node and the values it holds; otherwise the last eliminator's node
/// over the readback of the rest: an application to the argument's
/// readback, the same projection, or a sequencing.
pub open spec fn spine_readback(
    a: SemArena,
    nodes: Seq<SyntaxNode>,
    mode: QuoteMode,
    head: NeutralHead,
    spine: Seq<Elim>,
    n: u32,
) -> bool
    decreases spine.len(),
{
    n < nodes.len() && if spine.len() == 0 {
        head_readback(head, nodes[n as int]) && head_slots_read_back(a, nodes, mode, head, nodes[n as int])
    } else {
        match nodes[n as int] {
            SyntaxNode::Comp(c) => match (spine.last(), c) {
                (Elim::Apply(arg), CompNode::App(m, x)) => m.0 < n && quoted_value(a, nodes, mode, arg, x.0)
                    && spine_readback(a, nodes, mode, head, spine.drop_last(), m.0),
                (Elim::Project(side), CompNode::Prj(other, m)) => other == side && m.0 < n
                    && spine_readback(a, nodes, mode, head, spine.drop_last(), m.0),
                (Elim::Sequence(_), CompNode::Bind(m, _, _)) => m.0 < n && spine_readback(
                    a,
                    nodes,
                    mode,
                    head,
                    spine.drop_last(),
                    m.0,
                ),
                _ => false,
            },
            _ => false,
        }
    }
}

/// The values a head holds keep reading back as the store grows.
pub proof fn lemma_head_slots_stable(
    a: SemArena,
    b: SemArena,
    nodes: Seq<SyntaxNode>,
    more: Seq<SyntaxNode>,
    mode: QuoteMode,
    head: NeutralHead,
    node: SyntaxNode,
)
    requires
        head_slots_read_back(a, nodes, mode, head, node),
        grows(a, b),
        extends(more, nodes),
    ensures
        head_slots_read_back(b, more, mode, head, node),
{
    let c = node->Comp_0;
    match head {
        NeutralHead::Force(v) => lemma_quoted_value_stable(a, b, nodes, more, mode, v, c->Force_0.0),
        NeutralHead::Case { scrutinee, .. } => lemma_quoted_value_stable(a, b, nodes, more, mode, scrutinee, c->Case_0.0),
        NeutralHead::DataCase { scrutinee, .. } => lemma_quoted_value_stable(a, b, nodes, more, mode, scrutinee, c->DataCase_0.0),
        NeutralHead::ListCase { scrutinee, .. } => lemma_quoted_value_stable(a, b, nodes, more, mode, scrutinee, c->ListCase_scrut.0),
        NeutralHead::Split { scrutinee, .. } => lemma_quoted_value_stable(a, b, nodes, more, mode, scrutinee, c->Split_scrut.0),
        NeutralHead::Project { record, .. } => lemma_quoted_value_stable(a, b, nodes, more, mode, record, c->RecordProj_record.0),
        NeutralHead::Walk { scrutinee, .. } => lemma_quoted_value_stable(a, b, nodes, more, mode, scrutinee, c->Walk_scrut.0),
        NeutralHead::Native { args, .. } => {
            let out = c->Native_args;
            assert forall|i: int| 0 <= i < out@.len() implies quoted_value(b, more, mode, args@[i], (#[trigger] out@[i]).0) by {
                lemma_quoted_value_stable(a, b, nodes, more, mode, args@[i], out@[i].0);
            }
        },
        NeutralHead::Dup(v) => lemma_quoted_value_stable(a, b, nodes, more, mode, v, c->Dup_0.0),
        NeutralHead::Drop(v) => lemma_quoted_value_stable(a, b, nodes, more, mode, v, c->Drop_0.0),
        NeutralHead::Perform { payload, .. } => lemma_quoted_value_stable(a, b, nodes, more, mode, payload, c->Perform_2.0),
        NeutralHead::Resume { value, .. } => lemma_quoted_value_stable(a, b, nodes, more, mode, value, c->Resume_0.0),
        _ => {},
    }
}

/// A neutral's readback keeps reading back as the store grows.
pub proof fn lemma_spine_readback_stable(
    a: SemArena,
    b: SemArena,
    nodes: Seq<SyntaxNode>,
    more: Seq<SyntaxNode>,
    mode: QuoteMode,
    head: NeutralHead,
    spine: Seq<Elim>,
    n: u32,
)
    requires
        spine_readback(a, nodes, mode, head, spine, n),
        grows(a, b),
        extends(more, nodes),
    ensures
        spine_readback(b, more, mode, head, spine, n),
    decreases spine.len(),
{
    assert(more[n as int] == nodes[n as int]);
    if spine.len() == 0 {
        lemma_head_slots_stable(a, b, nodes, more, mode, head, nodes[n as int]);
    } else {
        let c = nodes[n as int]->Comp_0;
        match spine.last() {
            Elim::Apply(arg) => {
                lemma_quoted_value_stable(a, b, nodes, more, mode, arg, c->App_1.0);
                lemma_spine_readback_stable(a, b, nodes, more, mode, head, spine.drop_last(), c->App_0.0);
            },
            Elim::Project(_) => {
                lemma_spine_readback_stable(a, b, nodes, more, mode, head, spine.drop_last(), c->Prj_1.0);
            },
            Elim::Sequence(_) => {
                lemma_spine_readback_stable(a, b, nodes, more, mode, head, spine.drop_last(), c->Bind_0.0);
            },
        }
    }
}

/// Syntax node `n` reads back computation `id` of `a`, when that is a
/// neutral, through its head and its whole spine ([`spine_readback`]).
pub open spec fn neutral_spine_readback(a: SemArena, nodes: Seq<SyntaxNode>, mode: QuoteMode, id: SemCompId, n: u32) -> bool {
    id.0 < a.comp_nodes().len() ==> match a.comp_nodes()[id.0 as int].node {
        SemCompNode::Neutral(k) => k.0 < a.neutral_nodes().len() ==> spine_readback(
            a,
            nodes,
            mode,
            a.neutral_nodes()[k.0 as int].head,
            a.neutral_nodes()[k.0 as int].spine@,
            n,
        ),
        _ => true,
    }
}

/// A copied head holds the same values.
proof fn lemma_head_slots_same(
    a: SemArena,
    nodes: Seq<SyntaxNode>,
    mode: QuoteMode,
    h1: NeutralHead,
    h2: NeutralHead,
    node: SyntaxNode,
)
    requires
        same_head(h1, h2),
    ensures
        head_slots_read_back(a, nodes, mode, h1, node) == head_slots_read_back(a, nodes, mode, h2, node),
{
}

/// A copied head reads back with any spine as the original does.
proof fn lemma_spine_readback_same(
    a: SemArena,
    nodes: Seq<SyntaxNode>,
    mode: QuoteMode,
    h1: NeutralHead,
    h2: NeutralHead,
    spine: Seq<Elim>,
    n: u32,
)
    requires
        same_head(h1, h2),
    ensures
        spine_readback(a, nodes, mode, h1, spine, n) == spine_readback(a, nodes, mode, h2, spine, n),
    decreases spine.len(),
{
    if spine.len() == 0 {
        if n < nodes.len() {
            lemma_head_readback_same(h1, h2, nodes[n as int]);
            lemma_head_slots_same(a, nodes, mode, h1, h2, nodes[n as int]);
        }
    } else if n < nodes.len() {
        match nodes[n as int] {
            SyntaxNode::Comp(c) => match (spine.last(), c) {
                (Elim::Apply(_), CompNode::App(m, _)) => lemma_spine_readback_same(a, nodes, mode, h1, h2, spine.drop_last(), m.0),
                (Elim::Project(_), CompNode::Prj(_, m)) => lemma_spine_readback_same(a, nodes, mode, h1, h2, spine.drop_last(), m.0),
                (Elim::Sequence(_), CompNode::Bind(m, _, _)) => lemma_spine_readback_same(a, nodes, mode, h1, h2, spine.drop_last(), m.0),
                _ => {},
            },
            _ => {},
        }
    }
}

/// How computation `id` of `a` reads back as `node` when it is a neutral: by
/// its outermost eliminator, or by its head when nothing is applied to it.
pub open spec fn neutral_readback(a: SemArena, id: SemCompId, node: SyntaxNode) -> bool {
    id.0 < a.comp_nodes().len() ==> match a.comp_nodes()[id.0 as int].node {
        SemCompNode::Neutral(n) => n.0 < a.neutral_nodes().len() ==> {
            let stuck = a.neutral_nodes()[n.0 as int];
            if stuck.spine@.len() == 0 {
                head_readback(stuck.head, node)
            } else {
                elim_readback(stuck.spine@.last(), node)
            }
        },
        _ => true,
    }
}

/// How computation `id` of `a` reads back as `node` when it is an
/// abstraction over a binder: an abstraction whose binder renders the level
/// `level`.
pub open spec fn lambda_readback(a: SemArena, id: SemCompId, level: u32, node: SyntaxNode) -> bool {
    id.0 < a.comp_nodes().len() ==> match a.comp_nodes()[id.0 as int].node {
        SemCompNode::Lambda(cl) => cl.0 < a.closure_nodes().len() && a.closure_nodes()[cl.0 as int].binders@.len()
            > 0 ==> match node {
            SyntaxNode::Comp(CompNode::Abs(binder, _, _)) => binder@ == level_chars(level as nat),
            _ => false,
        },
        _ => true,
    }
}

/// A copied head reads back as the original does.
proof fn lemma_head_readback_same(a: NeutralHead, b: NeutralHead, node: SyntaxNode)
    requires
        same_head(a, b),
    ensures
        head_readback(a, node) == head_readback(b, node),
{
}

/// Reads a closure back: opens it under fresh levels and reads its body.
fn quote_closure(nbe: &mut Normalizer, closure: ClosureId, mode: QuoteMode, depth: u32) -> (r: Result<
    (Vec<String>, CompNodeId),
    SemError,
>)
    requires
        old(nbe).wf(),
    ensures
        reads_back(*old(nbe), *final(nbe)),
        depth == 0 ==> r == Err::<(Vec<String>, CompNodeId), SemError>(SemError::StepLimit),
        depth > 0 && closure.0 >= old(nbe).arena.closure_nodes().len() ==> r == Err::<
            (Vec<String>, CompNodeId),
            SemError,
        >(SemError::MissingClosure(closure)),
        r matches Ok((names, body)) ==> {
            &&& closure.0 < old(nbe).arena.closure_nodes().len()
            &&& names@.len() == old(nbe).arena.closure_nodes()[closure.0 as int].binders@.len()
            &&& forall|j: int| 0 <= j < names@.len() ==> (#[trigger] names@[j])@ == level_chars(
                level_after(old(nbe).next_level, j as nat) as nat,
            )
            &&& body.0 < final(nbe).syntax.nodes().len()
        },
    decreases depth, 0nat,
{
    if depth == 0 {
        return Err(SemError::StepLimit);
    }
    let (names, whnf) = open(nbe, closure, depth - 1)?;
    let body = quote_comp_at(nbe, whnf, mode, depth - 1)?;
    Ok((names, body))
}

/// Reads a semantic computation back into the syntax store.
pub fn quote_comp_at(nbe: &mut Normalizer, id: SemCompId, mode: QuoteMode, depth: u32) -> (r:
    Result<CompNodeId, SemError>)
    requires
        old(nbe).wf(),
    ensures
        reads_back(*old(nbe), *final(nbe)),
        mode != QuoteMode::Unfolding ==> (r matches Ok(n) ==> quoted_comp_head(
            final(nbe).arena,
            final(nbe).syntax.nodes(),
            mode,
            id,
            n.0,
        )),
        r matches Ok(n) ==> n.0 < final(nbe).syntax.nodes().len(),
        depth == 0 ==> r == Err::<CompNodeId, SemError>(SemError::StepLimit),
        depth > 0 && id.0 >= old(nbe).arena.comp_nodes().len() ==> r == Err::<CompNodeId, SemError>(
            SemError::MissingComp(id),
        ),
        depth > 0 && stuck_hole_at(old(nbe).arena, id) && old(nbe).syntax.nodes().len() <= u32::MAX
            ==> r is Ok,
        r matches Ok(n) ==> final(nbe).syntax.nodes()[n.0 as int] is Comp,
        mode != QuoteMode::Unfolding ==> (r matches Ok(n) ==> neutral_readback(
            old(nbe).arena,
            id,
            final(nbe).syntax.nodes()[n.0 as int],
        )),
        mode != QuoteMode::Unfolding ==> (r matches Ok(n) ==> neutral_spine_readback(
            final(nbe).arena,
            final(nbe).syntax.nodes(),
            mode,
            id,
            n.0,
        )),
        r matches Ok(n) ==> lambda_readback(
            old(nbe).arena,
            id,
            old(nbe).next_level,
            final(nbe).syntax.nodes()[n.0 as int],
        ),
    decreases depth, 1nat,
{
    if depth == 0 {
        return Err(SemError::StepLimit);
    }
    let below = depth - 1;
    let ghost start = *nbe;
    match nbe.arena.comp(id)?.node {
        SemCompNode::Lambda(closure) => {
            let (names, body) = quote_closure(nbe, closure, mode, below)?;
            let binder = first_name(&names);
            let ghost emitted = CompNode::Abs(binder, None, body);
            let n = emit_comp(nbe, CompNode::Abs(binder, None, body))?;
            proof {
                assert(nbe.arena.comp_nodes()[id.0 as int] == start.arena.comp_nodes()[id.0 as int]);
                assert(nbe.syntax.nodes()[n.0 as int] == SyntaxNode::Comp(emitted));
            }
            Ok(n)
        },
        SemCompNode::Return(value) => {
            let quoted = quote_value_at(nbe, value, mode, below)?;
            let ghost before = *nbe;
            let n = emit_comp(nbe, CompNode::Ret(quoted))?;
            proof {
                assert(nbe.arena.comp_nodes()[id.0 as int] == start.arena.comp_nodes()[id.0 as int]);
                assert(nbe.syntax.nodes()[n.0 as int] == SyntaxNode::Comp(CompNode::Ret(quoted)));
                assert(comp_children(CompNode::Ret(quoted))[0] == quoted.0);
                if mode != QuoteMode::Unfolding {
                    lemma_quoted_value_stable(
                        before.arena,
                        nbe.arena,
                        before.syntax.nodes(),
                        nbe.syntax.nodes(),
                        mode,
                        value,
                        quoted.0,
                    );
                }
            }
            Ok(n)
        },
        SemCompNode::LazyPair(fst, snd) => {
            let (_, fst) = quote_closure(nbe, fst, mode, below)?;
            let (_, snd) = quote_closure(nbe, snd, mode, below)?;
            let n = emit_comp(nbe, CompNode::With(fst, snd))?;
            proof {
                assert(nbe.arena.comp_nodes()[id.0 as int] == start.arena.comp_nodes()[id.0 as int]);
            }
            Ok(n)
        },
        SemCompNode::Neutral(stuck) => {
            if mode == QuoteMode::Unfolding {
                match unfold_neutral(nbe, stuck, ForceMode::Unfold, below)? {
                    Some(unfolded) => {
                        return quote_comp_at(nbe, unfolded, mode, below);
                    },
                    None => {},
                }
            }
            let ghost unfolded_arena = nbe.arena;
            let (head, spine) = {
                let neutral = nbe.arena.neutral(stuck)?;
                (neutral.head.duplicate(), copy_vec(&neutral.spine))
            };
            let ghost first_head = head;
            proof {
                if mode != QuoteMode::Unfolding {
                    assert(unfolded_arena == start.arena);
                }
            }
            let mut current = queue_head(nbe, head, mode, below)?;
            proof {
                assert(spine@.take(0) =~= Seq::<Elim>::empty());
            }
            let mut index: usize = 0;
            while index < spine.len()
                invariant
                    index <= spine@.len(),
                    index == 0 ==> head_readback(first_head, nbe.syntax.nodes()[current.0 as int]),
                    index > 0 ==> elim_readback(spine@[index - 1], nbe.syntax.nodes()[current.0 as int]),
                    mode != QuoteMode::Unfolding ==> spine_readback(
                        nbe.arena,
                        nbe.syntax.nodes(),
                        mode,
                        first_head,
                        spine@.take(index as int),
                        current.0,
                    ),
                    mode != QuoteMode::Unfolding ==> stuck.0 < start.arena.neutral_nodes().len()
                        && same_head(first_head, start.arena.neutral_nodes()[stuck.0 as int].head)
                        && spine@ == start.arena.neutral_nodes()[stuck.0 as int].spine@,
                    start.arena.comp_nodes()[id.0 as int].node == SemCompNode::Neutral(stuck),
                    below < depth,
                    reads_back(*old(nbe), *nbe),
                    current.0 < nbe.syntax.nodes().len(),
                    stuck_hole_at(old(nbe).arena, id) ==> spine@.len() == 0,
                    id.0 < old(nbe).arena.comp_nodes().len(),
                decreases spine@.len() - index,
            {
                let ghost s0 = *nbe;
                let ghost prev = current;
                let ghost done = spine@.take(index as int);
                proof {
                    assert(spine@.take(index + 1).drop_last() =~= done);
                    assert(spine@.take(index + 1).last() == spine@[index as int]);
                }
                current = match spine[index] {
                    Elim::Apply(arg_id) => {
                        let arg = quote_value_at(nbe, arg_id, mode, below)?;
                        let ghost s1 = *nbe;
                        let n = emit_comp(nbe, CompNode::App(current, arg))?;
                        proof {
                            if mode != QuoteMode::Unfolding {
                                lemma_spine_readback_stable(s0.arena, nbe.arena, s0.syntax.nodes(), nbe.syntax.nodes(), mode, first_head, done, prev.0);
                                lemma_slot_kept(s1, *nbe, mode, arg_id, arg.0);
                                assert(nbe.syntax.nodes()[n.0 as int] == SyntaxNode::Comp(CompNode::App(prev, arg)));
                            }
                        }
                        n
                    },
                    Elim::Project(side) => {
                        let n = emit_comp(nbe, CompNode::Prj(side, current))?;
                        proof {
                            if mode != QuoteMode::Unfolding {
                                lemma_spine_readback_stable(s0.arena, nbe.arena, s0.syntax.nodes(), nbe.syntax.nodes(), mode, first_head, done, prev.0);
                                assert(nbe.syntax.nodes()[n.0 as int] == SyntaxNode::Comp(CompNode::Prj(side, prev)));
                            }
                        }
                        n
                    },
                    Elim::Sequence(closure) => {
                        let (names, body) = quote_closure(nbe, closure, mode, below)?;
                        let binder = first_name(&names);
                        let ghost emitted = CompNode::Bind(current, binder, body);
                        let n = emit_comp(nbe, CompNode::Bind(current, binder, body))?;
                        proof {
                            if mode != QuoteMode::Unfolding {
                                lemma_spine_readback_stable(s0.arena, nbe.arena, s0.syntax.nodes(), nbe.syntax.nodes(), mode, first_head, done, prev.0);
                                assert(nbe.syntax.nodes()[n.0 as int] == SyntaxNode::Comp(emitted));
                            }
                        }
                        n
                    },
                };
                index = index + 1;
            }
            proof {
                if mode != QuoteMode::Unfolding {
                    lemma_head_readback_same(
                        first_head,
                        start.arena.neutral_nodes()[stuck.0 as int].head,
                        nbe.syntax.nodes()[current.0 as int],
                    );
                    if spine@.len() > 0 {
                        assert(spine@.last() == spine@[spine@.len() - 1]);
                    }
                    assert(spine@.take(spine@.len() as int) =~= spine@);
                    lemma_spine_readback_same(
                        nbe.arena,
                        nbe.syntax.nodes(),
                        mode,
                        first_head,
                        start.arena.neutral_nodes()[stuck.0 as int].head,
                        spine@,
                        current.0,
                    );
                    assert(nbe.arena.comp_nodes()[id.0 as int] == start.arena.comp_nodes()[id.0 as int]);
                    assert(nbe.arena.neutral_nodes()[stuck.0 as int] == start.arena.neutral_nodes()[stuck.0 as int]);
                }
            }
            Ok(current)
        },
    }
}

/// Reads one neutral head back into the syntax store.
#[verifier::rlimit(100)]
#[verifier::spinoff_prover]
fn queue_head(nbe: &mut Normalizer, head: NeutralHead, mode: QuoteMode, depth: u32) -> (r: Result<
    CompNodeId,
    SemError,
>)
    requires
        old(nbe).wf(),
    ensures
        reads_back(*old(nbe), *final(nbe)),
        r matches Ok(n) ==> n.0 < final(nbe).syntax.nodes().len(),
        r matches Ok(n) ==> head_readback(head, final(nbe).syntax.nodes()[n.0 as int]),
        mode != QuoteMode::Unfolding ==> (r matches Ok(n) ==> head_slots_read_back(
            final(nbe).arena,
            final(nbe).syntax.nodes(),
            mode,
            head,
            final(nbe).syntax.nodes()[n.0 as int],
        )),
        head is Hole ==> (r is Ok <==> old(nbe).syntax.nodes().len() <= u32::MAX),
        head matches NeutralHead::Hole(h) ==> (r matches Ok(n) ==> n.0 == old(nbe).syntax.nodes().len()
            && final(nbe).syntax.nodes() == old(nbe).syntax.nodes().push(
            SyntaxNode::Comp(CompNode::Hole(h)),
        )),
    decreases depth, 2nat,
{
    if let NeutralHead::Hole(hole) = &head {
        return emit_comp(nbe, CompNode::Hole(*hole));
    }
    let ghost mut slot: (SemValueId, u32) = (SemValueId(0), 0);
    let ghost head0 = head;
    let node = match head {
        NeutralHead::Force(value) => {
            let x = quote_value_at(nbe, value, mode, depth)?;
            proof {
                slot = (value, x.0);
            }
            CompNode::Force(x)
        },
        NeutralHead::Case { scrutinee, on_left, on_right } => {
            let scrut = quote_value_at(nbe, scrutinee, mode, depth)?;
            proof {
                slot = (scrutinee, scrut.0);
            }
            let ghost s1 = *nbe;
            let (left_names, left) = quote_closure(nbe, on_left, mode, depth)?;
            proof {
                lemma_slot_kept(s1, *nbe, mode, slot.0, slot.1);
            }
            let ghost s2 = *nbe;
            let (right_names, right) = quote_closure(nbe, on_right, mode, depth)?;
            proof {
                lemma_slot_kept(s2, *nbe, mode, slot.0, slot.1);
            }
            CompNode::Case(
                scrut,
                BranchNode { binder: first_name(&left_names), body: left },
                BranchNode { binder: first_name(&right_names), body: right },
            )
        },
        NeutralHead::DataCase { scrutinee, arms } => {
            let scrut = quote_value_at(nbe, scrutinee, mode, depth)?;
            proof {
                slot = (scrutinee, scrut.0);
            }
            let mut out: Vec<BranchNode> = Vec::new();
            let mut index: usize = 0;
            while index < arms.len()
                invariant
                    index <= arms@.len(),
                    out@.len() == index,
                    reads_back(*old(nbe), *nbe),
                    !(head is Hole),
                    slot == (scrutinee, scrut.0),
                    mode != QuoteMode::Unfolding ==> quoted_value(nbe.arena, nbe.syntax.nodes(), mode, slot.0, slot.1),
                decreases arms@.len() - index,
            {
                let ghost s1 = *nbe;
                let (names, body) = quote_closure(nbe, arms[index].body, mode, depth)?;
                proof {
                    lemma_slot_kept(s1, *nbe, mode, slot.0, slot.1);
                }
                out.push(BranchNode { binder: first_name(&names), body });
                index = index + 1;
            }
            CompNode::DataCase(scrut, out)
        },
        NeutralHead::ListCase { scrutinee, nil, cons } => {
            let scrut = quote_value_at(nbe, scrutinee, mode, depth)?;
            proof {
                slot = (scrutinee, scrut.0);
            }
            let ghost s1 = *nbe;
            let (_, nil) = quote_closure(nbe, nil, mode, depth)?;
            proof {
                lemma_slot_kept(s1, *nbe, mode, slot.0, slot.1);
            }
            let ghost s2 = *nbe;
            let (names, cons) = quote_closure(nbe, cons, mode, depth)?;
            proof {
                lemma_slot_kept(s2, *nbe, mode, slot.0, slot.1);
            }
            CompNode::ListCase {
                scrut,
                nil,
                head: first_name(&names),
                tail: second_name(&names),
                cons,
            }
        },
        NeutralHead::Split { scrutinee, body } => {
            let scrut = quote_value_at(nbe, scrutinee, mode, depth)?;
            proof {
                slot = (scrutinee, scrut.0);
            }
            let ghost s1 = *nbe;
            let (names, body) = quote_closure(nbe, body, mode, depth)?;
            proof {
                lemma_slot_kept(s1, *nbe, mode, slot.0, slot.1);
            }
            CompNode::Split {
                scrut,
                fst_name: first_name(&names),
                snd_name: second_name(&names),
                motive: None,
                body,
            }
        },
        NeutralHead::Project { record, label } => {
            let x = quote_value_at(nbe, record, mode, depth)?;
            proof {
                slot = (record, x.0);
            }
            CompNode::RecordProj { record: x, label }
        },
        NeutralHead::Walk { scrutinee, base } => {
            let scrut = quote_value_at(nbe, scrutinee, mode, depth)?;
            proof {
                slot = (scrutinee, scrut.0);
            }
            let ghost s1 = *nbe;
            let (names, body) = quote_closure(nbe, base, mode, depth)?;
            proof {
                lemma_slot_kept(s1, *nbe, mode, slot.0, slot.1);
            }
            let motive = WalkMotive::new("\u{ab}x\u{bb}", "\u{ab}y\u{bb}", "\u{ab}q\u{bb}", CompType::Unknown);
            CompNode::Walk {
                scrut,
                motive: Rc::new(motive),
                base: BranchNode { binder: first_name(&names), body },
            }
        },
        NeutralHead::Native { prim, args } => {
            let mut out: Vec<ValueNodeId> = Vec::new();
            let mut index: usize = 0;
            while index < args.len()
                invariant
                    index <= args@.len(),
                    out@.len() == index,
                    reads_back(*old(nbe), *nbe),
                    !(head is Hole),
                    mode != QuoteMode::Unfolding ==> forall|i: int|
                        0 <= i < index ==> quoted_value(nbe.arena, nbe.syntax.nodes(), mode, args@[i], (#[trigger] out@[i]).0),
                decreases args@.len() - index,
            {
                let ghost s1 = *nbe;
                let arg = quote_value_at(nbe, args[index], mode, depth)?;
                proof {
                    if mode != QuoteMode::Unfolding {
                        assert forall|i: int| 0 <= i < index implies quoted_value(nbe.arena, nbe.syntax.nodes(), mode, args@[i], (#[trigger] out@[i]).0) by {
                            lemma_slot_kept(s1, *nbe, mode, args@[i], out@[i].0);
                        }
                    }
                }
                out.push(arg);
                index = index + 1;
            }
            CompNode::Native { prim, args: out }
        },
        NeutralHead::Dup(value) => {
            let x = quote_value_at(nbe, value, mode, depth)?;
            proof {
                slot = (value, x.0);
            }
            CompNode::Dup(x)
        },
        NeutralHead::Drop(value) => {
            let x = quote_value_at(nbe, value, mode, depth)?;
            proof {
                slot = (value, x.0);
            }
            CompNode::Drop(x)
        },
        NeutralHead::Perform { source, payload } => {
            let (sig, op) = match nbe.syntax.comp_node(source) {
                Ok(CompNode::Perform(sig, op, _)) => (share(sig), op.clone()),
                _ => {
                    return Err(SemError::MissingSyntaxComp(source));
                },
            };
            let x = quote_value_at(nbe, payload, mode, depth)?;
            proof {
                slot = (payload, x.0);
            }
            CompNode::Perform(sig, op, x)
        },
        NeutralHead::Handle { source, scrutinee, ret, ops } => {
            let (sig, labels) = match nbe.syntax.comp_node(source) {
                Ok(CompNode::Handle { sig, ops: clauses, .. }) => {
                    let mut labels: Vec<String> = Vec::new();
                    let mut index: usize = 0;
                    while index < clauses.len()
                        invariant
                            index <= clauses@.len(),
                        decreases clauses@.len() - index,
                    {
                        labels.push(clauses[index].op.clone());
                        index = index + 1;
                    }
                    (share(sig), labels)
                },
                _ => {
                    return Err(SemError::MissingSyntaxComp(source));
                },
            };
            let (_, handled) = quote_closure(nbe, scrutinee, mode, depth)?;
            let (ret_names, ret_body) = quote_closure(nbe, ret, mode, depth)?;
            let mut clauses: Vec<ClauseNode> = Vec::new();
            let mut index: usize = 0;
            while index < ops.len()
                invariant
                    index <= ops@.len(),
                    clauses@.len() == index,
                    reads_back(*old(nbe), *nbe),
                    !(head is Hole),
                decreases ops@.len() - index,
            {
                let (names, body) = quote_closure(nbe, ops[index], mode, depth)?;
                let op = if index < labels.len() {
                    labels[index].clone()
                } else {
                    String::new()
                };
                clauses.push(
                    ClauseNode {
                        op,
                        payload: first_name(&names),
                        resume: second_name(&names),
                        body,
                    },
                );
                index = index + 1;
            }
            CompNode::Handle {
                sig,
                scrutinee: handled,
                ret: BranchNode { binder: first_name(&ret_names), body: ret_body },
                ops: clauses,
            }
        },
        NeutralHead::Resume { value, body } => {
            let x = quote_value_at(nbe, value, mode, depth)?;
            proof {
                slot = (value, x.0);
            }
            let ghost s1 = *nbe;
            let (_, body) = quote_closure(nbe, body, mode, depth)?;
            proof {
                lemma_slot_kept(s1, *nbe, mode, slot.0, slot.1);
            }
            CompNode::Resume(x, body)
        },
        NeutralHead::Reset(body) => {
            let (_, body) = quote_closure(nbe, body, mode, depth)?;
            CompNode::Reset(body)
        },
        NeutralHead::Shift(body) => {
            let (names, body) = quote_closure(nbe, body, mode, depth)?;
            CompNode::Shift(first_name(&names), body)
        },
        NeutralHead::Hole(hole) => CompNode::Hole(hole),
        NeutralHead::Mismatch(inner) => {
            return quote_comp_at(nbe, inner, mode, depth);
        },
    };
    let ghost pre = *nbe;
    let ghost built = node;
    let r = emit_comp(nbe, node);
    proof {
        if r is Ok && mode != QuoteMode::Unfolding {
            assert(nbe.syntax.nodes()[r->Ok_0.0 as int] == SyntaxNode::Comp(built));
            match head0 {
                NeutralHead::Native { args, .. } => {
                    let out = built->Native_args;
                    assert forall|i: int| 0 <= i < out@.len() implies quoted_value(nbe.arena, nbe.syntax.nodes(), mode, args@[i], (#[trigger] out@[i]).0) by {
                        lemma_slot_kept(pre, *nbe, mode, args@[i], out@[i].0);
                    }
                },
                NeutralHead::Case { .. } | NeutralHead::DataCase { .. } | NeutralHead::ListCase { .. }
                | NeutralHead::Split { .. } | NeutralHead::Project { .. } | NeutralHead::Walk { .. }
                | NeutralHead::Force(_) | NeutralHead::Dup(_) | NeutralHead::Drop(_)
                | NeutralHead::Perform { .. } | NeutralHead::Resume { .. } => {
                    lemma_slot_kept(pre, *nbe, mode, slot.0, slot.1);
                },
                _ => {},
            }
        }
    }
    r
}

/// A step that only reads back keeps a value's readback.
proof fn lemma_slot_kept(before: Normalizer, after: Normalizer, mode: QuoteMode, v: SemValueId, x: u32)
    requires
        reads_back(before, after),
        mode != QuoteMode::Unfolding ==> quoted_value(before.arena, before.syntax.nodes(), mode, v, x),
    ensures
        mode != QuoteMode::Unfolding ==> quoted_value(after.arena, after.syntax.nodes(), mode, v, x),
{
    if mode != QuoteMode::Unfolding {
        lemma_quoted_value_stable(before.arena, after.arena, before.syntax.nodes(), after.syntax.nodes(), mode, v, x);
    }
}

/// Reads a semantic value back into the syntax store: in the retained mode an
/// unreduced value hands back the very node it was evaluated from; in the
/// other two modes every binder is rendered from a de Bruijn level.
pub fn quote_value(nbe: &mut Normalizer, id: SemValueId, mode: QuoteMode) -> (r: Result<
    ValueNodeId,
    SemError,
>)
    requires
        old(nbe).wf(),
    ensures
        reads_back(*old(nbe), *final(nbe)),
        mode == QuoteMode::Retained && id.0 < old(nbe).arena.value_nodes().len() ==> (old(
            nbe,
        ).arena.value_nodes()[id.0 as int].face matches TermFace::Retained(term) ==> r == Ok::<
            ValueNodeId,
            SemError,
        >(term)),
        mode != QuoteMode::Unfolding ==> (r matches Ok(n) ==> quoted_value(
            final(nbe).arena,
            final(nbe).syntax.nodes(),
            mode,
            id,
            n.0,
        )),
        id.0 < old(nbe).arena.value_nodes().len() && plain_form(
            old(nbe).arena.value_nodes()[id.0 as int].node,
        ) && old(nbe).syntax.nodes().len() <= u32::MAX ==> r is Ok,
        mode == QuoteMode::Unfolding && id.0 < old(nbe).arena.value_nodes().len() && !unfoldable_head(
            old(nbe).arena,
            old(nbe).defs.entries(),
            id,
            ForceMode::Unfold,
        ) ==> (r matches Ok(n) ==> former_readback(
            old(nbe).arena.value_nodes()[id.0 as int].node,
            final(nbe).syntax.nodes()[n.0 as int],
        )),
        mode == QuoteMode::Unfolding && id.0 < old(nbe).arena.value_nodes().len() && unfoldable_head(
            old(nbe).arena,
            old(nbe).defs.entries(),
            id,
            ForceMode::Unfold,
        ) && old(nbe).fuel > 0 && unfolds_to_literal(
            old(nbe).arena,
            old(nbe).defs.entries(),
            old(nbe).syntax.nodes(),
            id,
        ) && has_room(old(nbe).arena.value_nodes().len()) ==> (r matches Ok(n)
            ==> final(nbe).syntax.nodes()[n.0 as int] == old(nbe).syntax.nodes()[head_definition(
            old(nbe).arena,
            old(nbe).defs.entries(),
            id,
        )->Some_0.body.0 as int]) && (old(nbe).syntax.nodes().len() <= u32::MAX ==> r is Ok),
        mode == QuoteMode::Canonical && sem_cost(old(nbe).arena, id, QUOTE_DEPTH as nat) is Some
            && old(nbe).syntax.nodes().len() + sem_cost(old(nbe).arena, id, QUOTE_DEPTH as nat)->Some_0
            <= u32::MAX + 1 ==> (r matches Ok(n) && n.0 < final(nbe).syntax.nodes().len()
            && final(nbe).syntax.nodes().len() <= old(nbe).syntax.nodes().len() + sem_cost(
            old(nbe).arena,
            id,
            QUOTE_DEPTH as nat,
        )->Some_0),
{
    quote_value_at(nbe, id, mode, QUOTE_DEPTH)
}

/// Reads a semantic computation back into the syntax store.
pub fn quote_comp(nbe: &mut Normalizer, id: SemCompId, mode: QuoteMode) -> (r: Result<
    CompNodeId,
    SemError,
>)
    requires
        old(nbe).wf(),
    ensures
        reads_back(*old(nbe), *final(nbe)),
        mode != QuoteMode::Unfolding ==> (r matches Ok(n) ==> quoted_comp_head(
            final(nbe).arena,
            final(nbe).syntax.nodes(),
            mode,
            id,
            n.0,
        )),
        r matches Ok(n) ==> n.0 < final(nbe).syntax.nodes().len(),
        id.0 >= old(nbe).arena.comp_nodes().len() ==> r == Err::<CompNodeId, SemError>(
            SemError::MissingComp(id),
        ),
        stuck_hole_at(old(nbe).arena, id) && old(nbe).syntax.nodes().len() <= u32::MAX ==> r is Ok,
        r matches Ok(n) ==> final(nbe).syntax.nodes()[n.0 as int] is Comp,
        mode != QuoteMode::Unfolding ==> (r matches Ok(n) ==> neutral_readback(
            old(nbe).arena,
            id,
            final(nbe).syntax.nodes()[n.0 as int],
        )),
        mode != QuoteMode::Unfolding ==> (r matches Ok(n) ==> neutral_spine_readback(
            final(nbe).arena,
            final(nbe).syntax.nodes(),
            mode,
            id,
            n.0,
        )),
        r matches Ok(n) ==> lambda_readback(
            old(nbe).arena,
            id,
            old(nbe).next_level,
            final(nbe).syntax.nodes()[n.0 as int],
        ),
{
    quote_comp_at(nbe, id, mode, QUOTE_DEPTH)
}

} // verus!
