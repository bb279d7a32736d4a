//! Evaluation: syntax nodes into semantic values, and the three force modes.
//!
//! Every introduction former evaluates to its canonical semantic form; every
//! elimination former fires its beta rule when its scrutinee is canonical and
//! otherwise becomes (or extends) a neutral. Effects, handlers, control
//! operators, duplications, discards, and natives never fire: they evaluate
//! to neutrals over their evaluated operands.
//!
//! Recursion is bounded by a depth budget: every call spends one unit, and
//! running out is the [`SemError::StepLimit`] error rather than a loop.

use std::rc::Rc;
use vstd::prelude::*;

use crate::nbe::defs::resolve;
use crate::nbe::defs::Definition;
use crate::nbe::defs::Transparency;
use crate::nbe::evaluates;
use crate::nbe::sem::env_lookup;
use crate::nbe::sem::grows;
use crate::nbe::sem::same_head;
use crate::nbe::sem::env_walk;
use crate::nbe::sem::seed;
use crate::nbe::sem::copy_vec;
use crate::nbe::sem::ClosureId;
use crate::nbe::sem::Closure;
use crate::nbe::sem::CompUnfold;
use crate::nbe::sem::DataArm;
use crate::nbe::sem::Elim;
use crate::nbe::sem::EnvFrame;
use crate::nbe::sem::EnvId;
use crate::nbe::sem::Guard;
use crate::nbe::sem::Neutral;
use crate::nbe::sem::NeutralHead;
use crate::nbe::sem::Rigid;
use crate::nbe::sem::SemComp;
use crate::nbe::sem::SemCompId;
use crate::nbe::sem::SemCompNode;
use crate::nbe::sem::SemError;
use crate::nbe::sem::SemField;
use crate::nbe::sem::SemValue;
use crate::nbe::sem::SemValueId;
use crate::nbe::sem::SemValueNode;
use crate::nbe::sem::SemArena;
use crate::nbe::sem::TermFace;
use crate::nbe::sem::ValueUnfold;
use crate::nbe::Normalizer;
use crate::store::BranchNode;
use crate::store::ClauseNode;
use crate::store::CompNode;
use crate::store::CompNodeId;
use crate::store::FieldNode;
use crate::store::SyntaxNode;
use crate::store::lemma_small_below;
use crate::store::comp_children;
use crate::store::value_children;
use crate::store::ValueNode;
use crate::store::ValueNodeId;
use crate::store::inert_value;
use crate::store::value_size;
use crate::store::values_size;
use crate::store::fields_size;
use crate::store::spelling::spells_value;
use crate::store::spelling::spells_values;
use crate::store::spelling::spells_fields;
use crate::store::spelling::referent;
use crate::syntax::names_equal;
use crate::syntax::share;
use crate::syntax::Side;
use crate::syntax::Value;
use crate::syntax::FieldValue;

verus! {

/// How far a force may unfold definitions.
#[derive(Clone, Copy, Debug, PartialEq, Eq, Structural)]
pub enum ForceMode {
    /// Unfold nothing: the neutral face stays.
    WeakHead,
    /// Unfold every definition, transparent or not, within the fuel.
    Unfold,
    /// Unfold reducible definitions only, within the fuel.
    Speculative,
}

/// The depth budget one entry into the evaluator may spend.
pub const EVAL_DEPTH: u32 = 20000;

/// The guard a freshly minted value node carries: a hole marks it holed, a
/// pending definition marks it unfoldable.
pub fn guard_of(node: &SemValueNode) -> (g: Guard)
    ensures
        node matches SemValueNode::Rigid(Rigid::Hole(_), _) ==> g.holes,
        node matches SemValueNode::Rigid(_, ValueUnfold::Pending(_)) ==> !g.rigid,
{
    match node {
        SemValueNode::Rigid(head, unfold) => {
            let base = Guard::leaf(seed(2));
            let unfolding = match unfold {
                ValueUnfold::Pending(_) => base.with_unfolding(),
                _ => base,
            };
            match head {
                Rigid::Hole(_) => unfolding.with_hole(),
                _ => unfolding,
            }
        },
        _ => Guard::leaf(seed(1)),
    }
}

/// A family of `len` nodes has room for one more: ids are `u32`.
pub open spec fn has_room(len: nat) -> bool {
    len <= u32::MAX
}

/// The value node `node` of `nodes` is a literal, a hole or a reified
/// stack: evaluating it mints one value node and reads nothing else.
pub open spec fn literal_value_at(nodes: Seq<SyntaxNode>, node: u32) -> bool {
    node < nodes.len() && match nodes[node as int] {
        SyntaxNode::Value(v) => v is Unit || v is Int || v is Str || v is Num || v is Hole || v is Stk,
        _ => false,
    }
}

/// The value node `node` of `nodes` is a literal or a hole.
pub open spec fn plain_literal_at(nodes: Seq<SyntaxNode>, node: u32) -> bool {
    node < nodes.len() && match nodes[node as int] {
        SyntaxNode::Value(v) => v is Unit || v is Int || v is Str || v is Num || v is Hole,
        _ => false,
    }
}

/// The weak-head form a literal, hole or reified-stack value node evaluates
/// to.
pub open spec fn literal_form(v: ValueNode) -> SemValueNode {
    match v {
        ValueNode::Int(i) => SemValueNode::Int(i),
        ValueNode::Str(text) => SemValueNode::Str(text),
        ValueNode::Num(n) => SemValueNode::Num(n),
        ValueNode::Hole(h) => SemValueNode::Rigid(Rigid::Hole(h), ValueUnfold::Rigid),
        ValueNode::Stk(stack) => SemValueNode::Reified(stack),
        _ => SemValueNode::Unit,
    }
}

/// What evaluating the inert value node `node` of `nodes` mints, within
/// `depth` levels: one semantic value per node of its tree; `None` when the
/// node is not inert within that depth (a thunk, an ascription or a reified
/// stack, or nesting past it).
pub open spec fn inert_cost(nodes: Seq<SyntaxNode>, node: u32, depth: nat) -> Option<nat>
    decreases node, 2nat, 0nat,
{
    if depth > 0 && node < nodes.len() {
        match nodes[node as int] {
            SyntaxNode::Value(v) => node_inert_cost(nodes, v, node as int, (depth - 1) as nat),
            _ => None,
        }
    } else {
        None
    }
}

/// [`inert_cost`] for the value node `v`, its children below `bound` and
/// within `below` levels.
pub open spec fn node_inert_cost(nodes: Seq<SyntaxNode>, v: ValueNode, bound: int, below: nat) -> Option<nat>
    decreases bound, 1nat, 0nat,
{
    match v {
        ValueNode::Pair(a, b) => if a.0 < bound && b.0 < bound {
            match (inert_cost(nodes, a.0, below), inert_cost(nodes, b.0, below)) {
                (Some(x), Some(y)) => Some(1 + x + y),
                _ => None,
            }
        } else {
            None
        },
        ValueNode::Inj(_, a) => if a.0 < bound {
            match inert_cost(nodes, a.0, below) {
                Some(x) => Some(1 + x),
                None => None,
            }
        } else {
            None
        },
        ValueNode::Here(a) => if a.0 < bound {
            match inert_cost(nodes, a.0, below) {
                Some(x) => Some(1 + x),
                None => None,
            }
        } else {
            None
        },
        ValueNode::Ctor { payload, .. } => if payload.0 < bound {
            match inert_cost(nodes, payload.0, below) {
                Some(x) => Some(1 + x),
                None => None,
            }
        } else {
            None
        },
        ValueNode::List(items) => match items_inert_cost(nodes, bound, items@, below) {
            Some(x) => Some(1 + x),
            None => None,
        },
        ValueNode::Record(fields) => match fields_inert_cost(nodes, bound, fields@, below) {
            Some(x) => Some(1 + x),
            None => None,
        },
        ValueNode::Thunk(_, _) => None,
        ValueNode::Annot(_, _) => None,
        ValueNode::Stk(_) => None,
        _ => Some(1),
    }
}

/// [`inert_cost`] summed over the handles `ids`, all below `parent`.
pub open spec fn items_inert_cost(nodes: Seq<SyntaxNode>, parent: int, ids: Seq<ValueNodeId>, depth: nat) -> Option<nat>
    decreases parent, 0nat, ids.len(),
{
    if ids.len() == 0 {
        Some(0)
    } else if ids.last().0 < parent {
        match (items_inert_cost(nodes, parent, ids.drop_last(), depth), inert_cost(nodes, ids.last().0, depth)) {
            (Some(x), Some(y)) => Some(x + y),
            _ => None,
        }
    } else {
        None
    }
}

/// [`inert_cost`] summed over the field values of `fields`, all below
/// `parent`.
pub open spec fn fields_inert_cost(nodes: Seq<SyntaxNode>, parent: int, fields: Seq<FieldNode>, depth: nat) -> Option<nat>
    decreases parent, 0nat, fields.len(),
{
    if fields.len() == 0 {
        Some(0)
    } else if fields.last().value.0 < parent {
        match (
            fields_inert_cost(nodes, parent, fields.drop_last(), depth),
            inert_cost(nodes, fields.last().value.0, depth),
        ) {
            (Some(x), Some(y)) => Some(x + y),
            _ => None,
        }
    } else {
        None
    }
}

/// What reading the semantic value `id` of `a` back writes, within `depth`
/// levels: one node per value of its tree of literals, free names, holes and
/// value formers; `None` for anything else (a thunk, a level, a reified
/// stack) or nesting past that depth.
pub open spec fn sem_cost(a: SemArena, id: SemValueId, depth: nat) -> Option<nat>
    decreases depth, 0nat, 0nat,
{
    if depth > 0 && id.0 < a.value_nodes().len() {
        let below = (depth - 1) as nat;
        match a.value_nodes()[id.0 as int].node {
            SemValueNode::Pair(i, j) => match (sem_cost(a, i, below), sem_cost(a, j, below)) {
                (Some(x), Some(y)) => Some(1 + x + y),
                _ => None,
            },
            SemValueNode::Inj(_, i) => match sem_cost(a, i, below) {
                Some(x) => Some(1 + x),
                None => None,
            },
            SemValueNode::Here(i) => match sem_cost(a, i, below) {
                Some(x) => Some(1 + x),
                None => None,
            },
            SemValueNode::Ctor { payload, .. } => match sem_cost(a, payload, below) {
                Some(x) => Some(1 + x),
                None => None,
            },
            SemValueNode::List(ids) => match sem_items_cost(a, ids@, below) {
                Some(x) => Some(1 + x),
                None => None,
            },
            SemValueNode::Record(fields) => match sem_fields_cost(a, fields@, below) {
                Some(x) => Some(1 + x),
                None => None,
            },
            SemValueNode::Unit => Some(1),
            SemValueNode::Int(_) => Some(1),
            SemValueNode::Str(_) => Some(1),
            SemValueNode::Num(_) => Some(1),
            SemValueNode::Rigid(Rigid::Free(_), _) => Some(1),
            SemValueNode::Rigid(Rigid::Hole(_), _) => Some(1),
            _ => None,
        }
    } else {
        None
    }
}

/// [`sem_cost`] summed over `ids`.
pub open spec fn sem_items_cost(a: SemArena, ids: Seq<SemValueId>, depth: nat) -> Option<nat>
    decreases depth, 1nat, ids.len(),
{
    if ids.len() == 0 {
        Some(0)
    } else {
        match (sem_items_cost(a, ids.drop_last(), depth), sem_cost(a, ids.last(), depth)) {
            (Some(x), Some(y)) => Some(x + y),
            _ => None,
        }
    }
}

/// [`sem_cost`] summed over the values of `fields`.
pub open spec fn sem_fields_cost(a: SemArena, fields: Seq<SemField>, depth: nat) -> Option<nat>
    decreases depth, 1nat, fields.len(),
{
    if fields.len() == 0 {
        Some(0)
    } else {
        match (sem_fields_cost(a, fields.drop_last(), depth), sem_cost(a, fields.last().value, depth)) {
            (Some(x), Some(y)) => Some(x + y),
            _ => None,
        }
    }
}

/// The cost of a prefix of a run of handles: one more handle adds its own
/// cost, and no prefix costs more than the whole run.
pub proof fn lemma_items_inert_cost_take(nodes: Seq<SyntaxNode>, parent: int, ids: Seq<ValueNodeId>, depth: nat, k: int)
    requires
        0 <= k < ids.len(),
        items_inert_cost(nodes, parent, ids, depth) is Some,
    ensures
        items_inert_cost(nodes, parent, ids.take(k + 1), depth) is Some,
        items_inert_cost(nodes, parent, ids.take(k), depth) is Some,
        ids[k].0 < parent,
        inert_cost(nodes, ids[k].0, depth) is Some,
        items_inert_cost(nodes, parent, ids.take(k + 1), depth)->Some_0 == items_inert_cost(
            nodes,
            parent,
            ids.take(k),
            depth,
        )->Some_0 + inert_cost(nodes, ids[k].0, depth)->Some_0,
        items_inert_cost(nodes, parent, ids.take(k + 1), depth)->Some_0 <= items_inert_cost(
            nodes,
            parent,
            ids,
            depth,
        )->Some_0,
    decreases ids.len(),
{
    if k + 1 < ids.len() {
        lemma_items_inert_cost_take(nodes, parent, ids.drop_last(), depth, k);
        assert(ids.drop_last().take(k + 1) =~= ids.take(k + 1));
        assert(ids.drop_last().take(k) =~= ids.take(k));
    } else {
        assert(ids.take(k + 1) =~= ids);
        assert(ids.drop_last() =~= ids.take(k));
    }
    assert(ids.take(k + 1).drop_last() =~= ids.take(k));
    assert(ids.take(k + 1).last() == ids[k]);
}

/// [`lemma_items_inert_cost_take`] for field runs.
pub proof fn lemma_fields_inert_cost_take(nodes: Seq<SyntaxNode>, parent: int, fields: Seq<FieldNode>, depth: nat, k: int)
    requires
        0 <= k < fields.len(),
        fields_inert_cost(nodes, parent, fields, depth) is Some,
    ensures
        fields_inert_cost(nodes, parent, fields.take(k + 1), depth) is Some,
        fields_inert_cost(nodes, parent, fields.take(k), depth) is Some,
        fields[k].value.0 < parent,
        inert_cost(nodes, fields[k].value.0, depth) is Some,
        fields_inert_cost(nodes, parent, fields.take(k + 1), depth)->Some_0 == fields_inert_cost(
            nodes,
            parent,
            fields.take(k),
            depth,
        )->Some_0 + inert_cost(nodes, fields[k].value.0, depth)->Some_0,
        fields_inert_cost(nodes, parent, fields.take(k + 1), depth)->Some_0 <= fields_inert_cost(
            nodes,
            parent,
            fields,
            depth,
        )->Some_0,
    decreases fields.len(),
{
    if k + 1 < fields.len() {
        lemma_fields_inert_cost_take(nodes, parent, fields.drop_last(), depth, k);
        assert(fields.drop_last().take(k + 1) =~= fields.take(k + 1));
        assert(fields.drop_last().take(k) =~= fields.take(k));
    } else {
        assert(fields.take(k + 1) =~= fields);
        assert(fields.drop_last() =~= fields.take(k));
    }
    assert(fields.take(k + 1).drop_last() =~= fields.take(k));
    assert(fields.take(k + 1).last() == fields[k]);
}

/// A node spelling an inert value costs what the value's size says.
pub proof fn lemma_inert_cost_of_spelled(nodes: Seq<SyntaxNode>, n: u32, t: Value, depth: nat)
    requires
        spells_value(nodes, n, t),
        inert_value(t, depth),
    ensures
        inert_cost(nodes, n, depth) == Some(value_size(t, depth)),
    decreases n, 2nat, 0nat,
{
    let v = nodes[n as int]->Value_0;
    let below = (depth - 1) as nat;
    match v {
        ValueNode::Pair(a, b) => {
            lemma_inert_cost_of_spelled(nodes, a.0, referent(&t->Pair_0), below);
            lemma_inert_cost_of_spelled(nodes, b.0, referent(&t->Pair_1), below);
        },
        ValueNode::Inj(_, a) => lemma_inert_cost_of_spelled(nodes, a.0, referent(&t->Inj_1), below),
        ValueNode::Here(a) => lemma_inert_cost_of_spelled(nodes, a.0, referent(&t->Here_0), below),
        ValueNode::Ctor { payload, .. } => lemma_inert_cost_of_spelled(nodes, payload.0, referent(&t->Ctor_payload), below),
        ValueNode::List(items) => {
            let xs = t->List_0@;
            assert forall|i: int| 0 <= i < xs.len() implies inert_value(*#[trigger] xs[i], below) by {}
            lemma_items_cost_of_spelled(nodes, n as int, items@, xs, below);
        },
        ValueNode::Record(fields) => {
            let gs = t->Record_0@;
            assert forall|i: int| 0 <= i < gs.len() implies inert_value(*(#[trigger] gs[i]).value, below) by {}
            lemma_fields_cost_of_spelled(nodes, n as int, fields@, gs, below);
        },
        _ => {},
    }
}

/// [`lemma_inert_cost_of_spelled`] for a run of handles.
pub proof fn lemma_items_cost_of_spelled(nodes: Seq<SyntaxNode>, parent: int, ids: Seq<ValueNodeId>, xs: Seq<Rc<Value>>, depth: nat)
    requires
        spells_values(nodes, parent, ids, xs),
        forall|i: int| 0 <= i < xs.len() ==> inert_value(*#[trigger] xs[i], depth),
    ensures
        items_inert_cost(nodes, parent, ids, depth) == Some(values_size(xs, depth)),
    decreases parent, 1nat, ids.len(),
{
    if ids.len() > 0 {
        assert(inert_value(*xs[xs.len() - 1], depth));
        assert forall|i: int| 0 <= i < xs.drop_last().len() implies inert_value(*#[trigger] xs.drop_last()[i], depth) by {
            assert(xs.drop_last()[i] == xs[i]);
        }
        lemma_items_cost_of_spelled(nodes, parent, ids.drop_last(), xs.drop_last(), depth);
        lemma_inert_cost_of_spelled(nodes, ids.last().0, referent(&xs.last()), depth);
    }
}

/// [`lemma_inert_cost_of_spelled`] for a run of fields.
pub proof fn lemma_fields_cost_of_spelled(nodes: Seq<SyntaxNode>, parent: int, fs: Seq<FieldNode>, gs: Seq<FieldValue>, depth: nat)
    requires
        spells_fields(nodes, parent, fs, gs),
        forall|i: int| 0 <= i < gs.len() ==> inert_value(*(#[trigger] gs[i]).value, depth),
    ensures
        fields_inert_cost(nodes, parent, fs, depth) == Some(fields_size(gs, depth)),
    decreases parent, 1nat, fs.len(),
{
    if fs.len() > 0 {
        assert(inert_value(*gs[gs.len() - 1].value, depth));
        assert forall|i: int| 0 <= i < gs.drop_last().len() implies inert_value(*(#[trigger] gs.drop_last()[i]).value, depth) by {
            assert(gs.drop_last()[i] == gs[i]);
        }
        lemma_fields_cost_of_spelled(nodes, parent, fs.drop_last(), gs.drop_last(), depth);
        lemma_inert_cost_of_spelled(nodes, fs.last().value.0, referent(&gs.last().value), depth);
    }
}

/// The readback cost of a prefix of a run of values: one more value adds its
/// own cost, and no prefix costs more than the whole run.
pub proof fn lemma_sem_items_cost_take(a: SemArena, ids: Seq<SemValueId>, depth: nat, k: int)
    requires
        0 <= k < ids.len(),
        sem_items_cost(a, ids, depth) is Some,
    ensures
        sem_items_cost(a, ids.take(k + 1), depth) is Some,
        sem_items_cost(a, ids.take(k), depth) is Some,
        sem_cost(a, ids[k], depth) is Some,
        sem_items_cost(a, ids.take(k + 1), depth)->Some_0 == sem_items_cost(a, ids.take(k), depth)->Some_0
            + sem_cost(a, ids[k], depth)->Some_0,
        sem_items_cost(a, ids.take(k + 1), depth)->Some_0 <= sem_items_cost(a, ids, depth)->Some_0,
    decreases ids.len(),
{
    if k + 1 < ids.len() {
        lemma_sem_items_cost_take(a, ids.drop_last(), depth, k);
        assert(ids.drop_last().take(k + 1) =~= ids.take(k + 1));
        assert(ids.drop_last().take(k) =~= ids.take(k));
    } else {
        assert(ids.take(k + 1) =~= ids);
        assert(ids.drop_last() =~= ids.take(k));
    }
    assert(ids.take(k + 1).drop_last() =~= ids.take(k));
    assert(ids.take(k + 1).last() == ids[k]);
}

/// [`lemma_sem_items_cost_take`] for field runs.
pub proof fn lemma_sem_fields_cost_take(a: SemArena, fields: Seq<SemField>, depth: nat, k: int)
    requires
        0 <= k < fields.len(),
        sem_fields_cost(a, fields, depth) is Some,
    ensures
        sem_fields_cost(a, fields.take(k + 1), depth) is Some,
        sem_fields_cost(a, fields.take(k), depth) is Some,
        sem_cost(a, fields[k].value, depth) is Some,
        sem_fields_cost(a, fields.take(k + 1), depth)->Some_0 == sem_fields_cost(a, fields.take(k), depth)->Some_0
            + sem_cost(a, fields[k].value, depth)->Some_0,
        sem_fields_cost(a, fields.take(k + 1), depth)->Some_0 <= sem_fields_cost(a, fields, depth)->Some_0,
    decreases fields.len(),
{
    if k + 1 < fields.len() {
        lemma_sem_fields_cost_take(a, fields.drop_last(), depth, k);
        assert(fields.drop_last().take(k + 1) =~= fields.take(k + 1));
        assert(fields.drop_last().take(k) =~= fields.take(k));
    } else {
        assert(fields.take(k + 1) =~= fields);
        assert(fields.drop_last() =~= fields.take(k));
    }
    assert(fields.take(k + 1).drop_last() =~= fields.take(k));
    assert(fields.take(k + 1).last() == fields[k]);
}

/// What a semantic value costs to read back does not change as the arena
/// grows.
pub proof fn lemma_sem_cost_stable(a: SemArena, b: SemArena, id: SemValueId, depth: nat)
    requires
        grows(a, b),
        sem_cost(a, id, depth) is Some,
    ensures
        sem_cost(b, id, depth) == sem_cost(a, id, depth),
    decreases depth, 0nat, 0nat,
{
    let below = (depth - 1) as nat;
    assert(b.value_nodes()[id.0 as int] == a.value_nodes()[id.0 as int]);
    match a.value_nodes()[id.0 as int].node {
        SemValueNode::Pair(i, j) => {
            lemma_sem_cost_stable(a, b, i, below);
            lemma_sem_cost_stable(a, b, j, below);
        },
        SemValueNode::Inj(_, i) => lemma_sem_cost_stable(a, b, i, below),
        SemValueNode::Here(i) => lemma_sem_cost_stable(a, b, i, below),
        SemValueNode::Ctor { payload, .. } => lemma_sem_cost_stable(a, b, payload, below),
        SemValueNode::List(ids) => lemma_sem_items_cost_stable(a, b, ids@, below),
        SemValueNode::Record(fields) => lemma_sem_fields_cost_stable(a, b, fields@, below),
        _ => {},
    }
}

/// [`lemma_sem_cost_stable`] for a run of values.
pub proof fn lemma_sem_items_cost_stable(a: SemArena, b: SemArena, ids: Seq<SemValueId>, depth: nat)
    requires
        grows(a, b),
        sem_items_cost(a, ids, depth) is Some,
    ensures
        sem_items_cost(b, ids, depth) == sem_items_cost(a, ids, depth),
    decreases depth, 1nat, ids.len(),
{
    if ids.len() > 0 {
        lemma_sem_items_cost_stable(a, b, ids.drop_last(), depth);
        lemma_sem_cost_stable(a, b, ids.last(), depth);
    }
}

/// [`lemma_sem_cost_stable`] for a run of fields.
pub proof fn lemma_sem_fields_cost_stable(a: SemArena, b: SemArena, fields: Seq<SemField>, depth: nat)
    requires
        grows(a, b),
        sem_fields_cost(a, fields, depth) is Some,
    ensures
        sem_fields_cost(b, fields, depth) == sem_fields_cost(a, fields, depth),
    decreases depth, 1nat, fields.len(),
{
    if fields.len() > 0 {
        lemma_sem_fields_cost_stable(a, b, fields.drop_last(), depth);
        lemma_sem_cost_stable(a, b, fields.last().value, depth);
    }
}

/// The definition carried by the free name at the head of `value` of `a`.
pub open spec fn head_definition(a: SemArena, entries: Seq<Definition>, value: SemValueId) -> Option<
    Definition,
> {
    if value.0 < a.value_nodes().len() {
        match a.value_nodes()[value.0 as int].node {
            SemValueNode::Rigid(Rigid::Free(name), _) => resolve(entries, name@),
            _ => None,
        }
    } else {
        None
    }
}

/// The definition at the head of `value` has a literal, hole or reified
/// stack for its body.
pub open spec fn unfolds_to_literal(a: SemArena, entries: Seq<Definition>, nodes: Seq<SyntaxNode>, value: SemValueId) -> bool {
    head_definition(a, entries, value) matches Some(d) && literal_value_at(nodes, d.body.0)
}

/// The definition at the head of `value` has a literal or a reified stack
/// for its body: unfolding it reaches a canonical form.
pub open spec fn unfolds_to_canonical(a: SemArena, entries: Seq<Definition>, nodes: Seq<SyntaxNode>, value: SemValueId) -> bool {
    &&& unfolds_to_literal(a, entries, nodes, value)
    &&& !(nodes[head_definition(a, entries, value)->Some_0.body.0 as int]->Value_0 is Hole)
}

/// The computation node `node` of `nodes` is an abstraction: evaluating it
/// mints one closure and one computation node and reads nothing else.
pub open spec fn abs_at(nodes: Seq<SyntaxNode>, node: u32) -> bool {
    node < nodes.len() && nodes[node as int] matches SyntaxNode::Comp(CompNode::Abs(_, _, _))
}

/// Evaluating computation node `node` of `nodes` mints a handful of nodes
/// and runs nothing: an abstraction, a lazy pair, a delimiter, a capture or
/// a hole, or a returner, duplication, drop or performance of a literal.
pub open spec fn mints_only_at(nodes: Seq<SyntaxNode>, node: u32) -> bool {
    node < nodes.len() && match nodes[node as int] {
        SyntaxNode::Comp(c) => match c {
            CompNode::Abs(_, _, _) => true,
            CompNode::With(_, _) => true,
            CompNode::Reset(_) => true,
            CompNode::Shift(_, _) => true,
            CompNode::Hole(_) => true,
            CompNode::Ret(v) => literal_value_at(nodes, v.0),
            CompNode::Dup(v) => literal_value_at(nodes, v.0),
            CompNode::Drop(v) => literal_value_at(nodes, v.0),
            CompNode::Perform(_, _, v) => literal_value_at(nodes, v.0),
            _ => false,
        },
        _ => false,
    }
}

/// Room in `a` for what such an evaluation mints: two closures, one value,
/// one neutral and one computation node.
pub open spec fn room_for_minting(a: SemArena) -> bool {
    &&& a.closure_nodes().len() + 2 <= u32::MAX + 1
    &&& has_room(a.value_nodes().len())
    &&& has_room(a.neutral_nodes().len())
    &&& has_room(a.comp_nodes().len())
}

/// Room in `a` for the closure and the computation node an abstraction mints.
pub open spec fn room_for_abs(a: SemArena) -> bool {
    has_room(a.closure_nodes().len()) && has_room(a.comp_nodes().len())
}

/// Running closure `closure` of `a` on `arity` arguments binds them in
/// fresh frames and evaluates an abstraction: only the depth budget and
/// room in the arena decide whether it succeeds.
pub open spec fn runs_to_abs(a: SemArena, nodes: Seq<SyntaxNode>, closure: ClosureId, arity: nat) -> bool {
    &&& closure.0 < a.closure_nodes().len()
    &&& a.closure_nodes()[closure.0 as int].binders@.len() == arity
    &&& a.closure_nodes()[closure.0 as int].env.0 <= a.frames().len()
    &&& a.frames().len() + arity < u32::MAX
    &&& abs_at(nodes, a.closure_nodes()[closure.0 as int].body.0)
    &&& room_for_abs(a)
}

/// Running closure `closure` of `a` on `arity` arguments binds them in
/// fresh frames and evaluates a body that only mints nodes (see
/// [`mints_only_at`]): only the depth budget and room in the arena decide
/// whether it succeeds.
pub open spec fn runs_to_minting(a: SemArena, nodes: Seq<SyntaxNode>, closure: ClosureId, arity: nat) -> bool {
    &&& closure.0 < a.closure_nodes().len()
    &&& a.closure_nodes()[closure.0 as int].binders@.len() == arity
    &&& a.closure_nodes()[closure.0 as int].env.0 <= a.frames().len()
    &&& a.frames().len() + arity < u32::MAX
    &&& mints_only_at(nodes, a.closure_nodes()[closure.0 as int].body.0)
    &&& room_for_minting(a)
}

/// Room in `a` for the neutral and the computation node a stuck result mints.
pub open spec fn room_for_neutral(a: SemArena) -> bool {
    has_room(a.neutral_nodes().len()) && has_room(a.comp_nodes().len())
}

/// The eliminator `elim` meets no introduction it can reduce in `node`, and
/// `node` is no neutral whose spine it could extend.
pub open spec fn elim_mismatch(node: SemCompNode, elim: Elim) -> bool {
    match (node, elim) {
        (SemCompNode::Lambda(_), Elim::Apply(_)) => false,
        (SemCompNode::Return(_), Elim::Sequence(_)) => false,
        (SemCompNode::LazyPair(_, _), Elim::Project(_)) => false,
        (SemCompNode::Neutral(_), _) => false,
        _ => true,
    }
}

/// The head of `value` of `a` is a free name carrying a definition in
/// `entries` that `mode` may unfold: every definition under `Unfold`, the
/// reducible ones under `Speculative`.
pub open spec fn unfoldable_head(a: SemArena, entries: Seq<Definition>, value: SemValueId, mode: ForceMode) -> bool {
    &&& value.0 < a.value_nodes().len()
    &&& a.value_nodes()[value.0 as int].node matches SemValueNode::Rigid(Rigid::Free(name), _)
    &&& resolve(entries, name@) matches Some(d)
    &&& (mode == ForceMode::Unfold || (mode == ForceMode::Speculative && d.transparency
        != Transparency::Irreducible))
}

/// Mints a value node, retaining `term` as its term face when given one.
pub fn mint_value(nbe: &mut Normalizer, node: SemValueNode, term: Option<ValueNodeId>) -> (r: Result<
    SemValueId,
    SemError,
>)
    requires
        old(nbe).wf(),
    ensures
        evaluates(*old(nbe), *final(nbe)),
        final(nbe).next_level == old(nbe).next_level,
        final(nbe).arena.frames() == old(nbe).arena.frames(),
        final(nbe).arena.comp_nodes() == old(nbe).arena.comp_nodes(),
        final(nbe).arena.neutral_nodes() == old(nbe).arena.neutral_nodes(),
        final(nbe).arena.closure_nodes() == old(nbe).arena.closure_nodes(),
        r is Ok <==> has_room(old(nbe).arena.value_nodes().len()),
        r matches Err(e) ==> e is IdSpaceExhausted,
        r matches Ok(id) ==> id.0 == old(nbe).arena.value_nodes().len()
            && final(nbe).arena.value_nodes().len() == id.0 + 1,
        r matches Ok(id) ==> id.0 < final(nbe).arena.value_nodes().len()
            && final(nbe).arena.value_nodes()[id.0 as int].node == node
            && final(nbe).arena.value_nodes()[id.0 as int].face == (match term {
                Some(t) => crate::nbe::sem::TermFace::Retained(t),
                None => crate::nbe::sem::TermFace::Rebuilt,
            }),
{
    let guard = guard_of(&node);
    let value = SemValue::new(node, guard);
    let value = match term {
        Some(t) => value.retaining(t),
        None => value,
    };
    nbe.arena.mint_value(value)
}

/// Mints a computation node.
pub fn mint_comp(nbe: &mut Normalizer, node: SemCompNode) -> (r: Result<SemCompId, SemError>)
    requires
        old(nbe).wf(),
    ensures
        evaluates(*old(nbe), *final(nbe)),
        final(nbe).next_level == old(nbe).next_level,
        final(nbe).arena.frames() == old(nbe).arena.frames(),
        final(nbe).arena.neutral_nodes() == old(nbe).arena.neutral_nodes(),
        r is Ok <==> has_room(old(nbe).arena.comp_nodes().len()),
        r matches Err(e) ==> e is IdSpaceExhausted,
        r matches Ok(id) ==> id.0 == old(nbe).arena.comp_nodes().len()
            && final(nbe).arena.comp_nodes().len() == id.0 + 1,
        r matches Ok(id) ==> id.0 < final(nbe).arena.comp_nodes().len()
            && final(nbe).arena.comp_nodes()[id.0 as int].node == node,
{
    nbe.arena.mint_comp(SemComp::new(node, Guard::leaf(seed(4))))
}

/// Mints a closure over `env` abstracting `binders` in `body`.
pub fn mint_closure(nbe: &mut Normalizer, env: EnvId, binders: Vec<String>, body: CompNodeId) -> (r:
    Result<ClosureId, SemError>)
    requires
        old(nbe).wf(),
    ensures
        evaluates(*old(nbe), *final(nbe)),
        final(nbe).next_level == old(nbe).next_level,
        final(nbe).arena.frames() == old(nbe).arena.frames(),
        final(nbe).arena.comp_nodes() == old(nbe).arena.comp_nodes(),
        final(nbe).arena.neutral_nodes() == old(nbe).arena.neutral_nodes(),
        final(nbe).arena.value_nodes() == old(nbe).arena.value_nodes(),
        r is Ok <==> has_room(old(nbe).arena.closure_nodes().len()),
        r matches Err(e) ==> e is IdSpaceExhausted,
        r matches Ok(c) ==> c.0 == old(nbe).arena.closure_nodes().len()
            && final(nbe).arena.closure_nodes().len() == c.0 + 1,
        r matches Ok(c) ==> c.0 < final(nbe).arena.closure_nodes().len()
            && final(nbe).arena.closure_nodes()[c.0 as int].env == env
            && final(nbe).arena.closure_nodes()[c.0 as int].binders@ == binders@
            && final(nbe).arena.closure_nodes()[c.0 as int].body == body
            && final(nbe).arena.closure_nodes()[c.0 as int].memo is None,
{
    nbe.arena.mint_closure(Closure::new(env, binders, body))
}

/// Mints a neutral and the computation node that carries it.
pub fn mint_neutral(nbe: &mut Normalizer, neutral: Neutral) -> (r: Result<SemCompId, SemError>)
    requires
        old(nbe).wf(),
    ensures
        evaluates(*old(nbe), *final(nbe)),
        final(nbe).next_level == old(nbe).next_level,
        final(nbe).arena.frames() == old(nbe).arena.frames(),
        r is Ok <==> has_room(old(nbe).arena.neutral_nodes().len()) && has_room(
            old(nbe).arena.comp_nodes().len(),
        ),
        r matches Err(e) ==> e is IdSpaceExhausted,
        r matches Ok(c) ==> c.0 == old(nbe).arena.comp_nodes().len()
            && final(nbe).arena.neutral_nodes().len() == old(nbe).arena.neutral_nodes().len() + 1,
        r matches Ok(c) ==> {
            &&& c.0 < final(nbe).arena.comp_nodes().len()
            &&& final(nbe).arena.comp_nodes()[c.0 as int].node matches SemCompNode::Neutral(n)
            &&& n.0 < final(nbe).arena.neutral_nodes().len()
            &&& final(nbe).arena.neutral_nodes()[n.0 as int] == neutral
        },
{
    let ghost before = nbe.arena;
    let id = nbe.arena.mint_neutral(neutral)?;
    let ghost minted = nbe.arena;
    assert(minted.comp_nodes() == before.comp_nodes());
    let c = mint_comp(nbe, SemCompNode::Neutral(id))?;
    proof {
        assert(nbe.arena.neutral_nodes() == minted.neutral_nodes());
        assert(nbe.arena.neutral_nodes()[id.0 as int] == minted.neutral_nodes()[id.0 as int]);
    }
    Ok(c)
}

/// A neutral stuck on `head` with nothing to unfold.
pub fn stuck(nbe: &mut Normalizer, head: NeutralHead) -> (r: Result<SemCompId, SemError>)
    requires
        old(nbe).wf(),
    ensures
        evaluates(*old(nbe), *final(nbe)),
        final(nbe).next_level == old(nbe).next_level,
        final(nbe).arena.frames() == old(nbe).arena.frames(),
        r is Ok <==> has_room(old(nbe).arena.neutral_nodes().len()) && has_room(
            old(nbe).arena.comp_nodes().len(),
        ),
        r matches Err(e) ==> e is IdSpaceExhausted,
        r matches Ok(c) ==> c.0 == old(nbe).arena.comp_nodes().len(),
        r matches Ok(c) ==> stuck_on(final(nbe).arena, c) && head_of(final(nbe).arena, c) == head,
{
    mint_neutral(nbe, Neutral::new(head, CompUnfold::Rigid))
}

/// One binder.
pub fn one_binder(binder: &String) -> (v: Vec<String>)
    ensures
        v@ == seq![*binder],
{
    let mut v: Vec<String> = Vec::new();
    v.push(binder.clone());
    v
}

/// Two binders.
pub fn two_binders(first: &String, second: &String) -> (v: Vec<String>)
    ensures
        v@ == seq![*first, *second],
{
    let mut v: Vec<String> = Vec::new();
    v.push(first.clone());
    v.push(second.clone());
    v
}

/// How a name no environment frame binds evaluates: a free rigid variable,
/// pending unfolding at the definition's height when a definition carries
/// the name.
pub open spec fn free_unfold(entries: Seq<Definition>, name: Seq<char>) -> ValueUnfold {
    match resolve(entries, name) {
        Some(d) => ValueUnfold::Pending(d.height),
        None => ValueUnfold::Rigid,
    }
}

/// Evaluating value node `node` of `nodes` in `env` reads nothing out of the
/// environment: no variable it mentions is bound there, and no thunk in it
/// captures a non-empty environment.
pub open spec fn value_keeps(frames: Seq<EnvFrame>, env: EnvId, nodes: Seq<SyntaxNode>, node: u32) -> bool
    decreases node, 2nat, 0nat,
{
    if node < nodes.len() {
        match nodes[node as int] {
            SyntaxNode::Value(v) => value_node_keeps(frames, env, nodes, v, node as int),
            _ => false,
        }
    } else {
        false
    }
}

/// [`value_keeps`] for the value node `v`, its children below `bound`.
pub open spec fn value_node_keeps(
    frames: Seq<EnvFrame>,
    env: EnvId,
    nodes: Seq<SyntaxNode>,
    v: ValueNode,
    bound: int,
) -> bool
    decreases bound, 1nat, 0nat,
{
    match v {
        ValueNode::Var(name) => env_lookup(frames, env, name@) is None,
        ValueNode::Pair(a, b) => a.0 < bound && b.0 < bound && value_keeps(frames, env, nodes, a.0)
            && value_keeps(frames, env, nodes, b.0),
        ValueNode::Inj(_, a) => a.0 < bound && value_keeps(frames, env, nodes, a.0),
        ValueNode::List(items) => values_keep(frames, env, nodes, bound, items@),
        ValueNode::Record(fields) => fields_keep(frames, env, nodes, bound, fields@),
        ValueNode::Thunk(_, _) => env.0 == 0,
        ValueNode::Annot(a, _) => a.0 < bound && value_keeps(frames, env, nodes, a.0),
        ValueNode::Here(a) => a.0 < bound && value_keeps(frames, env, nodes, a.0),
        ValueNode::Ctor { payload, .. } => payload.0 < bound && value_keeps(
            frames,
            env,
            nodes,
            payload.0,
        ),
        _ => true,
    }
}

/// [`value_keeps`] for every handle of `ids`, all below `parent`.
pub open spec fn values_keep(
    frames: Seq<EnvFrame>,
    env: EnvId,
    nodes: Seq<SyntaxNode>,
    parent: int,
    ids: Seq<ValueNodeId>,
) -> bool
    decreases parent, 0nat, ids.len(),
{
    ids.len() == 0 || (ids.last().0 < parent && value_keeps(frames, env, nodes, ids.last().0)
        && values_keep(frames, env, nodes, parent, ids.drop_last()))
}

/// [`value_keeps`] for every field value of `fields`, all below `parent`.
pub open spec fn fields_keep(
    frames: Seq<EnvFrame>,
    env: EnvId,
    nodes: Seq<SyntaxNode>,
    parent: int,
    fields: Seq<FieldNode>,
) -> bool
    decreases parent, 0nat, fields.len(),
{
    fields.len() == 0 || (fields.last().value.0 < parent && value_keeps(
        frames,
        env,
        nodes,
        fields.last().value.0,
    ) && fields_keep(frames, env, nodes, parent, fields.drop_last()))
}

/// `id` names a node of `a` minted for value node `node`, retaining `node` as
/// its term face exactly when evaluating it read nothing out of `env`.
pub open spec fn minted_for(a: SemArena, nodes: Seq<SyntaxNode>, env: EnvId, node: int, id: SemValueId) -> bool {
    &&& id.0 < a.value_nodes().len()
    &&& a.value_nodes()[id.0 as int].face == if value_keeps(a.frames(), env, nodes, node as u32) {
        TermFace::Retained(ValueNodeId(node as u32))
    } else {
        TermFace::Rebuilt
    }
}

/// The weak-head form the arena holds under `id`.
pub open spec fn shape_of(a: SemArena, id: SemValueId) -> SemValueNode {
    a.value_nodes()[id.0 as int].node
}

/// The arena value `id` is what evaluating value node `node` of `nodes` in
/// `env` gives: a variable resolves to its binding in `env`, or else to a
/// free rigid variable; every other former becomes its semantic counterpart
/// over the evaluations of its children; a thunk captures `env` around its
/// body; an ascription evaluates to its inner value.
pub open spec fn evaluated_value(
    a: SemArena,
    entries: Seq<Definition>,
    nodes: Seq<SyntaxNode>,
    env: EnvId,
    node: u32,
    id: SemValueId,
) -> bool
    decreases node, 2nat, 0nat,
{
    if node < nodes.len() {
        match nodes[node as int] {
            SyntaxNode::Value(v) => evaluated_value_node(a, entries, nodes, env, v, node as int, id),
            _ => false,
        }
    } else {
        false
    }
}

/// [`evaluated_value`] for the value node `v` stored at `node`.
pub open spec fn evaluated_value_node(
    a: SemArena,
    entries: Seq<Definition>,
    nodes: Seq<SyntaxNode>,
    env: EnvId,
    v: ValueNode,
    node: int,
    id: SemValueId,
) -> bool
    decreases node, 1nat, 0nat,
{
    let minted = minted_for(a, nodes, env, node, id);
    let shape = shape_of(a, id);
    match v {
        ValueNode::Var(name) => match env_lookup(a.frames(), env, name@) {
            Some(bound) => id == bound,
            None => minted && shape == SemValueNode::Rigid(
                Rigid::Free(name),
                free_unfold(entries, name@),
            ),
        },
        ValueNode::Unit => minted && shape == SemValueNode::Unit,
        ValueNode::Int(n) => minted && shape == SemValueNode::Int(n),
        ValueNode::Str(text) => minted && shape == SemValueNode::Str(text),
        ValueNode::Num(literal) => minted && shape == SemValueNode::Num(literal),
        ValueNode::Pair(x, y) => {
            &&& minted
            &&& x.0 < node
            &&& y.0 < node
            &&& shape matches SemValueNode::Pair(i, j)
            &&& evaluated_value(a, entries, nodes, env, x.0, i)
            &&& evaluated_value(a, entries, nodes, env, y.0, j)
        },
        ValueNode::Inj(side, x) => {
            &&& minted
            &&& x.0 < node
            &&& shape matches SemValueNode::Inj(s, i)
            &&& s == side
            &&& evaluated_value(a, entries, nodes, env, x.0, i)
        },
        ValueNode::List(items) => {
            &&& minted
            &&& shape matches SemValueNode::List(ids)
            &&& evaluated_values(a, entries, nodes, env, node, items@, ids@)
        },
        ValueNode::Record(fields) => {
            &&& minted
            &&& shape matches SemValueNode::Record(out)
            &&& evaluated_fields(a, entries, nodes, env, node, fields@, out@)
        },
        ValueNode::Thunk(grade, body) => {
            &&& minted
            &&& shape matches SemValueNode::Thunk(g, c)
            &&& g == grade
            &&& c.0 < a.closure_nodes().len()
            &&& a.closure_nodes()[c.0 as int].env == env
            &&& a.closure_nodes()[c.0 as int].binders@.len() == 0
            &&& a.closure_nodes()[c.0 as int].body == body
            &&& a.closure_nodes()[c.0 as int].memo is None
        },
        ValueNode::Annot(x, _) => x.0 < node && evaluated_value(a, entries, nodes, env, x.0, id),
        ValueNode::Hole(hole) => minted && shape == SemValueNode::Rigid(
            Rigid::Hole(hole),
            ValueUnfold::Rigid,
        ),
        ValueNode::Stk(stack) => minted && shape == SemValueNode::Reified(stack),
        ValueNode::Here(x) => {
            &&& minted
            &&& x.0 < node
            &&& shape matches SemValueNode::Here(i)
            &&& evaluated_value(a, entries, nodes, env, x.0, i)
        },
        ValueNode::Ctor { id: data, tag, payload } => {
            &&& minted
            &&& payload.0 < node
            &&& shape matches SemValueNode::Ctor { id: d, tag: t, payload: p }
            &&& d == data
            &&& t == tag
            &&& evaluated_value(a, entries, nodes, env, payload.0, p)
        },
    }
}

/// Each handle of `items`, all below `parent`, evaluates to the matching id
/// of `ids`.
pub open spec fn evaluated_values(
    a: SemArena,
    entries: Seq<Definition>,
    nodes: Seq<SyntaxNode>,
    env: EnvId,
    parent: int,
    items: Seq<ValueNodeId>,
    ids: Seq<SemValueId>,
) -> bool
    decreases parent, 0nat, items.len(),
{
    items.len() == ids.len() && (items.len() == 0 || (items.last().0 < parent && evaluated_value(
        a,
        entries,
        nodes,
        env,
        items.last().0,
        ids.last(),
    ) && evaluated_values(a, entries, nodes, env, parent, items.drop_last(), ids.drop_last())))
}

/// Each handle of an evaluated run evaluates to the matching id.
pub proof fn lemma_evaluated_values_element(
    a: SemArena,
    entries: Seq<Definition>,
    nodes: Seq<SyntaxNode>,
    env: EnvId,
    parent: int,
    items: Seq<ValueNodeId>,
    ids: Seq<SemValueId>,
    k: int,
)
    requires
        evaluated_values(a, entries, nodes, env, parent, items, ids),
        0 <= k < items.len(),
    ensures
        evaluated_value(a, entries, nodes, env, items[k].0, ids[k]),
        items.len() == ids.len(),
    decreases items.len(),
{
    if k < items.len() - 1 {
        lemma_evaluated_values_element(a, entries, nodes, env, parent, items.drop_last(), ids.drop_last(), k);
    }
}

/// Each field node, its value below `parent`, evaluates to the matching
/// semantic field under the same label.
pub open spec fn evaluated_fields(
    a: SemArena,
    entries: Seq<Definition>,
    nodes: Seq<SyntaxNode>,
    env: EnvId,
    parent: int,
    fields: Seq<FieldNode>,
    out: Seq<SemField>,
) -> bool
    decreases parent, 0nat, fields.len(),
{
    fields.len() == out.len() && (fields.len() == 0 || (fields.last().label == out.last().label
        && fields.last().value.0 < parent && evaluated_value(
        a,
        entries,
        nodes,
        env,
        fields.last().value.0,
        out.last().value,
    ) && evaluated_fields(a, entries, nodes, env, parent, fields.drop_last(), out.drop_last())))
}

/// The node under any ascriptions wrapping value node `node`.
pub open spec fn strip_ascriptions(nodes: Seq<SyntaxNode>, node: u32) -> u32
    decreases node,
{
    if node < nodes.len() {
        match nodes[node as int] {
            SyntaxNode::Value(ValueNode::Annot(x, _)) => if x.0 < node {
                strip_ascriptions(nodes, x.0)
            } else {
                node
            },
            _ => node,
        }
    } else {
        node
    }
}

/// Evaluating a value that reads nothing out of its environment gives a
/// semantic value retaining the source node, under any ascriptions, as its
/// term face; retained-mode readback then hands back that very node.
pub proof fn lemma_kept_value_retains(
    a: SemArena,
    entries: Seq<Definition>,
    nodes: Seq<SyntaxNode>,
    env: EnvId,
    node: u32,
    id: SemValueId,
)
    requires
        evaluated_value(a, entries, nodes, env, node, id),
        value_keeps(a.frames(), env, nodes, node),
    ensures
        id.0 < a.value_nodes().len(),
        a.value_nodes()[id.0 as int].face == TermFace::Retained(
            ValueNodeId(strip_ascriptions(nodes, node)),
        ),
    decreases node,
{
    match nodes[node as int]->Value_0 {
        ValueNode::Annot(x, _) => {
            lemma_kept_value_retains(a, entries, nodes, env, x.0, id);
        },
        _ => {},
    }
}

/// What an evaluation established keeps holding while the arena only grows
/// and binds nothing new.
pub proof fn lemma_evaluated_value_stable(
    a: SemArena,
    b: SemArena,
    entries: Seq<Definition>,
    nodes: Seq<SyntaxNode>,
    env: EnvId,
    node: u32,
    id: SemValueId,
)
    requires
        evaluated_value(a, entries, nodes, env, node, id),
        grows(a, b),
        b.frames() == a.frames(),
    ensures
        evaluated_value(b, entries, nodes, env, node, id),
    decreases node, 2nat, 0nat,
{
    let v = nodes[node as int]->Value_0;
    let shape = shape_of(a, id);
    if id.0 < a.value_nodes().len() {
        assert(b.value_nodes()[id.0 as int] == a.value_nodes()[id.0 as int]);
    }
    match v {
        ValueNode::Pair(x, y) => {
            lemma_evaluated_value_stable(a, b, entries, nodes, env, x.0, shape->Pair_0);
            lemma_evaluated_value_stable(a, b, entries, nodes, env, y.0, shape->Pair_1);
        },
        ValueNode::Inj(_, x) => {
            lemma_evaluated_value_stable(a, b, entries, nodes, env, x.0, shape->Inj_1);
        },
        ValueNode::List(items) => {
            lemma_evaluated_values_stable(a, b, entries, nodes, env, node as int, items@, shape->List_0@);
        },
        ValueNode::Record(fields) => {
            lemma_evaluated_fields_stable(a, b, entries, nodes, env, node as int, fields@, shape->Record_0@);
        },
        ValueNode::Thunk(_, _) => {
            let c = shape->Thunk_1;
            assert(b.closure_nodes()[c.0 as int] == a.closure_nodes()[c.0 as int]);
        },
        ValueNode::Annot(x, _) => {
            lemma_evaluated_value_stable(a, b, entries, nodes, env, x.0, id);
        },
        ValueNode::Here(x) => {
            lemma_evaluated_value_stable(a, b, entries, nodes, env, x.0, shape->Here_0);
        },
        ValueNode::Ctor { payload, .. } => {
            lemma_evaluated_value_stable(a, b, entries, nodes, env, payload.0, shape->Ctor_payload);
        },
        _ => {},
    }
}

/// [`lemma_evaluated_value_stable`] for a run of handles.
pub proof fn lemma_evaluated_values_stable(
    a: SemArena,
    b: SemArena,
    entries: Seq<Definition>,
    nodes: Seq<SyntaxNode>,
    env: EnvId,
    parent: int,
    items: Seq<ValueNodeId>,
    ids: Seq<SemValueId>,
)
    requires
        evaluated_values(a, entries, nodes, env, parent, items, ids),
        grows(a, b),
        b.frames() == a.frames(),
    ensures
        evaluated_values(b, entries, nodes, env, parent, items, ids),
    decreases parent, 0nat, items.len(),
{
    if items.len() > 0 {
        lemma_evaluated_value_stable(a, b, entries, nodes, env, items.last().0, ids.last());
        lemma_evaluated_values_stable(a, b, entries, nodes, env, parent, items.drop_last(), ids.drop_last());
    }
}

/// [`lemma_evaluated_value_stable`] for a run of record fields.
pub proof fn lemma_evaluated_fields_stable(
    a: SemArena,
    b: SemArena,
    entries: Seq<Definition>,
    nodes: Seq<SyntaxNode>,
    env: EnvId,
    parent: int,
    fields: Seq<FieldNode>,
    out: Seq<SemField>,
)
    requires
        evaluated_fields(a, entries, nodes, env, parent, fields, out),
        grows(a, b),
        b.frames() == a.frames(),
    ensures
        evaluated_fields(b, entries, nodes, env, parent, fields, out),
    decreases parent, 0nat, fields.len(),
{
    if fields.len() > 0 {
        lemma_evaluated_value_stable(a, b, entries, nodes, env, fields.last().value.0, out.last().value);
        lemma_evaluated_fields_stable(a, b, entries, nodes, env, parent, fields.drop_last(), out.drop_last());
    }
}

/// `a` and `b` are one value node: the same former over the same payloads,
/// the handle runs of a list or record compared element for element.
pub open spec fn same_value_node(a: ValueNode, b: ValueNode) -> bool {
    match a {
        ValueNode::List(x) => b matches ValueNode::List(y) && x@ == y@,
        ValueNode::Record(x) => b matches ValueNode::Record(y) && x@ == y@,
        _ => a == b,
    }
}

/// A copy of a value node, the same node.
fn copy_value_node(node: &ValueNode) -> (r: ValueNode)
    ensures
        same_value_node(r, *node),
{
    match node {
        ValueNode::Var(name) => ValueNode::Var(name.clone()),
        ValueNode::Unit => ValueNode::Unit,
        ValueNode::Int(n) => ValueNode::Int(*n),
        ValueNode::Str(text) => ValueNode::Str(text.clone()),
        ValueNode::Num(literal) => ValueNode::Num(*literal),
        ValueNode::Pair(a, b) => ValueNode::Pair(*a, *b),
        ValueNode::Inj(side, a) => ValueNode::Inj(*side, *a),
        ValueNode::List(items) => ValueNode::List(copy_vec(items)),
        ValueNode::Record(fields) => ValueNode::Record(copy_field_nodes(fields)),
        ValueNode::Thunk(grade, body) => ValueNode::Thunk(*grade, *body),
        ValueNode::Annot(a, ty) => ValueNode::Annot(*a, share(ty)),
        ValueNode::Hole(hole) => ValueNode::Hole(*hole),
        ValueNode::Stk(stack) => ValueNode::Stk(*stack),
        ValueNode::Here(a) => ValueNode::Here(*a),
        ValueNode::Ctor { id, tag, payload } => ValueNode::Ctor {
            id: crate::types::DataId { serial: id.serial, name: id.name.clone() },
            tag: *tag,
            payload: *payload,
        },
    }
}

/// A copy of a record node's fields, field for field.
fn copy_field_nodes(fields: &Vec<FieldNode>) -> (r: Vec<FieldNode>)
    ensures
        r@ == fields@,
{
    let mut out: Vec<FieldNode> = Vec::new();
    let mut index: usize = 0;
    while index < fields.len()
        invariant
            index <= fields@.len(),
            out@ == fields@.subrange(0, index as int),
        decreases fields@.len() - index,
    {
        let field = &fields[index];
        out.push(FieldNode { label: field.label.clone(), value: field.value });
        index = index + 1;
        proof {
            assert(out@ =~= fields@.subrange(0, index as int));
        }
    }
    proof {
        assert(fields@.subrange(0, fields@.len() as int) =~= fields@);
    }
    out
}

/// `c` names a computation of `a` that is a neutral with an empty spine and
/// nothing to unfold.
pub open spec fn stuck_on(a: SemArena, c: SemCompId) -> bool {
    &&& c.0 < a.comp_nodes().len()
    &&& a.comp_nodes()[c.0 as int].node matches SemCompNode::Neutral(n)
    &&& n.0 < a.neutral_nodes().len()
    &&& a.neutral_nodes()[n.0 as int].spine@.len() == 0
    &&& a.neutral_nodes()[n.0 as int].unfold == CompUnfold::Rigid
}

/// The head of the neutral computation `c` names.
pub open spec fn head_of(a: SemArena, c: SemCompId) -> NeutralHead {
    a.neutral_nodes()[a.comp_nodes()[c.0 as int].node->Neutral_0.0 as int].head
}

/// The weak-head form the arena holds under the computation id `c`.
pub open spec fn comp_shape(a: SemArena, c: SemCompId) -> SemCompNode {
    a.comp_nodes()[c.0 as int].node
}

/// `cl` names a fresh closure of `a` over `env`, abstracting `binders` in
/// `body`.
pub open spec fn closure_is(a: SemArena, cl: ClosureId, env: EnvId, binders: Seq<String>, body: CompNodeId) -> bool {
    &&& cl.0 < a.closure_nodes().len()
    &&& a.closure_nodes()[cl.0 as int].env == env
    &&& a.closure_nodes()[cl.0 as int].binders@ == binders
    &&& a.closure_nodes()[cl.0 as int].body == body
    &&& a.closure_nodes()[cl.0 as int].memo is None
}

/// Each closure of `cls` is fresh over `env`, abstracting the matching
/// clause's payload and resumption binders in its body.
pub open spec fn clause_closures(a: SemArena, env: EnvId, ops: Seq<ClauseNode>, cls: Seq<ClosureId>) -> bool {
    &&& cls.len() == ops.len()
    &&& forall|i: int| 0 <= i < ops.len() ==> closure_is(
        a,
        #[trigger] cls[i],
        env,
        seq![ops[i].payload, ops[i].resume],
        ops[i].body,
    )
}

/// The weak-head form is a free variable, which a definition may unfold.
pub open spec fn free_form_of(n: SemValueNode) -> bool {
    n matches SemValueNode::Rigid(Rigid::Free(_), _)
}

/// `c` is what running `body` in `env` with `binders` bound to `vals`, in
/// order, gives, within `fuel` nested steps.
pub open spec fn ran_under(
    a: SemArena,
    entries: Seq<Definition>,
    nodes: Seq<SyntaxNode>,
    env: EnvId,
    binders: Seq<String>,
    vals: Seq<SemValueId>,
    body: CompNodeId,
    c: SemCompId,
    fuel: nat,
) -> bool
    decreases fuel, 3nat,
{
    exists|inner: EnvId| #[trigger]
        binds_all(a.frames(), inner, env, binders, vals) && evaluated_former(
            a,
            entries,
            nodes,
            inner,
            body.0,
            c,
            fuel,
        )
}

/// `c` names a computation of `a`.
pub open spec fn minted_comp(a: SemArena, c: SemCompId) -> bool {
    c.0 < a.comp_nodes().len()
}

/// What evaluating computation node `node` in `env`, within `fuel` nested
/// steps, gives: an abstraction, a returner, and a lazy pair become their
/// canonical forms over fresh closures of `env` (the returner over its
/// evaluated value); a duplication, discard, performance, handler,
/// resumption, delimiter, capture, hole, and native application become a
/// neutral stuck on themselves over their evaluated operands and fresh
/// closures; an application, a sequencing, and a projection evaluate their
/// computation (and the argument, or a closure over the continuation) and
/// then apply the eliminator, and a force evaluates its value and forces it.
/// The eliminations of values, which run their scrutinee, are not described
/// here.
pub open spec fn evaluated_former(
    a: SemArena,
    entries: Seq<Definition>,
    nodes: Seq<SyntaxNode>,
    env: EnvId,
    node: u32,
    c: SemCompId,
    fuel: nat,
) -> bool
    decreases fuel, 2nat,
{
    if node < nodes.len() && nodes[node as int] is Comp {
        let shape = comp_shape(a, c);
        let head = head_of(a, c);
        match nodes[node as int]->Comp_0 {
            CompNode::Abs(x, _, body) => {
                &&& c.0 < a.comp_nodes().len()
                &&& shape matches SemCompNode::Lambda(cl)
                &&& closure_is(a, cl, env, seq![x], body)
            },
            CompNode::Ret(v) => {
                &&& c.0 < a.comp_nodes().len()
                &&& shape matches SemCompNode::Return(i)
                &&& evaluated_value(a, entries, nodes, env, v.0, i)
            },
            CompNode::With(f, g) => {
                &&& c.0 < a.comp_nodes().len()
                &&& shape matches SemCompNode::LazyPair(c1, c2)
                &&& closure_is(a, c1, env, Seq::empty(), f)
                &&& closure_is(a, c2, env, Seq::empty(), g)
            },
            CompNode::Dup(v) => {
                &&& stuck_on(a, c)
                &&& head matches NeutralHead::Dup(i)
                &&& evaluated_value(a, entries, nodes, env, v.0, i)
            },
            CompNode::Drop(v) => {
                &&& stuck_on(a, c)
                &&& head matches NeutralHead::Drop(i)
                &&& evaluated_value(a, entries, nodes, env, v.0, i)
            },
            CompNode::Perform(_, _, v) => {
                &&& stuck_on(a, c)
                &&& head matches NeutralHead::Perform { source, payload }
                &&& source == CompNodeId(node)
                &&& evaluated_value(a, entries, nodes, env, v.0, payload)
            },
            CompNode::Handle { scrutinee, ret, ops, .. } => {
                &&& stuck_on(a, c)
                &&& head matches NeutralHead::Handle { source, scrutinee: h, ret: r, ops: cls }
                &&& source == CompNodeId(node)
                &&& closure_is(a, h, env, Seq::empty(), scrutinee)
                &&& closure_is(a, r, env, seq![ret.binder], ret.body)
                &&& clause_closures(a, env, ops@, cls@)
            },
            CompNode::Resume(v, body) => {
                &&& stuck_on(a, c)
                &&& head matches NeutralHead::Resume { value, body: cl }
                &&& evaluated_value(a, entries, nodes, env, v.0, value)
                &&& closure_is(a, cl, env, Seq::empty(), body)
            },
            CompNode::Reset(body) => {
                &&& stuck_on(a, c)
                &&& head matches NeutralHead::Reset(cl)
                &&& closure_is(a, cl, env, Seq::empty(), body)
            },
            CompNode::Shift(x, body) => {
                &&& stuck_on(a, c)
                &&& head matches NeutralHead::Shift(cl)
                &&& closure_is(a, cl, env, seq![x], body)
            },
            CompNode::Hole(hole) => stuck_on(a, c) && head == NeutralHead::Hole(hole),
            CompNode::Native { prim, args } => {
                &&& stuck_on(a, c)
                &&& head matches NeutralHead::Native { prim: p, args: ids }
                &&& p == prim
                &&& evaluated_values(a, entries, nodes, env, node as int, args@, ids@)
            },
            CompNode::App(f, x) => fuel > 0 && f.0 < node && exists|
                first: SemArena,
                then: SemArena,
                fc: SemCompId,
                av: SemValueId,
            |
                #![trigger minted_comp(first, fc), evaluated_value(then, entries, nodes, env, x.0, av)]
                {
                    &&& minted_comp(first, fc)
                    &&& evaluated_former(first, entries, nodes, env, f.0, fc, (fuel - 1) as nat)
                    &&& grows(first, then)
                    &&& evaluated_value(then, entries, nodes, env, x.0, av)
                    &&& grows(then, a)
                    &&& eliminated(then, a, entries, nodes, fc, Elim::Apply(av), c, (fuel - 1) as nat)
                },
            CompNode::Bind(m, x, k) => fuel > 0 && m.0 < node && exists|
                first: SemArena,
                then: SemArena,
                mc: SemCompId,
                cl: ClosureId,
            |
                #![trigger minted_comp(first, mc), closure_is(then, cl, env, seq![x], k)]
                {
                    &&& minted_comp(first, mc)
                    &&& evaluated_former(first, entries, nodes, env, m.0, mc, (fuel - 1) as nat)
                    &&& grows(first, then)
                    &&& closure_is(then, cl, env, seq![x], k)
                    &&& grows(then, a)
                    &&& eliminated(then, a, entries, nodes, mc, Elim::Sequence(cl), c, (fuel - 1) as nat)
                },
            CompNode::Prj(side, m) => fuel > 0 && m.0 < node && exists|first: SemArena, mc: SemCompId|
                #![trigger minted_comp(first, mc)]
                {
                    &&& minted_comp(first, mc)
                    &&& evaluated_former(first, entries, nodes, env, m.0, mc, (fuel - 1) as nat)
                    &&& grows(first, a)
                    &&& eliminated(first, a, entries, nodes, mc, Elim::Project(side), c, (fuel - 1) as nat)
                },
            CompNode::Case(v, l, r) => fuel > 0 && exists|first: SemArena, raw: SemValueId|
                #![trigger evaluated_value(first, entries, nodes, env, v.0, raw)]
                {
                    &&& evaluated_value(first, entries, nodes, env, v.0, raw)
                    &&& grows(first, a)
                    &&& raw.0 < first.value_nodes().len() ==> match first.value_nodes()[raw.0 as int].node {
                        SemValueNode::Inj(side, p) => {
                            let branch = match side {
                                Side::Fst => l,
                                Side::Snd => r,
                            };
                            ran_under(a, entries, nodes, env, seq![branch.binder], seq![p], branch.body, c, (fuel - 1) as nat)
                        },
                        SemValueNode::Rigid(Rigid::Free(_), _) => true,
                        _ => {
                            &&& stuck_on(a, c)
                            &&& head matches NeutralHead::Case { scrutinee, on_left, on_right }
                            &&& scrutinee == raw
                            &&& closure_is(a, on_left, env, seq![l.binder], l.body)
                            &&& closure_is(a, on_right, env, seq![r.binder], r.body)
                        },
                    }
                },
            CompNode::Force(v) => fuel > 0 && exists|first: SemArena, fv: SemValueId|
                #![trigger evaluated_value(first, entries, nodes, env, v.0, fv)]
                {
                    &&& evaluated_value(first, entries, nodes, env, v.0, fv)
                    &&& grows(first, a)
                    &&& forced(first, a, entries, nodes, fv, c, (fuel - 1) as nat)
                },
            _ => true,
        }
    } else {
        true
    }
}

/// How `name` resolves once `names` are bound to `vals`, in order, over the
/// environment `base` of `frames`: the last binder carrying the name wins,
/// and a name no binder carries resolves as in `base`.
pub open spec fn bound_in_order(
    frames: Seq<EnvFrame>,
    base: EnvId,
    names: Seq<String>,
    vals: Seq<SemValueId>,
    name: Seq<char>,
) -> Option<SemValueId>
    decreases names.len(),
{
    if names.len() == 0 || vals.len() == 0 {
        env_lookup(frames, base, name)
    } else if names.last()@ == name {
        Some(vals.last())
    } else {
        bound_in_order(frames, base, names.drop_last(), vals.drop_last(), name)
    }
}

/// The environment `inner` of `frames` is `base` with `names` bound to
/// `vals`, in order: a chain of frames, the last binder outermost-in, whose
/// innermost link leads back to `base`.
pub open spec fn binds_all(
    frames: Seq<EnvFrame>,
    inner: EnvId,
    base: EnvId,
    names: Seq<String>,
    vals: Seq<SemValueId>,
) -> bool
    decreases names.len(),
{
    if names.len() == 0 || vals.len() == 0 {
        names.len() == vals.len() && inner == base
    } else {
        &&& 1 <= inner.0 <= frames.len()
        &&& frames[inner.0 - 1].name@ == names.last()@
        &&& frames[inner.0 - 1].value == vals.last()
        &&& binds_all(frames, frames[inner.0 - 1].rest, base, names.drop_last(), vals.drop_last())
    }
}

/// In an environment that binds `names` to `vals` over `base`, each name
/// resolves as [`bound_in_order`] says.
pub proof fn lemma_binds_all_lookup(
    frames: Seq<EnvFrame>,
    inner: EnvId,
    base: EnvId,
    names: Seq<String>,
    vals: Seq<SemValueId>,
    name: Seq<char>,
)
    requires
        binds_all(frames, inner, base, names, vals),
    ensures
        env_lookup(frames, inner, name) == bound_in_order(frames, base, names, vals, name),
    decreases names.len(),
{
    if names.len() > 0 && vals.len() > 0 {
        let rest = frames[inner.0 - 1].rest;
        if names.last()@ == name {
            assert(env_walk(frames, inner, name, frames.len() + 1) == Some(
                Ok::<Option<SemValueId>, SemError>(Some(vals.last())),
            ));
        } else {
            crate::nbe::sem::lemma_resolve_step(frames, inner, name);
            lemma_binds_all_lookup(frames, rest, base, names.drop_last(), vals.drop_last(), name);
        }
    }
}

/// `c` is what running the closure `clo` on `args` gives, for the formers
/// [`evaluated_former`] describes: its body evaluated in its environment
/// with its binders bound to `args`.
pub open spec fn instantiated(
    a: SemArena,
    entries: Seq<Definition>,
    nodes: Seq<SyntaxNode>,
    clo: Closure,
    args: Seq<SemValueId>,
    c: SemCompId,
    fuel: nat,
) -> bool
    decreases fuel, 0nat,
{
    &&& fuel > 0
    &&& clo.binders@.len() == args.len()
    &&& exists|inner: EnvId| #[trigger]
        binds_all(a.frames(), inner, clo.env, clo.binders@, args) && evaluated_former(
            a,
            entries,
            nodes,
            inner,
            clo.body.0,
            c,
            (fuel - 1) as nat,
        )
}

/// Binding order survives appending frames.
pub proof fn lemma_binds_all_prefix(
    before: Seq<EnvFrame>,
    after: Seq<EnvFrame>,
    inner: EnvId,
    base: EnvId,
    names: Seq<String>,
    vals: Seq<SemValueId>,
)
    requires
        binds_all(before, inner, base, names, vals),
        after.len() >= before.len(),
        forall|i: int| 0 <= i < before.len() ==> after[i] == before[i],
    ensures
        binds_all(after, inner, base, names, vals),
    decreases names.len(),
{
    if names.len() > 0 && vals.len() > 0 {
        assert(after[inner.0 - 1] == before[inner.0 - 1]);
        lemma_binds_all_prefix(before, after, before[inner.0 - 1].rest, base, names.drop_last(), vals.drop_last());
    }
}

/// `a` and `b` are one computation node: the same former over the same
/// payloads, the runs of arms, clauses, and arguments compared element for
/// element.
pub open spec fn same_comp_node(a: CompNode, b: CompNode) -> bool {
    match a {
        CompNode::DataCase(v, arms) => match b {
            CompNode::DataCase(w, others) => v == w && arms@ == others@,
            _ => false,
        },
        CompNode::Handle { sig, scrutinee, ret, ops } => match b {
            CompNode::Handle { sig: s, scrutinee: m, ret: r, ops: o } => sig == s && scrutinee == m
                && ret == r && ops@ == o@,
            _ => false,
        },
        CompNode::Native { prim, args } => match b {
            CompNode::Native { prim: p, args: xs } => prim == p && args@ == xs@,
            _ => false,
        },
        _ => a == b,
    }
}

/// A fresh closure stays what it was while the arena only grows.
pub proof fn lemma_closure_is_stable(
    a: SemArena,
    b: SemArena,
    cl: ClosureId,
    env: EnvId,
    binders: Seq<String>,
    body: CompNodeId,
)
    requires
        closure_is(a, cl, env, binders, body),
        grows(a, b),
    ensures
        closure_is(b, cl, env, binders, body),
{
    assert(b.closure_nodes()[cl.0 as int] == a.closure_nodes()[cl.0 as int]);
}

/// A copy of an optional shared handle, the same handle.
fn copy_optional<T>(handle: &Option<Rc<T>>) -> (r: Option<Rc<T>>)
    ensures
        r == *handle,
{
    match handle {
        Some(inner) => Some(share(inner)),
        None => None,
    }
}

/// A copy of a branch node, equal to it.
fn copy_branch(branch: &BranchNode) -> (r: BranchNode)
    ensures
        r == *branch,
{
    BranchNode { binder: branch.binder.clone(), body: branch.body }
}

/// A copy of a run of branch nodes, branch for branch.
fn copy_branches(arms: &Vec<BranchNode>) -> (r: Vec<BranchNode>)
    ensures
        r@ == arms@,
{
    let mut out: Vec<BranchNode> = Vec::new();
    let mut index: usize = 0;
    while index < arms.len()
        invariant
            index <= arms@.len(),
            out@ == arms@.subrange(0, index as int),
        decreases arms@.len() - index,
    {
        out.push(copy_branch(&arms[index]));
        index = index + 1;
        proof {
            assert(out@ =~= arms@.subrange(0, index as int));
        }
    }
    proof {
        assert(arms@.subrange(0, arms@.len() as int) =~= arms@);
    }
    out
}

/// A copy of a run of clause nodes, clause for clause.
fn copy_clauses(ops: &Vec<ClauseNode>) -> (r: Vec<ClauseNode>)
    ensures
        r@ == ops@,
{
    let mut out: Vec<ClauseNode> = Vec::new();
    let mut index: usize = 0;
    while index < ops.len()
        invariant
            index <= ops@.len(),
            out@ == ops@.subrange(0, index as int),
        decreases ops@.len() - index,
    {
        let clause = &ops[index];
        out.push(
            ClauseNode {
                op: clause.op.clone(),
                payload: clause.payload.clone(),
                resume: clause.resume.clone(),
                body: clause.body,
            },
        );
        index = index + 1;
        proof {
            assert(out@ =~= ops@.subrange(0, index as int));
        }
    }
    proof {
        assert(ops@.subrange(0, ops@.len() as int) =~= ops@);
    }
    out
}

/// A copy of a computation node, the same node.
fn copy_comp_node(node: &CompNode) -> (r: CompNode)
    ensures
        same_comp_node(r, *node),
{
    match node {
        CompNode::Abs(x, ann, body) => CompNode::Abs(x.clone(), copy_optional(ann), *body),
        CompNode::App(f, a) => CompNode::App(*f, *a),
        CompNode::Ret(v) => CompNode::Ret(*v),
        CompNode::Bind(m, x, k) => CompNode::Bind(*m, x.clone(), *k),
        CompNode::Force(v) => CompNode::Force(*v),
        CompNode::Case(v, l, r) => CompNode::Case(*v, copy_branch(l), copy_branch(r)),
        CompNode::DataCase(v, arms) => CompNode::DataCase(*v, copy_branches(arms)),
        CompNode::ListCase { scrut, nil, head, tail, cons } => CompNode::ListCase {
            scrut: *scrut,
            nil: *nil,
            head: head.clone(),
            tail: tail.clone(),
            cons: *cons,
        },
        CompNode::Split { scrut, fst_name, snd_name, motive, body } => CompNode::Split {
            scrut: *scrut,
            fst_name: fst_name.clone(),
            snd_name: snd_name.clone(),
            motive: copy_optional(motive),
            body: *body,
        },
        CompNode::RecordProj { record, label } => CompNode::RecordProj {
            record: *record,
            label: label.clone(),
        },
        CompNode::With(a, b) => CompNode::With(*a, *b),
        CompNode::Prj(side, m) => CompNode::Prj(*side, *m),
        CompNode::Dup(v) => CompNode::Dup(*v),
        CompNode::Drop(v) => CompNode::Drop(*v),
        CompNode::Perform(sig, op, v) => CompNode::Perform(share(sig), op.clone(), *v),
        CompNode::Handle { sig, scrutinee, ret, ops } => CompNode::Handle {
            sig: share(sig),
            scrutinee: *scrutinee,
            ret: copy_branch(ret),
            ops: copy_clauses(ops),
        },
        CompNode::Resume(v, m) => CompNode::Resume(*v, *m),
        CompNode::Reset(m) => CompNode::Reset(*m),
        CompNode::Shift(x, m) => CompNode::Shift(x.clone(), *m),
        CompNode::Hole(hole) => CompNode::Hole(*hole),
        CompNode::Native { prim, args } => CompNode::Native { prim: *prim, args: copy_vec(args) },
        CompNode::Walk { scrut, motive, base } => CompNode::Walk {
            scrut: *scrut,
            motive: share(motive),
            base: copy_branch(base),
        },
    }
}

/// The value node a handle names, copied out of the store.
fn store_value(nbe: &Normalizer, node: ValueNodeId) -> (r: Result<ValueNode, SemError>)
    ensures
        r is Ok <==> node.0 < nbe.syntax.nodes().len() && nbe.syntax.nodes()[node.0 as int] is Value,
        r matches Err(e) ==> e == SemError::MissingSyntaxValue(node),
        r matches Ok(v) ==> node.0 < nbe.syntax.nodes().len() && nbe.syntax.nodes()[node.0 as int] is Value
            && same_value_node(v, nbe.syntax.nodes()[node.0 as int]->Value_0),
{
    match nbe.syntax.value_node(node) {
        Ok(found) => Ok(copy_value_node(found)),
        Err(_) => Err(SemError::MissingSyntaxValue(node)),
    }
}

/// The computation node a handle names, copied out of the store.
fn store_comp(nbe: &Normalizer, node: CompNodeId) -> (r: Result<CompNode, SemError>)
    ensures
        r is Ok <==> node.0 < nbe.syntax.nodes().len() && nbe.syntax.nodes()[node.0 as int] is Comp,
        r matches Err(e) ==> e == SemError::MissingSyntaxComp(node),
        r matches Ok(c) ==> node.0 < nbe.syntax.nodes().len() && nbe.syntax.nodes()[node.0 as int] is Comp
            && same_comp_node(c, nbe.syntax.nodes()[node.0 as int]->Comp_0),
{
    match nbe.syntax.comp_node(node) {
        Ok(found) => Ok(copy_comp_node(found)),
        Err(_) => Err(SemError::MissingSyntaxComp(node)),
    }
}

/// The weak-head form a value id resolves to, copied out of the arena.
pub fn value_node(nbe: &Normalizer, id: SemValueId) -> (r: Result<SemValueNode, SemError>)
    ensures
        r matches Ok(v) ==> id.0 < nbe.arena.value_nodes().len() && same_sem_node(
            v,
            nbe.arena.value_nodes()[id.0 as int].node,
        ),
        r is Err ==> id.0 >= nbe.arena.value_nodes().len(),
        r matches Err(e) ==> e == SemError::MissingValue(id),
{
    let value = nbe.arena.value(id)?;
    Ok(copy_sem_node(&value.node))
}

/// `a` and `b` are one weak-head form: the same former over the same
/// payloads, the runs of a list or record compared element for element.
pub open spec fn same_sem_node(a: SemValueNode, b: SemValueNode) -> bool {
    match a {
        SemValueNode::List(x) => match b {
            SemValueNode::List(y) => x@ == y@,
            _ => false,
        },
        SemValueNode::Record(x) => match b {
            SemValueNode::Record(y) => x@ == y@,
            _ => false,
        },
        _ => a == b,
    }
}

/// A copy of a record's semantic fields, field for field.
fn copy_sem_fields(fields: &Vec<SemField>) -> (r: Vec<SemField>)
    ensures
        r@ == fields@,
{
    let mut out: Vec<SemField> = Vec::new();
    let mut index: usize = 0;
    while index < fields.len()
        invariant
            index <= fields@.len(),
            out@ == fields@.subrange(0, index as int),
        decreases fields@.len() - index,
    {
        let field = &fields[index];
        out.push(SemField { label: field.label.clone(), value: field.value });
        index = index + 1;
        proof {
            assert(out@ =~= fields@.subrange(0, index as int));
        }
    }
    proof {
        assert(fields@.subrange(0, fields@.len() as int) =~= fields@);
    }
    out
}

/// A copy of a weak-head form, the same form.
fn copy_sem_node(node: &SemValueNode) -> (r: SemValueNode)
    ensures
        same_sem_node(r, *node),
{
    match node {
        SemValueNode::Unit => SemValueNode::Unit,
        SemValueNode::Int(n) => SemValueNode::Int(*n),
        SemValueNode::Str(text) => SemValueNode::Str(text.clone()),
        SemValueNode::Num(literal) => SemValueNode::Num(*literal),
        SemValueNode::Pair(a, b) => SemValueNode::Pair(*a, *b),
        SemValueNode::Inj(side, a) => SemValueNode::Inj(*side, *a),
        SemValueNode::List(items) => SemValueNode::List(copy_vec(items)),
        SemValueNode::Record(fields) => SemValueNode::Record(copy_sem_fields(fields)),
        SemValueNode::Thunk(grade, closure) => SemValueNode::Thunk(*grade, *closure),
        SemValueNode::Here(a) => SemValueNode::Here(*a),
        SemValueNode::Ctor { id, tag, payload } => SemValueNode::Ctor {
            id: crate::types::DataId { serial: id.serial, name: id.name.clone() },
            tag: *tag,
            payload: *payload,
        },
        SemValueNode::Reified(stack) => SemValueNode::Reified(*stack),
        SemValueNode::Rigid(head, unfold) => {
            let copied = match head {
                Rigid::Level(level) => Rigid::Level(*level),
                Rigid::Free(name) => Rigid::Free(name.clone()),
                Rigid::Hole(hole) => Rigid::Hole(*hole),
            };
            SemValueNode::Rigid(copied, *unfold)
        },
    }
}

/// Evaluates a value node in `env`, reporting whether the result read
/// nothing out of the environment — the condition for it to retain `node` as
/// its term face.
#[verifier::loop_isolation(false)]
pub fn eval_value_at(nbe: &mut Normalizer, env: EnvId, node: ValueNodeId, depth: u32) -> (r: Result<
    (SemValueId, bool),
    SemError,
>)
    requires
        old(nbe).wf(),
    ensures
        evaluates(*old(nbe), *final(nbe)),
        final(nbe).next_level == old(nbe).next_level,
        final(nbe).arena.frames() == old(nbe).arena.frames(),
        r matches Ok((id, kept)) ==> evaluated_value(
            final(nbe).arena,
            old(nbe).defs.entries(),
            old(nbe).syntax.nodes(),
            env,
            node.0,
            id,
        ) && kept == value_keeps(old(nbe).arena.frames(), env, old(nbe).syntax.nodes(), node.0),
        depth == 0 ==> r == Err::<(SemValueId, bool), SemError>(SemError::StepLimit),
        depth > 0 && !(node.0 < old(nbe).syntax.nodes().len() && old(nbe).syntax.nodes()[node.0 as int] is Value)
            ==> r == Err::<(SemValueId, bool), SemError>(SemError::MissingSyntaxValue(node)),
        depth > 0 && literal_value_at(old(nbe).syntax.nodes(), node.0) && has_room(
            old(nbe).arena.value_nodes().len(),
        ) ==> r is Ok,
        env.0 == 0 ==> (r matches Ok((id, _)) ==> id.0 >= old(nbe).arena.value_nodes().len()),
        depth > 0 && literal_value_at(old(nbe).syntax.nodes(), node.0) ==> (r matches Ok((id, _)) ==> {
            &&& id.0 == old(nbe).arena.value_nodes().len()
            &&& id.0 < final(nbe).arena.value_nodes().len()
            &&& final(nbe).arena.value_nodes().len() == id.0 + 1
            &&& final(nbe).arena.value_nodes()[id.0 as int].node == literal_form(
                old(nbe).syntax.nodes()[node.0 as int]->Value_0,
            )
            &&& final(nbe).arena.comp_nodes() == old(nbe).arena.comp_nodes()
            &&& final(nbe).arena.neutral_nodes() == old(nbe).arena.neutral_nodes()
        }),
        env.0 == 0 && inert_cost(old(nbe).syntax.nodes(), node.0, depth as nat) is Some
            && old(nbe).arena.value_nodes().len() + inert_cost(old(nbe).syntax.nodes(), node.0, depth as nat)->Some_0
            <= u32::MAX + 1 ==> (r matches Ok((id, _)) && final(nbe).arena.value_nodes().len()
            <= old(nbe).arena.value_nodes().len() + inert_cost(old(nbe).syntax.nodes(), node.0, depth as nat)->Some_0
            && sem_cost(final(nbe).arena, id, depth as nat) == inert_cost(old(nbe).syntax.nodes(), node.0, depth as nat)),
    decreases depth,
{
    if depth == 0 {
        return Err(SemError::StepLimit);
    }
    let below = depth - 1;
    let ghost nodes = nbe.syntax.nodes();
    let ghost entries = nbe.defs.entries();
    let ghost frames = nbe.arena.frames();
    let ghost start_len = nbe.arena.value_nodes().len();
    let ghost good = env.0 == 0 && inert_cost(nodes, node.0, depth as nat) is Some && start_len
        + inert_cost(nodes, node.0, depth as nat)->Some_0 <= u32::MAX + 1;
    let ghost cost = inert_cost(nodes, node.0, depth as nat)->Some_0;
    let syntax = store_value(nbe, node)?;
    let ghost stored = nodes[node.0 as int]->Value_0;
    proof {
        nbe.syntax.lemma_value_children_below(node, stored);
        lemma_small_below();
    }
    let (sem, kept) = match syntax {
        ValueNode::Var(name) => match nbe.arena.lookup(env, name.as_str())? {
            Some(bound) => {
                return Ok((bound, false));
            },
            None => {
                let unfold = match nbe.defs.lookup(name.as_str()) {
                    Some(definition) => ValueUnfold::Pending(definition.height),
                    None => ValueUnfold::Rigid,
                };
                (SemValueNode::Rigid(Rigid::Free(name), unfold), true)
            },
        },
        ValueNode::Unit => (SemValueNode::Unit, true),
        ValueNode::Int(literal) => (SemValueNode::Int(literal), true),
        ValueNode::Str(literal) => (SemValueNode::Str(literal), true),
        ValueNode::Num(literal) => (SemValueNode::Num(literal), true),
        ValueNode::Pair(fst, snd) => {
            let (fst_id, kept_fst) = eval_value_at(nbe, env, fst, below)?;
            let ghost middle = nbe.arena;
            let (snd_id, kept_snd) = eval_value_at(nbe, env, snd, below)?;
            proof {
                lemma_evaluated_value_stable(middle, nbe.arena, entries, nodes, env, fst.0, fst_id);
                if good {
                    lemma_sem_cost_stable(middle, nbe.arena, fst_id, below as nat);
                }
            }
            (SemValueNode::Pair(fst_id, snd_id), kept_fst && kept_snd)
        },
        ValueNode::Inj(side, payload) => {
            let (payload, kept) = eval_value_at(nbe, env, payload, below)?;
            (SemValueNode::Inj(side, payload), kept)
        },
        ValueNode::List(items) => {
            let ghost handles = stored->List_0@;
            proof {
                assert(items@ == handles);
                assert forall|i: int| 0 <= i < handles.len() implies (#[trigger] handles[i]).0
                    < node.0 by {
                    assert(value_children(stored)[i] == handles[i].0);
                }
            }
            let mut ids: Vec<SemValueId> = Vec::new();
            let mut all_kept = true;
            let mut index: usize = 0;
            proof {
                assert(handles.take(0) =~= Seq::<ValueNodeId>::empty());
            }
            while index < items.len()
                invariant
                    index <= items@.len(),
                    items@ == handles,
                    below < depth,
                    old(nbe).wf(),
                    evaluates(*old(nbe), *nbe),
                    nbe.next_level == old(nbe).next_level,
                    nbe.arena.frames() == frames,
                    frames == old(nbe).arena.frames(),
                    nodes == old(nbe).syntax.nodes(),
                    entries == old(nbe).defs.entries(),
                    forall|i: int| 0 <= i < handles.len() ==> (#[trigger] handles[i]).0 < node.0,
                    evaluated_values(nbe.arena, entries, nodes, env, node.0 as int, handles.take(index as int), ids@),
                    good ==> env.0 == 0,
                    good ==> items_inert_cost(nodes, node.0 as int, handles, below as nat) is Some
                        && start_len + 1 + items_inert_cost(nodes, node.0 as int, handles, below as nat)->Some_0
                        <= u32::MAX + 1,
                    good ==> items_inert_cost(nodes, node.0 as int, handles.take(index as int), below as nat) is Some
                        && nbe.arena.value_nodes().len() <= start_len + items_inert_cost(
                        nodes,
                        node.0 as int,
                        handles.take(index as int),
                        below as nat,
                    )->Some_0 && sem_items_cost(nbe.arena, ids@, below as nat) == items_inert_cost(
                        nodes,
                        node.0 as int,
                        handles.take(index as int),
                        below as nat,
                    ),
                    all_kept == values_keep(frames, env, nodes, node.0 as int, handles.take(index as int)),
                decreases items@.len() - index,
            {
                let ghost before = nbe.arena;
                proof {
                    if good {
                        lemma_items_inert_cost_take(nodes, node.0 as int, handles, below as nat, index as int);
                    }
                }
                let (id, kept) = eval_value_at(nbe, env, items[index], below)?;
                proof {
                    if good {
                        lemma_sem_items_cost_stable(before, nbe.arena, ids@, below as nat);
                    }
                    lemma_evaluated_values_stable(
                        before,
                        nbe.arena,
                        entries,
                        nodes,
                        env,
                        node.0 as int,
                        handles.take(index as int),
                        ids@,
                    );
                }
                let ghost prior = ids@;
                ids.push(id);
                all_kept = all_kept && kept;
                index = index + 1;
                proof {
                    let taken = handles.take(index as int);
                    assert(taken.last() == handles[index - 1]);
                    assert(taken.drop_last() =~= handles.take(index - 1));
                    assert(ids@.drop_last() =~= prior);
                    assert(ids@.last() == id);
                    if good {
                        lemma_items_inert_cost_take(nodes, node.0 as int, handles, below as nat, index - 1);
                    }
                }
            }
            proof {
                assert(handles.take(items@.len() as int) =~= handles);
            }
            (SemValueNode::List(ids), all_kept)
        },
        ValueNode::Record(fields) => {
            let ghost stored_fields = stored->Record_0@;
            proof {
                assert(fields@ == stored_fields);
                assert forall|i: int| 0 <= i < stored_fields.len() implies (
                #[trigger] stored_fields[i]).value.0 < node.0 by {
                    assert(value_children(stored)[i] == stored_fields[i].value.0);
                }
            }
            let mut out: Vec<SemField> = Vec::new();
            let mut all_kept = true;
            let mut index: usize = 0;
            proof {
                assert(stored_fields.take(0) =~= Seq::<FieldNode>::empty());
            }
            while index < fields.len()
                invariant
                    index <= fields@.len(),
                    fields@ == stored_fields,
                    below < depth,
                    old(nbe).wf(),
                    evaluates(*old(nbe), *nbe),
                    nbe.next_level == old(nbe).next_level,
                    nbe.arena.frames() == frames,
                    frames == old(nbe).arena.frames(),
                    nodes == old(nbe).syntax.nodes(),
                    entries == old(nbe).defs.entries(),
                    forall|i: int| 0 <= i < stored_fields.len() ==> (
                    #[trigger] stored_fields[i]).value.0 < node.0,
                    evaluated_fields(nbe.arena, entries, nodes, env, node.0 as int, stored_fields.take(index as int), out@),
                    good ==> env.0 == 0,
                    good ==> fields_inert_cost(nodes, node.0 as int, stored_fields, below as nat) is Some
                        && start_len + 1 + fields_inert_cost(nodes, node.0 as int, stored_fields, below as nat)->Some_0
                        <= u32::MAX + 1,
                    good ==> fields_inert_cost(nodes, node.0 as int, stored_fields.take(index as int), below as nat) is Some
                        && nbe.arena.value_nodes().len() <= start_len + fields_inert_cost(
                        nodes,
                        node.0 as int,
                        stored_fields.take(index as int),
                        below as nat,
                    )->Some_0 && sem_fields_cost(nbe.arena, out@, below as nat) == fields_inert_cost(
                        nodes,
                        node.0 as int,
                        stored_fields.take(index as int),
                        below as nat,
                    ),
                    all_kept == fields_keep(frames, env, nodes, node.0 as int, stored_fields.take(index as int)),
                decreases fields@.len() - index,
            {
                let ghost before = nbe.arena;
                proof {
                    if good {
                        lemma_fields_inert_cost_take(nodes, node.0 as int, stored_fields, below as nat, index as int);
                    }
                }
                let (id, kept) = eval_value_at(nbe, env, fields[index].value, below)?;
                proof {
                    if good {
                        lemma_sem_fields_cost_stable(before, nbe.arena, out@, below as nat);
                    }
                    lemma_evaluated_fields_stable(
                        before,
                        nbe.arena,
                        entries,
                        nodes,
                        env,
                        node.0 as int,
                        stored_fields.take(index as int),
                        out@,
                    );
                }
                let ghost prior = out@;
                out.push(SemField { label: fields[index].label.clone(), value: id });
                all_kept = all_kept && kept;
                index = index + 1;
                proof {
                    let taken = stored_fields.take(index as int);
                    assert(taken.last() == stored_fields[index - 1]);
                    assert(taken.drop_last() =~= stored_fields.take(index - 1));
                    assert(out@.drop_last() =~= prior);
                    if good {
                        lemma_fields_inert_cost_take(nodes, node.0 as int, stored_fields, below as nat, index - 1);
                        assert(out@.last().value == id);
                    }
                }
            }
            proof {
                assert(stored_fields.take(fields@.len() as int) =~= stored_fields);
            }
            (SemValueNode::Record(out), all_kept)
        },
        ValueNode::Thunk(grade, body) => {
            let closure = mint_closure(nbe, env, Vec::new(), body)?;
            (SemValueNode::Thunk(grade, closure), env.0 == 0)
        },
        ValueNode::Annot(inner, _) => {
            return eval_value_at(nbe, env, inner, below);
        },
        ValueNode::Hole(hole) => (SemValueNode::Rigid(Rigid::Hole(hole), ValueUnfold::Rigid), true),
        ValueNode::Stk(stack) => (SemValueNode::Reified(stack), true),
        ValueNode::Here(witness) => {
            let (witness, kept) = eval_value_at(nbe, env, witness, below)?;
            (SemValueNode::Here(witness), kept)
        },
        ValueNode::Ctor { id, tag, payload } => {
            let (payload, kept) = eval_value_at(nbe, env, payload, below)?;
            (SemValueNode::Ctor { id, tag, payload }, kept)
        },
    };
    let term = if kept {
        Some(node)
    } else {
        None
    };
    let ghost before = nbe.arena;
    let ghost shape = sem;
    let id = mint_value(nbe, sem, term)?;
    proof {
        if good {
            match shape {
                SemValueNode::Pair(i, j) => {
                    lemma_sem_cost_stable(before, nbe.arena, i, below as nat);
                    lemma_sem_cost_stable(before, nbe.arena, j, below as nat);
                },
                SemValueNode::Inj(_, i) => lemma_sem_cost_stable(before, nbe.arena, i, below as nat),
                SemValueNode::Here(i) => lemma_sem_cost_stable(before, nbe.arena, i, below as nat),
                SemValueNode::Ctor { payload, .. } => lemma_sem_cost_stable(before, nbe.arena, payload, below as nat),
                SemValueNode::List(ids) => lemma_sem_items_cost_stable(before, nbe.arena, ids@, below as nat),
                SemValueNode::Record(out) => lemma_sem_fields_cost_stable(before, nbe.arena, out@, below as nat),
                _ => {},
            }
        }
        match shape {
            SemValueNode::Pair(i, j) => {
                lemma_evaluated_value_stable(before, nbe.arena, entries, nodes, env, stored->Pair_0.0, i);
                lemma_evaluated_value_stable(before, nbe.arena, entries, nodes, env, stored->Pair_1.0, j);
            },
            SemValueNode::Inj(_, i) => {
                lemma_evaluated_value_stable(before, nbe.arena, entries, nodes, env, stored->Inj_1.0, i);
            },
            SemValueNode::List(ids) => {
                lemma_evaluated_values_stable(before, nbe.arena, entries, nodes, env, node.0 as int, stored->List_0@, ids@);
            },
            SemValueNode::Record(out) => {
                lemma_evaluated_fields_stable(before, nbe.arena, entries, nodes, env, node.0 as int, stored->Record_0@, out@);
            },
            SemValueNode::Thunk(_, c) => {
                assert(nbe.arena.closure_nodes()[c.0 as int] == before.closure_nodes()[c.0 as int]);
            },
            SemValueNode::Here(i) => {
                lemma_evaluated_value_stable(before, nbe.arena, entries, nodes, env, stored->Here_0.0, i);
            },
            SemValueNode::Ctor { payload, .. } => {
                lemma_evaluated_value_stable(before, nbe.arena, entries, nodes, env, stored->Ctor_payload.0, payload);
            },
            _ => {},
        }
        assert(shape_of(nbe.arena, id) == shape);
        assert(evaluated_value_node(nbe.arena, entries, nodes, env, stored, node.0 as int, id));
    }
    Ok((id, kept))
}

/// Evaluates a value node in `env`.
pub fn eval_value(nbe: &mut Normalizer, env: EnvId, node: ValueNodeId) -> (r: Result<
    SemValueId,
    SemError,
>)
    requires
        old(nbe).wf(),
    ensures
        evaluates(*old(nbe), *final(nbe)),
        final(nbe).next_level == old(nbe).next_level,
        final(nbe).arena.frames() == old(nbe).arena.frames(),
        r matches Ok(id) ==> evaluated_value(
            final(nbe).arena,
            old(nbe).defs.entries(),
            old(nbe).syntax.nodes(),
            env,
            node.0,
            id,
        ),
        !(node.0 < old(nbe).syntax.nodes().len() && old(nbe).syntax.nodes()[node.0 as int] is Value)
            ==> r == Err::<SemValueId, SemError>(SemError::MissingSyntaxValue(node)),
        literal_value_at(old(nbe).syntax.nodes(), node.0) && has_room(
            old(nbe).arena.value_nodes().len(),
        ) ==> r is Ok,
        env.0 == 0 ==> (r matches Ok(id) ==> id.0 >= old(nbe).arena.value_nodes().len()),
        literal_value_at(old(nbe).syntax.nodes(), node.0) ==> (r matches Ok(id) ==> {
            &&& id.0 == old(nbe).arena.value_nodes().len()
            &&& id.0 < final(nbe).arena.value_nodes().len()
            &&& final(nbe).arena.value_nodes().len() == id.0 + 1
            &&& final(nbe).arena.value_nodes()[id.0 as int].node == literal_form(
                old(nbe).syntax.nodes()[node.0 as int]->Value_0,
            )
        }),
        env.0 == 0 && inert_cost(old(nbe).syntax.nodes(), node.0, EVAL_DEPTH as nat) is Some
            && old(nbe).arena.value_nodes().len() + inert_cost(old(nbe).syntax.nodes(), node.0, EVAL_DEPTH as nat)->Some_0
            <= u32::MAX + 1 ==> (r matches Ok(id) && final(nbe).arena.value_nodes().len()
            <= old(nbe).arena.value_nodes().len() + inert_cost(old(nbe).syntax.nodes(), node.0, EVAL_DEPTH as nat)->Some_0
            && sem_cost(final(nbe).arena, id, EVAL_DEPTH as nat) == inert_cost(old(nbe).syntax.nodes(), node.0, EVAL_DEPTH as nat)),
{
    let (id, _) = eval_value_at(nbe, env, node, EVAL_DEPTH)?;
    Ok(id)
}

/// Runs a closure's body with its binders bound to `args`, in order.
pub fn instantiate(nbe: &mut Normalizer, closure: ClosureId, args: &Vec<SemValueId>, depth: u32) -> (r:
    Result<SemCompId, SemError>)
    requires
        old(nbe).wf(),
    ensures
        r matches Ok(c) ==> minted_comp(final(nbe).arena, c),
        evaluates(*old(nbe), *final(nbe)),
        final(nbe).next_level == old(nbe).next_level,
        r matches Ok(c) ==> closure.0 < old(nbe).arena.closure_nodes().len() && instantiated(
            final(nbe).arena,
            old(nbe).defs.entries(),
            old(nbe).syntax.nodes(),
            old(nbe).arena.closure_nodes()[closure.0 as int],
            args@,
            c,
            depth as nat,
        ),
        depth == 0 ==> r == Err::<SemCompId, SemError>(SemError::StepLimit),
        depth > 0 && closure.0 >= old(nbe).arena.closure_nodes().len() ==> r == Err::<
            SemCompId,
            SemError,
        >(SemError::MissingClosure(closure)),
        depth > 0 && closure.0 < old(nbe).arena.closure_nodes().len()
            && old(nbe).arena.closure_nodes()[closure.0 as int].binders@.len() != args@.len() ==> r
            == Err::<SemCompId, SemError>(SemError::ClosureArity),
        depth > 1 && runs_to_abs(old(nbe).arena, old(nbe).syntax.nodes(), closure, args@.len())
            ==> r is Ok,
        depth > 2 && runs_to_minting(old(nbe).arena, old(nbe).syntax.nodes(), closure, args@.len())
            ==> r is Ok,
    decreases depth, 0nat,
{
    if depth == 0 {
        return Err(SemError::StepLimit);
    }
    let below = depth - 1;
    let ghost start = *nbe;
    let (mut env, binders, body) = {
        let cell = nbe.arena.closure(closure)?;
        (cell.env, copy_names(&cell.binders), cell.body)
    };
    let ghost clo = start.arena.closure_nodes()[closure.0 as int];
    let ghost base = clo.env;
    if binders.len() != args.len() {
        return Err(SemError::ClosureArity);
    }
    let mut index: usize = 0;
    proof {
        assert(binders@.take(0) =~= Seq::<String>::empty());
        assert(args@.take(0) =~= Seq::<SemValueId>::empty());
    }
    while index < binders.len()
        invariant
            index <= binders@.len(),
            binders@.len() == args@.len(),
            binders@ == clo.binders@,
            old(nbe).wf(),
            evaluates(*old(nbe), *nbe),
            nbe.next_level == old(nbe).next_level,
            index == 0 ==> env == base,
            index > 0 ==> env.0 <= nbe.arena.frames().len(),
            binds_all(nbe.arena.frames(), env, base, binders@.take(index as int), args@.take(index as int)),
            depth > 0,
            closure.0 < old(nbe).arena.closure_nodes().len(),
            clo == old(nbe).arena.closure_nodes()[closure.0 as int],
            nbe.arena.closure_nodes() == old(nbe).arena.closure_nodes(),
            nbe.arena.comp_nodes() == old(nbe).arena.comp_nodes(),
            nbe.arena.frames().len() == old(nbe).arena.frames().len() + index,
            index > 0 ==> env.0 == nbe.arena.frames().len(),
            depth > 1 && runs_to_abs(old(nbe).arena, old(nbe).syntax.nodes(), closure, args@.len())
                ==> base.0 <= old(nbe).arena.frames().len() && old(nbe).arena.frames().len()
                + args@.len() < u32::MAX,
            depth > 2 && runs_to_minting(old(nbe).arena, old(nbe).syntax.nodes(), closure, args@.len())
                ==> base.0 <= old(nbe).arena.frames().len() && old(nbe).arena.frames().len()
                + args@.len() < u32::MAX,
            nbe.arena.value_nodes() == old(nbe).arena.value_nodes(),
            nbe.arena.neutral_nodes() == old(nbe).arena.neutral_nodes(),
        decreases binders@.len() - index,
    {
        if index >= args.len() {
            return Err(SemError::ClosureArity);
        }
        let ghost frames = nbe.arena.frames();
        let ghost previous = env;
        env = nbe.arena.bind(env, binders[index].clone(), args[index])?;
        index = index + 1;
        proof {
            let names = binders@.take(index as int);
            let vals = args@.take(index as int);
            assert(names.drop_last() =~= binders@.take(index - 1));
            assert(vals.drop_last() =~= args@.take(index - 1));
            assert(names.last() == binders@[index - 1]);
            assert(vals.last() == args@[index - 1]);
            let after = nbe.arena.frames();
            assert(after.len() == frames.len() + 1);
            assert forall|i: int| 0 <= i < frames.len() implies after[i] == frames[i] by {}
            lemma_binds_all_prefix(frames, after, previous, base, names.drop_last(), vals.drop_last());
            assert(after[env.0 - 1].rest == previous);
            assert(binds_all(after, env, base, names, vals));
        }
    }
    let ghost frames = nbe.arena.frames();
    let c = eval_comp_at(nbe, env, body, below)?;
    proof {
        assert(binders@.take(binders@.len() as int) =~= binders@);
        assert(args@.take(args@.len() as int) =~= args@);
        lemma_binds_all_prefix(frames, nbe.arena.frames(), env, base, clo.binders@, args@);
        assert(binds_all(nbe.arena.frames(), env, base, clo.binders@, args@));
    }
    Ok(c)
}

/// A copy of a run of names, name for name.
pub fn copy_names(names: &Vec<String>) -> (r: Vec<String>)
    ensures
        r@ == names@,
{
    let mut out: Vec<String> = Vec::new();
    let mut index: usize = 0;
    while index < names.len()
        invariant
            index <= names@.len(),
            out@ == names@.subrange(0, index as int),
        decreases names@.len() - index,
    {
        out.push(names[index].clone());
        index = index + 1;
        proof {
            assert(out@ =~= names@.subrange(0, index as int));
        }
    }
    proof {
        assert(names@.subrange(0, names@.len() as int) =~= names@);
    }
    out
}

/// Runs a closure with no binders.
pub fn resume(nbe: &mut Normalizer, closure: ClosureId, depth: u32) -> (r: Result<SemCompId, SemError>)
    requires
        old(nbe).wf(),
    ensures
        r matches Ok(c) ==> minted_comp(final(nbe).arena, c),
        evaluates(*old(nbe), *final(nbe)),
        final(nbe).next_level == old(nbe).next_level,
        r matches Ok(c) ==> closure.0 < old(nbe).arena.closure_nodes().len() && instantiated(
            final(nbe).arena,
            old(nbe).defs.entries(),
            old(nbe).syntax.nodes(),
            old(nbe).arena.closure_nodes()[closure.0 as int],
            Seq::empty(),
            c,
            depth as nat,
        ),
        depth == 0 ==> r == Err::<SemCompId, SemError>(SemError::StepLimit),
        depth > 0 && closure.0 >= old(nbe).arena.closure_nodes().len() ==> r == Err::<
            SemCompId,
            SemError,
        >(SemError::MissingClosure(closure)),
        depth > 0 && closure.0 < old(nbe).arena.closure_nodes().len()
            && old(nbe).arena.closure_nodes()[closure.0 as int].binders@.len() != 0 ==> r == Err::<
            SemCompId,
            SemError,
        >(SemError::ClosureArity),
        depth > 1 && runs_to_abs(old(nbe).arena, old(nbe).syntax.nodes(), closure, 0) ==> r is Ok,
        depth > 2 && runs_to_minting(old(nbe).arena, old(nbe).syntax.nodes(), closure, 0) ==> r is Ok,
    decreases depth, 1nat,
{
    let none: Vec<SemValueId> = Vec::new();
    proof {
        assert(none@ =~= Seq::<SemValueId>::empty());
    }
    instantiate(nbe, closure, &none, depth)
}

/// Runs a closure with one binder bound to `arg`.
pub fn instantiate_one(nbe: &mut Normalizer, closure: ClosureId, arg: SemValueId, depth: u32) -> (r:
    Result<SemCompId, SemError>)
    requires
        old(nbe).wf(),
    ensures
        r matches Ok(c) ==> minted_comp(final(nbe).arena, c),
        evaluates(*old(nbe), *final(nbe)),
        final(nbe).next_level == old(nbe).next_level,
        r matches Ok(c) ==> closure.0 < old(nbe).arena.closure_nodes().len() && instantiated(
            final(nbe).arena,
            old(nbe).defs.entries(),
            old(nbe).syntax.nodes(),
            old(nbe).arena.closure_nodes()[closure.0 as int],
            seq![arg],
            c,
            depth as nat,
        ),
        depth == 0 ==> r == Err::<SemCompId, SemError>(SemError::StepLimit),
        depth > 0 && closure.0 >= old(nbe).arena.closure_nodes().len() ==> r == Err::<
            SemCompId,
            SemError,
        >(SemError::MissingClosure(closure)),
        depth > 0 && closure.0 < old(nbe).arena.closure_nodes().len()
            && old(nbe).arena.closure_nodes()[closure.0 as int].binders@.len() != 1 ==> r == Err::<
            SemCompId,
            SemError,
        >(SemError::ClosureArity),
        depth > 1 && runs_to_abs(old(nbe).arena, old(nbe).syntax.nodes(), closure, 1) ==> r is Ok,
        depth > 2 && runs_to_minting(old(nbe).arena, old(nbe).syntax.nodes(), closure, 1) ==> r is Ok,
    decreases depth, 1nat,
{
    let mut args: Vec<SemValueId> = Vec::new();
    args.push(arg);
    proof {
        assert(args@ =~= seq![arg]);
    }
    instantiate(nbe, closure, &args, depth)
}

/// What applying the eliminator `elim` to the weak-head computation `comp`
/// of `a` gives, as `c` of `b`: application of a function, sequencing of a
/// returner, and projection of a lazy pair run the matching closure on the
/// argument, the returned value, or nothing; a neutral grows its spine by the
/// eliminator, keeping its head; any other pairing is a mismatch, stuck with
/// the eliminator as its whole spine.
pub open spec fn eliminated(
    a: SemArena,
    b: SemArena,
    entries: Seq<Definition>,
    nodes: Seq<SyntaxNode>,
    comp: SemCompId,
    elim: Elim,
    c: SemCompId,
    fuel: nat,
) -> bool
    decreases fuel, 1nat,
{
    comp.0 < a.comp_nodes().len() && match (a.comp_nodes()[comp.0 as int].node, elim) {
        (SemCompNode::Lambda(cl), Elim::Apply(v)) => cl.0 < a.closure_nodes().len() && instantiated(
            b,
            entries,
            nodes,
            a.closure_nodes()[cl.0 as int],
            seq![v],
            c,
            fuel,
        ),
        (SemCompNode::Return(v), Elim::Sequence(cl)) => cl.0 < a.closure_nodes().len()
            && instantiated(b, entries, nodes, a.closure_nodes()[cl.0 as int], seq![v], c, fuel),
        (SemCompNode::LazyPair(f, g), Elim::Project(side)) => {
            let cl = match side {
                Side::Fst => f,
                Side::Snd => g,
            };
            cl.0 < a.closure_nodes().len() && instantiated(
                b,
                entries,
                nodes,
                a.closure_nodes()[cl.0 as int],
                Seq::empty(),
                c,
                fuel,
            )
        },
        (SemCompNode::Neutral(n), _) => {
            &&& n.0 < a.neutral_nodes().len()
            &&& c.0 < b.comp_nodes().len()
            &&& b.comp_nodes()[c.0 as int].node matches SemCompNode::Neutral(m)
            &&& m.0 < b.neutral_nodes().len()
            &&& same_head(b.neutral_nodes()[m.0 as int].head, a.neutral_nodes()[n.0 as int].head)
            &&& b.neutral_nodes()[m.0 as int].spine@ == a.neutral_nodes()[n.0 as int].spine@.push(elim)
        },
        _ => {
            &&& c.0 < b.comp_nodes().len()
            &&& b.comp_nodes()[c.0 as int].node matches SemCompNode::Neutral(m)
            &&& m.0 < b.neutral_nodes().len()
            &&& b.neutral_nodes()[m.0 as int].head == NeutralHead::Mismatch(comp)
            &&& b.neutral_nodes()[m.0 as int].spine@ == seq![elim]
        },
    }
}

/// Applies one eliminator to a weak-head computation: its beta rule fires
/// when the computation is the matching introduction, a neutral grows its
/// spine, and anything else is a mismatch that stays stuck.
pub fn apply_elim(nbe: &mut Normalizer, comp: SemCompId, elim: Elim, depth: u32) -> (r: Result<
    SemCompId,
    SemError,
>)
    requires
        old(nbe).wf(),
    ensures
        r matches Ok(c) ==> minted_comp(final(nbe).arena, c),
        evaluates(*old(nbe), *final(nbe)),
        final(nbe).next_level == old(nbe).next_level,
        r matches Ok(c) ==> eliminated(
            old(nbe).arena,
            final(nbe).arena,
            old(nbe).defs.entries(),
            old(nbe).syntax.nodes(),
            comp,
            elim,
            c,
            depth as nat,
        ),
        comp.0 >= old(nbe).arena.comp_nodes().len() ==> r == Err::<SemCompId, SemError>(
            SemError::MissingComp(comp),
        ),
        comp.0 < old(nbe).arena.comp_nodes().len() && room_for_neutral(old(nbe).arena) && (
        match old(nbe).arena.comp_nodes()[comp.0 as int].node {
            SemCompNode::Neutral(n) => n.0 < old(nbe).arena.neutral_nodes().len(),
            other => elim_mismatch(other, elim),
        }) ==> r is Ok,
        comp.0 < old(nbe).arena.comp_nodes().len() && depth > 1 && (
        match (old(nbe).arena.comp_nodes()[comp.0 as int].node, elim) {
            (SemCompNode::Lambda(cl), Elim::Apply(_)) => runs_to_abs(
                old(nbe).arena,
                old(nbe).syntax.nodes(),
                cl,
                1,
            ),
            (SemCompNode::Return(_), Elim::Sequence(cl)) => runs_to_abs(
                old(nbe).arena,
                old(nbe).syntax.nodes(),
                cl,
                1,
            ),
            _ => false,
        }) ==> r is Ok,
    decreases depth, 2nat,
{
    let ghost start = *nbe;
    let node = nbe.arena.comp(comp)?.node;
    match (node, elim) {
        (SemCompNode::Lambda(closure), Elim::Apply(arg)) => instantiate_one(nbe, closure, arg, depth),
        (SemCompNode::Return(value), Elim::Sequence(closure)) => instantiate_one(
            nbe,
            closure,
            value,
            depth,
        ),
        (SemCompNode::LazyPair(fst, snd), Elim::Project(side)) => match side {
            Side::Fst => resume(nbe, fst, depth),
            Side::Snd => resume(nbe, snd, depth),
        },
        (SemCompNode::Neutral(stuck_on), _) => {
            let grown = {
                let neutral = nbe.arena.neutral(stuck_on)?;
                neutral.extended(elim, neutral.unfold.height())
            };
            let c = mint_neutral(nbe, grown)?;
            proof {
                assert(start.arena.neutral_nodes()[stuck_on.0 as int] == nbe.arena.neutral_nodes()[stuck_on.0 as int]);
            }
            Ok(c)
        },
        _ => {
            let mismatch = Neutral::new(NeutralHead::Mismatch(comp), CompUnfold::Rigid);
            let grown = mismatch.extended(elim, None);
            proof {
                assert(grown.spine@ =~= seq![elim]);
            }
            mint_neutral(nbe, grown)
        },
    }
}

/// What forcing the value `value` of `a` gives, as `c` of `b`: a thunk runs
/// its closure on nothing; a rigid head becomes a neutral force with an empty
/// spine, pending unfolding exactly when the head is; anything else is
/// stuck as a force.
pub open spec fn forced(
    a: SemArena,
    b: SemArena,
    entries: Seq<Definition>,
    nodes: Seq<SyntaxNode>,
    value: SemValueId,
    c: SemCompId,
    fuel: nat,
) -> bool
    decreases fuel, 1nat,
{
    value.0 < a.value_nodes().len() && match a.value_nodes()[value.0 as int].node {
        SemValueNode::Thunk(_, cl) => cl.0 < a.closure_nodes().len() && instantiated(
            b,
            entries,
            nodes,
            a.closure_nodes()[cl.0 as int],
            Seq::empty(),
            c,
            fuel,
        ),
        SemValueNode::Rigid(_, unfold) => {
            &&& c.0 < b.comp_nodes().len()
            &&& b.comp_nodes()[c.0 as int].node matches SemCompNode::Neutral(m)
            &&& m.0 < b.neutral_nodes().len()
            &&& b.neutral_nodes()[m.0 as int].head == NeutralHead::Force(value)
            &&& b.neutral_nodes()[m.0 as int].spine@.len() == 0
            &&& b.neutral_nodes()[m.0 as int].unfold == match unfold {
                ValueUnfold::Pending(h) => CompUnfold::Pending(h),
                _ => CompUnfold::Rigid,
            }
        },
        _ => stuck_on(b, c) && head_of(b, c) == NeutralHead::Force(value),
    }
}

/// Forces a value as a thunk: a thunk runs its body; a rigid head becomes a
/// neutral force whose unfolding face follows the head's.
pub fn force_comp(nbe: &mut Normalizer, value: SemValueId, depth: u32) -> (r: Result<
    SemCompId,
    SemError,
>)
    requires
        old(nbe).wf(),
    ensures
        r matches Ok(c) ==> minted_comp(final(nbe).arena, c),
        evaluates(*old(nbe), *final(nbe)),
        final(nbe).next_level == old(nbe).next_level,
        r matches Ok(c) ==> forced(
            old(nbe).arena,
            final(nbe).arena,
            old(nbe).defs.entries(),
            old(nbe).syntax.nodes(),
            value,
            c,
            depth as nat,
        ),
        value.0 >= old(nbe).arena.value_nodes().len() ==> r == Err::<SemCompId, SemError>(
            SemError::MissingValue(value),
        ),
        value.0 < old(nbe).arena.value_nodes().len() && !(old(nbe).arena.value_nodes()[value.0 as int].node is Thunk)
            && room_for_neutral(old(nbe).arena) ==> r is Ok,
        value.0 < old(nbe).arena.value_nodes().len() && depth > 1 && (
        match old(nbe).arena.value_nodes()[value.0 as int].node {
            SemValueNode::Thunk(_, cl) => runs_to_abs(old(nbe).arena, old(nbe).syntax.nodes(), cl, 0),
            _ => false,
        }) ==> r is Ok,
    decreases depth, 2nat,
{
    match value_node(nbe, value)? {
        SemValueNode::Thunk(_, closure) => resume(nbe, closure, depth),
        SemValueNode::Rigid(_, unfold) => {
            let face = match unfold {
                ValueUnfold::Pending(height) => CompUnfold::Pending(height),
                _ => CompUnfold::Rigid,
            };
            mint_neutral(nbe, Neutral::new(NeutralHead::Force(value), face))
        },
        _ => stuck(nbe, NeutralHead::Force(value)),
    }
}

/// Forces a value toward a canonical form for an eliminator: a reducible
/// definition is unfolded only when that makes the eliminator progress.
pub fn scrutinee(nbe: &mut Normalizer, value: SemValueId) -> (r: Result<SemValueId, SemError>)
    requires
        old(nbe).wf(),
    ensures
        evaluates(*old(nbe), *final(nbe)),
        final(nbe).next_level == old(nbe).next_level,
        value.0 < old(nbe).arena.value_nodes().len() && !free_form_of(
            old(nbe).arena.value_nodes()[value.0 as int].node,
        ) ==> r == Ok::<SemValueId, SemError>(value),
        value.0 >= old(nbe).arena.value_nodes().len() ==> r == Err::<SemValueId, SemError>(
            SemError::MissingValue(value),
        ),
        value.0 < old(nbe).arena.value_nodes().len() && !unfoldable_head(
            old(nbe).arena,
            old(nbe).defs.entries(),
            value,
            ForceMode::Speculative,
        ) ==> r == Ok::<SemValueId, SemError>(value),
        unfoldable_head(old(nbe).arena, old(nbe).defs.entries(), value, ForceMode::Speculative) && old(
            nbe,
        ).fuel > 0 && unfolds_to_canonical(
            old(nbe).arena,
            old(nbe).defs.entries(),
            old(nbe).syntax.nodes(),
            value,
        ) && has_room(old(nbe).arena.value_nodes().len()) ==> r == Ok::<SemValueId, SemError>(
            SemValueId(old(nbe).arena.value_nodes().len() as u32),
        ),
{
    let unfolded = force_value(nbe, value, ForceMode::Speculative)?;
    match value_node(nbe, unfolded)? {
        SemValueNode::Rigid(_, _) => Ok(value),
        _ => Ok(unfolded),
    }
}

/// Forces a value by unfolding definitions at its head, as far as `mode`
/// and the normalizer's fuel allow; a head with no definition, or one the
/// mode may not unfold, is returned as it is.
#[verifier::loop_isolation(false)]
pub fn force_value(nbe: &mut Normalizer, value: SemValueId, mode: ForceMode) -> (r: Result<
    SemValueId,
    SemError,
>)
    requires
        old(nbe).wf(),
    ensures
        evaluates(*old(nbe), *final(nbe)),
        final(nbe).next_level == old(nbe).next_level,
        mode == ForceMode::WeakHead ==> r == Ok::<SemValueId, SemError>(value),
        value.0 < old(nbe).arena.value_nodes().len() && !free_form_of(
            old(nbe).arena.value_nodes()[value.0 as int].node,
        ) ==> r == Ok::<SemValueId, SemError>(value),
        old(nbe).fuel == 0 ==> r == Ok::<SemValueId, SemError>(value),
        mode != ForceMode::WeakHead && old(nbe).fuel > 0 && value.0 >= old(nbe).arena.value_nodes().len()
            ==> r == Err::<SemValueId, SemError>(SemError::MissingValue(value)),
        value.0 < old(nbe).arena.value_nodes().len() && !unfoldable_head(
            old(nbe).arena,
            old(nbe).defs.entries(),
            value,
            mode,
        ) ==> r == Ok::<SemValueId, SemError>(value),
        unfoldable_head(old(nbe).arena, old(nbe).defs.entries(), value, mode) && old(nbe).fuel > 0 ==> (
        r matches Ok(v) ==> v.0 >= old(nbe).arena.value_nodes().len()),
        unfoldable_head(old(nbe).arena, old(nbe).defs.entries(), value, mode) && old(nbe).fuel > 0
            && unfolds_to_literal(old(nbe).arena, old(nbe).defs.entries(), old(nbe).syntax.nodes(), value)
            && has_room(old(nbe).arena.value_nodes().len()) ==> r == Ok::<SemValueId, SemError>(
            SemValueId(old(nbe).arena.value_nodes().len() as u32),
        ) && old(nbe).arena.value_nodes().len() < final(nbe).arena.value_nodes().len()
            && final(nbe).arena.value_nodes()[old(nbe).arena.value_nodes().len() as int].node
            == literal_form(
            old(nbe).syntax.nodes()[head_definition(
                old(nbe).arena,
                old(nbe).defs.entries(),
                value,
            )->Some_0.body.0 as int]->Value_0,
        ) && final(nbe).arena.comp_nodes() == old(nbe).arena.comp_nodes()
            && final(nbe).arena.neutral_nodes() == old(nbe).arena.neutral_nodes(),
        old(nbe).fuel == 0 || mode == ForceMode::WeakHead || !unfoldable_head(
            old(nbe).arena,
            old(nbe).defs.entries(),
            value,
            mode,
        ) ==> final(nbe).arena == old(nbe).arena,
{
    if mode == ForceMode::WeakHead {
        return Ok(value);
    }
    let mut current = value;
    let mut remaining = nbe.fuel;
    while remaining > 0
        invariant
            mode != ForceMode::WeakHead,
            evaluates(*old(nbe), *nbe),
            nbe.next_level == old(nbe).next_level,
            value.0 < old(nbe).arena.value_nodes().len() && !free_form_of(
                old(nbe).arena.value_nodes()[value.0 as int].node,
            ) ==> current == value && nbe.arena == old(nbe).arena,
            remaining <= old(nbe).fuel,
            remaining == old(nbe).fuel ==> current == value && nbe.arena == old(nbe).arena,
            !unfoldable_head(old(nbe).arena, old(nbe).defs.entries(), value, mode) ==> remaining
                == old(nbe).fuel,
            unfoldable_head(old(nbe).arena, old(nbe).defs.entries(), value, mode) && remaining < old(
                nbe,
            ).fuel ==> current.0 >= old(nbe).arena.value_nodes().len(),
            unfoldable_head(old(nbe).arena, old(nbe).defs.entries(), value, mode) && unfolds_to_literal(
                old(nbe).arena,
                old(nbe).defs.entries(),
                old(nbe).syntax.nodes(),
                value,
            ) && remaining < old(nbe).fuel ==> {
                &&& current.0 == old(nbe).arena.value_nodes().len()
                &&& current.0 < nbe.arena.value_nodes().len()
                &&& nbe.arena.value_nodes()[current.0 as int].node == literal_form(
                    old(nbe).syntax.nodes()[head_definition(
                        old(nbe).arena,
                        old(nbe).defs.entries(),
                        value,
                    )->Some_0.body.0 as int]->Value_0,
                )
                &&& nbe.arena.comp_nodes() == old(nbe).arena.comp_nodes()
                &&& nbe.arena.neutral_nodes() == old(nbe).arena.neutral_nodes()
            },
        decreases remaining,
    {
        let name = match value_node(nbe, current)? {
            SemValueNode::Rigid(Rigid::Free(name), _) => name,
            _ => {
                return Ok(current);
            },
        };
        let found = match nbe.defs.lookup(name.as_str()) {
            Some(definition) => Some((definition.body, definition.transparency)),
            None => None,
        };
        match found {
            Some((body, transparency)) => {
                if mode == ForceMode::Speculative && transparency == Transparency::Irreducible {
                    return Ok(current);
                }
                let (next, _) = eval_value_at(nbe, EnvId(0), body, EVAL_DEPTH)?;
                current = next;
            },
            None => {
                return Ok(current);
            },
        }
        remaining = remaining - 1;
    }
    Ok(current)
}

/// Evaluates a computation node in `env` to weak-head normal form.
#[verifier::rlimit(60)]
#[verifier::loop_isolation(false)]
pub fn eval_comp_at(nbe: &mut Normalizer, env: EnvId, node: CompNodeId, depth: u32) -> (r: Result<
    SemCompId,
    SemError,
>)
    requires
        old(nbe).wf(),
    ensures
        r matches Ok(c) ==> minted_comp(final(nbe).arena, c),
        evaluates(*old(nbe), *final(nbe)),
        final(nbe).next_level == old(nbe).next_level,
        r matches Ok(c) ==> evaluated_former(
            final(nbe).arena,
            old(nbe).defs.entries(),
            old(nbe).syntax.nodes(),
            env,
            node.0,
            c,
            depth as nat,
        ),
        depth == 0 ==> r == Err::<SemCompId, SemError>(SemError::StepLimit),
        depth > 0 && !(node.0 < old(nbe).syntax.nodes().len() && old(nbe).syntax.nodes()[node.0 as int] is Comp)
            ==> r == Err::<SemCompId, SemError>(SemError::MissingSyntaxComp(node)),
        depth > 0 && abs_at(old(nbe).syntax.nodes(), node.0) && room_for_abs(old(nbe).arena) ==> r is Ok,
        depth > 1 && mints_only_at(old(nbe).syntax.nodes(), node.0) && room_for_minting(old(nbe).arena)
            ==> r is Ok,
    decreases depth, 3nat,
{
    if depth == 0 {
        return Err(SemError::StepLimit);
    }
    let below = depth - 1;
    let ghost nodes = nbe.syntax.nodes();
    let ghost entries = nbe.defs.entries();
    let copied = store_comp(nbe, node)?;
    let ghost stored = nodes[node.0 as int]->Comp_0;
    proof {
        nbe.syntax.lemma_comp_children_below(node, stored);
        lemma_small_below();
    }
    match copied {
        CompNode::Abs(binder, _, body) => {
            let closure = mint_closure(nbe, env, one_binder(&binder), body)?;
            let ghost minted = nbe.arena;
            let c = mint_comp(nbe, SemCompNode::Lambda(closure))?;
            proof {
                lemma_closure_is_stable(minted, nbe.arena, closure, env, seq![binder], body);
            }
            Ok(c)
        },
        CompNode::App(f, x) => {
            let head = eval_comp_at(nbe, env, f, below)?;
            let ghost after_head = nbe.arena;
            let (arg, _) = eval_value_at(nbe, env, x, below)?;
            let ghost mid = nbe.arena;
            let c = apply_elim(nbe, head, Elim::Apply(arg), below)?;
            proof {
                assert(minted_comp(after_head, head));
                assert(evaluated_value(mid, entries, nodes, env, x.0, arg));
            }
            Ok(c)
        },
        CompNode::Ret(value) => {
            let (evaluated, _) = eval_value_at(nbe, env, value, below)?;
            let ghost before = nbe.arena;
            let c = mint_comp(nbe, SemCompNode::Return(evaluated))?;
            proof {
                lemma_evaluated_value_stable(before, nbe.arena, entries, nodes, env, value.0, evaluated);
            }
            Ok(c)
        },
        CompNode::Bind(m, binder, k) => {
            let bound = eval_comp_at(nbe, env, m, below)?;
            let ghost after_bound = nbe.arena;
            let closure = mint_closure(nbe, env, one_binder(&binder), k)?;
            let ghost mid = nbe.arena;
            let c = apply_elim(nbe, bound, Elim::Sequence(closure), below)?;
            proof {
                assert(minted_comp(after_bound, bound));
                assert(closure_is(mid, closure, env, seq![binder], k));
            }
            Ok(c)
        },
        CompNode::Force(v) => {
            let (value, _) = eval_value_at(nbe, env, v, below)?;
            let ghost mid = nbe.arena;
            let c = force_comp(nbe, value, below)?;
            proof {
                assert(evaluated_value(mid, entries, nodes, env, v.0, value));
            }
            Ok(c)
        },
        CompNode::Case(v, left, right) => {
            let (raw, _) = eval_value_at(nbe, env, v, below)?;
            let ghost first = nbe.arena;
            let scrut = scrutinee(nbe, raw)?;
            let ghost scrutinized = nbe.arena;
            match value_node(nbe, scrut)? {
                SemValueNode::Inj(side, payload) => {
                    let branch = match side {
                        Side::Fst => left,
                        Side::Snd => right,
                    };
                    let ghost frames = nbe.arena.frames();
                    let ghost binder = branch.binder;
                    let inner = nbe.arena.bind(env, branch.binder, payload)?;
                    let ghost bound_frames = nbe.arena.frames();
                    let c = eval_comp_at(nbe, inner, branch.body, below)?;
                    proof {
                        assert(evaluated_value(first, entries, nodes, env, v.0, raw));
                        assert(seq![binder].drop_last() =~= Seq::<String>::empty());
                        assert(seq![payload].drop_last() =~= Seq::<SemValueId>::empty());
                        assert(seq![binder].last() == binder);
                        assert(seq![payload].last() == payload);
                        assert(bound_frames[inner.0 - 1] == EnvFrame { name: binder, value: payload, rest: env });
                        assert(binds_all(bound_frames, env, env, Seq::<String>::empty(), Seq::<SemValueId>::empty()));
                        assert(binds_all(bound_frames, inner, env, seq![binder], seq![payload]));
                        lemma_binds_all_prefix(
                            bound_frames,
                            nbe.arena.frames(),
                            inner,
                            env,
                            seq![binder],
                            seq![payload],
                        );
                        assert(binds_all(nbe.arena.frames(), inner, env, seq![binder], seq![payload]));
                        if raw.0 < first.value_nodes().len() && !free_form_of(
                            first.value_nodes()[raw.0 as int].node,
                        ) {
                            assert(scrut == raw);
                            assert(scrutinized.value_nodes()[raw.0 as int] == first.value_nodes()[raw.0 as int]);
                            assert(first.value_nodes()[raw.0 as int].node == SemValueNode::Inj(side, payload));
                            assert(ran_under(nbe.arena, entries, nodes, env, seq![binder], seq![payload], branch.body, c, below as nat));
                        }
                    }
                    Ok(c)
                },
                _ => {
                    let on_left = mint_closure(nbe, env, one_binder(&left.binder), left.body)?;
                    let ghost after_left = nbe.arena;
                    let on_right = mint_closure(nbe, env, one_binder(&right.binder), right.body)?;
                    let ghost after_right = nbe.arena;
                    let c = stuck(nbe, NeutralHead::Case { scrutinee: raw, on_left, on_right })?;
                    proof {
                        assert(evaluated_value(first, entries, nodes, env, v.0, raw));
                        lemma_closure_is_stable(after_left, nbe.arena, on_left, env, seq![left.binder], left.body);
                        lemma_closure_is_stable(after_right, nbe.arena, on_right, env, seq![right.binder], right.body);
                    }
                    Ok(c)
                },
            }
        },
        CompNode::DataCase(scrut, arms) => {
            let (raw, _) = eval_value_at(nbe, env, scrut, below)?;
            let scrut = scrutinee(nbe, raw)?;
            match value_node(nbe, scrut)? {
                SemValueNode::Ctor { tag, payload, .. } => {
                    if tag < arms.len() {
                        let arm = &arms[tag];
                        let inner = nbe.arena.bind(env, arm.binder.clone(), payload)?;
                        return eval_comp_at(nbe, inner, arm.body, below);
                    }
                },
                _ => {},
            }
            let mut out: Vec<DataArm> = Vec::new();
            let mut index: usize = 0;
            while index < arms.len()
                invariant
                    index <= arms@.len(),
                    evaluates(*old(nbe), *nbe),
                    nbe.next_level == old(nbe).next_level,
                decreases arms@.len() - index,
            {
                let arm = &arms[index];
                let body = mint_closure(nbe, env, one_binder(&arm.binder), arm.body)?;
                out.push(DataArm { label: arm.binder.clone(), body });
                index = index + 1;
            }
            stuck(nbe, NeutralHead::DataCase { scrutinee: raw, arms: out })
        },
        CompNode::ListCase { scrut, nil, head, tail, cons } => {
            let (raw, _) = eval_value_at(nbe, env, scrut, below)?;
            let scrut = scrutinee(nbe, raw)?;
            match value_node(nbe, scrut)? {
                SemValueNode::List(items) => {
                    if items.len() == 0 {
                        return eval_comp_at(nbe, env, nil, below);
                    }
                    let mut rest: Vec<SemValueId> = Vec::new();
                    let mut index: usize = 1;
                    while index < items.len()
                        invariant
                            1 <= index <= items@.len(),
                        decreases items@.len() - index,
                    {
                        rest.push(items[index]);
                        index = index + 1;
                    }
                    let rest = mint_value(nbe, SemValueNode::List(rest), None)?;
                    let inner = nbe.arena.bind(env, head, items[0])?;
                    let inner = nbe.arena.bind(inner, tail, rest)?;
                    eval_comp_at(nbe, inner, cons, below)
                },
                _ => {
                    let nil = mint_closure(nbe, env, Vec::new(), nil)?;
                    let cons = mint_closure(nbe, env, two_binders(&head, &tail), cons)?;
                    stuck(nbe, NeutralHead::ListCase { scrutinee: raw, nil, cons })
                },
            }
        },
        CompNode::Split { scrut, fst_name, snd_name, body, .. } => {
            let (raw, _) = eval_value_at(nbe, env, scrut, below)?;
            let scrut = scrutinee(nbe, raw)?;
            match value_node(nbe, scrut)? {
                SemValueNode::Pair(fst, snd) => {
                    let inner = nbe.arena.bind(env, fst_name, fst)?;
                    let inner = nbe.arena.bind(inner, snd_name, snd)?;
                    eval_comp_at(nbe, inner, body, below)
                },
                _ => {
                    let body = mint_closure(nbe, env, two_binders(&fst_name, &snd_name), body)?;
                    stuck(nbe, NeutralHead::Split { scrutinee: raw, body })
                },
            }
        },
        CompNode::RecordProj { record, label } => {
            let (raw, _) = eval_value_at(nbe, env, record, below)?;
            let record = scrutinee(nbe, raw)?;
            match value_node(nbe, record)? {
                SemValueNode::Record(fields) => {
                    let mut index: usize = 0;
                    while index < fields.len()
                        invariant
                            index <= fields@.len(),
                            evaluates(*old(nbe), *nbe),
                            nbe.next_level == old(nbe).next_level,
                            nodes == old(nbe).syntax.nodes(),
                            node.0 < nodes.len(),
                            nodes[node.0 as int] is Comp,
                            nodes[node.0 as int]->Comp_0 == stored,
                            stored is RecordProj,
                        decreases fields@.len() - index,
                    {
                        if names_equal(fields[index].label.as_str(), label.as_str()) {
                            return mint_comp(nbe, SemCompNode::Return(fields[index].value));
                        }
                        index = index + 1;
                    }
                    stuck(nbe, NeutralHead::Project { record: raw, label })
                },
                _ => stuck(nbe, NeutralHead::Project { record: raw, label }),
            }
        },
        CompNode::With(fst, snd) => {
            let first = mint_closure(nbe, env, Vec::new(), fst)?;
            let ghost after_first = nbe.arena;
            let second = mint_closure(nbe, env, Vec::new(), snd)?;
            let ghost after_second = nbe.arena;
            let c = mint_comp(nbe, SemCompNode::LazyPair(first, second))?;
            proof {
                lemma_closure_is_stable(after_first, nbe.arena, first, env, Seq::empty(), fst);
                lemma_closure_is_stable(after_second, nbe.arena, second, env, Seq::empty(), snd);
            }
            Ok(c)
        },
        CompNode::Prj(side, m) => {
            let body = eval_comp_at(nbe, env, m, below)?;
            let ghost mid = nbe.arena;
            let c = apply_elim(nbe, body, Elim::Project(side), below)?;
            proof {
                assert(minted_comp(mid, body));
            }
            Ok(c)
        },
        CompNode::Dup(value) => {
            let (evaluated, _) = eval_value_at(nbe, env, value, below)?;
            let ghost before = nbe.arena;
            let c = stuck(nbe, NeutralHead::Dup(evaluated))?;
            proof {
                lemma_evaluated_value_stable(before, nbe.arena, entries, nodes, env, value.0, evaluated);
            }
            Ok(c)
        },
        CompNode::Drop(value) => {
            let (evaluated, _) = eval_value_at(nbe, env, value, below)?;
            let ghost before = nbe.arena;
            let c = stuck(nbe, NeutralHead::Drop(evaluated))?;
            proof {
                lemma_evaluated_value_stable(before, nbe.arena, entries, nodes, env, value.0, evaluated);
            }
            Ok(c)
        },
        CompNode::Perform(_, _, payload) => {
            let (evaluated, _) = eval_value_at(nbe, env, payload, below)?;
            let ghost before = nbe.arena;
            let c = stuck(nbe, NeutralHead::Perform { source: node, payload: evaluated })?;
            proof {
                lemma_evaluated_value_stable(before, nbe.arena, entries, nodes, env, payload.0, evaluated);
            }
            Ok(c)
        },
        CompNode::Handle { scrutinee: handled, ret, ops, .. } => {
            let handled_closure = mint_closure(nbe, env, Vec::new(), handled)?;
            let ghost after_handled = nbe.arena;
            let ret_closure = mint_closure(nbe, env, one_binder(&ret.binder), ret.body)?;
            let ghost after_ret = nbe.arena;
            let mut clauses: Vec<ClosureId> = Vec::new();
            let mut index: usize = 0;
            while index < ops.len()
                invariant
                    index <= ops@.len(),
                    old(nbe).wf(),
                    evaluates(*old(nbe), *nbe),
                    nbe.next_level == old(nbe).next_level,
                    grows(after_ret, nbe.arena),
                    clause_closures(nbe.arena, env, ops@.take(index as int), clauses@),
                decreases ops@.len() - index,
            {
                let clause = &ops[index];
                let ghost before = nbe.arena;
                let body = mint_closure(
                    nbe,
                    env,
                    two_binders(&clause.payload, &clause.resume),
                    clause.body,
                )?;
                let ghost prior = clauses@;
                clauses.push(body);
                index = index + 1;
                proof {
                    let taken = ops@.take(index as int);
                    assert forall|i: int| 0 <= i < taken.len() implies closure_is(
                        nbe.arena,
                        #[trigger] clauses@[i],
                        env,
                        seq![taken[i].payload, taken[i].resume],
                        taken[i].body,
                    ) by {
                        if i < index - 1 {
                            assert(ops@.take(index - 1)[i] == taken[i]);
                            assert(prior[i] == clauses@[i]);
                            lemma_closure_is_stable(
                                before,
                                nbe.arena,
                                clauses@[i],
                                env,
                                seq![taken[i].payload, taken[i].resume],
                                taken[i].body,
                            );
                        }
                    }
                }
            }
            let ghost before = nbe.arena;
            let c = stuck(
                nbe,
                NeutralHead::Handle {
                    source: node,
                    scrutinee: handled_closure,
                    ret: ret_closure,
                    ops: clauses,
                },
            )?;
            proof {
                assert(ops@.take(ops@.len() as int) =~= ops@);
                lemma_closure_is_stable(after_handled, nbe.arena, handled_closure, env, Seq::empty(), handled);
                lemma_closure_is_stable(after_ret, nbe.arena, ret_closure, env, seq![ret.binder], ret.body);
                assert forall|i: int| 0 <= i < ops@.len() implies closure_is(
                    nbe.arena,
                    #[trigger] clauses@[i],
                    env,
                    seq![ops@[i].payload, ops@[i].resume],
                    ops@[i].body,
                ) by {
                    lemma_closure_is_stable(
                        before,
                        nbe.arena,
                        clauses@[i],
                        env,
                        seq![ops@[i].payload, ops@[i].resume],
                        ops@[i].body,
                    );
                }
            }
            Ok(c)
        },
        CompNode::Resume(value, body) => {
            let (evaluated, _) = eval_value_at(nbe, env, value, below)?;
            let ghost after_value = nbe.arena;
            let closure = mint_closure(nbe, env, Vec::new(), body)?;
            let ghost after_closure = nbe.arena;
            let c = stuck(nbe, NeutralHead::Resume { value: evaluated, body: closure })?;
            proof {
                lemma_evaluated_value_stable(after_value, nbe.arena, entries, nodes, env, value.0, evaluated);
                lemma_closure_is_stable(after_closure, nbe.arena, closure, env, Seq::empty(), body);
            }
            Ok(c)
        },
        CompNode::Reset(body) => {
            let closure = mint_closure(nbe, env, Vec::new(), body)?;
            let ghost after_closure = nbe.arena;
            let c = stuck(nbe, NeutralHead::Reset(closure))?;
            proof {
                lemma_closure_is_stable(after_closure, nbe.arena, closure, env, Seq::empty(), body);
            }
            Ok(c)
        },
        CompNode::Shift(binder, body) => {
            let closure = mint_closure(nbe, env, one_binder(&binder), body)?;
            let ghost after_closure = nbe.arena;
            let c = stuck(nbe, NeutralHead::Shift(closure))?;
            proof {
                lemma_closure_is_stable(after_closure, nbe.arena, closure, env, seq![binder], body);
            }
            Ok(c)
        },
        CompNode::Hole(hole) => stuck(nbe, NeutralHead::Hole(hole)),
        CompNode::Native { prim, args } => {
            let ghost handles = stored->Native_args@;
            proof {
                assert(args@ == handles);
                assert forall|i: int| 0 <= i < handles.len() implies (#[trigger] handles[i]).0
                    < node.0 by {
                    assert(comp_children(stored)[i] == handles[i].0);
                }
                assert(handles.take(0) =~= Seq::<ValueNodeId>::empty());
            }
            let mut evaluated: Vec<SemValueId> = Vec::new();
            let mut index: usize = 0;
            while index < args.len()
                invariant
                    index <= args@.len(),
                    args@ == handles,
                    below < depth,
                    old(nbe).wf(),
                    evaluates(*old(nbe), *nbe),
                    nbe.next_level == old(nbe).next_level,
                    nbe.arena.frames() == old(nbe).arena.frames(),
                    nodes == old(nbe).syntax.nodes(),
                    entries == old(nbe).defs.entries(),
                    forall|i: int| 0 <= i < handles.len() ==> (#[trigger] handles[i]).0 < node.0,
                    evaluated_values(nbe.arena, entries, nodes, env, node.0 as int, handles.take(index as int), evaluated@),
                decreases args@.len() - index,
            {
                let ghost before = nbe.arena;
                let (arg, _) = eval_value_at(nbe, env, args[index], below)?;
                proof {
                    lemma_evaluated_values_stable(
                        before,
                        nbe.arena,
                        entries,
                        nodes,
                        env,
                        node.0 as int,
                        handles.take(index as int),
                        evaluated@,
                    );
                }
                let ghost prior = evaluated@;
                evaluated.push(arg);
                index = index + 1;
                proof {
                    let taken = handles.take(index as int);
                    assert(taken.last() == handles[index - 1]);
                    assert(taken.drop_last() =~= handles.take(index - 1));
                    assert(evaluated@.drop_last() =~= prior);
                }
            }
            let ghost before = nbe.arena;
            let ghost ids = evaluated@;
            let c = stuck(nbe, NeutralHead::Native { prim, args: evaluated })?;
            proof {
                assert(handles.take(args@.len() as int) =~= handles);
                lemma_evaluated_values_stable(before, nbe.arena, entries, nodes, env, node.0 as int, handles, ids);
            }
            Ok(c)
        },
        CompNode::Walk { scrut, base, .. } => {
            let (raw, _) = eval_value_at(nbe, env, scrut, below)?;
            let scrut = scrutinee(nbe, raw)?;
            match value_node(nbe, scrut)? {
                SemValueNode::Here(witness) => {
                    let inner = nbe.arena.bind(env, base.binder, witness)?;
                    eval_comp_at(nbe, inner, base.body, below)
                },
                _ => {
                    let closure = mint_closure(nbe, env, one_binder(&base.binder), base.body)?;
                    stuck(nbe, NeutralHead::Walk { scrutinee: raw, base: closure })
                },
            }
        },
    }
}

/// The unfolding face of a neutral: when its head forces a value that
/// `mode` may unfold, the head is unfolded and the recorded spine re-applied
/// to the result; `None` when there is nothing to unfold.
#[verifier::loop_isolation(false)]
pub fn unfold_neutral(nbe: &mut Normalizer, neutral: crate::nbe::sem::NeutralId, mode: ForceMode, depth: u32) -> (r: Result<
    Option<SemCompId>,
    SemError,
>)
    requires
        old(nbe).wf(),
    ensures
        evaluates(*old(nbe), *final(nbe)),
        final(nbe).next_level == old(nbe).next_level,
        neutral.0 >= old(nbe).arena.neutral_nodes().len() ==> r == Err::<Option<SemCompId>, SemError>(
            SemError::MissingNeutral(neutral),
        ),
        neutral.0 < old(nbe).arena.neutral_nodes().len() && (match old(nbe).arena.neutral_nodes()[neutral.0 as int].head {
            NeutralHead::Force(v) => old(nbe).fuel == 0 || mode == ForceMode::WeakHead || (v.0
                < old(nbe).arena.value_nodes().len() && !unfoldable_head(
                old(nbe).arena,
                old(nbe).defs.entries(),
                v,
                mode,
            )),
            _ => true,
        }) ==> r == Ok::<Option<SemCompId>, SemError>(None),
        r matches Ok(Some(c)) ==> c.0 < final(nbe).arena.comp_nodes().len() && neutral.0 < old(
            nbe,
        ).arena.neutral_nodes().len() && (old(nbe).arena.neutral_nodes()[neutral.0 as int].head matches NeutralHead::Force(
            v,
        ) && unfoldable_head(old(nbe).arena, old(nbe).defs.entries(), v, mode)),
        neutral.0 < old(nbe).arena.neutral_nodes().len() && old(nbe).arena.neutral_nodes()[neutral.0 as int].spine@.len()
            == 0 && old(nbe).fuel > 0 && (old(nbe).arena.neutral_nodes()[neutral.0 as int].head matches NeutralHead::Force(
            v,
        ) && unfoldable_head(old(nbe).arena, old(nbe).defs.entries(), v, mode) && unfolds_to_literal(
            old(nbe).arena,
            old(nbe).defs.entries(),
            old(nbe).syntax.nodes(),
            v,
        ) && has_room(old(nbe).arena.value_nodes().len()) && room_for_neutral(old(nbe).arena))
            ==> r matches Ok(Some(_)),
{
    let (head, spine) = {
        let found = nbe.arena.neutral(neutral)?;
        (found.head.duplicate(), crate::nbe::sem::copy_vec(&found.spine))
    };
    let forced = match head {
        NeutralHead::Force(value) => value,
        _ => {
            return Ok(None);
        },
    };
    let unfolded = force_value(nbe, forced, mode)?;
    if unfolded == forced {
        return Ok(None);
    }
    let mut current = force_comp(nbe, unfolded, depth)?;
    let mut index: usize = 0;
    while index < spine.len()
        invariant
            index <= spine@.len(),
            evaluates(*old(nbe), *nbe),
            nbe.next_level == old(nbe).next_level,
            current.0 < nbe.arena.comp_nodes().len(),
        decreases spine@.len() - index,
    {
        current = apply_elim(nbe, current, spine[index], depth)?;
        index = index + 1;
    }
    Ok(Some(current))
}

/// Evaluates a computation node in `env` to weak-head normal form.
pub fn eval_comp(nbe: &mut Normalizer, env: EnvId, node: CompNodeId) -> (r: Result<
    SemCompId,
    SemError,
>)
    requires
        old(nbe).wf(),
    ensures
        r matches Ok(c) ==> minted_comp(final(nbe).arena, c),
        evaluates(*old(nbe), *final(nbe)),
        final(nbe).next_level == old(nbe).next_level,
        r matches Ok(c) ==> evaluated_former(
            final(nbe).arena,
            old(nbe).defs.entries(),
            old(nbe).syntax.nodes(),
            env,
            node.0,
            c,
            EVAL_DEPTH as nat,
        ),
        !(node.0 < old(nbe).syntax.nodes().len() && old(nbe).syntax.nodes()[node.0 as int] is Comp)
            ==> r == Err::<SemCompId, SemError>(SemError::MissingSyntaxComp(node)),
        abs_at(old(nbe).syntax.nodes(), node.0) && room_for_abs(old(nbe).arena) ==> r is Ok,
        mints_only_at(old(nbe).syntax.nodes(), node.0) && room_for_minting(old(nbe).arena) ==> r is Ok,
{
    eval_comp_at(nbe, env, node, EVAL_DEPTH)
}

} // verus!
