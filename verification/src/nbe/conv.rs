//! The definitional-equality pipeline.
//!
//! Each step falls through to the next only on a non-answer:
//!
//! 1. **identity** — one id in one arena is one value, so an id match answers
//!    *convertible* outright;
//! 2. **holes** — a hole is consistent with everything;
//! 3. **lazy unfolding with heights** — a head with a definition unfolds, the
//!    **taller** side first;
//! 4. **structural comparison**, going under binders at shared fresh levels;
//! 5. **eta** for functions: a lambda and a neutral compare by applying both
//!    to one fresh variable;
//! 6. **speculation** — two neutrals compare head and spine first, with no
//!    unfolding, and only on failure unfold their heads and compare again.
//!
//! A record is compared by its label set, field by field; there is no width
//! or permutation rule. Conversion never runs an effect: performances,
//! handlers, and control operators compare by congruence.

use vstd::prelude::*;

use crate::nbe::eval::apply_elim;
use crate::nbe::eval::eval_value_at;
use crate::nbe::eval::instantiate;
use crate::nbe::eval::mint_value;
use crate::nbe::eval::resume;
use crate::nbe::eval::unfold_neutral;
use crate::nbe::eval::value_node;
use crate::nbe::eval::ForceMode;
use crate::nbe::eval::EVAL_DEPTH;
use crate::nbe::evaluates;
use crate::nbe::same_population;
use crate::nbe::sem::grows;
use crate::nbe::sem::ClosureId;
use crate::nbe::sem::Elim;
use crate::nbe::sem::EnvId;
use crate::nbe::sem::NeutralHead;
use crate::nbe::sem::NeutralId;
use crate::nbe::sem::Rigid;
use crate::nbe::sem::SemCompId;
use crate::nbe::sem::SemCompNode;
use crate::nbe::sem::SemError;
use crate::nbe::sem::SemValueId;
use crate::nbe::sem::SemValueNode;
use crate::nbe::sem::ValueUnfold;
use crate::nbe::Normalizer;
use crate::nbe::defs::resolve;
use crate::nbe::sem::same_head;
use crate::nbe::sem::SemArena;
use crate::nbe::eval::evaluated_value;
use crate::nbe::eval::has_room;
use crate::nbe::eval::head_definition;
use crate::nbe::eval::literal_value_at;
use crate::nbe::eval::literal_form;
use crate::store::SyntaxNode;
use crate::store::ValueNode;
use crate::store::inert_value;
use crate::store::spelling::spells_value;
use crate::store::spelling::spells_values;
use crate::store::spelling::referent;
use crate::nbe::sem::env_walk;
use crate::nbe::defs::Definition;
use crate::syntax::Value;
use crate::store::CompNode;
use crate::syntax::names_equal;
use crate::types::CompType;
use crate::types::EffectRow;
use crate::types::FieldType;
use std::rc::Rc;
use crate::types::ValueType;

verus! {

/// The depth budget one conversion question may spend.
pub const CONV_DEPTH: u32 = 2000;

/// The weak-head form is a hole.
pub open spec fn hole_form(n: SemValueNode) -> bool {
    n matches SemValueNode::Rigid(Rigid::Hole(_), _)
}

/// The weak-head form is a free variable, which a definition may unfold.
pub open spec fn free_form(n: SemValueNode) -> bool {
    n matches SemValueNode::Rigid(Rigid::Free(_), _)
}

/// `l` and `r` of `a` agree as ground values within `depth` levels: either
/// is a hole, or both are the same literal, or the same value former over
/// children that agree in turn (pairs, injections on one side, lists of one
/// length, witnesses, constructors of one type and tag).
pub open spec fn ground_agree(a: SemArena, l: SemValueId, r: SemValueId, depth: nat) -> bool
    decreases depth,
{
    depth > 0 && l.0 < a.value_nodes().len() && r.0 < a.value_nodes().len() && {
        let x = a.value_nodes()[l.0 as int].node;
        let y = a.value_nodes()[r.0 as int].node;
        let below = (depth - 1) as nat;
        if hole_form(x) || hole_form(y) {
            true
        } else {
            match (x, y) {
                (SemValueNode::Unit, SemValueNode::Unit) => true,
                (SemValueNode::Int(p), SemValueNode::Int(q)) => p == q,
                (SemValueNode::Str(p), SemValueNode::Str(q)) => p@ == q@,
                (SemValueNode::Num(p), SemValueNode::Num(q)) => p == q,
                (SemValueNode::Pair(a1, b1), SemValueNode::Pair(a2, b2)) => ground_agree(a, a1, a2, below)
                    && ground_agree(a, b1, b2, below),
                (SemValueNode::Inj(s1, p1), SemValueNode::Inj(s2, p2)) => s1 == s2 && ground_agree(
                    a,
                    p1,
                    p2,
                    below,
                ),
                (SemValueNode::Here(p1), SemValueNode::Here(p2)) => ground_agree(a, p1, p2, below),
                (
                    SemValueNode::Ctor { id: i1, tag: t1, payload: p1 },
                    SemValueNode::Ctor { id: i2, tag: t2, payload: p2 },
                ) => i1.serial == i2.serial && i1.name@ == i2.name@ && t1 == t2 && ground_agree(
                    a,
                    p1,
                    p2,
                    below,
                ),
                (SemValueNode::List(xs), SemValueNode::List(ys)) => xs@.len() == ys@.len() && forall|k: int|
                    0 <= k < xs@.len() ==> ground_agree(a, #[trigger] xs@[k], ys@[k], below),
                _ => false,
            }
        }
    }
}

/// The source values `t` and `u` agree as ground values within `depth`
/// levels: either is a hole, or both are the same literal, or the same value
/// former over children that agree in turn.
pub open spec fn terms_agree(t: Value, u: Value, depth: nat) -> bool
    decreases depth,
{
    depth > 0 && {
        let below = (depth - 1) as nat;
        if t is Hole || u is Hole {
            true
        } else {
            match (t, u) {
                (Value::Unit, Value::Unit) => true,
                (Value::Int(p), Value::Int(q)) => p == q,
                (Value::Str(p), Value::Str(q)) => p@ == q@,
                (Value::Num(p), Value::Num(q)) => p == q,
                (Value::Pair(a1, b1), Value::Pair(a2, b2)) => terms_agree(*a1, *a2, below) && terms_agree(
                    *b1,
                    *b2,
                    below,
                ),
                (Value::Inj(s1, p1), Value::Inj(s2, p2)) => s1 == s2 && terms_agree(*p1, *p2, below),
                (Value::Here(p1), Value::Here(p2)) => terms_agree(*p1, *p2, below),
                (
                    Value::Ctor { id: i1, tag: t1, payload: p1 },
                    Value::Ctor { id: i2, tag: t2, payload: p2 },
                ) => i1.serial == i2.serial && i1.name@ == i2.name@ && t1 == t2 && terms_agree(
                    *p1,
                    *p2,
                    below,
                ),
                (Value::List(xs), Value::List(ys)) => xs@.len() == ys@.len() && forall|k: int|
                    0 <= k < xs@.len() ==> terms_agree(*#[trigger] xs@[k], *ys@[k], below),
                _ => false,
            }
        }
    }
}

/// Agreement of source values is symmetric.
pub proof fn lemma_terms_agree_symmetric(t: Value, u: Value, depth: nat)
    requires
        terms_agree(t, u, depth),
    ensures
        terms_agree(u, t, depth),
    decreases depth,
{
    let below = (depth - 1) as nat;
    if !(t is Hole || u is Hole) {
        match (t, u) {
            (Value::Pair(a1, b1), Value::Pair(a2, b2)) => {
                lemma_terms_agree_symmetric(referent(&a1), referent(&a2), below);
                lemma_terms_agree_symmetric(referent(&b1), referent(&b2), below);
            },
            (Value::Inj(_, p1), Value::Inj(_, p2)) => lemma_terms_agree_symmetric(referent(&p1), referent(&p2), below),
            (Value::Here(p1), Value::Here(p2)) => lemma_terms_agree_symmetric(referent(&p1), referent(&p2), below),
            (Value::Ctor { payload: p1, .. }, Value::Ctor { payload: p2, .. }) => lemma_terms_agree_symmetric(
                referent(&p1),
                referent(&p2),
                below,
            ),
            (Value::List(xs), Value::List(ys)) => {
                assert forall|k: int| 0 <= k < ys@.len() implies terms_agree(*#[trigger] ys@[k], *xs@[k], below) by {
                    lemma_terms_agree_symmetric(referent(&xs@[k]), referent(&ys@[k]), below);
                }
            },
            _ => {},
        }
    }
}

/// The evaluation, in the empty environment, of a node spelling an inert
/// value is minted in the arena.
pub proof fn lemma_inert_evaluated_in_range(
    a: SemArena,
    entries: Seq<Definition>,
    nodes: Seq<SyntaxNode>,
    n: u32,
    t: Value,
    i: SemValueId,
    depth: nat,
)
    requires
        spells_value(nodes, n, t),
        inert_value(t, depth),
        evaluated_value(a, entries, nodes, EnvId(0), n, i),
    ensures
        i.0 < a.value_nodes().len(),
{
    let v = nodes[n as int]->Value_0;
    if let ValueNode::Var(name) = v {
        assert(env_walk(a.frames(), EnvId(0), name@, a.frames().len() + 1) == Some(
            Ok::<Option<SemValueId>, SemError>(None),
        ));
    }
}

/// Evaluations, in the empty environment, of nodes spelling inert values
/// that agree as source values agree as semantic values.
pub proof fn lemma_ground_agree_of_terms(
    a: SemArena,
    entries: Seq<Definition>,
    nodes: Seq<SyntaxNode>,
    ln: u32,
    rn: u32,
    t: Value,
    u: Value,
    i: SemValueId,
    j: SemValueId,
    depth: nat,
)
    requires
        spells_value(nodes, ln, t),
        spells_value(nodes, rn, u),
        evaluated_value(a, entries, nodes, EnvId(0), ln, i),
        evaluated_value(a, entries, nodes, EnvId(0), rn, j),
        inert_value(t, depth),
        inert_value(u, depth),
        terms_agree(t, u, depth),
    ensures
        ground_agree(a, i, j, depth),
    decreases depth,
{
    let below = (depth - 1) as nat;
    lemma_inert_evaluated_in_range(a, entries, nodes, ln, t, i, depth);
    lemma_inert_evaluated_in_range(a, entries, nodes, rn, u, j, depth);
    let v = nodes[ln as int]->Value_0;
    let w = nodes[rn as int]->Value_0;
    if !(t is Hole || u is Hole) {
        match (v, w) {
            (ValueNode::Pair(a1, b1), ValueNode::Pair(a2, b2)) => {
                let x = a.value_nodes()[i.0 as int].node;
                let y = a.value_nodes()[j.0 as int].node;
                lemma_ground_agree_of_terms(a, entries, nodes, a1.0, a2.0, referent(&t->Pair_0), referent(&u->Pair_0), x->Pair_0, y->Pair_0, below);
                lemma_ground_agree_of_terms(a, entries, nodes, b1.0, b2.0, referent(&t->Pair_1), referent(&u->Pair_1), x->Pair_1, y->Pair_1, below);
            },
            (ValueNode::Inj(_, p1), ValueNode::Inj(_, p2)) => {
                let x = a.value_nodes()[i.0 as int].node;
                let y = a.value_nodes()[j.0 as int].node;
                lemma_ground_agree_of_terms(a, entries, nodes, p1.0, p2.0, referent(&t->Inj_1), referent(&u->Inj_1), x->Inj_1, y->Inj_1, below);
            },
            (ValueNode::Here(p1), ValueNode::Here(p2)) => {
                let x = a.value_nodes()[i.0 as int].node;
                let y = a.value_nodes()[j.0 as int].node;
                lemma_ground_agree_of_terms(a, entries, nodes, p1.0, p2.0, referent(&t->Here_0), referent(&u->Here_0), x->Here_0, y->Here_0, below);
            },
            (ValueNode::Ctor { payload: p1, .. }, ValueNode::Ctor { payload: p2, .. }) => {
                let x = a.value_nodes()[i.0 as int].node;
                let y = a.value_nodes()[j.0 as int].node;
                lemma_ground_agree_of_terms(a, entries, nodes, p1.0, p2.0, referent(&t->Ctor_payload), referent(&u->Ctor_payload), x->Ctor_payload, y->Ctor_payload, below);
            },
            (ValueNode::List(items1), ValueNode::List(items2)) => {
                let x = a.value_nodes()[i.0 as int].node;
                let y = a.value_nodes()[j.0 as int].node;
                let ids1 = x->List_0@;
                let ids2 = y->List_0@;
                let xs = t->List_0@;
                let ys = u->List_0@;
                assert(spells_values(nodes, ln as int, items1@, xs));
                assert(spells_values(nodes, rn as int, items2@, ys));
                assert(crate::nbe::eval::evaluated_values(a, entries, nodes, EnvId(0), ln as int, items1@, ids1));
                assert(crate::nbe::eval::evaluated_values(a, entries, nodes, EnvId(0), rn as int, items2@, ids2));
                assert forall|k: int| 0 <= k < ids1.len() implies ground_agree(a, #[trigger] ids1[k], ids2[k], below) by {
                    crate::store::spelling::lemma_values_element(nodes, ln as int, items1@, xs, k);
                    crate::store::spelling::lemma_values_element(nodes, rn as int, items2@, ys, k);
                    crate::nbe::eval::lemma_evaluated_values_element(a, entries, nodes, EnvId(0), ln as int, items1@, ids1, k);
                    crate::nbe::eval::lemma_evaluated_values_element(a, entries, nodes, EnvId(0), rn as int, items2@, ids2, k);
                    assert(inert_value(*xs[k], below));
                    assert(inert_value(*ys[k], below));
                    assert(terms_agree(*xs[k], *ys[k], below));
                    lemma_ground_agree_of_terms(a, entries, nodes, items1@[k].0, items2@[k].0, referent(&xs[k]), referent(&ys[k]), ids1[k], ids2[k], below);
                }
            },
            _ => {},
        }
    }
}

/// Ground agreement does not change as the arena grows.
pub proof fn lemma_ground_agree_stable(a: SemArena, b: SemArena, l: SemValueId, r: SemValueId, depth: nat)
    requires
        ground_agree(a, l, r, depth),
        grows(a, b),
    ensures
        ground_agree(b, l, r, depth),
    decreases depth,
{
    let below = (depth - 1) as nat;
    assert(b.value_nodes()[l.0 as int] == a.value_nodes()[l.0 as int]);
    assert(b.value_nodes()[r.0 as int] == a.value_nodes()[r.0 as int]);
    let x = a.value_nodes()[l.0 as int].node;
    let y = a.value_nodes()[r.0 as int].node;
    if !(hole_form(x) || hole_form(y)) {
        match (x, y) {
            (SemValueNode::Pair(a1, b1), SemValueNode::Pair(a2, b2)) => {
                lemma_ground_agree_stable(a, b, a1, a2, below);
                lemma_ground_agree_stable(a, b, b1, b2, below);
            },
            (SemValueNode::Inj(_, p1), SemValueNode::Inj(_, p2)) => lemma_ground_agree_stable(a, b, p1, p2, below),
            (SemValueNode::Here(p1), SemValueNode::Here(p2)) => lemma_ground_agree_stable(a, b, p1, p2, below),
            (SemValueNode::Ctor { payload: p1, .. }, SemValueNode::Ctor { payload: p2, .. }) => lemma_ground_agree_stable(a, b, p1, p2, below),
            (SemValueNode::List(xs), SemValueNode::List(ys)) => {
                assert forall|k: int| 0 <= k < xs@.len() implies ground_agree(b, #[trigger] xs@[k], ys@[k], below) by {
                    lemma_ground_agree_stable(a, b, xs@[k], ys@[k], below);
                }
            },
            _ => {},
        }
    }
}

/// Which former a weak-head form is.
pub open spec fn former_of(n: SemValueNode) -> int {
    match n {
        SemValueNode::Unit => 0,
        SemValueNode::Int(_) => 1,
        SemValueNode::Str(_) => 2,
        SemValueNode::Num(_) => 3,
        SemValueNode::Pair(_, _) => 4,
        SemValueNode::Inj(_, _) => 5,
        SemValueNode::List(_) => 6,
        SemValueNode::Record(_) => 7,
        SemValueNode::Thunk(_, _) => 8,
        SemValueNode::Here(_) => 9,
        SemValueNode::Ctor { .. } => 10,
        SemValueNode::Reified(_) => 11,
        SemValueNode::Rigid(Rigid::Level(_), _) => 12,
        SemValueNode::Rigid(Rigid::Free(_), _) => 13,
        SemValueNode::Rigid(Rigid::Hole(_), _) => 14,
    }
}

/// The verdict conversion reaches on two distinct values from their
/// weak-head forms alone, when it reaches one there: a hole is consistent
/// with everything; apart from free variables, which may unfold, two
/// different formers never convert; literals, reified stacks, and levels
/// convert exactly when equal; injections on different sides, constructors
/// of different data or tags, lists or records of different lengths, and
/// thunks of different grades never convert; two empty lists or two empty
/// records convert. `None` when the verdict depends on more.
pub open spec fn shallow_verdict(a: SemValueNode, b: SemValueNode) -> Option<bool> {
    if hole_form(a) || hole_form(b) {
        Some(true)
    } else if free_form(a) || free_form(b) {
        None
    } else if former_of(a) != former_of(b) {
        Some(false)
    } else {
        match (a, b) {
            (SemValueNode::Unit, SemValueNode::Unit) => Some(true),
            (SemValueNode::Int(x), SemValueNode::Int(y)) => Some(x == y),
            (SemValueNode::Str(x), SemValueNode::Str(y)) => Some(x@ == y@),
            (SemValueNode::Num(x), SemValueNode::Num(y)) => Some(x == y),
            (SemValueNode::Reified(x), SemValueNode::Reified(y)) => Some(x == y),
            (
                SemValueNode::Rigid(Rigid::Level(x), _),
                SemValueNode::Rigid(Rigid::Level(y), _),
            ) => Some(x == y),
            (SemValueNode::Inj(x, _), SemValueNode::Inj(y, _)) => if x != y {
                Some(false)
            } else {
                None
            },
            (
                SemValueNode::Ctor { id: x, tag: s, .. },
                SemValueNode::Ctor { id: y, tag: t, .. },
            ) => if x.serial != y.serial || x.name@ != y.name@ || s != t {
                Some(false)
            } else {
                None
            },
            (SemValueNode::List(x), SemValueNode::List(y)) => if x@.len() != y@.len() {
                Some(false)
            } else if x@.len() == 0 {
                Some(true)
            } else {
                None
            },
            (SemValueNode::Record(x), SemValueNode::Record(y)) => if x@.len() != y@.len() {
                Some(false)
            } else if x@.len() == 0 {
                Some(true)
            } else {
                None
            },
            (SemValueNode::Thunk(x, _), SemValueNode::Thunk(y, _)) => if x != y {
                Some(false)
            } else {
                None
            },
            _ => None,
        }
    }
}

/// Conversion's shallow verdict does not depend on which side a value
/// stands on.
pub proof fn lemma_shallow_verdict_symmetric(a: SemValueNode, b: SemValueNode)
    ensures
        shallow_verdict(a, b) == shallow_verdict(b, a),
{
}

/// A rigid variable at a fresh level.
fn fresh_rigid(nbe: &mut Normalizer) -> (r: Result<SemValueId, SemError>)
    requires
        old(nbe).wf(),
    ensures
        evaluates(*old(nbe), *final(nbe)),
        final(nbe).next_level == Normalizer::next_after(old(nbe).next_level),
        final(nbe).arena.closure_nodes() == old(nbe).arena.closure_nodes(),
        final(nbe).arena.comp_nodes() == old(nbe).arena.comp_nodes(),
        final(nbe).arena.neutral_nodes() == old(nbe).arena.neutral_nodes(),
        final(nbe).arena.frames() == old(nbe).arena.frames(),
        r is Ok <==> has_room(old(nbe).arena.value_nodes().len()),
        r matches Ok(id) ==> {
            &&& id.0 == old(nbe).arena.value_nodes().len()
            &&& final(nbe).arena.value_nodes().len() == id.0 + 1
            &&& final(nbe).arena.value_nodes()[id.0 as int].node == SemValueNode::Rigid(
                Rigid::Level(old(nbe).next_level),
                ValueUnfold::Rigid,
            )
        },
{
    let level = nbe.fresh_level();
    mint_value(nbe, SemValueNode::Rigid(Rigid::Level(level), ValueUnfold::Rigid), None)
}

/// Whether a weak-head value is a hole.
fn is_hole(node: &SemValueNode) -> (b: bool)
    ensures
        b == (node matches SemValueNode::Rigid(Rigid::Hole(_), _)),
{
    match node {
        SemValueNode::Rigid(Rigid::Hole(_), _) => true,
        _ => false,
    }
}

/// The height of the definition a free head names, if it names one.
fn definition_height(nbe: &Normalizer, node: &SemValueNode) -> (h: Option<u32>)
    ensures
        h is Some ==> free_form(*node),
        h == match *node {
            SemValueNode::Rigid(Rigid::Free(name), _) => match resolve(nbe.defs.entries(), name@) {
                Some(d) => Some(d.height),
                None => None,
            },
            _ => None,
        },
{
    match node {
        SemValueNode::Rigid(Rigid::Free(name), _) => match nbe.defs.lookup(name.as_str()) {
            Some(definition) => Some(definition.height),
            None => None,
        },
        _ => None,
    }
}

/// Unfolds the definition a free head names, one step; a value with no
/// definition at its head is returned unchanged.
fn unfold_once(nbe: &mut Normalizer, value: SemValueId) -> (r: Result<SemValueId, SemError>)
    requires
        old(nbe).wf(),
    ensures
        evaluates(*old(nbe), *final(nbe)),
        final(nbe).next_level == old(nbe).next_level,
        value.0 >= old(nbe).arena.value_nodes().len() ==> r == Err::<SemValueId, SemError>(
            SemError::MissingValue(value),
        ),
        value.0 < old(nbe).arena.value_nodes().len() && head_definition(
            old(nbe).arena,
            old(nbe).defs.entries(),
            value,
        ) is None ==> r == Ok::<SemValueId, SemError>(value) && final(nbe).arena == old(nbe).arena,
        head_definition(old(nbe).arena, old(nbe).defs.entries(), value) matches Some(d) ==> (
        r matches Ok(v) ==> v.0 >= old(nbe).arena.value_nodes().len() && evaluated_value(
            final(nbe).arena,
            old(nbe).defs.entries(),
            old(nbe).syntax.nodes(),
            EnvId(0),
            d.body.0,
            v,
        )),
        head_definition(old(nbe).arena, old(nbe).defs.entries(), value) matches Some(d) ==> (
        literal_value_at(old(nbe).syntax.nodes(), d.body.0) && has_room(
            old(nbe).arena.value_nodes().len(),
        ) ==> r == Ok::<SemValueId, SemError>(SemValueId(old(nbe).arena.value_nodes().len() as u32))
            && final(nbe).arena.value_nodes()[old(nbe).arena.value_nodes().len() as int].node
            == literal_form(old(nbe).syntax.nodes()[d.body.0 as int]->Value_0)),
{
    let name = match value_node(nbe, value)? {
        SemValueNode::Rigid(Rigid::Free(name), _) => name,
        _ => {
            return Ok(value);
        },
    };
    let body = match nbe.defs.lookup(name.as_str()) {
        Some(definition) => definition.body,
        None => {
            return Ok(value);
        },
    };
    let (unfolded, _) = eval_value_at(nbe, EnvId(0), body, EVAL_DEPTH)?;
    Ok(unfolded)
}

/// Whether two semantic values are definitionally equal.
pub fn converts_values_at(nbe: &mut Normalizer, lhs: SemValueId, rhs: SemValueId, depth: u32) -> (r:
    Result<bool, SemError>)
    requires
        old(nbe).wf(),
    ensures
        evaluates(*old(nbe), *final(nbe)),
        lhs == rhs ==> r == Ok::<bool, SemError>(true),
        lhs != rhs && depth > 0 && lhs.0 < old(nbe).arena.value_nodes().len() && rhs.0 < old(
            nbe,
        ).arena.value_nodes().len() ==> (shallow_verdict(
            old(nbe).arena.value_nodes()[lhs.0 as int].node,
            old(nbe).arena.value_nodes()[rhs.0 as int].node,
        ) matches Some(v) ==> r == Ok::<bool, SemError>(v)),
        ground_agree(old(nbe).arena, lhs, rhs, depth as nat) ==> r == Ok::<bool, SemError>(true),
    decreases depth, 0nat,
{
    if lhs == rhs {
        return Ok(true);
    }
    if depth == 0 {
        return Err(SemError::StepLimit);
    }
    let below = depth - 1;
    let left = value_node(nbe, lhs)?;
    let right = value_node(nbe, rhs)?;
    if is_hole(&left) || is_hole(&right) {
        return Ok(true);
    }
    match (&left, &right) {
        (SemValueNode::Rigid(Rigid::Free(x), _), SemValueNode::Rigid(Rigid::Free(y), _)) => {
            if names_equal(x.as_str(), y.as_str()) {
                return Ok(true);
            }
        },
        _ => {},
    }
    let left_height = definition_height(nbe, &left);
    let right_height = definition_height(nbe, &right);
    let (next_left, next_right) = match (left_height, right_height) {
        (Some(a), Some(b)) => {
            if a > b {
                (unfold_once(nbe, lhs)?, rhs)
            } else if b > a {
                (lhs, unfold_once(nbe, rhs)?)
            } else {
                let l = unfold_once(nbe, lhs)?;
                let r = unfold_once(nbe, rhs)?;
                (l, r)
            }
        },
        (Some(_), None) => (unfold_once(nbe, lhs)?, rhs),
        (None, Some(_)) => (lhs, unfold_once(nbe, rhs)?),
        (None, None) => (lhs, rhs),
    };
    if next_left != lhs || next_right != rhs {
        return converts_values_at(nbe, next_left, next_right, below);
    }
    match (left, right) {
        (SemValueNode::Unit, SemValueNode::Unit) => Ok(true),
        (SemValueNode::Int(a), SemValueNode::Int(b)) => Ok(a == b),
        (SemValueNode::Str(a), SemValueNode::Str(b)) => Ok(names_equal(a.as_str(), b.as_str())),
        (SemValueNode::Num(a), SemValueNode::Num(b)) => Ok(a == b),
        (SemValueNode::Pair(a1, b1), SemValueNode::Pair(a2, b2)) => {
            let ghost first = nbe.arena;
            if !converts_values_at(nbe, a1, a2, below)? {
                return Ok(false);
            }
            proof {
                if ground_agree(old(nbe).arena, lhs, rhs, depth as nat) {
                    lemma_ground_agree_stable(first, nbe.arena, b1, b2, below as nat);
                }
            }
            converts_values_at(nbe, b1, b2, below)
        },
        (SemValueNode::Inj(s1, p1), SemValueNode::Inj(s2, p2)) => {
            if s1 != s2 {
                return Ok(false);
            }
            converts_values_at(nbe, p1, p2, below)
        },
        (SemValueNode::Here(a), SemValueNode::Here(b)) => converts_values_at(nbe, a, b, below),
        (SemValueNode::Ctor { id: i1, tag: t1, payload: p1 }, SemValueNode::Ctor {
            id: i2,
            tag: t2,
            payload: p2,
        }) => {
            if i1.serial != i2.serial || !names_equal(i1.name.as_str(), i2.name.as_str()) || t1
                != t2 {
                return Ok(false);
            }
            converts_values_at(nbe, p1, p2, below)
        },
        (SemValueNode::List(xs), SemValueNode::List(ys)) => {
            if xs.len() != ys.len() {
                return Ok(false);
            }
            let mut index: usize = 0;
            while index < xs.len()
                invariant
                    index <= xs@.len(),
                    xs@.len() == ys@.len(),
                    below < depth,
                    lhs != rhs,
                    evaluates(*old(nbe), *nbe),
                    xs@.len() > 0 ==> shallow_verdict(
                        old(nbe).arena.value_nodes()[lhs.0 as int].node,
                        old(nbe).arena.value_nodes()[rhs.0 as int].node,
                    ) is None,
                    ground_agree(old(nbe).arena, lhs, rhs, depth as nat) ==> forall|k: int|
                        0 <= k < xs@.len() ==> ground_agree(old(nbe).arena, #[trigger] xs@[k], ys@[k], below as nat),
                decreases xs@.len() - index,
            {
                proof {
                    if ground_agree(old(nbe).arena, lhs, rhs, depth as nat) {
                        lemma_ground_agree_stable(old(nbe).arena, nbe.arena, xs@[index as int], ys@[index as int], below as nat);
                    }
                }
                if !converts_values_at(nbe, xs[index], ys[index], below)? {
                    return Ok(false);
                }
                index = index + 1;
            }
            Ok(true)
        },
        (SemValueNode::Record(fs), SemValueNode::Record(gs)) => {
            if fs.len() != gs.len() {
                return Ok(false);
            }
            let mut index: usize = 0;
            while index < fs.len()
                invariant
                    index <= fs@.len(),
                    below < depth,
                    lhs != rhs,
                    evaluates(*old(nbe), *nbe),
                    fs@.len() > 0 ==> shallow_verdict(
                        old(nbe).arena.value_nodes()[lhs.0 as int].node,
                        old(nbe).arena.value_nodes()[rhs.0 as int].node,
                    ) is None,
                    !ground_agree(old(nbe).arena, lhs, rhs, depth as nat),
                decreases fs@.len() - index,
            {
                let mut found: Option<SemValueId> = None;
                let mut probe: usize = 0;
                while probe < gs.len()
                    invariant
                        probe <= gs@.len(),
                        index < fs@.len(),
                    decreases gs@.len() - probe,
                {
                    if names_equal(gs[probe].label.as_str(), fs[index].label.as_str()) {
                        found = Some(gs[probe].value);
                    }
                    probe = probe + 1;
                }
                match found {
                    Some(other) => {
                        if !converts_values_at(nbe, fs[index].value, other, below)? {
                            return Ok(false);
                        }
                    },
                    None => {
                        return Ok(false);
                    },
                }
                index = index + 1;
            }
            Ok(true)
        },
        (SemValueNode::Thunk(g1, c1), SemValueNode::Thunk(g2, c2)) => {
            if g1 != g2 {
                return Ok(false);
            }
            let x = resume(nbe, c1, EVAL_DEPTH)?;
            let y = resume(nbe, c2, EVAL_DEPTH)?;
            converts_comps_at(nbe, x, y, below)
        },
        (SemValueNode::Reified(a), SemValueNode::Reified(b)) => Ok(a == b),
        (SemValueNode::Rigid(Rigid::Level(a), _), SemValueNode::Rigid(Rigid::Level(b), _)) => Ok(
            a == b,
        ),
        _ => Ok(false),
    }
}

/// Whether two closures of the same arity agree when both are applied to the
/// same fresh variables.
fn closures_convert(nbe: &mut Normalizer, lhs: ClosureId, rhs: ClosureId, arity: usize, depth: u32) -> (r:
    Result<bool, SemError>)
    requires
        old(nbe).wf(),
    ensures
        evaluates(*old(nbe), *final(nbe)),
        old(nbe).arena.value_nodes().len() + arity <= u32::MAX + 1 ==> {
            &&& lhs.0 >= old(nbe).arena.closure_nodes().len() ==> r == Err::<bool, SemError>(
                SemError::MissingClosure(lhs),
            )
            &&& lhs.0 < old(nbe).arena.closure_nodes().len() && old(nbe).arena.closure_nodes()[lhs.0 as int].binders@.len()
                != arity ==> r == Err::<bool, SemError>(SemError::ClosureArity)
        },
        r is Ok ==> lhs.0 < old(nbe).arena.closure_nodes().len() && old(nbe).arena.closure_nodes()[lhs.0 as int].binders@.len()
            == arity,
    decreases depth, 1nat,
{
    let mut args: Vec<SemValueId> = Vec::new();
    let mut index: usize = 0;
    while index < arity
        invariant
            index <= arity,
            evaluates(*old(nbe), *nbe),
            args@.len() == index,
            nbe.arena.closure_nodes() == old(nbe).arena.closure_nodes(),
            nbe.arena.value_nodes().len() == old(nbe).arena.value_nodes().len() + index,
        decreases arity - index,
    {
        let fresh = fresh_rigid(nbe)?;
        args.push(fresh);
        index = index + 1;
    }
    let x = instantiate(nbe, lhs, &args, EVAL_DEPTH)?;
    let y = instantiate(nbe, rhs, &args, EVAL_DEPTH)?;
    converts_comps_at(nbe, x, y, depth)
}

/// Nodes `lhs` and `rhs` of `nodes` are both performances of one operation
/// of one signature, or both handlers of one signature.
pub open spec fn effect_sources_agree(nodes: Seq<SyntaxNode>, lhs: u32, rhs: u32) -> bool {
    lhs < nodes.len() && rhs < nodes.len() && match (nodes[lhs as int], nodes[rhs as int]) {
        (
            SyntaxNode::Comp(CompNode::Perform(s1, op1, _)),
            SyntaxNode::Comp(CompNode::Perform(s2, op2, _)),
        ) => s1.name@ == s2.name@ && op1@ == op2@,
        (
            SyntaxNode::Comp(CompNode::Handle { sig: s1, .. }),
            SyntaxNode::Comp(CompNode::Handle { sig: s2, .. }),
        ) => s1.name@ == s2.name@,
        _ => false,
    }
}

/// Whether two effect performances or handlers name the same signature and
/// operation, as their syntax nodes record them.
fn same_effect_source(nbe: &Normalizer, lhs: crate::store::CompNodeId, rhs: crate::store::CompNodeId) -> (b: bool)
    ensures
        b == effect_sources_agree(nbe.syntax.nodes(), lhs.0, rhs.0),
{
    match (nbe.syntax.comp_node(lhs), nbe.syntax.comp_node(rhs)) {
        (Ok(CompNode::Perform(s1, op1, _)), Ok(CompNode::Perform(s2, op2, _))) => names_equal(
            s1.name.as_str(),
            s2.name.as_str(),
        ) && names_equal(op1.as_str(), op2.as_str()),
        (Ok(CompNode::Handle { sig: s1, .. }), Ok(CompNode::Handle { sig: s2, .. })) => names_equal(
            s1.name.as_str(),
            s2.name.as_str(),
        ),
        _ => false,
    }
}

/// Which former a neutral head is.
pub open spec fn head_kind(h: NeutralHead) -> int {
    match h {
        NeutralHead::Force(_) => 0,
        NeutralHead::Case { .. } => 1,
        NeutralHead::DataCase { .. } => 2,
        NeutralHead::ListCase { .. } => 3,
        NeutralHead::Split { .. } => 4,
        NeutralHead::Project { .. } => 5,
        NeutralHead::Walk { .. } => 6,
        NeutralHead::Native { .. } => 7,
        NeutralHead::Dup(_) => 8,
        NeutralHead::Drop(_) => 9,
        NeutralHead::Perform { .. } => 10,
        NeutralHead::Handle { .. } => 11,
        NeutralHead::Resume { .. } => 12,
        NeutralHead::Reset(_) => 13,
        NeutralHead::Shift(_) => 14,
        NeutralHead::Hole(_) => 15,
        NeutralHead::Mismatch(_) => 16,
    }
}

/// Two neutral heads are of different formers, neither a hole, or the same
/// former with a shallow difference: other projected labels, other
/// primitives, or another number of arms, arguments, or clauses.
pub open spec fn heads_clash(lhs: NeutralHead, rhs: NeutralHead) -> bool {
    !(lhs is Hole) && !(rhs is Hole) && (head_kind(lhs) != head_kind(rhs) || match (lhs, rhs) {
        (NeutralHead::Project { label: l1, .. }, NeutralHead::Project { label: l2, .. }) => l1@ != l2@,
        (NeutralHead::Native { prim: p1, args: a1 }, NeutralHead::Native { prim: p2, args: a2 }) => p1
            != p2 || a1@.len() != a2@.len(),
        (NeutralHead::DataCase { arms: a1, .. }, NeutralHead::DataCase { arms: a2, .. }) => a1@.len()
            != a2@.len(),
        (NeutralHead::Handle { ops: o1, .. }, NeutralHead::Handle { ops: o2, .. }) => o1@.len()
            != o2@.len(),
        _ => false,
    })
}

/// The same head, copied, clashes exactly when the original does.
pub proof fn lemma_clash_same_head(a: NeutralHead, a2: NeutralHead, b: NeutralHead, b2: NeutralHead)
    requires
        same_head(a2, a),
        same_head(b2, b),
    ensures
        heads_clash(a2, b2) == heads_clash(a, b),
        a2 is Hole == a is Hole,
        b2 is Hole == b is Hole,
{
}

/// Which former a weak-head computation is.
pub open spec fn comp_kind(c: SemCompNode) -> int {
    match c {
        SemCompNode::Lambda(_) => 0,
        SemCompNode::Return(_) => 1,
        SemCompNode::LazyPair(_, _) => 2,
        SemCompNode::Neutral(_) => 3,
    }
}

/// Computation `c` of `a` is a neutral stuck on a hole.
pub open spec fn hole_comp(a: SemArena, c: SemCompId) -> bool {
    &&& c.0 < a.comp_nodes().len()
    &&& a.comp_nodes()[c.0 as int].node matches SemCompNode::Neutral(n)
    &&& n.0 < a.neutral_nodes().len()
    &&& a.neutral_nodes()[n.0 as int].head is Hole
}

/// The verdict conversion reaches on two distinct computations of `a`
/// without running either: two canonical forms of different formers are
/// distinct, and a neutral stuck on a hole is consistent with anything but
/// an abstraction, which is compared by eta first.
pub open spec fn shallow_comp_verdict(a: SemArena, lhs: SemCompId, rhs: SemCompId) -> Option<bool> {
    if lhs.0 < a.comp_nodes().len() && rhs.0 < a.comp_nodes().len() {
        let l = a.comp_nodes()[lhs.0 as int].node;
        let r = a.comp_nodes()[rhs.0 as int].node;
        if !(l is Neutral) && !(r is Neutral) && comp_kind(l) != comp_kind(r) {
            Some(false)
        } else if hole_comp(a, lhs) && !(r is Lambda) {
            Some(true)
        } else if hole_comp(a, rhs) && !(l is Lambda) && (l matches SemCompNode::Neutral(n) ==> n.0
            < a.neutral_nodes().len()) {
            Some(true)
        } else {
            None
        }
    } else {
        None
    }
}

/// Whether two neutral heads are congruent.
#[verifier::loop_isolation(false)]
fn heads_convert(nbe: &mut Normalizer, lhs: &NeutralHead, rhs: &NeutralHead, depth: u32) -> (r:
    Result<bool, SemError>)
    requires
        old(nbe).wf(),
    ensures
        evaluates(*old(nbe), *final(nbe)),
        lhs is Hole || rhs is Hole ==> r == Ok::<bool, SemError>(true),
        heads_clash(*lhs, *rhs) ==> r == Ok::<bool, SemError>(false),
    decreases depth, 2nat,
{
    match (lhs, rhs) {
        (NeutralHead::Hole(_), _) | (_, NeutralHead::Hole(_)) => Ok(true),
        (NeutralHead::Force(a), NeutralHead::Force(b)) => converts_values_at(nbe, *a, *b, depth),
        (NeutralHead::Dup(a), NeutralHead::Dup(b)) => converts_values_at(nbe, *a, *b, depth),
        (NeutralHead::Drop(a), NeutralHead::Drop(b)) => converts_values_at(nbe, *a, *b, depth),
        (
            NeutralHead::Case { scrutinee: s1, on_left: l1, on_right: r1 },
            NeutralHead::Case { scrutinee: s2, on_left: l2, on_right: r2 },
        ) => {
            if !converts_values_at(nbe, *s1, *s2, depth)? {
                return Ok(false);
            }
            if !closures_convert(nbe, *l1, *l2, 1, depth)? {
                return Ok(false);
            }
            closures_convert(nbe, *r1, *r2, 1, depth)
        },
        (
            NeutralHead::DataCase { scrutinee: s1, arms: a1 },
            NeutralHead::DataCase { scrutinee: s2, arms: a2 },
        ) => {
            if a1.len() != a2.len() || !converts_values_at(nbe, *s1, *s2, depth)? {
                return Ok(false);
            }
            let mut index: usize = 0;
            while index < a1.len()
                invariant
                    index <= a1@.len(),
                    a1@.len() == a2@.len(),
                    evaluates(*old(nbe), *nbe),
                decreases a1@.len() - index,
            {
                if !closures_convert(nbe, a1[index].body, a2[index].body, 1, depth)? {
                    return Ok(false);
                }
                index = index + 1;
            }
            Ok(true)
        },
        (
            NeutralHead::ListCase { scrutinee: s1, nil: n1, cons: c1 },
            NeutralHead::ListCase { scrutinee: s2, nil: n2, cons: c2 },
        ) => {
            if !converts_values_at(nbe, *s1, *s2, depth)? {
                return Ok(false);
            }
            if !closures_convert(nbe, *n1, *n2, 0, depth)? {
                return Ok(false);
            }
            closures_convert(nbe, *c1, *c2, 2, depth)
        },
        (
            NeutralHead::Split { scrutinee: s1, body: b1 },
            NeutralHead::Split { scrutinee: s2, body: b2 },
        ) => {
            if !converts_values_at(nbe, *s1, *s2, depth)? {
                return Ok(false);
            }
            closures_convert(nbe, *b1, *b2, 2, depth)
        },
        (
            NeutralHead::Project { record: r1, label: l1 },
            NeutralHead::Project { record: r2, label: l2 },
        ) => {
            if !names_equal(l1.as_str(), l2.as_str()) {
                return Ok(false);
            }
            converts_values_at(nbe, *r1, *r2, depth)
        },
        (
            NeutralHead::Walk { scrutinee: s1, base: b1 },
            NeutralHead::Walk { scrutinee: s2, base: b2 },
        ) => {
            if !converts_values_at(nbe, *s1, *s2, depth)? {
                return Ok(false);
            }
            closures_convert(nbe, *b1, *b2, 1, depth)
        },
        (
            NeutralHead::Native { prim: p1, args: a1 },
            NeutralHead::Native { prim: p2, args: a2 },
        ) => {
            if p1 != p2 || a1.len() != a2.len() {
                return Ok(false);
            }
            let mut index: usize = 0;
            while index < a1.len()
                invariant
                    index <= a1@.len(),
                    a1@.len() == a2@.len(),
                    evaluates(*old(nbe), *nbe),
                decreases a1@.len() - index,
            {
                if !converts_values_at(nbe, a1[index], a2[index], depth)? {
                    return Ok(false);
                }
                index = index + 1;
            }
            Ok(true)
        },
        (
            NeutralHead::Perform { source: src1, payload: p1 },
            NeutralHead::Perform { source: src2, payload: p2 },
        ) => {
            if !same_effect_source(nbe, *src1, *src2) {
                return Ok(false);
            }
            converts_values_at(nbe, *p1, *p2, depth)
        },
        (
            NeutralHead::Handle { source: src1, scrutinee: s1, ret: r1, ops: o1 },
            NeutralHead::Handle { source: src2, scrutinee: s2, ret: r2, ops: o2 },
        ) => {
            if !same_effect_source(nbe, *src1, *src2) || o1.len() != o2.len() {
                return Ok(false);
            }
            if !closures_convert(nbe, *s1, *s2, 0, depth)? {
                return Ok(false);
            }
            if !closures_convert(nbe, *r1, *r2, 1, depth)? {
                return Ok(false);
            }
            let mut index: usize = 0;
            while index < o1.len()
                invariant
                    index <= o1@.len(),
                    o1@.len() == o2@.len(),
                    evaluates(*old(nbe), *nbe),
                decreases o1@.len() - index,
            {
                if !closures_convert(nbe, o1[index], o2[index], 2, depth)? {
                    return Ok(false);
                }
                index = index + 1;
            }
            Ok(true)
        },
        (
            NeutralHead::Resume { value: v1, body: b1 },
            NeutralHead::Resume { value: v2, body: b2 },
        ) => {
            if !converts_values_at(nbe, *v1, *v2, depth)? {
                return Ok(false);
            }
            closures_convert(nbe, *b1, *b2, 0, depth)
        },
        (NeutralHead::Reset(a), NeutralHead::Reset(b)) => closures_convert(nbe, *a, *b, 0, depth),
        (NeutralHead::Shift(a), NeutralHead::Shift(b)) => closures_convert(nbe, *a, *b, 1, depth),
        (NeutralHead::Mismatch(a), NeutralHead::Mismatch(b)) => converts_comps_at(nbe, *a, *b, depth),
        _ => Ok(false),
    }
}

/// Which eliminator an elimination is: application, projection, or
/// sequencing.
pub open spec fn elim_kind(e: Elim) -> int {
    match e {
        Elim::Apply(_) => 0,
        Elim::Project(_) => 1,
        Elim::Sequence(_) => 2,
    }
}

/// Whether two spines are congruent, eliminator by eliminator.
fn spines_convert(nbe: &mut Normalizer, lhs: &Vec<Elim>, rhs: &Vec<Elim>, depth: u32) -> (r: Result<
    bool,
    SemError,
>)
    requires
        old(nbe).wf(),
    ensures
        evaluates(*old(nbe), *final(nbe)),
        lhs@.len() != rhs@.len() ==> r == Ok::<bool, SemError>(false),
        lhs@.len() == rhs@.len() && (forall|i: int|
            0 <= i < lhs@.len() ==> #[trigger] lhs@[i] is Project && rhs@[i] is Project) ==> r
            == Ok::<bool, SemError>(lhs@ == rhs@),
        lhs@.len() == rhs@.len() && lhs@.len() > 0 && elim_kind(lhs@[0]) != elim_kind(rhs@[0]) ==> r
            == Ok::<bool, SemError>(false),
    decreases depth, 2nat,
{
    if lhs.len() != rhs.len() {
        return Ok(false);
    }
    let mut index: usize = 0;
    while index < lhs.len()
        invariant
            index <= lhs@.len(),
            lhs@.len() == rhs@.len(),
            evaluates(*old(nbe), *nbe),
            (forall|i: int| 0 <= i < lhs@.len() ==> #[trigger] lhs@[i] is Project && rhs@[i] is Project)
                ==> forall|j: int| 0 <= j < index ==> #[trigger] lhs@[j] == rhs@[j],
            index > 0 ==> elim_kind(lhs@[0]) == elim_kind(rhs@[0]),
        decreases lhs@.len() - index,
    {
        let agrees = match (lhs[index], rhs[index]) {
            (Elim::Apply(a), Elim::Apply(b)) => converts_values_at(nbe, a, b, depth)?,
            (Elim::Project(a), Elim::Project(b)) => a == b,
            (Elim::Sequence(a), Elim::Sequence(b)) => closures_convert(nbe, a, b, 1, depth)?,
            _ => false,
        };
        if !agrees {
            return Ok(false);
        }
        index = index + 1;
    }
    proof {
        if forall|i: int| 0 <= i < lhs@.len() ==> #[trigger] lhs@[i] is Project && rhs@[i] is Project {
            assert(lhs@ =~= rhs@);
        }
    }
    Ok(true)
}

/// Whether a neutral's head is a hole.
fn neutral_is_hole(nbe: &Normalizer, neutral: NeutralId) -> (r: Result<bool, SemError>)
    ensures
        neutral.0 >= nbe.arena.neutral_nodes().len() ==> r == Err::<bool, SemError>(
            SemError::MissingNeutral(neutral),
        ),
        neutral.0 < nbe.arena.neutral_nodes().len() ==> r == Ok::<bool, SemError>(
            nbe.arena.neutral_nodes()[neutral.0 as int].head is Hole,
        ),
{
    match nbe.arena.neutral(neutral)?.head {
        NeutralHead::Hole(_) => Ok(true),
        _ => Ok(false),
    }
}

/// The rigid pass over two neutrals: heads and spines compared with no
/// unfolding at all.
fn neutrals_convert(nbe: &mut Normalizer, lhs: NeutralId, rhs: NeutralId, depth: u32) -> (r: Result<
    bool,
    SemError,
>)
    requires
        old(nbe).wf(),
    ensures
        evaluates(*old(nbe), *final(nbe)),
        lhs.0 >= old(nbe).arena.neutral_nodes().len() ==> r == Err::<bool, SemError>(
            SemError::MissingNeutral(lhs),
        ),
        lhs.0 < old(nbe).arena.neutral_nodes().len() && rhs.0 >= old(nbe).arena.neutral_nodes().len()
            ==> r == Err::<bool, SemError>(SemError::MissingNeutral(rhs)),
        lhs.0 < old(nbe).arena.neutral_nodes().len() && rhs.0 < old(nbe).arena.neutral_nodes().len()
            ==> {
            let a = old(nbe).arena.neutral_nodes()[lhs.0 as int];
            let b = old(nbe).arena.neutral_nodes()[rhs.0 as int];
            &&& heads_clash(a.head, b.head) ==> r == Ok::<bool, SemError>(false)
            &&& (a.head is Hole || b.head is Hole) && a.spine@.len() != b.spine@.len() ==> r == Ok::<
                bool,
                SemError,
            >(false)
            &&& (a.head is Hole || b.head is Hole) && a.spine@.len() == 0 && b.spine@.len() == 0 ==> r
                == Ok::<bool, SemError>(true)
        },
    decreases depth, 3nat,
{
    let ghost start = nbe.arena;
    let (h1, s1) = {
        let n = nbe.arena.neutral(lhs)?;
        (n.head.duplicate(), crate::nbe::sem::copy_vec(&n.spine))
    };
    let (h2, s2) = {
        let n = nbe.arena.neutral(rhs)?;
        (n.head.duplicate(), crate::nbe::sem::copy_vec(&n.spine))
    };
    proof {
        if lhs.0 < start.neutral_nodes().len() && rhs.0 < start.neutral_nodes().len() {
            lemma_clash_same_head(
                start.neutral_nodes()[lhs.0 as int].head,
                h1,
                start.neutral_nodes()[rhs.0 as int].head,
                h2,
            );
        }
    }
    proof {
        if s1@.len() == 0 && s2@.len() == 0 {
            assert(s1@ =~= s2@);
        }
    }
    if !heads_convert(nbe, &h1, &h2, depth)? {
        return Ok(false);
    }
    spines_convert(nbe, &s1, &s2, depth)
}

/// Whether two weak-head computations are definitionally equal.
pub fn converts_comps_at(nbe: &mut Normalizer, lhs: SemCompId, rhs: SemCompId, depth: u32) -> (r:
    Result<bool, SemError>)
    requires
        old(nbe).wf(),
    ensures
        evaluates(*old(nbe), *final(nbe)),
        lhs == rhs ==> r == Ok::<bool, SemError>(true),
        lhs != rhs && depth == 0 ==> r == Err::<bool, SemError>(SemError::StepLimit),
        lhs != rhs && depth > 0 && lhs.0 >= old(nbe).arena.comp_nodes().len() ==> r == Err::<
            bool,
            SemError,
        >(SemError::MissingComp(lhs)),
        lhs != rhs && depth > 0 && lhs.0 < old(nbe).arena.comp_nodes().len() && rhs.0 >= old(
            nbe,
        ).arena.comp_nodes().len() ==> r == Err::<bool, SemError>(SemError::MissingComp(rhs)),
        lhs != rhs && depth > 0 ==> (shallow_comp_verdict(old(nbe).arena, lhs, rhs) matches Some(v)
            ==> r == Ok::<bool, SemError>(v)),
    decreases depth, 0nat,
{
    if lhs == rhs {
        return Ok(true);
    }
    if depth == 0 {
        return Err(SemError::StepLimit);
    }
    let below = depth - 1;
    let left = nbe.arena.comp(lhs)?.node;
    let right = nbe.arena.comp(rhs)?.node;
    match (left, right) {
        (SemCompNode::Lambda(a), SemCompNode::Lambda(b)) => closures_convert(nbe, a, b, 1, below),
        (SemCompNode::Lambda(a), SemCompNode::Neutral(_)) => {
            let fresh = fresh_rigid(nbe)?;
            let mut args: Vec<SemValueId> = Vec::new();
            args.push(fresh);
            let x = instantiate(nbe, a, &args, EVAL_DEPTH)?;
            let y = apply_elim(nbe, rhs, Elim::Apply(fresh), EVAL_DEPTH)?;
            converts_comps_at(nbe, x, y, below)
        },
        (SemCompNode::Neutral(_), SemCompNode::Lambda(b)) => {
            let fresh = fresh_rigid(nbe)?;
            let mut args: Vec<SemValueId> = Vec::new();
            args.push(fresh);
            let x = apply_elim(nbe, lhs, Elim::Apply(fresh), EVAL_DEPTH)?;
            let y = instantiate(nbe, b, &args, EVAL_DEPTH)?;
            converts_comps_at(nbe, x, y, below)
        },
        (SemCompNode::Return(a), SemCompNode::Return(b)) => converts_values_at(nbe, a, b, below),
        (SemCompNode::LazyPair(a1, b1), SemCompNode::LazyPair(a2, b2)) => {
            if !closures_convert(nbe, a1, a2, 0, below)? {
                return Ok(false);
            }
            closures_convert(nbe, b1, b2, 0, below)
        },
        (SemCompNode::Neutral(n1), SemCompNode::Neutral(n2)) => {
            if neutral_is_hole(nbe, n1)? || neutral_is_hole(nbe, n2)? {
                return Ok(true);
            }
            if neutrals_convert(nbe, n1, n2, below)? {
                return Ok(true);
            }
            let u1 = unfold_neutral(nbe, n1, ForceMode::Unfold, EVAL_DEPTH)?;
            let u2 = unfold_neutral(nbe, n2, ForceMode::Unfold, EVAL_DEPTH)?;
            match (u1, u2) {
                (None, None) => Ok(false),
                (Some(x), None) => converts_comps_at(nbe, x, rhs, below),
                (None, Some(y)) => converts_comps_at(nbe, lhs, y, below),
                (Some(x), Some(y)) => converts_comps_at(nbe, x, y, below),
            }
        },
        (SemCompNode::Neutral(n), _) => {
            if neutral_is_hole(nbe, n)? {
                return Ok(true);
            }
            match unfold_neutral(nbe, n, ForceMode::Unfold, EVAL_DEPTH)? {
                Some(x) => converts_comps_at(nbe, x, rhs, below),
                None => Ok(false),
            }
        },
        (_, SemCompNode::Neutral(n)) => {
            if neutral_is_hole(nbe, n)? {
                return Ok(true);
            }
            match unfold_neutral(nbe, n, ForceMode::Unfold, EVAL_DEPTH)? {
                Some(y) => converts_comps_at(nbe, lhs, y, below),
                None => Ok(false),
            }
        },
        _ => Ok(false),
    }
}

/// Whether two semantic values are definitionally equal; the same id is
/// always convertible with itself.
pub fn converts_values(nbe: &mut Normalizer, lhs: SemValueId, rhs: SemValueId) -> (r: Result<
    bool,
    SemError,
>)
    requires
        old(nbe).wf(),
    ensures
        evaluates(*old(nbe), *final(nbe)),
        lhs == rhs ==> r == Ok::<bool, SemError>(true),
        lhs != rhs && lhs.0 < old(nbe).arena.value_nodes().len() && rhs.0 < old(
            nbe,
        ).arena.value_nodes().len() ==> (shallow_verdict(
            old(nbe).arena.value_nodes()[lhs.0 as int].node,
            old(nbe).arena.value_nodes()[rhs.0 as int].node,
        ) matches Some(v) ==> r == Ok::<bool, SemError>(v)),
        ground_agree(old(nbe).arena, lhs, rhs, CONV_DEPTH as nat) ==> r == Ok::<bool, SemError>(true),
{
    converts_values_at(nbe, lhs, rhs, CONV_DEPTH)
}

/// Whether two weak-head computations are definitionally equal; the same id
/// is always convertible with itself.
pub fn converts_comps(nbe: &mut Normalizer, lhs: SemCompId, rhs: SemCompId) -> (r: Result<
    bool,
    SemError,
>)
    requires
        old(nbe).wf(),
    ensures
        evaluates(*old(nbe), *final(nbe)),
        lhs == rhs ==> r == Ok::<bool, SemError>(true),
        lhs != rhs && lhs.0 >= old(nbe).arena.comp_nodes().len() ==> r == Err::<bool, SemError>(
            SemError::MissingComp(lhs),
        ),
        lhs != rhs && lhs.0 < old(nbe).arena.comp_nodes().len() && rhs.0 >= old(
            nbe,
        ).arena.comp_nodes().len() ==> r == Err::<bool, SemError>(SemError::MissingComp(rhs)),
        lhs != rhs ==> (shallow_comp_verdict(old(nbe).arena, lhs, rhs) matches Some(v) ==> r == Ok::<
            bool,
            SemError,
        >(v)),
{
    converts_comps_at(nbe, lhs, rhs, CONV_DEPTH)
}

/// What a type comparison keeps: the normalizer stays well formed, its
/// arena ends at the population it started with, and its counter,
/// definitions, and fuel are untouched.
pub open spec fn restores(before: Normalizer, after: Normalizer) -> bool {
    &&& after.wf()
    &&& same_population(after.arena, before.arena)
    &&& after.next_level == before.next_level
    &&& after.defs == before.defs
    &&& after.fuel == before.fuel
}

/// Two effect rows carry the same labels in the same order.
pub open spec fn rows_agree(lhs: EffectRow, rhs: EffectRow) -> bool {
    lhs.labels@.len() == rhs.labels@.len() && forall|i: int|
        0 <= i < lhs.labels@.len() ==> (#[trigger] lhs.labels@[i])@ == rhs.labels@[i]@
}

/// Which former a value type is.
pub open spec fn type_kind(t: ValueType) -> int {
    match t {
        ValueType::Atom(_) => 0,
        ValueType::Unit => 1,
        ValueType::Prod(_, _) => 2,
        ValueType::Sum(_, _) => 3,
        ValueType::List(_) => 4,
        ValueType::Record(_) => 5,
        ValueType::Thunk(_, _) => 6,
        ValueType::Stk(_, _) => 7,
        ValueType::Path { .. } => 8,
        ValueType::Data { .. } => 9,
        ValueType::Universe => 10,
        ValueType::Sigma { .. } => 11,
        ValueType::Sealed(_) => 12,
        ValueType::Unknown => 13,
    }
}

/// Which former a computation type is.
pub open spec fn comp_type_kind(t: CompType) -> int {
    match t {
        CompType::F(_, _) => 0,
        CompType::Arrow(_, _) => 1,
        CompType::With(_, _) => 2,
        CompType::Unknown => 3,
    }
}

/// The verdict value-type conversion reaches at the top of two types,
/// before comparing any component: the unknown type is consistent with
/// every type, different formers are distinct, atoms and sealed types
/// compare by name, and records or data types of different widths are
/// distinct.
pub open spec fn shallow_type_verdict(lhs: ValueType, rhs: ValueType) -> Option<bool> {
    if lhs is Unknown || rhs is Unknown {
        Some(true)
    } else if type_kind(lhs) != type_kind(rhs) {
        Some(false)
    } else {
        match (lhs, rhs) {
            (ValueType::Atom(a), ValueType::Atom(b)) => Some(a@ == b@),
            (ValueType::Unit, ValueType::Unit) => Some(true),
            (ValueType::Universe, ValueType::Universe) => Some(true),
            (ValueType::Record(fs), ValueType::Record(gs)) => if fs@.len() != gs@.len() {
                Some(false)
            } else {
                None
            },
            (ValueType::Data { id: i1, args: a1 }, ValueType::Data { id: i2, args: a2 }) => if i1.serial
                != i2.serial || i1.name@ != i2.name@ || a1@.len() != a2@.len() {
                Some(false)
            } else {
                None
            },
            (ValueType::Sealed(a), ValueType::Sealed(b)) => Some(
                a.serial == b.serial && a.declaration@ == b.declaration@ && a.component@
                    == b.component@,
            ),
            _ => None,
        }
    }
}

/// The verdict computation-type conversion reaches at the top of two
/// types: the unknown type is consistent with every type, different formers
/// are distinct, and returners over different effect rows are distinct.
pub open spec fn shallow_comp_type_verdict(lhs: CompType, rhs: CompType) -> Option<bool> {
    if lhs is Unknown || rhs is Unknown {
        Some(true)
    } else if comp_type_kind(lhs) != comp_type_kind(rhs) {
        Some(false)
    } else {
        match (lhs, rhs) {
            (CompType::F(_, r1), CompType::F(_, r2)) => if !rows_agree(*r1, *r2) {
                Some(false)
            } else {
                None
            },
            _ => None,
        }
    }
}

/// Two verdicts in sequence, the second consulted only when the first
/// answers convertible. An unknown first verdict leaves the outcome unknown,
/// unless the second is distinct, which makes it distinct either way.
pub open spec fn then_verdict(first: Option<bool>, second: Option<bool>) -> Option<bool> {
    match first {
        Some(false) => Some(false),
        Some(true) => second,
        None => if second == Some(false) {
            Some(false)
        } else {
            None
        },
    }
}

/// The last position below `upto` whose field carries `label`.
pub open spec fn last_label(fields: Seq<FieldType>, label: Seq<char>, upto: int) -> Option<int>
    decreases upto,
{
    if upto <= 0 {
        None
    } else if fields[upto - 1].label@ == label {
        Some(upto - 1)
    } else {
        last_label(fields, label, upto - 1)
    }
}

/// The verdict value-type conversion reaches within `depth` nested
/// comparisons: structural, with the unknown type consistent with every
/// type, record types compared field by field against the other side's
/// field of the same label (its last, should the label repeat), and no
/// verdict where it would hinge on comparing the endpoints of identity
/// types, which conversion decides on values.
pub open spec fn type_verdict(lhs: ValueType, rhs: ValueType, depth: nat) -> Option<bool>
    decreases depth, 0nat, 0nat,
{
    if depth == 0 {
        Some(false)
    } else if lhs is Unknown || rhs is Unknown {
        Some(true)
    } else {
        let below = (depth - 1) as nat;
        match (lhs, rhs) {
            (ValueType::Atom(a), ValueType::Atom(b)) => Some(a@ == b@),
            (ValueType::Unit, ValueType::Unit) => Some(true),
            (ValueType::Universe, ValueType::Universe) => Some(true),
            (ValueType::Prod(a1, b1), ValueType::Prod(a2, b2)) => then_verdict(
                type_verdict(*a1, *a2, below),
                type_verdict(*b1, *b2, below),
            ),
            (ValueType::Sum(a1, b1), ValueType::Sum(a2, b2)) => then_verdict(
                type_verdict(*a1, *a2, below),
                type_verdict(*b1, *b2, below),
            ),
            (ValueType::List(a), ValueType::List(b)) => type_verdict(*a, *b, below),
            (ValueType::Record(fs), ValueType::Record(gs)) => if fs@.len() != gs@.len() {
                Some(false)
            } else {
                fields_verdict(fs@, gs@, 0, below)
            },
            (ValueType::Thunk(g1, c1), ValueType::Thunk(g2, c2)) => if g1 != g2 {
                Some(false)
            } else {
                comp_verdict(*c1, *c2, below)
            },
            (ValueType::Stk(a1, b1), ValueType::Stk(a2, b2)) => then_verdict(
                comp_verdict(*a1, *a2, below),
                comp_verdict(*b1, *b2, below),
            ),
            (ValueType::Path { ty: t1, .. }, ValueType::Path { ty: t2, .. }) => if type_verdict(
                *t1,
                *t2,
                below,
            ) == Some(false) {
                Some(false)
            } else {
                None
            },
            (ValueType::Data { id: i1, args: a1 }, ValueType::Data { id: i2, args: a2 }) => if i1.serial
                != i2.serial || i1.name@ != i2.name@ || a1@.len() != a2@.len() {
                Some(false)
            } else {
                args_verdict(a1@, a2@, 0, below)
            },
            (ValueType::Sigma { fst: f1, snd: s1, .. }, ValueType::Sigma { fst: f2, snd: s2, .. }) => then_verdict(
                type_verdict(*f1, *f2, below),
                type_verdict(*s1, *s2, below),
            ),
            (ValueType::Sealed(a), ValueType::Sealed(b)) => Some(
                a.serial == b.serial && a.declaration@ == b.declaration@ && a.component@
                    == b.component@,
            ),
            _ => Some(false),
        }
    }
}

/// [`type_verdict`] over the fields of a record type from position `i` on,
/// each against the other side's last field of its label.
pub open spec fn fields_verdict(fs: Seq<FieldType>, gs: Seq<FieldType>, i: int, depth: nat) -> Option<
    bool,
>
    decreases depth, 1nat, fs.len() - i,
{
    if i < 0 || i >= fs.len() {
        Some(true)
    } else {
        match last_label(gs, fs[i].label@, gs.len() as int) {
            None => Some(false),
            Some(k) => then_verdict(
                type_verdict(*fs[i].ty, *gs[k].ty, depth),
                fields_verdict(fs, gs, i + 1, depth),
            ),
        }
    }
}

/// [`type_verdict`] over the arguments of a data type from position `i`
/// on, pairwise.
pub open spec fn args_verdict(a1: Seq<Rc<ValueType>>, a2: Seq<Rc<ValueType>>, i: int, depth: nat) -> Option<
    bool,
>
    decreases depth, 1nat, a1.len() - i,
{
    if i < 0 || i >= a1.len() {
        Some(true)
    } else {
        then_verdict(type_verdict(*a1[i], *a2[i], depth), args_verdict(a1, a2, i + 1, depth))
    }
}

/// [`type_verdict`] for computation types: returners compare their effect
/// rows, then their payloads.
pub open spec fn comp_verdict(lhs: CompType, rhs: CompType, depth: nat) -> Option<bool>
    decreases depth, 0nat, 0nat,
{
    if depth == 0 {
        Some(false)
    } else if lhs is Unknown || rhs is Unknown {
        Some(true)
    } else {
        let below = (depth - 1) as nat;
        match (lhs, rhs) {
            (CompType::F(a, r1), CompType::F(b, r2)) => if !rows_agree(*r1, *r2) {
                Some(false)
            } else {
                type_verdict(*a, *b, below)
            },
            (CompType::Arrow(a1, b1), CompType::Arrow(a2, b2)) => then_verdict(
                type_verdict(*a1, *a2, below),
                comp_verdict(*b1, *b2, below),
            ),
            (CompType::With(a1, b1), CompType::With(a2, b2)) => then_verdict(
                comp_verdict(*a1, *a2, below),
                comp_verdict(*b1, *b2, below),
            ),
            _ => Some(false),
        }
    }
}

/// Whether two effect rows carry the same labels in the same order.
fn rows_equal(lhs: &EffectRow, rhs: &EffectRow) -> (b: bool)
    ensures
        b ==> lhs.labels@.len() == rhs.labels@.len(),
        b == rows_agree(*lhs, *rhs),
{
    if lhs.labels.len() != rhs.labels.len() {
        return false;
    }
    let mut index: usize = 0;
    while index < lhs.labels.len()
        invariant
            index <= lhs.labels@.len(),
            lhs.labels@.len() == rhs.labels@.len(),
            forall|i: int| 0 <= i < index ==> (#[trigger] lhs.labels@[i])@ == rhs.labels@[i]@,
        decreases lhs.labels@.len() - index,
    {
        if !names_equal(lhs.labels[index].as_str(), rhs.labels[index].as_str()) {
            return false;
        }
        index = index + 1;
    }
    true
}

/// Whether two computation types are convertible.
fn comp_type_converts(nbe: &mut Normalizer, lhs: &CompType, rhs: &CompType, depth: u32) -> (b: bool)
    requires
        old(nbe).wf(),
    ensures
        restores(*old(nbe), *final(nbe)),
        depth == 0 ==> !b,
        depth > 0 ==> (shallow_comp_type_verdict(*lhs, *rhs) matches Some(v) ==> b == v),
        comp_verdict(*lhs, *rhs, depth as nat) matches Some(v) ==> b == v,
    decreases depth, 0nat,
{
    if depth == 0 {
        return false;
    }
    let below = depth - 1;
    match (lhs, rhs) {
        (CompType::Unknown, _) | (_, CompType::Unknown) => true,
        (CompType::F(a, r1), CompType::F(b, r2)) => rows_equal(r1, r2) && type_converts_at(
            nbe,
            a,
            b,
            below,
        ),
        (CompType::Arrow(a1, b1), CompType::Arrow(a2, b2)) => {
            if !type_converts_at(nbe, a1, a2, below) {
                return false;
            }
            comp_type_converts(nbe, b1, b2, below)
        },
        (CompType::With(a1, b1), CompType::With(a2, b2)) => {
            if !comp_type_converts(nbe, a1, a2, below) {
                return false;
            }
            comp_type_converts(nbe, b1, b2, below)
        },
        _ => false,
    }
}

/// Whether two value types are convertible: structurally, with the unknown
/// type consistent with every type, record types compared by their label
/// sets with no width rule, and identity endpoints compared by conversion.
#[verifier::loop_isolation(false)]
fn type_converts_at(nbe: &mut Normalizer, lhs: &ValueType, rhs: &ValueType, depth: u32) -> (b: bool)
    requires
        old(nbe).wf(),
    ensures
        restores(*old(nbe), *final(nbe)),
        (lhs is Unknown || rhs is Unknown) && depth > 0 ==> b,
        depth == 0 ==> !b,
        depth > 0 ==> (shallow_type_verdict(*lhs, *rhs) matches Some(v) ==> b == v),
        type_verdict(*lhs, *rhs, depth as nat) matches Some(v) ==> b == v,
    decreases depth, 0nat,
{
    if depth == 0 {
        return false;
    }
    let below = depth - 1;
    match (lhs, rhs) {
        (ValueType::Unknown, _) | (_, ValueType::Unknown) => true,
        (ValueType::Atom(a), ValueType::Atom(b)) => names_equal(a.as_str(), b.as_str()),
        (ValueType::Unit, ValueType::Unit) => true,
        (ValueType::Universe, ValueType::Universe) => true,
        (ValueType::Prod(a1, b1), ValueType::Prod(a2, b2)) | (
            ValueType::Sum(a1, b1),
            ValueType::Sum(a2, b2),
        ) => {
            if !type_converts_at(nbe, a1, a2, below) {
                return false;
            }
            type_converts_at(nbe, b1, b2, below)
        },
        (ValueType::List(a), ValueType::List(b)) => type_converts_at(nbe, a, b, below),
        (ValueType::Record(fs), ValueType::Record(gs)) => {
            if fs.len() != gs.len() {
                return false;
            }
            let mut index: usize = 0;
            while index < fs.len()
                invariant
                    index <= fs@.len(),
                    below < depth,
                    !(lhs is Unknown || rhs is Unknown),
                    restores(*old(nbe), *nbe),
                    fields_verdict(fs@, gs@, 0, below as nat) is Some ==> fields_verdict(
                        fs@,
                        gs@,
                        index as int,
                        below as nat,
                    ) == fields_verdict(fs@, gs@, 0, below as nat),
                decreases fs@.len() - index,
            {
                let mut found: Option<usize> = None;
                let mut probe: usize = 0;
                while probe < gs.len()
                    invariant
                        probe <= gs@.len(),
                        index < fs@.len(),
                        found matches Some(k) ==> k < gs@.len(),
                        match found {
                            Some(k) => last_label(gs@, fs@[index as int].label@, probe as int) == Some(
                                k as int,
                            ),
                            None => last_label(gs@, fs@[index as int].label@, probe as int) is None,
                        },
                    decreases gs@.len() - probe,
                {
                    if names_equal(gs[probe].label.as_str(), fs[index].label.as_str()) {
                        found = Some(probe);
                    }
                    probe = probe + 1;
                }
                match found {
                    Some(k) => {
                        if !type_converts_at(nbe, &fs[index].ty, &gs[k].ty, below) {
                            return false;
                        }
                    },
                    None => {
                        return false;
                    },
                }
                index = index + 1;
            }
            true
        },
        (ValueType::Thunk(g1, c1), ValueType::Thunk(g2, c2)) => *g1 == *g2 && comp_type_converts(
            nbe,
            c1,
            c2,
            below,
        ),
        (ValueType::Stk(a1, b1), ValueType::Stk(a2, b2)) => {
            if !comp_type_converts(nbe, a1, a2, below) {
                return false;
            }
            comp_type_converts(nbe, b1, b2, below)
        },
        (ValueType::Path { ty: t1, lhs: l1, rhs: r1 }, ValueType::Path { ty: t2, lhs: l2, rhs: r2 }) => {
            if !type_converts_at(nbe, t1, t2, below) {
                return false;
            }
            if !nbe.converts(l1, l2) {
                return false;
            }
            nbe.converts(r1, r2)
        },
        (ValueType::Data { id: i1, args: a1 }, ValueType::Data { id: i2, args: a2 }) => {
            if i1.serial != i2.serial || !names_equal(i1.name.as_str(), i2.name.as_str()) || a1.len()
                != a2.len() {
                return false;
            }
            let mut index: usize = 0;
            while index < a1.len()
                invariant
                    index <= a1@.len(),
                    a1@.len() == a2@.len(),
                    below < depth,
                    !(lhs is Unknown || rhs is Unknown),
                    restores(*old(nbe), *nbe),
                    args_verdict(a1@, a2@, 0, below as nat) is Some ==> args_verdict(
                        a1@,
                        a2@,
                        index as int,
                        below as nat,
                    ) == args_verdict(a1@, a2@, 0, below as nat),
                decreases a1@.len() - index,
            {
                if !type_converts_at(nbe, &a1[index], &a2[index], below) {
                    return false;
                }
                index = index + 1;
            }
            true
        },
        (ValueType::Sigma { fst: f1, snd: s1, .. }, ValueType::Sigma { fst: f2, snd: s2, .. }) => {
            if !type_converts_at(nbe, f1, f2, below) {
                return false;
            }
            type_converts_at(nbe, s1, s2, below)
        },
        (ValueType::Sealed(a), ValueType::Sealed(b)) => a.serial == b.serial && names_equal(
            a.declaration.as_str(),
            b.declaration.as_str(),
        ) && names_equal(a.component.as_str(), b.component.as_str()),
        _ => false,
    }
}

/// Whether two value types are convertible; the unknown type is consistent
/// with every type, in both directions.
pub fn type_converts(nbe: &mut Normalizer, lhs: &ValueType, rhs: &ValueType) -> (b: bool)
    requires
        old(nbe).wf(),
    ensures
        restores(*old(nbe), *final(nbe)),
        lhs is Unknown || rhs is Unknown ==> b,
        shallow_type_verdict(*lhs, *rhs) matches Some(v) ==> b == v,
        type_verdict(*lhs, *rhs, CONV_DEPTH as nat) matches Some(v) ==> b == v,
{
    type_converts_at(nbe, lhs, rhs, CONV_DEPTH)
}

} // verus!
