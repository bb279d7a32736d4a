//! Structural equality of terms and types: two terms are the same when they
//! have the same constructors, the same names, literals, grades and
//! ascriptions, and the same parts, all the way down. Binder names count:
//! this is equality of syntax, not alpha-equivalence. Comparison looks at
//! most as deep as the nesting budget; a pair of terms nested deeper than it
//! is treated as different.

use std::rc::Rc;
use vstd::prelude::*;

use crate::syntax::names_equal;
use crate::syntax::Branch;
use crate::syntax::Comp;
use crate::syntax::FieldValue;
use crate::syntax::OpClause;
use crate::syntax::SplitMotive;
use crate::syntax::Stack;
use crate::syntax::Value;
use crate::syntax::WalkMotive;
use crate::types::CompType;
use crate::types::DataId;
use crate::types::EffectOp;
use crate::types::EffectRow;
use crate::types::EffectSig;
use crate::types::FieldType;
use crate::types::SealId;
use crate::types::ValueType;

verus! {

/// Two datatype identities are the same.
pub open spec fn same_data(a: DataId, b: DataId) -> bool {
    a.serial == b.serial && a.name@ == b.name@
}

/// Two sealed identities are the same.
pub open spec fn same_seal(a: SealId, b: SealId) -> bool {
    a.serial == b.serial && a.declaration@ == b.declaration@ && a.component@ == b.component@
}

/// Two effect rows list the same labels in the same order.
pub open spec fn same_row(a: EffectRow, b: EffectRow) -> bool {
    a.labels@.len() == b.labels@.len() && forall|i: int|
        0 <= i < a.labels@.len() ==> #[trigger] a.labels@[i]@ == b.labels@[i]@
}

/// Two values are the same, looking at most `depth` levels down.
pub open spec fn same_value(a: Value, b: Value, depth: nat) -> bool
    decreases depth, 2nat, 0nat,
{
    if depth == 0 {
        false
    } else {
        let below = (depth - 1) as nat;
        match (a, b) {
            (Value::Var(x), Value::Var(y)) => x@ == y@,
            (Value::Unit, Value::Unit) => true,
            (Value::Int(x), Value::Int(y)) => x == y,
            (Value::Str(x), Value::Str(y)) => x@ == y@,
            (Value::Num(x), Value::Num(y)) => x == y,
            (Value::Pair(a1, a2), Value::Pair(b1, b2)) => same_value(*a1, *b1, below) && same_value(
                *a2,
                *b2,
                below,
            ),
            (Value::Inj(s, x), Value::Inj(t, y)) => s == t && same_value(*x, *y, below),
            (Value::List(xs), Value::List(ys)) => same_values(xs@, ys@, below),
            (Value::Record(fs), Value::Record(gs)) => same_fields(fs@, gs@, below),
            (Value::Thunk(g, c), Value::Thunk(h, d)) => g == h && same_comp(*c, *d, below),
            (Value::Annot(x, t), Value::Annot(y, u)) => same_value(*x, *y, below) && same_value_type(
                *t,
                *u,
                below,
            ),
            (Value::Hole(x), Value::Hole(y)) => x == y,
            (Value::Stk(s), Value::Stk(t)) => same_stack(*s, *t, below),
            (Value::Here(x), Value::Here(y)) => same_value(*x, *y, below),
            (
                Value::Ctor { id: i1, tag: t1, payload: p1 },
                Value::Ctor { id: i2, tag: t2, payload: p2 },
            ) => same_data(i1, i2) && t1 == t2 && same_value(*p1, *p2, below),
            _ => false,
        }
    }
}

/// Two runs of values are pairwise the same.
pub open spec fn same_values(xs: Seq<Rc<Value>>, ys: Seq<Rc<Value>>, depth: nat) -> bool
    decreases depth, 3nat, xs.len(),
{
    xs.len() == ys.len() && (xs.len() == 0 || (same_values(xs.drop_last(), ys.drop_last(), depth)
        && same_value(*xs.last(), *ys.last(), depth)))
}

/// Two runs of record fields are pairwise the same.
pub open spec fn same_fields(xs: Seq<FieldValue>, ys: Seq<FieldValue>, depth: nat) -> bool
    decreases depth, 3nat, xs.len(),
{
    xs.len() == ys.len() && (xs.len() == 0 || (same_fields(xs.drop_last(), ys.drop_last(), depth)
        && xs.last().label@ == ys.last().label@ && same_value(
        *xs.last().value,
        *ys.last().value,
        depth,
    )))
}

/// Two branches bind the same name over the same body.
pub open spec fn same_branch(a: Branch, b: Branch, depth: nat) -> bool
    decreases depth, 3nat, 0nat,
{
    a.binder@ == b.binder@ && same_comp(*a.body, *b.body, depth)
}

/// Two runs of branches are pairwise the same.
pub open spec fn same_branches(xs: Seq<Branch>, ys: Seq<Branch>, depth: nat) -> bool
    decreases depth, 3nat, xs.len() + 1,
{
    xs.len() == ys.len() && (xs.len() == 0 || (same_branches(xs.drop_last(), ys.drop_last(), depth)
        && same_branch(xs.last(), ys.last(), depth)))
}

/// Two runs of operation clauses are pairwise the same.
pub open spec fn same_clauses(xs: Seq<OpClause>, ys: Seq<OpClause>, depth: nat) -> bool
    decreases depth, 3nat, xs.len(),
{
    xs.len() == ys.len() && (xs.len() == 0 || (same_clauses(xs.drop_last(), ys.drop_last(), depth)
        && xs.last().op@ == ys.last().op@ && xs.last().payload@ == ys.last().payload@
        && xs.last().resume@ == ys.last().resume@ && same_comp(
        *xs.last().body,
        *ys.last().body,
        depth,
    )))
}

/// Two runs of effect operations are pairwise the same.
pub open spec fn same_sig_ops(xs: Seq<EffectOp>, ys: Seq<EffectOp>, depth: nat) -> bool
    decreases depth, 3nat, xs.len(),
{
    xs.len() == ys.len() && (xs.len() == 0 || (same_sig_ops(xs.drop_last(), ys.drop_last(), depth)
        && xs.last().name@ == ys.last().name@ && same_value_type(
        *xs.last().param,
        *ys.last().param,
        depth,
    ) && same_value_type(*xs.last().result, *ys.last().result, depth)))
}

/// Two effect signatures are the same.
pub open spec fn same_sig(a: EffectSig, b: EffectSig, depth: nat) -> bool
    decreases depth, 4nat, 0nat,
{
    a.name@ == b.name@ && same_sig_ops(a.ops@, b.ops@, depth)
}

/// Two optional argument ascriptions are the same.
pub open spec fn same_ascription(a: Option<Rc<ValueType>>, b: Option<Rc<ValueType>>, depth: nat) -> bool
    decreases depth, 3nat, 0nat,
{
    match (a, b) {
        (None, None) => true,
        (Some(x), Some(y)) => same_value_type(*x, *y, depth),
        _ => false,
    }
}

/// Two optional split motives are the same.
pub open spec fn same_split_motive(a: Option<Rc<SplitMotive>>, b: Option<Rc<SplitMotive>>, depth: nat) -> bool
    decreases depth, 3nat, 0nat,
{
    match (a, b) {
        (None, None) => true,
        (Some(x), Some(y)) => x.binder@ == y.binder@ && same_comp_type(*x.ty, *y.ty, depth),
        _ => false,
    }
}

/// Two identity-elimination motives are the same.
pub open spec fn same_walk_motive(a: WalkMotive, b: WalkMotive, depth: nat) -> bool
    decreases depth, 3nat, 0nat,
{
    a.x@ == b.x@ && a.y@ == b.y@ && a.q@ == b.q@ && same_comp_type(*a.ty, *b.ty, depth)
}

/// Two computations are the same, looking at most `depth` levels down.
pub open spec fn same_comp(a: Comp, b: Comp, depth: nat) -> bool
    decreases depth, 2nat, 0nat,
{
    if depth == 0 {
        false
    } else {
        let below = (depth - 1) as nat;
        match (a, b) {
            (Comp::Abs(n, t, c), Comp::Abs(m, u, d)) => n@ == m@ && same_ascription(t, u, below)
                && same_comp(*c, *d, below),
            (Comp::App(f, x), Comp::App(g, y)) => same_comp(*f, *g, below) && same_value(*x, *y, below),
            (Comp::Ret(x), Comp::Ret(y)) => same_value(*x, *y, below),
            (Comp::Bind(c, n, k), Comp::Bind(d, m, l)) => same_comp(*c, *d, below) && n@ == m@
                && same_comp(*k, *l, below),
            (Comp::Force(x), Comp::Force(y)) => same_value(*x, *y, below),
            (Comp::Case(x, l1, r1), Comp::Case(y, l2, r2)) => same_value(*x, *y, below) && same_branch(
                l1,
                l2,
                below,
            ) && same_branch(r1, r2, below),
            (Comp::DataCase(x, xs), Comp::DataCase(y, ys)) => same_value(*x, *y, below)
                && same_branches(xs@, ys@, below),
            (
                Comp::ListCase { scrut: s1, nil: n1, head: h1, tail: t1, cons: c1 },
                Comp::ListCase { scrut: s2, nil: n2, head: h2, tail: t2, cons: c2 },
            ) => same_value(*s1, *s2, below) && same_comp(*n1, *n2, below) && h1@ == h2@ && t1@
                == t2@ && same_comp(*c1, *c2, below),
            (
                Comp::Split { scrut: s1, fst_name: f1, snd_name: g1, motive: m1, body: b1 },
                Comp::Split { scrut: s2, fst_name: f2, snd_name: g2, motive: m2, body: b2 },
            ) => same_value(*s1, *s2, below) && f1@ == f2@ && g1@ == g2@ && same_split_motive(
                m1,
                m2,
                below,
            ) && same_comp(*b1, *b2, below),
            (
                Comp::RecordProj { record: r1, label: l1 },
                Comp::RecordProj { record: r2, label: l2 },
            ) => same_value(*r1, *r2, below) && l1@ == l2@,
            (Comp::With(a1, a2), Comp::With(b1, b2)) => same_comp(*a1, *b1, below) && same_comp(
                *a2,
                *b2,
                below,
            ),
            (Comp::Prj(s, x), Comp::Prj(t, y)) => s == t && same_comp(*x, *y, below),
            (Comp::Dup(x), Comp::Dup(y)) => same_value(*x, *y, below),
            (Comp::Drop(x), Comp::Drop(y)) => same_value(*x, *y, below),
            (Comp::Perform(s, o, x), Comp::Perform(t, p, y)) => same_sig(*s, *t, below) && o@ == p@
                && same_value(*x, *y, below),
            (
                Comp::Handle { sig: s1, scrutinee: c1, ret: r1, ops: o1 },
                Comp::Handle { sig: s2, scrutinee: c2, ret: r2, ops: o2 },
            ) => same_sig(*s1, *s2, below) && same_comp(*c1, *c2, below) && same_branch(r1, r2, below)
                && same_clauses(o1@, o2@, below),
            (Comp::Resume(x, c), Comp::Resume(y, d)) => same_value(*x, *y, below) && same_comp(
                *c,
                *d,
                below,
            ),
            (Comp::Reset(c), Comp::Reset(d)) => same_comp(*c, *d, below),
            (Comp::Shift(n, c), Comp::Shift(m, d)) => n@ == m@ && same_comp(*c, *d, below),
            (Comp::Hole(x), Comp::Hole(y)) => x == y,
            (Comp::Native { prim: p, args: xs }, Comp::Native { prim: q, args: ys }) => p == q
                && same_values(xs@, ys@, below),
            (
                Comp::Walk { scrut: s1, motive: m1, base: b1 },
                Comp::Walk { scrut: s2, motive: m2, base: b2 },
            ) => same_value(*s1, *s2, below) && same_walk_motive(*m1, *m2, below) && b1.x@ == b2.x@
                && same_comp(*b1.body, *b2.body, below),
            _ => false,
        }
    }
}

/// Two stacks are the same, looking at most `depth` levels down.
pub open spec fn same_stack(a: Stack, b: Stack, depth: nat) -> bool
    decreases depth, 2nat, 0nat,
{
    if depth == 0 {
        false
    } else {
        let below = (depth - 1) as nat;
        match (a, b) {
            (Stack::Empty, Stack::Empty) => true,
            (Stack::Arg(x, r), Stack::Arg(y, s)) => same_value(*x, *y, below) && same_stack(
                *r,
                *s,
                below,
            ),
            (Stack::Bind(n, c, r), Stack::Bind(m, d, s)) => n@ == m@ && same_comp(*c, *d, below)
                && same_stack(*r, *s, below),
            (Stack::Prj(x, r), Stack::Prj(y, s)) => x == y && same_stack(*r, *s, below),
            _ => false,
        }
    }
}

/// Two runs of labelled field types are pairwise the same.
pub open spec fn same_field_types(xs: Seq<FieldType>, ys: Seq<FieldType>, depth: nat) -> bool
    decreases depth, 3nat, xs.len(),
{
    xs.len() == ys.len() && (xs.len() == 0 || (same_field_types(xs.drop_last(), ys.drop_last(), depth)
        && xs.last().label@ == ys.last().label@ && same_value_type(
        *xs.last().ty,
        *ys.last().ty,
        depth,
    )))
}

/// Two runs of value types are pairwise the same.
pub open spec fn same_value_types(xs: Seq<Rc<ValueType>>, ys: Seq<Rc<ValueType>>, depth: nat) -> bool
    decreases depth, 3nat, xs.len(),
{
    xs.len() == ys.len() && (xs.len() == 0 || (same_value_types(xs.drop_last(), ys.drop_last(), depth)
        && same_value_type(*xs.last(), *ys.last(), depth)))
}

/// Two value types are the same, looking at most `depth` levels down.
pub open spec fn same_value_type(a: ValueType, b: ValueType, depth: nat) -> bool
    decreases depth, 2nat, 0nat,
{
    if depth == 0 {
        false
    } else {
        let below = (depth - 1) as nat;
        match (a, b) {
            (ValueType::Atom(x), ValueType::Atom(y)) => x@ == y@,
            (ValueType::Unit, ValueType::Unit) => true,
            (ValueType::Prod(a1, a2), ValueType::Prod(b1, b2)) => same_value_type(*a1, *b1, below)
                && same_value_type(*a2, *b2, below),
            (ValueType::Sum(a1, a2), ValueType::Sum(b1, b2)) => same_value_type(*a1, *b1, below)
                && same_value_type(*a2, *b2, below),
            (ValueType::List(x), ValueType::List(y)) => same_value_type(*x, *y, below),
            (ValueType::Record(xs), ValueType::Record(ys)) => same_field_types(xs@, ys@, below),
            (ValueType::Thunk(g, c), ValueType::Thunk(h, d)) => g == h && same_comp_type(*c, *d, below),
            (ValueType::Stk(a1, a2), ValueType::Stk(b1, b2)) => same_comp_type(*a1, *b1, below)
                && same_comp_type(*a2, *b2, below),
            (
                ValueType::Path { ty: t1, lhs: l1, rhs: r1 },
                ValueType::Path { ty: t2, lhs: l2, rhs: r2 },
            ) => same_value_type(*t1, *t2, below) && same_value(*l1, *l2, below) && same_value(
                *r1,
                *r2,
                below,
            ),
            (ValueType::Data { id: i1, args: a1 }, ValueType::Data { id: i2, args: a2 }) => same_data(
                i1,
                i2,
            ) && same_value_types(a1@, a2@, below),
            (ValueType::Universe, ValueType::Universe) => true,
            (
                ValueType::Sigma { fst: f1, binder: n1, snd: s1 },
                ValueType::Sigma { fst: f2, binder: n2, snd: s2 },
            ) => same_value_type(*f1, *f2, below) && n1@ == n2@ && same_value_type(*s1, *s2, below),
            (ValueType::Sealed(x), ValueType::Sealed(y)) => same_seal(x, y),
            (ValueType::Unknown, ValueType::Unknown) => true,
            _ => false,
        }
    }
}

/// Two computation types are the same, looking at most `depth` levels down.
pub open spec fn same_comp_type(a: CompType, b: CompType, depth: nat) -> bool
    decreases depth, 2nat, 0nat,
{
    if depth == 0 {
        false
    } else {
        let below = (depth - 1) as nat;
        match (a, b) {
            (CompType::F(x, r), CompType::F(y, s)) => same_value_type(*x, *y, below) && same_row(*r, *s),
            (CompType::Arrow(x, c), CompType::Arrow(y, d)) => same_value_type(*x, *y, below)
                && same_comp_type(*c, *d, below),
            (CompType::With(a1, a2), CompType::With(b1, b2)) => same_comp_type(*a1, *b1, below)
                && same_comp_type(*a2, *b2, below),
            (CompType::Unknown, CompType::Unknown) => true,
            _ => false,
        }
    }
}

/// Runs that are pairwise the same are the same at every position.
pub proof fn lemma_same_values_element(xs: Seq<Rc<Value>>, ys: Seq<Rc<Value>>, depth: nat, k: int)
    requires
        same_values(xs, ys, depth),
        0 <= k < xs.len(),
    ensures
        same_value(*xs[k], *ys[k], depth),
    decreases xs.len(),
{
    if k < xs.len() - 1 {
        lemma_same_values_element(xs.drop_last(), ys.drop_last(), depth, k);
    }
}

/// Runs that are pairwise the same are the same at every position.
pub proof fn lemma_same_fields_element(xs: Seq<FieldValue>, ys: Seq<FieldValue>, depth: nat, k: int)
    requires
        same_fields(xs, ys, depth),
        0 <= k < xs.len(),
    ensures
        xs[k].label@ == ys[k].label@ && same_value(*xs[k].value, *ys[k].value, depth),
    decreases xs.len(),
{
    if k < xs.len() - 1 {
        lemma_same_fields_element(xs.drop_last(), ys.drop_last(), depth, k);
    }
}

/// Runs that are pairwise the same are the same at every position.
pub proof fn lemma_same_branches_element(xs: Seq<Branch>, ys: Seq<Branch>, depth: nat, k: int)
    requires
        same_branches(xs, ys, depth),
        0 <= k < xs.len(),
    ensures
        same_branch(xs[k], ys[k], depth),
    decreases xs.len(),
{
    if k < xs.len() - 1 {
        lemma_same_branches_element(xs.drop_last(), ys.drop_last(), depth, k);
    }
}

/// Runs that are pairwise the same are the same at every position.
pub proof fn lemma_same_clauses_element(xs: Seq<OpClause>, ys: Seq<OpClause>, depth: nat, k: int)
    requires
        same_clauses(xs, ys, depth),
        0 <= k < xs.len(),
    ensures
        xs[k].op@ == ys[k].op@ && xs[k].payload@ == ys[k].payload@ && xs[k].resume@ == ys[k].resume@ && same_comp(*xs[k].body, *ys[k].body, depth),
    decreases xs.len(),
{
    if k < xs.len() - 1 {
        lemma_same_clauses_element(xs.drop_last(), ys.drop_last(), depth, k);
    }
}

/// Runs that are pairwise the same are the same at every position.
pub proof fn lemma_same_sig_ops_element(xs: Seq<EffectOp>, ys: Seq<EffectOp>, depth: nat, k: int)
    requires
        same_sig_ops(xs, ys, depth),
        0 <= k < xs.len(),
    ensures
        xs[k].name@ == ys[k].name@ && same_value_type(*xs[k].param, *ys[k].param, depth) && same_value_type(*xs[k].result, *ys[k].result, depth),
    decreases xs.len(),
{
    if k < xs.len() - 1 {
        lemma_same_sig_ops_element(xs.drop_last(), ys.drop_last(), depth, k);
    }
}

/// Runs that are pairwise the same are the same at every position.
pub proof fn lemma_same_field_types_element(xs: Seq<FieldType>, ys: Seq<FieldType>, depth: nat, k: int)
    requires
        same_field_types(xs, ys, depth),
        0 <= k < xs.len(),
    ensures
        xs[k].label@ == ys[k].label@ && same_value_type(*xs[k].ty, *ys[k].ty, depth),
    decreases xs.len(),
{
    if k < xs.len() - 1 {
        lemma_same_field_types_element(xs.drop_last(), ys.drop_last(), depth, k);
    }
}

/// Runs that are pairwise the same are the same at every position.
pub proof fn lemma_same_value_types_element(xs: Seq<Rc<ValueType>>, ys: Seq<Rc<ValueType>>, depth: nat, k: int)
    requires
        same_value_types(xs, ys, depth),
        0 <= k < xs.len(),
    ensures
        same_value_type(*xs[k], *ys[k], depth),
    decreases xs.len(),
{
    if k < xs.len() - 1 {
        lemma_same_value_types_element(xs.drop_last(), ys.drop_last(), depth, k);
    }
}

/// Whether two datatype identities are the same.
pub fn data_eq(a: &DataId, b: &DataId) -> (r: bool)
    ensures
        r == same_data(*a, *b),
{
    a.serial == b.serial && names_equal(a.name.as_str(), b.name.as_str())
}

/// Whether two sealed identities are the same.
pub fn seal_eq(a: &SealId, b: &SealId) -> (r: bool)
    ensures
        r == same_seal(*a, *b),
{
    a.serial == b.serial && names_equal(a.declaration.as_str(), b.declaration.as_str())
        && names_equal(a.component.as_str(), b.component.as_str())
}

/// Whether two effect rows list the same labels in the same order.
pub fn row_eq(a: &EffectRow, b: &EffectRow) -> (r: bool)
    ensures
        r == same_row(*a, *b),
{
    if a.labels.len() != b.labels.len() {
        return false;
    }
    let mut i: usize = 0;
    while i < a.labels.len()
        invariant
            i <= a.labels@.len(),
            a.labels@.len() == b.labels@.len(),
            forall|j: int| 0 <= j < i ==> #[trigger] a.labels@[j]@ == b.labels@[j]@,
        decreases a.labels@.len() - i,
    {
        if !names_equal(a.labels[i].as_str(), b.labels[i].as_str()) {
            return false;
        }
        i = i + 1;
    }
    true
}

/// Whether two values are the same, looking at most `depth` levels down.
#[verifier::rlimit(30)]
pub fn value_eq(a: &Value, b: &Value, depth: u32) -> (r: bool)
    ensures
        r == same_value(*a, *b, depth as nat),
    decreases depth, 0nat,
{
    if depth == 0 {
        return false;
    }
    let below = depth - 1;
    match (a, b) {
        (Value::Var(x), Value::Var(y)) => names_equal(x.as_str(), y.as_str()),
        (Value::Unit, Value::Unit) => true,
        (Value::Int(x), Value::Int(y)) => *x == *y,
        (Value::Str(x), Value::Str(y)) => names_equal(x.as_str(), y.as_str()),
        (Value::Num(x), Value::Num(y)) => *x == *y,
        (Value::Pair(a1, a2), Value::Pair(b1, b2)) => value_eq(a1, b1, below) && value_eq(a2, b2, below),
        (Value::Inj(s, x), Value::Inj(t, y)) => *s == *t && value_eq(x, y, below),
        (Value::List(xs), Value::List(ys)) => values_eq(xs, ys, below),
        (Value::Record(fs), Value::Record(gs)) => fields_eq(fs, gs, below),
        (Value::Thunk(g, c), Value::Thunk(h, d)) => *g == *h && comp_eq(c, d, below),
        (Value::Annot(x, t), Value::Annot(y, u)) => value_eq(x, y, below) && value_type_eq(t, u, below),
        (Value::Hole(x), Value::Hole(y)) => *x == *y,
        (Value::Stk(s), Value::Stk(t)) => stack_eq(s, t, below),
        (Value::Here(x), Value::Here(y)) => value_eq(x, y, below),
        (
            Value::Ctor { id: i1, tag: t1, payload: p1 },
            Value::Ctor { id: i2, tag: t2, payload: p2 },
        ) => data_eq(i1, i2) && *t1 == *t2 && value_eq(p1, p2, below),
        _ => false,
    }
}

/// Whether two runs of values are pairwise the same.
pub fn values_eq(xs: &Vec<Rc<Value>>, ys: &Vec<Rc<Value>>, depth: u32) -> (r: bool)
    ensures
        r == same_values(xs@, ys@, depth as nat),
    decreases depth, 1nat,
{
    if xs.len() != ys.len() {
        return false;
    }
    let mut i: usize = 0;
    proof {
        assert(xs@.subrange(0, 0).len() == 0 && ys@.subrange(0, 0).len() == 0);
    }
    while i < xs.len()
        invariant
            i <= xs@.len(),
            xs@.len() == ys@.len(),
            same_values(xs@.subrange(0, i as int), ys@.subrange(0, i as int), depth as nat),
        decreases xs@.len() - i,
    {
        if !value_eq(&xs[i], &ys[i], depth) {
            proof {
                if same_values(xs@, ys@, depth as nat) {
                    lemma_same_values_element(xs@, ys@, depth as nat, i as int);
                }
            }
            return false;
        }
        proof {
            assert(xs@.subrange(0, i + 1).drop_last() =~= xs@.subrange(0, i as int));
            assert(ys@.subrange(0, i + 1).drop_last() =~= ys@.subrange(0, i as int));
        }
        i = i + 1;
    }
    proof {
        assert(xs@.subrange(0, xs@.len() as int) =~= xs@);
        assert(ys@.subrange(0, ys@.len() as int) =~= ys@);
    }
    true
}

/// Whether two runs of record fields are pairwise the same.
pub fn fields_eq(xs: &Vec<FieldValue>, ys: &Vec<FieldValue>, depth: u32) -> (r: bool)
    ensures
        r == same_fields(xs@, ys@, depth as nat),
    decreases depth, 1nat,
{
    if xs.len() != ys.len() {
        return false;
    }
    let mut i: usize = 0;
    proof {
        assert(xs@.subrange(0, 0).len() == 0 && ys@.subrange(0, 0).len() == 0);
    }
    while i < xs.len()
        invariant
            i <= xs@.len(),
            xs@.len() == ys@.len(),
            same_fields(xs@.subrange(0, i as int), ys@.subrange(0, i as int), depth as nat),
        decreases xs@.len() - i,
    {
        if !(names_equal(xs[i].label.as_str(), ys[i].label.as_str()) && value_eq(
            &xs[i].value,
            &ys[i].value,
            depth,
        )) {
            proof {
                if same_fields(xs@, ys@, depth as nat) {
                    lemma_same_fields_element(xs@, ys@, depth as nat, i as int);
                }
            }
            return false;
        }
        proof {
            assert(xs@.subrange(0, i + 1).drop_last() =~= xs@.subrange(0, i as int));
            assert(ys@.subrange(0, i + 1).drop_last() =~= ys@.subrange(0, i as int));
        }
        i = i + 1;
    }
    proof {
        assert(xs@.subrange(0, xs@.len() as int) =~= xs@);
        assert(ys@.subrange(0, ys@.len() as int) =~= ys@);
    }
    true
}

/// Whether two branches bind the same name over the same body.
pub fn branch_eq(a: &Branch, b: &Branch, depth: u32) -> (r: bool)
    ensures
        r == same_branch(*a, *b, depth as nat),
    decreases depth, 1nat,
{
    names_equal(a.binder.as_str(), b.binder.as_str()) && comp_eq(&a.body, &b.body, depth)
}

/// Whether two runs of branches are pairwise the same.
pub fn branches_eq(xs: &Vec<Branch>, ys: &Vec<Branch>, depth: u32) -> (r: bool)
    ensures
        r == same_branches(xs@, ys@, depth as nat),
    decreases depth, 2nat,
{
    if xs.len() != ys.len() {
        return false;
    }
    let mut i: usize = 0;
    proof {
        assert(xs@.subrange(0, 0).len() == 0 && ys@.subrange(0, 0).len() == 0);
    }
    while i < xs.len()
        invariant
            i <= xs@.len(),
            xs@.len() == ys@.len(),
            same_branches(xs@.subrange(0, i as int), ys@.subrange(0, i as int), depth as nat),
        decreases xs@.len() - i,
    {
        if !branch_eq(&xs[i], &ys[i], depth) {
            proof {
                if same_branches(xs@, ys@, depth as nat) {
                    lemma_same_branches_element(xs@, ys@, depth as nat, i as int);
                }
            }
            return false;
        }
        proof {
            assert(xs@.subrange(0, i + 1).drop_last() =~= xs@.subrange(0, i as int));
            assert(ys@.subrange(0, i + 1).drop_last() =~= ys@.subrange(0, i as int));
        }
        i = i + 1;
    }
    proof {
        assert(xs@.subrange(0, xs@.len() as int) =~= xs@);
        assert(ys@.subrange(0, ys@.len() as int) =~= ys@);
    }
    true
}

/// Whether two runs of operation clauses are pairwise the same.
pub fn clauses_eq(xs: &Vec<OpClause>, ys: &Vec<OpClause>, depth: u32) -> (r: bool)
    ensures
        r == same_clauses(xs@, ys@, depth as nat),
    decreases depth, 1nat,
{
    if xs.len() != ys.len() {
        return false;
    }
    let mut i: usize = 0;
    proof {
        assert(xs@.subrange(0, 0).len() == 0 && ys@.subrange(0, 0).len() == 0);
    }
    while i < xs.len()
        invariant
            i <= xs@.len(),
            xs@.len() == ys@.len(),
            same_clauses(xs@.subrange(0, i as int), ys@.subrange(0, i as int), depth as nat),
        decreases xs@.len() - i,
    {
        let x = &xs[i];
        let y = &ys[i];
        if !(names_equal(x.op.as_str(), y.op.as_str()) && names_equal(
            x.payload.as_str(),
            y.payload.as_str(),
        ) && names_equal(x.resume.as_str(), y.resume.as_str()) && comp_eq(&x.body, &y.body, depth)) {
            proof {
                if same_clauses(xs@, ys@, depth as nat) {
                    lemma_same_clauses_element(xs@, ys@, depth as nat, i as int);
                }
            }
            return false;
        }
        proof {
            assert(xs@.subrange(0, i + 1).drop_last() =~= xs@.subrange(0, i as int));
            assert(ys@.subrange(0, i + 1).drop_last() =~= ys@.subrange(0, i as int));
        }
        i = i + 1;
    }
    proof {
        assert(xs@.subrange(0, xs@.len() as int) =~= xs@);
        assert(ys@.subrange(0, ys@.len() as int) =~= ys@);
    }
    true
}

/// Whether two effect signatures are the same.
pub fn sig_eq(a: &EffectSig, b: &EffectSig, depth: u32) -> (r: bool)
    ensures
        r == same_sig(*a, *b, depth as nat),
    decreases depth, 1nat,
{
    if !names_equal(a.name.as_str(), b.name.as_str()) || a.ops.len() != b.ops.len() {
        return false;
    }
    let xs = &a.ops;
    let ys = &b.ops;
    let mut i: usize = 0;
    proof {
        assert(xs@.subrange(0, 0).len() == 0 && ys@.subrange(0, 0).len() == 0);
    }
    while i < xs.len()
        invariant
            i <= xs@.len(),
            xs@.len() == ys@.len(),
            same_sig_ops(xs@.subrange(0, i as int), ys@.subrange(0, i as int), depth as nat),
            xs@ == a.ops@,
            ys@ == b.ops@,
            a.name@ == b.name@,
        decreases xs@.len() - i,
    {
        let x = &xs[i];
        let y = &ys[i];
        if !(names_equal(x.name.as_str(), y.name.as_str()) && value_type_eq(&x.param, &y.param, depth)
            && value_type_eq(&x.result, &y.result, depth)) {
            proof {
                if same_sig_ops(xs@, ys@, depth as nat) {
                    lemma_same_sig_ops_element(xs@, ys@, depth as nat, i as int);
                }
            }
            return false;
        }
        proof {
            assert(xs@.subrange(0, i + 1).drop_last() =~= xs@.subrange(0, i as int));
            assert(ys@.subrange(0, i + 1).drop_last() =~= ys@.subrange(0, i as int));
        }
        i = i + 1;
    }
    proof {
        assert(xs@.subrange(0, xs@.len() as int) =~= xs@);
        assert(ys@.subrange(0, ys@.len() as int) =~= ys@);
    }
    true
}

/// Whether two optional argument ascriptions are the same.
pub fn ascription_eq(a: &Option<Rc<ValueType>>, b: &Option<Rc<ValueType>>, depth: u32) -> (r: bool)
    ensures
        r == same_ascription(*a, *b, depth as nat),
    decreases depth, 1nat,
{
    match (a, b) {
        (None, None) => true,
        (Some(x), Some(y)) => value_type_eq(x, y, depth),
        _ => false,
    }
}

/// Whether two optional split motives are the same.
pub fn split_motive_eq(a: &Option<Rc<SplitMotive>>, b: &Option<Rc<SplitMotive>>, depth: u32) -> (r: bool)
    ensures
        r == same_split_motive(*a, *b, depth as nat),
    decreases depth, 1nat,
{
    match (a, b) {
        (None, None) => true,
        (Some(x), Some(y)) => names_equal(x.binder.as_str(), y.binder.as_str()) && comp_type_eq(
            &x.ty,
            &y.ty,
            depth,
        ),
        _ => false,
    }
}

/// Whether two identity-elimination motives are the same.
pub fn walk_motive_eq(a: &WalkMotive, b: &WalkMotive, depth: u32) -> (r: bool)
    ensures
        r == same_walk_motive(*a, *b, depth as nat),
    decreases depth, 1nat,
{
    names_equal(a.x.as_str(), b.x.as_str()) && names_equal(a.y.as_str(), b.y.as_str())
        && names_equal(a.q.as_str(), b.q.as_str()) && comp_type_eq(&a.ty, &b.ty, depth)
}

/// Whether two computations are the same, looking at most `depth` levels
/// down.
#[verifier::rlimit(60)]
pub fn comp_eq(a: &Comp, b: &Comp, depth: u32) -> (r: bool)
    ensures
        r == same_comp(*a, *b, depth as nat),
    decreases depth, 0nat,
{
    if depth == 0 {
        return false;
    }
    let below = depth - 1;
    match (a, b) {
        (Comp::Abs(n, t, c), Comp::Abs(m, u, d)) => names_equal(n.as_str(), m.as_str())
            && ascription_eq(t, u, below) && comp_eq(c, d, below),
        (Comp::App(f, x), Comp::App(g, y)) => comp_eq(f, g, below) && value_eq(x, y, below),
        (Comp::Ret(x), Comp::Ret(y)) => value_eq(x, y, below),
        (Comp::Bind(c, n, k), Comp::Bind(d, m, l)) => comp_eq(c, d, below) && names_equal(
            n.as_str(),
            m.as_str(),
        ) && comp_eq(k, l, below),
        (Comp::Force(x), Comp::Force(y)) => value_eq(x, y, below),
        (Comp::Case(x, l1, r1), Comp::Case(y, l2, r2)) => value_eq(x, y, below) && branch_eq(
            l1,
            l2,
            below,
        ) && branch_eq(r1, r2, below),
        (Comp::DataCase(x, xs), Comp::DataCase(y, ys)) => value_eq(x, y, below) && branches_eq(
            xs,
            ys,
            below,
        ),
        (
            Comp::ListCase { scrut: s1, nil: n1, head: h1, tail: t1, cons: c1 },
            Comp::ListCase { scrut: s2, nil: n2, head: h2, tail: t2, cons: c2 },
        ) => value_eq(s1, s2, below) && comp_eq(n1, n2, below) && names_equal(h1.as_str(), h2.as_str())
            && names_equal(t1.as_str(), t2.as_str()) && comp_eq(c1, c2, below),
        (
            Comp::Split { scrut: s1, fst_name: f1, snd_name: g1, motive: m1, body: b1 },
            Comp::Split { scrut: s2, fst_name: f2, snd_name: g2, motive: m2, body: b2 },
        ) => value_eq(s1, s2, below) && names_equal(f1.as_str(), f2.as_str()) && names_equal(
            g1.as_str(),
            g2.as_str(),
        ) && split_motive_eq(m1, m2, below) && comp_eq(b1, b2, below),
        (Comp::RecordProj { record: r1, label: l1 }, Comp::RecordProj { record: r2, label: l2 }) => {
            value_eq(r1, r2, below) && names_equal(l1.as_str(), l2.as_str())
        },
        (Comp::With(a1, a2), Comp::With(b1, b2)) => comp_eq(a1, b1, below) && comp_eq(a2, b2, below),
        (Comp::Prj(s, x), Comp::Prj(t, y)) => *s == *t && comp_eq(x, y, below),
        (Comp::Dup(x), Comp::Dup(y)) => value_eq(x, y, below),
        (Comp::Drop(x), Comp::Drop(y)) => value_eq(x, y, below),
        (Comp::Perform(s, o, x), Comp::Perform(t, p, y)) => sig_eq(s, t, below) && names_equal(
            o.as_str(),
            p.as_str(),
        ) && value_eq(x, y, below),
        (
            Comp::Handle { sig: s1, scrutinee: c1, ret: r1, ops: o1 },
            Comp::Handle { sig: s2, scrutinee: c2, ret: r2, ops: o2 },
        ) => sig_eq(s1, s2, below) && comp_eq(c1, c2, below) && branch_eq(r1, r2, below) && clauses_eq(
            o1,
            o2,
            below,
        ),
        (Comp::Resume(x, c), Comp::Resume(y, d)) => value_eq(x, y, below) && comp_eq(c, d, below),
        (Comp::Reset(c), Comp::Reset(d)) => comp_eq(c, d, below),
        (Comp::Shift(n, c), Comp::Shift(m, d)) => names_equal(n.as_str(), m.as_str()) && comp_eq(
            c,
            d,
            below,
        ),
        (Comp::Hole(x), Comp::Hole(y)) => *x == *y,
        (Comp::Native { prim: p, args: xs }, Comp::Native { prim: q, args: ys }) => *p == *q
            && values_eq(xs, ys, below),
        (
            Comp::Walk { scrut: s1, motive: m1, base: b1 },
            Comp::Walk { scrut: s2, motive: m2, base: b2 },
        ) => value_eq(s1, s2, below) && walk_motive_eq(m1, m2, below) && names_equal(
            b1.x.as_str(),
            b2.x.as_str(),
        ) && comp_eq(&b1.body, &b2.body, below),
        _ => false,
    }
}

/// Whether two stacks are the same, looking at most `depth` levels down.
pub fn stack_eq(a: &Stack, b: &Stack, depth: u32) -> (r: bool)
    ensures
        r == same_stack(*a, *b, depth as nat),
    decreases depth, 0nat,
{
    if depth == 0 {
        return false;
    }
    let below = depth - 1;
    match (a, b) {
        (Stack::Empty, Stack::Empty) => true,
        (Stack::Arg(x, r), Stack::Arg(y, s)) => value_eq(x, y, below) && stack_eq(r, s, below),
        (Stack::Bind(n, c, r), Stack::Bind(m, d, s)) => names_equal(n.as_str(), m.as_str())
            && comp_eq(c, d, below) && stack_eq(r, s, below),
        (Stack::Prj(x, r), Stack::Prj(y, s)) => *x == *y && stack_eq(r, s, below),
        _ => false,
    }
}

/// Whether two runs of labelled field types are pairwise the same.
pub fn field_types_eq(xs: &Vec<FieldType>, ys: &Vec<FieldType>, depth: u32) -> (r: bool)
    ensures
        r == same_field_types(xs@, ys@, depth as nat),
    decreases depth, 1nat,
{
    if xs.len() != ys.len() {
        return false;
    }
    let mut i: usize = 0;
    proof {
        assert(xs@.subrange(0, 0).len() == 0 && ys@.subrange(0, 0).len() == 0);
    }
    while i < xs.len()
        invariant
            i <= xs@.len(),
            xs@.len() == ys@.len(),
            same_field_types(xs@.subrange(0, i as int), ys@.subrange(0, i as int), depth as nat),
        decreases xs@.len() - i,
    {
        if !(names_equal(xs[i].label.as_str(), ys[i].label.as_str()) && value_type_eq(
            &xs[i].ty,
            &ys[i].ty,
            depth,
        )) {
            proof {
                if same_field_types(xs@, ys@, depth as nat) {
                    lemma_same_field_types_element(xs@, ys@, depth as nat, i as int);
                }
            }
            return false;
        }
        proof {
            assert(xs@.subrange(0, i + 1).drop_last() =~= xs@.subrange(0, i as int));
            assert(ys@.subrange(0, i + 1).drop_last() =~= ys@.subrange(0, i as int));
        }
        i = i + 1;
    }
    proof {
        assert(xs@.subrange(0, xs@.len() as int) =~= xs@);
        assert(ys@.subrange(0, ys@.len() as int) =~= ys@);
    }
    true
}

/// Whether two runs of value types are pairwise the same.
pub fn value_types_eq(xs: &Vec<Rc<ValueType>>, ys: &Vec<Rc<ValueType>>, depth: u32) -> (r: bool)
    ensures
        r == same_value_types(xs@, ys@, depth as nat),
    decreases depth, 1nat,
{
    if xs.len() != ys.len() {
        return false;
    }
    let mut i: usize = 0;
    proof {
        assert(xs@.subrange(0, 0).len() == 0 && ys@.subrange(0, 0).len() == 0);
    }
    while i < xs.len()
        invariant
            i <= xs@.len(),
            xs@.len() == ys@.len(),
            same_value_types(xs@.subrange(0, i as int), ys@.subrange(0, i as int), depth as nat),
        decreases xs@.len() - i,
    {
        if !value_type_eq(&xs[i], &ys[i], depth) {
            proof {
                if same_value_types(xs@, ys@, depth as nat) {
                    lemma_same_value_types_element(xs@, ys@, depth as nat, i as int);
                }
            }
            return false;
        }
        proof {
            assert(xs@.subrange(0, i + 1).drop_last() =~= xs@.subrange(0, i as int));
            assert(ys@.subrange(0, i + 1).drop_last() =~= ys@.subrange(0, i as int));
        }
        i = i + 1;
    }
    proof {
        assert(xs@.subrange(0, xs@.len() as int) =~= xs@);
        assert(ys@.subrange(0, ys@.len() as int) =~= ys@);
    }
    true
}

/// Whether two value types are the same, looking at most `depth` levels
/// down.
#[verifier::rlimit(30)]
pub fn value_type_eq(a: &ValueType, b: &ValueType, depth: u32) -> (r: bool)
    ensures
        r == same_value_type(*a, *b, depth as nat),
    decreases depth, 0nat,
{
    if depth == 0 {
        return false;
    }
    let below = depth - 1;
    match (a, b) {
        (ValueType::Atom(x), ValueType::Atom(y)) => names_equal(x.as_str(), y.as_str()),
        (ValueType::Unit, ValueType::Unit) => true,
        (ValueType::Prod(a1, a2), ValueType::Prod(b1, b2)) => value_type_eq(a1, b1, below)
            && value_type_eq(a2, b2, below),
        (ValueType::Sum(a1, a2), ValueType::Sum(b1, b2)) => value_type_eq(a1, b1, below)
            && value_type_eq(a2, b2, below),
        (ValueType::List(x), ValueType::List(y)) => value_type_eq(x, y, below),
        (ValueType::Record(xs), ValueType::Record(ys)) => field_types_eq(xs, ys, below),
        (ValueType::Thunk(g, c), ValueType::Thunk(h, d)) => *g == *h && comp_type_eq(c, d, below),
        (ValueType::Stk(a1, a2), ValueType::Stk(b1, b2)) => comp_type_eq(a1, b1, below)
            && comp_type_eq(a2, b2, below),
        (
            ValueType::Path { ty: t1, lhs: l1, rhs: r1 },
            ValueType::Path { ty: t2, lhs: l2, rhs: r2 },
        ) => value_type_eq(t1, t2, below) && value_eq(l1, l2, below) && value_eq(r1, r2, below),
        (ValueType::Data { id: i1, args: a1 }, ValueType::Data { id: i2, args: a2 }) => data_eq(
            i1,
            i2,
        ) && value_types_eq(a1, a2, below),
        (ValueType::Universe, ValueType::Universe) => true,
        (
            ValueType::Sigma { fst: f1, binder: n1, snd: s1 },
            ValueType::Sigma { fst: f2, binder: n2, snd: s2 },
        ) => value_type_eq(f1, f2, below) && names_equal(n1.as_str(), n2.as_str()) && value_type_eq(
            s1,
            s2,
            below,
        ),
        (ValueType::Sealed(x), ValueType::Sealed(y)) => seal_eq(x, y),
        (ValueType::Unknown, ValueType::Unknown) => true,
        _ => false,
    }
}

/// Whether two computation types are the same, looking at most `depth`
/// levels down.
pub fn comp_type_eq(a: &CompType, b: &CompType, depth: u32) -> (r: bool)
    ensures
        r == same_comp_type(*a, *b, depth as nat),
    decreases depth, 0nat,
{
    if depth == 0 {
        return false;
    }
    let below = depth - 1;
    match (a, b) {
        (CompType::F(x, r), CompType::F(y, s)) => value_type_eq(x, y, below) && row_eq(r, s),
        (CompType::Arrow(x, c), CompType::Arrow(y, d)) => value_type_eq(x, y, below) && comp_type_eq(
            c,
            d,
            below,
        ),
        (CompType::With(a1, a2), CompType::With(b1, b2)) => comp_type_eq(a1, b1, below)
            && comp_type_eq(a2, b2, below),
        (CompType::Unknown, CompType::Unknown) => true,
        _ => false,
    }
}

} // verus!
