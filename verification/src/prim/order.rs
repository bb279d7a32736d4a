//! The ordering primitives: sorting a list of homogeneous, totally ordered
//! atoms, and dropping later duplicates.

use std::rc::Rc;
use vstd::prelude::*;

use crate::equality::same_value;
use crate::equality::value_eq;
use crate::prim::as_list;
use crate::prim::list_of;
use crate::prim::one_arg;
use crate::prim::returns_list;
use crate::prim::stripped;
use crate::prim::unannotated;
use crate::store::NESTING_LIMIT;
use crate::syntax::share;
use crate::syntax::Comp;
use crate::syntax::NumLit;
use crate::syntax::Value;
use crate::text::chars_less;
use crate::text::chars_of;
use crate::text::lemma_lex_less_from_irreflexive;
use crate::text::lemma_lex_less_from_transitive;
use crate::text::lex_less;

verus! {

/// The totally ordered atom families `sort` accepts.
#[derive(Clone, Copy, Debug, PartialEq, Eq, Structural)]
pub enum OrderKind {
    /// Integer literals.
    Int,
    /// Strings, by character code.
    Str,
    /// `u32` literals.
    U32,
    /// `u64` literals.
    U64,
    /// `i32` literals.
    I32,
    /// `i64` literals.
    I64,
}

/// The atom family of a value, ignoring ascriptions; `None` for anything
/// without a total order (a float, a pair, a list, …).
pub open spec fn order_kind_of(v: Value) -> Option<OrderKind> {
    match stripped(v) {
        Value::Int(_) => Some(OrderKind::Int),
        Value::Str(_) => Some(OrderKind::Str),
        Value::Num(NumLit::U32(_)) => Some(OrderKind::U32),
        Value::Num(NumLit::U64(_)) => Some(OrderKind::U64),
        Value::Num(NumLit::I32(_)) => Some(OrderKind::I32),
        Value::Num(NumLit::I64(_)) => Some(OrderKind::I64),
        _ => None,
    }
}

/// Whether `a` orders strictly before `b`: two atoms of one family, compared
/// in that family's order.
pub open spec fn orders_before(a: Value, b: Value) -> bool {
    match (stripped(a), stripped(b)) {
        (Value::Int(x), Value::Int(y)) => x < y,
        (Value::Str(x), Value::Str(y)) => lex_less(x@, y@),
        (Value::Num(NumLit::U32(x)), Value::Num(NumLit::U32(y))) => x < y,
        (Value::Num(NumLit::U64(x)), Value::Num(NumLit::U64(y))) => x < y,
        (Value::Num(NumLit::I32(x)), Value::Num(NumLit::I32(y))) => x < y,
        (Value::Num(NumLit::I64(x)), Value::Num(NumLit::I64(y))) => x < y,
        _ => false,
    }
}

/// No element of `s` orders strictly before an element to its left.
pub open spec fn sorted_by_order(s: Seq<Rc<Value>>) -> bool {
    forall|i: int, j: int| 0 <= i < j < s.len() ==> !orders_before(*s[j], *s[i])
}

/// The order is transitive.
pub proof fn lemma_orders_before_transitive(a: Value, b: Value, c: Value)
    requires
        orders_before(a, b),
        orders_before(b, c),
    ensures
        orders_before(a, c),
{
    match (stripped(a), stripped(b), stripped(c)) {
        (Value::Str(x), Value::Str(y), Value::Str(z)) => {
            lemma_lex_less_from_transitive(x@, y@, z@, 0);
        },
        _ => {},
    }
}

/// Nothing orders before itself.
pub proof fn lemma_orders_before_irreflexive(a: Value)
    ensures
        !orders_before(a, a),
{
    match stripped(a) {
        Value::Str(x) => {
            lemma_lex_less_from_irreflexive(x@, 0);
        },
        _ => {},
    }
}

/// The atom family of a value.
pub fn order_kind(value: &Rc<Value>) -> (r: Option<OrderKind>)
    ensures
        r == order_kind_of(**value),
{
    let bare = unannotated(value);
    match &*bare {
        Value::Int(_) => Some(OrderKind::Int),
        Value::Str(_) => Some(OrderKind::Str),
        Value::Num(NumLit::U32(_)) => Some(OrderKind::U32),
        Value::Num(NumLit::U64(_)) => Some(OrderKind::U64),
        Value::Num(NumLit::I32(_)) => Some(OrderKind::I32),
        Value::Num(NumLit::I64(_)) => Some(OrderKind::I64),
        _ => None,
    }
}

/// Whether `lhs` orders strictly before `rhs`.
pub fn order_less(lhs: &Rc<Value>, rhs: &Rc<Value>) -> (r: bool)
    ensures
        r == orders_before(**lhs, **rhs),
{
    let a = unannotated(lhs);
    let b = unannotated(rhs);
    match (&*a, &*b) {
        (Value::Int(x), Value::Int(y)) => *x < *y,
        (Value::Str(x), Value::Str(y)) => chars_less(&chars_of(x.as_str()), &chars_of(y.as_str())),
        (Value::Num(NumLit::U32(x)), Value::Num(NumLit::U32(y))) => *x < *y,
        (Value::Num(NumLit::U64(x)), Value::Num(NumLit::U64(y))) => *x < *y,
        (Value::Num(NumLit::I32(x)), Value::Num(NumLit::I32(y))) => *x < *y,
        (Value::Num(NumLit::I64(x)), Value::Num(NumLit::I64(y))) => *x < *y,
        _ => false,
    }
}

/// Every element has the atom family of the first, and that family exists.
pub open spec fn homogeneous(items: Seq<Rc<Value>>) -> bool {
    items.len() > 0 && order_kind_of(*items[0]) is Some && forall|k: int|
        0 <= k < items.len() ==> order_kind_of(*#[trigger] items[k]) == order_kind_of(*items[0])
}

/// Inserts `item` into the sorted list after every element it does not
/// order before.
/// Where `item` goes in `sorted`: after every element it does not order
/// before, so that an item lands behind the equal items already placed.
pub open spec fn insert_position(sorted: Seq<Rc<Value>>, item: Rc<Value>) -> nat
    decreases sorted.len(),
{
    if sorted.len() == 0 {
        0
    } else if orders_before(*item, *sorted[0]) {
        0
    } else {
        1 + insert_position(sorted.drop_first(), item)
    }
}

/// `items` sorted stably: each item in turn is placed behind every earlier
/// one it does not order before, so equal items keep their order.
pub open spec fn stable_sort(items: Seq<Rc<Value>>) -> Seq<Rc<Value>>
    decreases items.len(),
{
    if items.len() == 0 {
        Seq::empty()
    } else {
        let placed = stable_sort(items.drop_last());
        placed.insert(insert_position(placed, items.last()) as int, items.last())
    }
}

/// The first position whose element `item` orders before, with no earlier
/// such position, is where [`insert_position`] puts it.
proof fn lemma_insert_position(sorted: Seq<Rc<Value>>, item: Rc<Value>, at: int)
    requires
        0 <= at <= sorted.len(),
        forall|k: int| 0 <= k < at ==> !orders_before(*item, *#[trigger] sorted[k]),
        at < sorted.len() ==> orders_before(*item, *sorted[at]),
    ensures
        insert_position(sorted, item) == at,
    decreases sorted.len(),
{
    if sorted.len() > 0 && at > 0 {
        let rest = sorted.drop_first();
        assert forall|k: int| 0 <= k < at - 1 implies !orders_before(*item, *#[trigger] rest[k]) by {
            assert(rest[k] == sorted[k + 1]);
        }
        if at - 1 < rest.len() {
            assert(rest[at - 1] == sorted[at]);
        }
        lemma_insert_position(rest, item, at - 1);
    }
}

fn insert_sorted(sorted: &mut Vec<Rc<Value>>, item: Rc<Value>)
    requires
        sorted_by_order(old(sorted)@),
    ensures
        sorted_by_order(final(sorted)@),
        final(sorted)@.to_multiset() == old(sorted)@.to_multiset().insert(item),
        final(sorted)@ == old(sorted)@.insert(insert_position(old(sorted)@, item) as int, item),
{
    let mut at: usize = 0;
    while at < sorted.len() && !order_less(&item, &sorted[at])
        invariant
            at <= sorted@.len(),
            sorted@ == old(sorted)@,
            forall|k: int| 0 <= k < at ==> !orders_before(*item, *#[trigger] sorted@[k]),
        decreases sorted@.len() - at,
    {
        at = at + 1;
    }
    let ghost before = sorted@;
    proof {
        lemma_insert_position(before, item, at as int);
    }
    sorted.insert(at, item);
    proof {
        broadcast use vstd::seq_lib::to_multiset_insert;

        assert(sorted@ == before.insert(at as int, item));
        assert forall|i: int, j: int|
            0 <= i < j < sorted@.len() implies !orders_before(*sorted@[j], *sorted@[i]) by {
            if j < at {
                assert(sorted@[i] == before[i] && sorted@[j] == before[j]);
            } else if j == at {
                assert(sorted@[j] == item && sorted@[i] == before[i]);
            } else if i > at {
                assert(sorted@[i] == before[i - 1] && sorted@[j] == before[j - 1]);
            } else if i == at {
                assert(sorted@[i] == item && sorted@[j] == before[j - 1]);
                assert(orders_before(*item, *before[at as int]));
                if orders_before(*before[j - 1], *item) {
                    lemma_orders_before_transitive(*before[j - 1], *item, *before[at as int]);
                    if j - 1 == at {
                        lemma_orders_before_irreflexive(*before[at as int]);
                    }
                }
            } else {
                assert(sorted@[i] == before[i] && sorted@[j] == before[j - 1]);
            }
        }
    }
}

/// What `native_sort` returns on `args`.
pub open spec fn native_sort_outcome(args: Seq<Rc<Value>>, c: Comp) -> bool {
    &&& !(args.len() == 1 && list_of(*args[0]) is Some) ==> c == Comp::Hole(0)
    &&& args.len() == 1 && list_of(*args[0]) is Some && list_of(*args[0]).unwrap().len() <= 1
        ==> returns_list(c, list_of(*args[0]).unwrap())
    &&& args.len() == 1 && list_of(*args[0]) is Some && list_of(*args[0]).unwrap().len() > 1
        && !homogeneous(list_of(*args[0]).unwrap()) ==> c == Comp::Hole(0)
    &&& args.len() == 1 && list_of(*args[0]) is Some && list_of(*args[0]).unwrap().len() > 1
        && homogeneous(list_of(*args[0]).unwrap()) ==> {
        let sorted = stable_sort(list_of(*args[0]).unwrap());
        &&& returns_list(c, sorted)
        &&& sorted_by_order(sorted)
        &&& sorted.to_multiset() == list_of(*args[0]).unwrap().to_multiset()
    }
}

/// `sort xs` — sort a manifest list of homogeneous, totally ordered atoms,
/// keeping equal atoms in their order; a heterogeneous list or one with an
/// atom that has no total order is a gradual hole.
pub fn native_sort(args: &[Rc<Value>]) -> (c: Comp)
    ensures
        native_sort_outcome(args@, c),
{
    let list = match one_arg(args) {
        Some(list) => list,
        None => {
            return Comp::hole(0);
        },
    };
    let items = match as_list(&list) {
        Some(items) => items,
        None => {
            return Comp::hole(0);
        },
    };
    if items.len() <= 1 {
        return Comp::Ret(Rc::new(Value::List(items)));
    }
    let kind = match order_kind(&items[0]) {
        Some(kind) => kind,
        None => {
            return Comp::hole(0);
        },
    };
    let mut index: usize = 1;
    while index < items.len()
        invariant
            1 <= index <= items@.len(),
            args@.len() == 1,
            list_of(*args@[0]) == Some(items@),
            items@.len() > 1,
            order_kind_of(*items@[0]) == Some(kind),
            forall|k: int| 0 <= k < index ==> order_kind_of(*#[trigger] items@[k]) == Some(kind),
        decreases items@.len() - index,
    {
        match order_kind(&items[index]) {
            Some(other) => {
                if other != kind {
                    return Comp::hole(0);
                }
            },
            None => {
                return Comp::hole(0);
            },
        }
        index = index + 1;
    }
    let mut sorted: Vec<Rc<Value>> = Vec::new();
    proof {
        assert(items@.subrange(0, 0) =~= sorted@);
    }
    let mut next: usize = 0;
    while next < items.len()
        invariant
            next <= items@.len(),
            sorted_by_order(sorted@),
            sorted@.to_multiset() == items@.subrange(0, next as int).to_multiset(),
            sorted@ == stable_sort(items@.subrange(0, next as int)),
        decreases items@.len() - next,
    {
        proof {
            broadcast use vstd::seq_lib::to_multiset_build;

            assert(items@.subrange(0, next + 1) =~= items@.subrange(0, next as int).push(
                items@[next as int],
            ));
            assert(items@.subrange(0, next + 1).drop_last() =~= items@.subrange(0, next as int));
        }
        insert_sorted(&mut sorted, share(&items[next]));
        next = next + 1;
    }
    proof {
        assert(items@.subrange(0, items@.len() as int) =~= items@);
    }
    let ghost result = sorted@;
    let c = Comp::Ret(Rc::new(Value::List(sorted)));
    assert(returns_list(c, result));
    c
}

/// The first occurrences of `items`, in order: an item is kept unless an
/// item kept before it is the same term.
pub open spec fn first_occurrences(items: Seq<Rc<Value>>) -> Seq<Rc<Value>>
    decreases items.len(),
{
    if items.len() == 0 {
        Seq::empty()
    } else {
        let kept = first_occurrences(items.drop_last());
        if exists|j: int|
            0 <= j < kept.len() && same_value(*#[trigger] kept[j], *items.last(), NESTING_LIMIT as nat) {
            kept
        } else {
            kept.push(items.last())
        }
    }
}

/// Whether some element of `kept` is the same term as `item`.
fn contains_same(kept: &Vec<Rc<Value>>, item: &Rc<Value>) -> (b: bool)
    ensures
        b == exists|j: int|
            0 <= j < kept@.len() && same_value(*#[trigger] kept@[j], **item, NESTING_LIMIT as nat),
{
    let mut index: usize = 0;
    while index < kept.len()
        invariant
            index <= kept@.len(),
            forall|j: int|
                0 <= j < index ==> !same_value(*#[trigger] kept@[j], **item, NESTING_LIMIT as nat),
        decreases kept@.len() - index,
    {
        if value_eq(&kept[index], item, NESTING_LIMIT) {
            return true;
        }
        index = index + 1;
    }
    false
}

/// What `native_uniq` returns on `args`.
pub open spec fn native_uniq_outcome(args: Seq<Rc<Value>>, c: Comp) -> bool {
    &&& !(args.len() == 1 && list_of(*args[0]) is Some) ==> c == Comp::Hole(0)
    &&& args.len() == 1 && list_of(*args[0]) is Some ==> returns_list(
        c,
        first_occurrences(list_of(*args[0]).unwrap()),
    )
}

/// `uniq xs` — drop the later duplicates of a manifest list, keeping each
/// first occurrence in place; two elements are duplicates when they are the
/// same term, ascriptions included.
pub fn native_uniq(args: &[Rc<Value>]) -> (c: Comp)
    ensures
        native_uniq_outcome(args@, c),
{
    let list = match one_arg(args) {
        Some(list) => list,
        None => {
            return Comp::hole(0);
        },
    };
    let items = match as_list(&list) {
        Some(items) => items,
        None => {
            return Comp::hole(0);
        },
    };
    let mut kept: Vec<Rc<Value>> = Vec::new();
    let mut index: usize = 0;
    proof {
        assert(items@.subrange(0, 0).len() == 0);
    }
    while index < items.len()
        invariant
            index <= items@.len(),
            args@.len() == 1,
            list_of(*args@[0]) == Some(items@),
            kept@ == first_occurrences(items@.subrange(0, index as int)),
        decreases items@.len() - index,
    {
        let ghost before = kept@;
        if !contains_same(&kept, &items[index]) {
            kept.push(share(&items[index]));
        }
        proof {
            let grown = items@.subrange(0, index + 1);
            assert(grown.drop_last() =~= items@.subrange(0, index as int));
            assert(grown.last() == items@[index as int]);
        }
        index = index + 1;
    }
    proof {
        assert(items@.subrange(0, items@.len() as int) =~= items@);
    }
    let ghost result = kept@;
    let c = Comp::Ret(Rc::new(Value::List(kept)));
    assert(returns_list(c, result));
    c
}

} // verus!
