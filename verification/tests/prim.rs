use std::rc::Rc;

use gandr_core_checker::prim::order::native_sort;
use gandr_core_checker::prim::order::native_uniq;
use gandr_core_checker::prim::strings::escape_regex_literal;
use gandr_core_checker::prim::strings::native_path_basename;
use gandr_core_checker::prim::strings::native_path_extension;
use gandr_core_checker::prim::strings::native_path_join;
use gandr_core_checker::prim::strings::native_regex_extract;
use gandr_core_checker::prim::strings::native_string_escape;
use gandr_core_checker::prim::strings::native_string_predicate;
use gandr_core_checker::prim::strings::native_string_split;
use gandr_core_checker::prim::strings::StringTest;
use gandr_core_checker::prim::FloatArith;
use gandr_core_checker::prim::NativePrim;
use gandr_core_checker::prim::list_concat;
use gandr_core_checker::prim::native_each;
use gandr_core_checker::prim::native_flatten;
use gandr_core_checker::prim::native_get;
use gandr_core_checker::prim::native_insert;
use gandr_core_checker::prim::native_insert_at;
use gandr_core_checker::prim::native_push;
use gandr_core_checker::prim::native_record_update;
use gandr_core_checker::prim::native_remove_at;
use gandr_core_checker::prim::native_set;
use gandr_core_checker::syntax::Comp;
use gandr_core_checker::syntax::FieldValue;
use gandr_core_checker::syntax::NumLit;
use gandr_core_checker::syntax::Side;
use gandr_core_checker::syntax::Value;
use gandr_core_checker::types::ValueType;

/// Host floating-point arithmetic over bit patterns.
struct HostFloats;

impl FloatArith for HostFloats {
    fn add32(&self, lhs: u32, rhs: u32) -> u32 {
        (f32::from_bits(lhs) + f32::from_bits(rhs)).to_bits()
    }

    fn sub32(&self, lhs: u32, rhs: u32) -> u32 {
        (f32::from_bits(lhs) - f32::from_bits(rhs)).to_bits()
    }

    fn mul32(&self, lhs: u32, rhs: u32) -> u32 {
        (f32::from_bits(lhs) * f32::from_bits(rhs)).to_bits()
    }

    fn neg32(&self, value: u32) -> u32 {
        (-f32::from_bits(value)).to_bits()
    }

    fn eq32(&self, lhs: u32, rhs: u32) -> bool {
        f32::from_bits(lhs) == f32::from_bits(rhs)
    }

    fn lt32(&self, lhs: u32, rhs: u32) -> bool {
        f32::from_bits(lhs) < f32::from_bits(rhs)
    }

    fn le32(&self, lhs: u32, rhs: u32) -> bool {
        f32::from_bits(lhs) <= f32::from_bits(rhs)
    }

    fn add64(&self, lhs: u64, rhs: u64) -> u64 {
        (f64::from_bits(lhs) + f64::from_bits(rhs)).to_bits()
    }

    fn sub64(&self, lhs: u64, rhs: u64) -> u64 {
        (f64::from_bits(lhs) - f64::from_bits(rhs)).to_bits()
    }

    fn mul64(&self, lhs: u64, rhs: u64) -> u64 {
        (f64::from_bits(lhs) * f64::from_bits(rhs)).to_bits()
    }

    fn neg64(&self, value: u64) -> u64 {
        (-f64::from_bits(value)).to_bits()
    }

    fn eq64(&self, lhs: u64, rhs: u64) -> bool {
        f64::from_bits(lhs) == f64::from_bits(rhs)
    }

    fn lt64(&self, lhs: u64, rhs: u64) -> bool {
        f64::from_bits(lhs) < f64::from_bits(rhs)
    }

    fn le64(&self, lhs: u64, rhs: u64) -> bool {
        f64::from_bits(lhs) <= f64::from_bits(rhs)
    }
}

fn num(n: i64) -> Rc<Value> {
    Rc::new(Value::Int(n))
}

fn text(s: &str) -> Rc<Value> {
    Rc::new(Value::Str(s.to_string()))
}

fn list(items: Vec<Rc<Value>>) -> Rc<Value> {
    Rc::new(Value::List(items))
}

fn record(fields: Vec<(&str, Rc<Value>)>) -> Rc<Value> {
    Rc::new(Value::Record(
        fields
            .into_iter()
            .map(|(label, value)| FieldValue { label: label.to_string(), value })
            .collect(),
    ))
}

fn ret(value: Rc<Value>) -> Comp {
    Comp::Ret(value)
}

fn boolean(b: bool) -> Comp {
    let side = if b { Side::Fst } else { Side::Snd };
    Comp::Ret(Rc::new(Value::Annot(
        Rc::new(Value::Inj(side, Rc::new(Value::Unit))),
        Rc::new(ValueType::Sum(Rc::new(ValueType::Unit), Rc::new(ValueType::Unit))),
    )))
}

fn optional(payload: Option<Rc<Value>>) -> Comp {
    let inj = match payload {
        Some(v) => Value::Inj(Side::Fst, v),
        None => Value::Inj(Side::Snd, Rc::new(Value::Unit)),
    };
    Comp::Ret(Rc::new(Value::Annot(
        Rc::new(inj),
        Rc::new(ValueType::Sum(Rc::new(ValueType::Unknown), Rc::new(ValueType::Unit))),
    )))
}

fn hole() -> Comp {
    Comp::Hole(0)
}

fn annotated_int(n: i64) -> Rc<Value> {
    Rc::new(Value::Annot(num(n), Rc::new(ValueType::Unknown)))
}

#[test]
fn apply_id_returns_its_single_argument() {
    assert_eq!(NativePrim::Id.apply(&[num(7)], &HostFloats), ret(num(7)));
    assert_eq!(NativePrim::Id.apply(&[num(7), num(8)], &HostFloats), hole());
}

#[test]
fn apply_const_returns_the_first_of_two() {
    assert_eq!(NativePrim::Const.apply(&[text("a"), num(1)], &HostFloats), ret(text("a")));
    assert_eq!(NativePrim::Const.apply(&[text("a")], &HostFloats), hole());
}

#[test]
fn apply_integer_arithmetic_is_checked() {
    assert_eq!(NativePrim::Add.apply(&[num(2), num(40)], &HostFloats), ret(num(42)));
    assert_eq!(NativePrim::Sub.apply(&[num(2), num(40)], &HostFloats), ret(num(-38)));
    assert_eq!(NativePrim::Mul.apply(&[num(-6), num(7)], &HostFloats), ret(num(-42)));
    assert_eq!(NativePrim::Add.apply(&[num(i64::MAX), num(1)], &HostFloats), hole());
    assert_eq!(NativePrim::Neg.apply(&[num(5)], &HostFloats), ret(num(-5)));
    assert_eq!(NativePrim::Neg.apply(&[num(i64::MIN)], &HostFloats), hole());
}

#[test]
fn apply_arithmetic_looks_through_ascriptions() {
    assert_eq!(NativePrim::Add.apply(&[annotated_int(1), num(2)], &HostFloats), ret(num(3)));
}

#[test]
fn apply_typed_literals_stay_in_their_width() {
    let u = |n: u32| Rc::new(Value::Num(NumLit::U32(n)));
    assert_eq!(
        NativePrim::Add.apply(&[u(1), u(2)], &HostFloats),
        ret(Rc::new(Value::Num(NumLit::U32(3))))
    );
    assert_eq!(NativePrim::Add.apply(&[u(u32::MAX), u(1)], &HostFloats), hole());
    assert_eq!(NativePrim::Add.apply(&[u(1), num(2)], &HostFloats), hole());
}

#[test]
fn apply_float_arithmetic_goes_through_the_host() {
    let f = |x: f64| Rc::new(Value::Num(NumLit::F64(x.to_bits())));
    assert_eq!(NativePrim::Add.apply(&[f(1.5), f(2.25)], &HostFloats), ret(f(3.75)));
    assert_eq!(NativePrim::Lt.apply(&[f(1.5), f(2.25)], &HostFloats), boolean(true));
}

#[test]
fn apply_comparisons_return_canonical_booleans() {
    assert_eq!(NativePrim::Eq.apply(&[num(3), num(3)], &HostFloats), boolean(true));
    assert_eq!(NativePrim::Ne.apply(&[num(3), num(3)], &HostFloats), boolean(false));
    assert_eq!(NativePrim::Lt.apply(&[num(2), num(3)], &HostFloats), boolean(true));
    assert_eq!(NativePrim::Le.apply(&[num(3), num(3)], &HostFloats), boolean(true));
    assert_eq!(NativePrim::Gt.apply(&[num(2), num(3)], &HostFloats), boolean(false));
    assert_eq!(NativePrim::Ge.apply(&[num(2), num(3)], &HostFloats), boolean(false));
    assert_eq!(NativePrim::Eq.apply(&[num(3), text("3")], &HostFloats), hole());
}

#[test]
fn apply_boolean_connectives() {
    let t = || match boolean(true) {
        Comp::Ret(v) => v,
        _ => unreachable!(),
    };
    let f = || match boolean(false) {
        Comp::Ret(v) => v,
        _ => unreachable!(),
    };
    assert_eq!(NativePrim::And.apply(&[t(), f()], &HostFloats), boolean(false));
    assert_eq!(NativePrim::Or.apply(&[t(), f()], &HostFloats), boolean(true));
    assert_eq!(NativePrim::And.apply(&[t(), num(1)], &HostFloats), hole());
}

#[test]
fn list_concat_joins_in_order() {
    assert_eq!(
        list_concat(&[list(vec![num(1)]), list(vec![num(2), num(3)])]),
        ret(list(vec![num(1), num(2), num(3)]))
    );
    assert_eq!(list_concat(&[list(vec![]), num(2)]), hole());
}

#[test]
fn push_appends_at_the_end() {
    assert_eq!(
        native_push(&[list(vec![num(1)]), num(2)]),
        ret(list(vec![num(1), num(2)]))
    );
}

#[test]
fn set_replaces_in_bounds_only() {
    let xs = list(vec![num(1), num(2), num(3)]);
    assert_eq!(
        native_set(&[xs.clone(), num(1), text("x")]),
        ret(list(vec![num(1), text("x"), num(3)]))
    );
    assert_eq!(native_set(&[xs.clone(), num(3), text("x")]), hole());
    assert_eq!(native_set(&[xs, num(-1), text("x")]), hole());
}

#[test]
fn insert_at_allows_the_end_position() {
    let xs = list(vec![num(1), num(2)]);
    assert_eq!(
        native_insert_at(&[xs.clone(), num(0), num(0)]),
        ret(list(vec![num(0), num(1), num(2)]))
    );
    assert_eq!(
        native_insert_at(&[xs.clone(), num(2), num(3)]),
        ret(list(vec![num(1), num(2), num(3)]))
    );
    assert_eq!(native_insert_at(&[xs, num(3), num(3)]), hole());
}

#[test]
fn remove_at_drops_one_element() {
    let xs = list(vec![num(1), num(2), num(3)]);
    assert_eq!(native_remove_at(&[xs.clone(), num(1)]), ret(list(vec![num(1), num(3)])));
    assert_eq!(native_remove_at(&[xs, num(3)]), hole());
}

#[test]
fn flatten_concatenates_inner_lists() {
    assert_eq!(
        native_flatten(&[list(vec![list(vec![num(1)]), list(vec![]), list(vec![num(2), num(3)])])]),
        ret(list(vec![num(1), num(2), num(3)]))
    );
    assert_eq!(native_flatten(&[list(vec![list(vec![num(1)]), num(2)])]), hole());
}

#[test]
fn get_answers_an_optional() {
    let r = record(vec![("a", num(1)), ("b", num(2))]);
    assert_eq!(native_get(&[r.clone(), text("b")]), optional(Some(num(2))));
    assert_eq!(native_get(&[r.clone(), text("c")]), optional(None));
    assert_eq!(native_get(&[r, num(0)]), hole());
}

#[test]
fn insert_overrides_or_extends_in_label_order() {
    let r = record(vec![("a", num(1)), ("c", num(3))]);
    assert_eq!(
        native_insert(&[r.clone(), text("b"), num(2)]),
        ret(record(vec![("a", num(1)), ("b", num(2)), ("c", num(3))]))
    );
    assert_eq!(
        native_insert(&[r, text("a"), num(9)]),
        ret(record(vec![("a", num(9)), ("c", num(3))]))
    );
}

#[test]
fn record_update_overlays_override_fields() {
    let base = record(vec![("a", num(1)), ("b", num(2))]);
    let over = record(vec![("b", num(20)), ("c", num(30))]);
    assert_eq!(
        native_record_update(&[base, over]),
        ret(record(vec![("a", num(1)), ("b", num(20)), ("c", num(30))]))
    );
}

#[test]
fn each_on_the_empty_list_returns_the_empty_list() {
    let f = Rc::new(Value::Var("f".to_string()));
    assert_eq!(native_each(&[f, list(vec![])]), ret(list(vec![])));
}

#[test]
fn each_binds_one_generated_result_per_element() {
    let f = Rc::new(Value::Var("f".to_string()));
    let expected = Comp::Bind(
        Rc::new(Comp::App(Rc::new(Comp::Force(f.clone())), num(5))),
        "$each0".to_string(),
        Rc::new(ret(list(vec![Rc::new(Value::Var("$each0".to_string()))]))),
    );
    assert_eq!(native_each(&[f, list(vec![num(5)])]), expected);
}

#[test]
fn sort_orders_integers_stably() {
    let items = list(vec![num(3), annotated_int(1), num(0), num(1)]);
    assert_eq!(
        native_sort(&[items]),
        ret(list(vec![num(0), annotated_int(1), num(1), num(3)]))
    );
}

#[test]
fn sort_orders_strings_by_character_code() {
    let items = list(vec![text("b"), text("a"), text("B"), text("ab")]);
    assert_eq!(
        native_sort(&[items]),
        ret(list(vec![text("B"), text("a"), text("ab"), text("b")]))
    );
}

#[test]
fn sort_rejects_mixed_or_unordered_lists() {
    assert_eq!(native_sort(&[list(vec![num(1), text("a")])]), hole());
    let f = Rc::new(Value::Num(NumLit::F64(1.0f64.to_bits())));
    assert_eq!(native_sort(&[list(vec![f.clone(), f])]), hole());
    assert_eq!(native_sort(&[num(1)]), hole());
}

#[test]
fn sort_keeps_short_lists_whatever_they_hold() {
    let f = Rc::new(Value::Num(NumLit::F64(1.0f64.to_bits())));
    assert_eq!(native_sort(&[list(vec![f.clone()])]), ret(list(vec![f])));
    assert_eq!(native_sort(&[list(vec![])]), ret(list(vec![])));
}

#[test]
fn uniq_keeps_first_occurrences() {
    let items = list(vec![num(1), num(2), num(1), num(3), num(2)]);
    assert_eq!(native_uniq(&[items]), ret(list(vec![num(1), num(2), num(3)])));
}

#[test]
fn uniq_tells_an_ascribed_literal_from_a_bare_one() {
    let items = list(vec![num(1), annotated_int(1), num(1)]);
    assert_eq!(native_uniq(&[items]), ret(list(vec![num(1), annotated_int(1)])));
}

#[test]
fn escape_quotes_regex_metacharacters() {
    assert_eq!(escape_regex_literal("a.b*c"), "a\\.b\\*c");
    assert_eq!(escape_regex_literal("x-y~z#"), "x\\-y\\~z\\#");
    assert_eq!(escape_regex_literal("plain"), "plain");
    assert_eq!(native_string_escape(&[text("(1+1)")]), ret(text("\\(1\\+1\\)")));
    assert_eq!(native_string_escape(&[num(1)]), hole());
}

#[test]
fn string_predicates() {
    let s = text("hello world");
    assert_eq!(native_string_predicate(&[s.clone(), text("lo w")], StringTest::Contains), boolean(true));
    assert_eq!(native_string_predicate(&[s.clone(), text("xyz")], StringTest::Contains), boolean(false));
    assert_eq!(native_string_predicate(&[s.clone(), text("hell")], StringTest::StartsWith), boolean(true));
    assert_eq!(native_string_predicate(&[s.clone(), text("world")], StringTest::EndsWith), boolean(true));
    assert_eq!(native_string_predicate(&[s.clone(), text("hello")], StringTest::EndsWith), boolean(false));
    assert_eq!(native_string_predicate(&[s.clone(), text("hello world")], StringTest::Equals), boolean(true));
    assert_eq!(native_string_predicate(&[s, num(1)], StringTest::Equals), hole());
    assert_eq!(
        NativePrim::StringContains.apply(&[text("abc"), text("")], &HostFloats),
        boolean(true)
    );
}

#[test]
fn split_keeps_empty_pieces() {
    assert_eq!(
        native_string_split(&[text("a,b,,c"), text(",")]),
        ret(list(vec![text("a"), text("b"), text(""), text("c")]))
    );
    assert_eq!(native_string_split(&[text("abc"), text("-")]), ret(list(vec![text("abc")])));
}

#[test]
fn regex_extract_returns_named_captures_of_the_first_match() {
    let pattern = text("(?P<year>[0-9]{4})-(?P<month>[0-9]{2})");
    assert_eq!(
        native_regex_extract(&[pattern, text("on 2024-05 and 2025-06")]),
        ret(record(vec![("month", text("05")), ("year", text("2024"))]))
    );
}

#[test]
fn regex_extract_skips_groups_that_did_not_take_part() {
    let pattern = text("(?P<a>x)|(?P<b>y)");
    assert_eq!(native_regex_extract(&[pattern, text("y")]), ret(record(vec![("b", text("y"))])));
}

#[test]
fn regex_extract_holes_on_no_match_or_bad_pattern() {
    assert_eq!(native_regex_extract(&[text("(?P<d>[0-9])"), text("abc")]), hole());
    assert_eq!(native_regex_extract(&[text("(unclosed"), text("abc")]), hole());
}

#[test]
fn path_natives() {
    assert_eq!(native_path_join(&[text("a/b"), text("c.txt")]), ret(text("a/b/c.txt")));
    assert_eq!(native_path_basename(&[text("a/b/c.txt")]), ret(text("c.txt")));
    assert_eq!(native_path_extension(&[text("a/b/c.txt")]), ret(text("txt")));
    assert_eq!(native_path_extension(&[text("a/b")]), hole());
    assert_eq!(native_path_basename(&[num(1)]), hole());
}

#[test]
fn split_on_a_longer_separator_takes_the_leftmost_occurrences() {
    assert_eq!(
        native_string_split(&[text("a::b:::c"), text("::")]),
        ret(list(vec![text("a"), text("b"), text(":c")]))
    );
    assert_eq!(native_string_split(&[text(""), text("::")]), ret(list(vec![text("")])));
}

#[test]
fn sort_keeps_equal_strings_in_their_first_order() {
    assert_eq!(
        native_sort(&[list(vec![text("b"), text("a"), text("b"), text("a")])]),
        ret(list(vec![text("a"), text("a"), text("b"), text("b")]))
    );
}

#[test]
fn split_on_an_empty_separator_separates_every_character_and_both_ends() {
    assert_eq!(
        native_string_split(&[text("rust"), text("")]),
        ret(list(vec![text(""), text("r"), text("u"), text("s"), text("t"), text("")]))
    );
    assert_eq!(native_string_split(&[text(""), text("")]), ret(list(vec![text(""), text("")])));
}
