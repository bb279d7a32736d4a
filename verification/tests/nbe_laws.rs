use std::rc::Rc;

use gandr_core_checker::nbe::conv::converts_values;
use gandr_core_checker::nbe::eval::eval_comp;
use gandr_core_checker::nbe::eval::eval_value;
use gandr_core_checker::nbe::eval::force_value;
use gandr_core_checker::nbe::eval::value_node;
use gandr_core_checker::nbe::eval::ForceMode;
use gandr_core_checker::nbe::intern::canonical_key;
use gandr_core_checker::nbe::quote::quote_value;
use gandr_core_checker::nbe::quote::QuoteMode;
use gandr_core_checker::nbe::sem::SemArena;
use gandr_core_checker::nbe::sem::SemCompNode;
use gandr_core_checker::nbe::sem::SemValueId;
use gandr_core_checker::nbe::sem::SemValueNode;
use gandr_core_checker::nbe::Normalizer;
use gandr_core_checker::syntax::Comp;
use gandr_core_checker::syntax::FieldValue;
use gandr_core_checker::syntax::Side;
use gandr_core_checker::syntax::Value;
use gandr_core_checker::types::Grade;
use gandr_core_checker::types::ValueType;

/// Lowers and evaluates a closed value in the empty environment.
fn evaluate(nbe: &mut Normalizer, term: &Value) -> SemValueId {
    let node = nbe.lower_input(term).expect("lowering must succeed");
    eval_value(nbe, SemArena::empty_env(), node).expect("evaluation must succeed")
}

#[test]
fn normalizing_an_inert_term_on_a_fresh_normalizer_gives_it_back() {
    let terms = [
        Value::Pair(Rc::new(Value::Int(1)), Rc::new(Value::Inj(Side::Snd, Rc::new(Value::var("x"))))),
        Value::List(vec![Rc::new(Value::Hole(3)), Rc::new(Value::Str(String::from("s")))]),
        Value::Record(vec![
            FieldValue { label: String::from("a"), value: Rc::new(Value::Unit) },
            FieldValue { label: String::from("b"), value: Rc::new(Value::Here(Rc::new(Value::Int(7)))) },
        ]),
    ];
    for term in terms {
        let out = Normalizer::new().normalize(&term).unwrap();
        assert_eq!(*out, term);
    }
}

#[test]
fn an_ascription_normalizes_to_its_inner_value() {
    let inner = Value::Pair(Rc::new(Value::Int(2)), Rc::new(Value::Unit));
    let annotated = Value::Annot(Rc::new(inner.clone()), Rc::new(ValueType::Unknown));
    let out = Normalizer::new().normalize(&annotated).unwrap();
    assert_eq!(*out, inner);
}

#[test]
fn a_binder_shadows_a_definition_in_the_height() {
    let mut nbe = Normalizer::new();
    nbe.define("a", &Value::Int(1)).unwrap();
    let shadowed = Value::Thunk(Grade::one(), Rc::new(Comp::lam("a", Comp::ret(Value::var("a")))));
    nbe.define("b", &shadowed).unwrap();
    assert_eq!(nbe.definitions().lookup("b").unwrap().height(), 1);
    let free = Value::Thunk(Grade::one(), Rc::new(Comp::lam("x", Comp::ret(Value::var("a")))));
    nbe.define("c", &free).unwrap();
    assert_eq!(nbe.definitions().lookup("c").unwrap().height(), 2);
    let taller = Value::Pair(Rc::new(Value::var("c")), Rc::new(Value::var("a")));
    nbe.define("d", &taller).unwrap();
    assert_eq!(nbe.definitions().lookup("d").unwrap().height(), 3);
}

#[test]
fn conversion_decides_literals_and_formers_from_their_heads() {
    let mut nbe = Normalizer::new();
    let one = evaluate(&mut nbe, &Value::Int(1));
    let another_one = evaluate(&mut nbe, &Value::Pair(Rc::new(Value::Int(1)), Rc::new(Value::Unit)));
    let one_again = match *nbe.arena().value(another_one).unwrap().node() {
        SemValueNode::Pair(first, _) => first,
        _ => one,
    };
    assert_ne!(one, one_again);
    assert!(converts_values(&mut nbe, one, one_again).unwrap());
    let two = evaluate(&mut nbe, &Value::Int(2));
    assert!(!converts_values(&mut nbe, one, two).unwrap());
    let unit = evaluate(&mut nbe, &Value::Unit);
    assert!(!converts_values(&mut nbe, one, unit).unwrap());
    let hole = evaluate(&mut nbe, &Value::Hole(0));
    assert!(converts_values(&mut nbe, hole, another_one).unwrap());
    assert!(converts_values(&mut nbe, another_one, hole).unwrap());
    let left = evaluate(&mut nbe, &Value::Inj(Side::Fst, Rc::new(Value::Unit)));
    let right = evaluate(&mut nbe, &Value::Inj(Side::Snd, Rc::new(Value::Unit)));
    assert!(!converts_values(&mut nbe, left, right).unwrap());
    let empty = evaluate(&mut nbe, &Value::List(Vec::new()));
    let also_empty = evaluate(&mut nbe, &Value::List(Vec::new()));
    assert!(converts_values(&mut nbe, empty, also_empty).unwrap());
    let single = evaluate(&mut nbe, &Value::List(vec![Rc::new(Value::Unit)]));
    assert!(!converts_values(&mut nbe, empty, single).unwrap());
}

#[test]
fn a_returner_evaluates_to_a_return_of_its_value() {
    let mut nbe = Normalizer::new();
    let node = nbe.syntax_mut().alloc_comp(&Comp::ret(Value::Int(4))).unwrap();
    let evaluated = eval_comp(&mut nbe, SemArena::empty_env(), node).unwrap();
    let returned = match nbe.arena().comp(evaluated).unwrap().node() {
        SemCompNode::Return(value) => Some(value),
        _ => None,
    };
    let value = returned.expect("a returner must evaluate to a return");
    assert_eq!(*nbe.arena().value(value).unwrap().node(), SemValueNode::Int(4));
}

#[test]
fn retained_readback_of_an_ascription_hands_back_its_inner_node() {
    let mut nbe = Normalizer::new();
    let inner = Value::Int(9);
    let annotated = Value::Annot(Rc::new(inner.clone()), Rc::new(ValueType::Unknown));
    let inner_node = nbe.lower_input(&inner).unwrap();
    let evaluated = evaluate(&mut nbe, &annotated);
    let quoted = quote_value(&mut nbe, evaluated, QuoteMode::Retained).unwrap();
    assert_eq!(canonical_key(nbe.syntax(), quoted), canonical_key(nbe.syntax(), inner_node));
}

#[test]
fn normalizing_new_inert_terms_on_a_used_normalizer_gives_them_back() {
    let mut nbe = Normalizer::new();
    nbe.normalize(&Value::Pair(Rc::new(Value::Int(5)), Rc::new(Value::Unit))).unwrap();
    let terms = [
        Value::Inj(Side::Fst, Rc::new(Value::Int(5))),
        Value::List(vec![Rc::new(Value::Unit), Rc::new(Value::var("y"))]),
        Value::Here(Rc::new(Value::Str(String::from("here")))),
    ];
    for term in terms {
        let out = nbe.normalize(&term).unwrap();
        assert_eq!(*out, term);
    }
}

#[test]
fn literals_convert_on_a_fresh_normalizer_by_their_value() {
    let cases = [
        (Value::Int(3), Value::Int(3), true),
        (Value::Int(3), Value::Int(4), false),
        (Value::Unit, Value::Int(4), false),
        (Value::Hole(9), Value::Int(4), true),
        (Value::Str("a".to_string()), Value::Str("a".to_string()), true),
        (Value::Str("a".to_string()), Value::Str("b".to_string()), false),
    ];
    for (lhs, rhs, expected) in cases {
        let mut nbe = Normalizer::new();
        let verdict = nbe.converts(&Rc::new(lhs.clone()), &Rc::new(rhs.clone()));
        assert_eq!(verdict, expected, "{lhs:?} against {rhs:?}");
    }
}

#[test]
fn type_conversion_decides_atoms_and_formers_from_their_heads() {
    let mut nbe = Normalizer::new();
    let a = ValueType::Atom("a".to_string());
    let b = ValueType::Atom("b".to_string());
    assert!(nbe.type_converts(&a, &a.clone()));
    assert!(!nbe.type_converts(&a, &b));
    assert!(!nbe.type_converts(&a, &ValueType::Unit));
    assert!(nbe.type_converts(&ValueType::Unknown, &b));
    assert!(nbe.type_converts(&ValueType::Unit, &ValueType::Unit));
}

#[test]
fn forcing_a_defined_name_unfolds_to_a_fresh_value() {
    let mut nbe = Normalizer::new();
    nbe.define("five", &Value::Int(5)).unwrap();
    let name = evaluate(&mut nbe, &Value::var("five"));
    let unfolded = force_value(&mut nbe, name, ForceMode::Unfold).unwrap();
    assert_ne!(unfolded, name);
    assert!(matches!(value_node(&nbe, unfolded).unwrap(), SemValueNode::Int(5)));
    let kept = force_value(&mut nbe, name, ForceMode::WeakHead).unwrap();
    assert_eq!(kept, name);
    let free = evaluate(&mut nbe, &Value::var("undefined"));
    assert_eq!(force_value(&mut nbe, free, ForceMode::Unfold).unwrap(), free);
}

#[test]
fn evaluating_an_abstraction_or_a_hole_needs_only_room() {
    let mut nbe = Normalizer::new();
    let abs = nbe.syntax.alloc_comp(&Comp::Abs("x".to_string(), None, Rc::new(Comp::ret(Value::var("x"))))).unwrap();
    let evaluated = eval_comp(&mut nbe, SemArena::empty_env(), abs).unwrap();
    assert!(matches!(nbe.arena.comp(evaluated).unwrap().node(), SemCompNode::Lambda(_)));
    let hole = nbe.syntax.alloc_comp(&Comp::Hole(3)).unwrap();
    let stuck = eval_comp(&mut nbe, SemArena::empty_env(), hole).unwrap();
    assert!(matches!(nbe.arena.comp(stuck).unwrap().node(), SemCompNode::Neutral(_)));
}

#[test]
fn conversion_is_reflexive_on_a_reducible_term() {
    let mut nbe = Normalizer::new();
    let proj = Value::Thunk(
        Grade::one(),
        Rc::new(Comp::Ret(Rc::new(Value::Pair(Rc::new(Value::Int(4)), Rc::new(Value::Unit))))),
    );
    let term = Rc::new(proj);
    assert!(nbe.converts(&term, &term.clone()));
    assert!(nbe.converts(&term, &term.clone()), "a second call on the same normalizer");
}

#[test]
fn ground_terms_that_agree_up_to_holes_convert() {
    let mut nbe = Normalizer::new();
    let left = Rc::new(Value::Pair(Rc::new(Value::Int(1)), Rc::new(Value::Hole(0))));
    let right = Rc::new(Value::Pair(Rc::new(Value::Int(1)), Rc::new(Value::Int(2))));
    assert!(nbe.converts(&left, &right));
    let xs = Rc::new(Value::List(vec![Rc::new(Value::Int(1)), Rc::new(Value::Hole(1))]));
    let ys = Rc::new(Value::List(vec![Rc::new(Value::Int(1)), Rc::new(Value::Unit)]));
    assert!(nbe.converts(&xs, &ys));
    let zs = Rc::new(Value::List(vec![Rc::new(Value::Int(2)), Rc::new(Value::Unit)]));
    assert!(!nbe.converts(&ys, &zs));
}

#[test]
fn normalizing_nested_inert_terms_succeeds() {
    let mut nbe = Normalizer::new();
    let term = Value::List(vec![
        Rc::new(Value::Pair(Rc::new(Value::Int(1)), Rc::new(Value::Str(String::from("a"))))),
        Rc::new(Value::Inj(Side::Fst, Rc::new(Value::Hole(2)))),
    ]);
    let out = nbe.normalize(&term).unwrap();
    assert_eq!(*out, term);
}
