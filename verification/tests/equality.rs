use std::rc::Rc;

use gandr_core_checker::equality::comp_eq;
use gandr_core_checker::equality::value_eq;
use gandr_core_checker::equality::value_type_eq;
use gandr_core_checker::prim::order::native_uniq;
use gandr_core_checker::syntax::Comp;
use gandr_core_checker::syntax::Value;
use gandr_core_checker::types::Grade;
use gandr_core_checker::types::ValueType;

fn thunk(binder: &str) -> Rc<Value> {
    Rc::new(Value::Thunk(
        Grade::Omega,
        Rc::new(Comp::Abs(binder.to_string(), None, Rc::new(Comp::Ret(Rc::new(Value::var(binder)))))),
    ))
}

#[test]
fn equal_structures_are_the_same() {
    let a = Value::Pair(Rc::new(Value::Int(1)), Rc::new(Value::List(vec![Rc::new(Value::Unit)])));
    let b = Value::Pair(Rc::new(Value::Int(1)), Rc::new(Value::List(vec![Rc::new(Value::Unit)])));
    assert!(value_eq(&a, &b, 100));
}

#[test]
fn binder_names_and_ascriptions_count() {
    assert!(!value_eq(&thunk("x"), &thunk("y"), 100));
    assert!(value_eq(&thunk("x"), &thunk("x"), 100));
    let bare = Value::Int(1);
    let ascribed = Value::Annot(Rc::new(Value::Int(1)), Rc::new(ValueType::Unknown));
    assert!(!value_eq(&bare, &ascribed, 100));
    let typed = Comp::Abs("x".to_string(), Some(Rc::new(ValueType::Unit)), Rc::new(Comp::Hole(0)));
    let untyped = Comp::Abs("x".to_string(), None, Rc::new(Comp::Hole(0)));
    assert!(!comp_eq(&typed, &untyped, 100));
}

#[test]
fn comparison_stops_at_its_depth() {
    let nested = Value::Pair(Rc::new(Value::Unit), Rc::new(Value::Unit));
    assert!(value_eq(&nested, &nested, 2));
    assert!(!value_eq(&nested, &nested, 1));
    assert!(!value_type_eq(&ValueType::Unit, &ValueType::Unit, 0));
}

#[test]
fn uniq_keeps_alpha_variants_apart() {
    let items = Rc::new(Value::List(vec![thunk("x"), thunk("y"), thunk("x")]));
    assert_eq!(
        native_uniq(&[items]),
        Comp::Ret(Rc::new(Value::List(vec![thunk("x"), thunk("y")])))
    );
}
