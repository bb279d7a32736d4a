use std::rc::Rc;

use gandr_core_checker::prim::NativePrim;
use gandr_core_checker::store::FlatArena;
use gandr_core_checker::store::StoreError;
use gandr_core_checker::store::ValueNodeId;
use gandr_core_checker::syntax::Branch;
use gandr_core_checker::syntax::Comp;
use gandr_core_checker::syntax::FieldValue;
use gandr_core_checker::syntax::OpClause;
use gandr_core_checker::syntax::Side;
use gandr_core_checker::syntax::Stack;
use gandr_core_checker::syntax::Value;
use gandr_core_checker::types::EffectSig;
use gandr_core_checker::types::Grade;
use gandr_core_checker::types::ValueType;

fn rich_value() -> Value {
    Value::Pair(
        Rc::new(Value::List(vec![Rc::new(Value::Int(1)), Rc::new(Value::Str("two".to_string()))])),
        Rc::new(Value::Record(vec![
            FieldValue { label: "a".to_string(), value: Rc::new(Value::Unit) },
            FieldValue {
                label: "b".to_string(),
                value: Rc::new(Value::Inj(Side::Snd, Rc::new(Value::Hole(3)))),
            },
        ])),
    )
}

fn rich_comp() -> Comp {
    let arm = |x: &str| Branch { binder: x.to_string(), body: Rc::new(Comp::Ret(Rc::new(Value::var(x)))) };
    Comp::Handle {
        sig: Rc::new(EffectSig::new("State".to_string(), Vec::new())),
        scrutinee: Rc::new(Comp::Case(Rc::new(Value::var("s")), arm("l"), arm("r"))),
        ret: arm("done"),
        ops: vec![OpClause {
            op: "get".to_string(),
            payload: "p".to_string(),
            resume: "k".to_string(),
            body: Rc::new(Comp::Native {
                prim: NativePrim::Add,
                args: vec![Rc::new(Value::Int(1)), Rc::new(Value::var("p"))],
            }),
        }],
    }
}

#[test]
fn a_lowered_value_reads_back_as_written() {
    let mut store = FlatArena::new();
    let term = rich_value();
    let id = store.alloc_value(&term).unwrap();
    assert_eq!(store.value(id).unwrap(), term);
}

#[test]
fn a_lowered_computation_reads_back_as_written() {
    let mut store = FlatArena::new();
    let term = rich_comp();
    let id = store.alloc_comp(&term).unwrap();
    assert_eq!(store.comp(id).unwrap(), term);
}

#[test]
fn a_thunked_body_and_a_reified_stack_read_back_as_written() {
    let mut store = FlatArena::new();
    let stack = Stack::Bind(
        "x".to_string(),
        Rc::new(Comp::Ret(Rc::new(Value::var("x")))),
        Rc::new(Stack::Arg(Rc::new(Value::Unit), Rc::new(Stack::Empty))),
    );
    let term = Value::Pair(
        Rc::new(Value::Thunk(Grade::Omega, Rc::new(rich_comp()))),
        Rc::new(Value::Annot(Rc::new(Value::Stk(Rc::new(stack))), Rc::new(ValueType::Unknown))),
    );
    let id = store.alloc_value(&term).unwrap();
    assert_eq!(store.value(id).unwrap(), term);
}

#[test]
fn earlier_roots_survive_later_lowering() {
    let mut store = FlatArena::new();
    let first = store.alloc_value(&rich_value()).unwrap();
    let before = store.len();
    let _second = store.alloc_comp(&rich_comp()).unwrap();
    assert!(store.len() > before);
    assert_eq!(store.value(first).unwrap(), rich_value());
}

#[test]
fn reading_a_handle_the_store_never_minted_is_refused() {
    let store = FlatArena::new();
    assert_eq!(store.value(ValueNodeId(0)), Err(StoreError::Missing(0)));
}
