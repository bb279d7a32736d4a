use gandr_core_checker::kernel_bridge::BridgeRejection;

#[test]
fn every_rejection_has_a_stable_exclusion_class() {
    for (rejection, class) in [
        (BridgeRejection::UnboundName(String::new()), "open-free-name"),
        (BridgeRejection::ValueHole, "hole-unknown"),
        (BridgeRejection::Perform, "effects-control"),
        (BridgeRejection::Native, "native"),
        (BridgeRejection::DataType, "declared-data"),
        (BridgeRejection::ListType, "structural-stock"),
        (BridgeRejection::SigmaType, "sigma-split"),
        (BridgeRejection::PathType, "identity"),
        (BridgeRejection::UniverseType, "universe"),
        (BridgeRejection::MachineNumericLiteral, "machine-numeric"),
    ] {
        assert_eq!(rejection.exclusion_class(), class, "{rejection:?} belongs to the {class} class");
    }
}

use std::rc::Rc;

use gandr_core_checker::kernel_bridge::lower_comp;
use gandr_core_checker::kernel_bridge::lower_comp_type;
use gandr_core_checker::kernel_bridge::lower_computation_definition;
use gandr_core_checker::kernel_bridge::lower_value;
use gandr_core_checker::kernel_bridge::lower_value_definition;
use gandr_core_checker::kernel_bridge::lower_value_type;
use gandr_core_checker::kernel_bridge::BaseType;
use gandr_core_checker::kernel_bridge::BridgeContext;
use gandr_core_checker::kernel_bridge::KernelComp;
use gandr_core_checker::kernel_bridge::KernelCompType;
use gandr_core_checker::kernel_bridge::KernelLiteral;
use gandr_core_checker::kernel_bridge::KernelValue;
use gandr_core_checker::kernel_bridge::KernelValueType;
use gandr_core_checker::prim::NativePrim;
use gandr_core_checker::syntax::Comp;
use gandr_core_checker::syntax::NumLit;
use gandr_core_checker::syntax::Value;
use gandr_core_checker::types::CompType;
use gandr_core_checker::types::DataId;
use gandr_core_checker::types::EffectSig;
use gandr_core_checker::types::Grade;
use gandr_core_checker::types::ValueType;

/// An empty naming environment (the closed-program case).
fn closed() -> BridgeContext {
    BridgeContext::new()
}

fn integer(n: i64) -> KernelValue {
    KernelValue::Literal(KernelLiteral::Integer { negative: n < 0, magnitude: n.unsigned_abs() })
}

#[test]
fn pair_of_literals_lowers() {
    let value = Value::Pair(Rc::new(Value::Int(1)), Rc::new(Value::string("hi")));
    assert_eq!(
        lower_value(&closed(), &value),
        Ok(KernelValue::Pair(
            Box::new(integer(1)),
            Box::new(KernelValue::Literal(KernelLiteral::Text(String::from("hi"))))
        )),
        "a pair of an integer and a string literal lowers into the S1 stock"
    );
}

#[test]
fn returning_a_literal_lowers() {
    let comp = Comp::Ret(Rc::new(Value::Int(7)));
    assert_eq!(
        lower_comp(&closed(), &comp),
        Ok(KernelComp::Return(Box::new(integer(7)))),
        "returning an integer literal lowers into the S1 stock"
    );
}

#[test]
fn returner_type_lowers() {
    let comp_type = CompType::returner(ValueType::integer());
    assert_eq!(
        lower_comp_type(&comp_type),
        Ok(KernelCompType::Returner(Box::new(KernelValueType::Base(BaseType::Integer)))),
        "the pure returner F Integer lowers"
    );
}

#[test]
fn product_type_lowers() {
    let value_type = ValueType::prod(ValueType::integer(), ValueType::string());
    assert_eq!(
        lower_value_type(&value_type),
        Ok(KernelValueType::Product(
            Box::new(KernelValueType::Base(BaseType::Integer)),
            Box::new(KernelValueType::Base(BaseType::String))
        )),
        "the product Integer × String lowers"
    );
}

#[test]
fn annotation_is_erased() {
    let annotated = Value::annot(Value::Int(1), ValueType::integer());
    assert_eq!(
        lower_value(&closed(), &annotated),
        Ok(integer(1)),
        "a type ascription is erased; `(1 : Integer)` lowers as the bare literal"
    );
    let shielding = Value::annot(Value::Hole(0), ValueType::integer());
    assert_eq!(
        lower_value(&closed(), &shielding),
        Err(BridgeRejection::ValueHole),
        "erasing the ascription still lowers its interior, so an inner hole rejects"
    );
}

#[test]
fn drop_erases_to_return_unit() {
    let thunk = Value::Thunk(Grade::omega(), Rc::new(Comp::Ret(Rc::new(Value::Unit))));
    let dropped = Comp::Drop(Rc::new(thunk));
    assert_eq!(
        lower_comp(&closed(), &dropped),
        Ok(KernelComp::Return(Box::new(KernelValue::Unit))),
        "drop erases to return ()"
    );
}

#[test]
fn dup_erases_to_return_pair() {
    let thunk = Value::Thunk(Grade::omega(), Rc::new(Comp::Ret(Rc::new(Value::Unit))));
    let duplicated = Comp::Dup(Rc::new(thunk));
    let image = || KernelValue::Thunk(Box::new(KernelComp::Return(Box::new(KernelValue::Unit))));
    assert_eq!(
        lower_comp(&closed(), &duplicated),
        Ok(KernelComp::Return(Box::new(KernelValue::Pair(Box::new(image()), Box::new(image()))))),
        "dup erases to return (v, v)"
    );
}

#[test]
fn a_bound_variable_resolves_to_a_de_bruijn_index() {
    let lambda = Comp::Abs("x".to_owned(), None, Rc::new(Comp::Ret(Rc::new(Value::var("x")))));
    assert_eq!(
        lower_comp(&closed(), &lambda),
        Ok(KernelComp::Lambda(Box::new(KernelComp::Return(Box::new(KernelValue::Variable(0)))))),
        "a lambda-bound variable resolves to a de Bruijn index"
    );
}

#[test]
fn a_free_name_is_unbound() {
    let free = Value::var("greeting");
    assert_eq!(
        lower_value(&closed(), &free),
        Err(BridgeRejection::UnboundName(String::from("greeting"))),
        "a free name with no binder and no constant mapping is unbound"
    );
}

#[test]
fn a_free_name_resolves_to_a_constant_when_mapped() {
    let context = BridgeContext::new().with_constant(String::from("first"), 0);
    let reference = Value::var("first");
    assert_eq!(
        lower_value(&context, &reference),
        Ok(KernelValue::Constant(0)),
        "a mapped free name lowers to a constant admission reference"
    );
}

#[test]
fn a_lowered_value_definition_admits() {
    let value = Value::Pair(Rc::new(Value::Int(1)), Rc::new(Value::Int(2)));
    let declared = ValueType::prod(ValueType::integer(), ValueType::integer());
    let (declared_id, body_id) = lower_value_definition(&closed(), &value, &declared).expect("lowers");
    assert_eq!(
        declared_id,
        KernelValueType::Product(
            Box::new(KernelValueType::Base(BaseType::Integer)),
            Box::new(KernelValueType::Base(BaseType::Integer))
        )
    );
    assert_eq!(body_id, KernelValue::Pair(Box::new(integer(1)), Box::new(integer(2))));
}

#[test]
fn a_lowered_computation_definition_admits() {
    let comp = Comp::Ret(Rc::new(Value::string("hello")));
    let declared = CompType::returner(ValueType::string());
    let (declared_id, body_id) =
        lower_computation_definition(&closed(), &comp, &declared).expect("lowers");
    assert_eq!(
        declared_id,
        KernelValueType::Thunk(Box::new(KernelCompType::Returner(Box::new(KernelValueType::Base(
            BaseType::String
        )))))
    );
    assert_eq!(
        body_id,
        KernelValue::Thunk(Box::new(KernelComp::Return(Box::new(KernelValue::Literal(
            KernelLiteral::Text(String::from("hello"))
        )))))
    );
}

#[test]
fn a_constant_reference_across_declarations_admits() {
    let (first_type, first_body) =
        lower_value_definition(&closed(), &Value::Unit, &ValueType::Unit).expect("the first definition lowers");
    assert_eq!(first_type, KernelValueType::Unit);
    assert_eq!(first_body, KernelValue::Unit);
    let context = BridgeContext::new().with_constant(String::from("first"), 0);
    let reference = Value::var("first");
    let (_, body) = lower_value_definition(&context, &reference, &ValueType::Unit)
        .expect("the reference lowers to a constant");
    assert_eq!(body, KernelValue::Constant(0));
}

#[test]
fn hole_unknown_class_rejects_exactly() {
    assert_eq!(lower_value(&closed(), &Value::Hole(0)), Err(BridgeRejection::ValueHole));
    assert_eq!(lower_comp(&closed(), &Comp::Hole(0)), Err(BridgeRejection::ComputationHole));
    assert_eq!(lower_value_type(&ValueType::Unknown), Err(BridgeRejection::UnknownValueType));
    assert_eq!(lower_comp_type(&CompType::Unknown), Err(BridgeRejection::UnknownComputationType));
}

#[test]
fn effects_control_class_rejects_exactly() {
    let reset = Comp::Reset(Rc::new(Comp::Ret(Rc::new(Value::Unit))));
    assert_eq!(lower_comp(&closed(), &reset), Err(BridgeRejection::Reset));
    let perform = Comp::Perform(
        Rc::new(EffectSig::new("E".into(), Vec::new())),
        String::from("op"),
        Rc::new(Value::Unit),
    );
    assert_eq!(lower_comp(&closed(), &perform), Err(BridgeRejection::Perform));
}

#[test]
fn native_class_rejects_exactly() {
    let native = Comp::Native { prim: NativePrim::RecordUpdate, args: Vec::new() };
    assert_eq!(lower_comp(&closed(), &native), Err(BridgeRejection::Native));
}

#[test]
fn declared_data_class_rejects_exactly() {
    let ctor = Value::Ctor {
        id: DataId { serial: 0, name: String::from("Maybe") },
        tag: 0,
        payload: Rc::new(Value::Unit),
    };
    assert_eq!(lower_value(&closed(), &ctor), Err(BridgeRejection::DataConstructor));
}

#[test]
fn structural_stock_class_rejects_exactly() {
    assert_eq!(lower_value(&closed(), &Value::List(Vec::new())), Err(BridgeRejection::ListValue));
    assert_eq!(lower_value(&closed(), &Value::Record(Vec::new())), Err(BridgeRejection::RecordValue));
}

#[test]
fn sigma_split_class_rejects_exactly() {
    let sigma = ValueType::Sigma {
        fst: Rc::new(ValueType::Unit),
        binder: String::from("x"),
        snd: Rc::new(ValueType::Unit),
    };
    assert_eq!(lower_value_type(&sigma), Err(BridgeRejection::SigmaType));
}

#[test]
fn identity_class_rejects_exactly() {
    let here = Value::Here(Rc::new(Value::Unit));
    assert_eq!(lower_value(&closed(), &here), Err(BridgeRejection::HereProof));
}

#[test]
fn universe_class_rejects_exactly() {
    assert_eq!(lower_value_type(&ValueType::Universe), Err(BridgeRejection::UniverseType));
}

#[test]
fn machine_numeric_class_rejects_exactly() {
    assert_eq!(
        lower_value(&closed(), &Value::Num(NumLit::U32(1))),
        Err(BridgeRejection::MachineNumericLiteral)
    );
    assert_eq!(
        lower_value_type(&ValueType::Atom(String::from("u64"))),
        Err(BridgeRejection::UnsupportedBaseAtom(String::from("u64")))
    );
}

#[test]
fn the_first_out_of_stock_former_is_the_one_refused() {
    let both = ValueType::prod(ValueType::Universe, ValueType::Unknown);
    assert_eq!(lower_value_type(&both), Err(BridgeRejection::UniverseType));
    let nested = Comp::Abs(
        "x".to_owned(),
        None,
        Rc::new(Comp::Ret(Rc::new(Value::Pair(Rc::new(Value::var("x")), Rc::new(Value::var("y")))))),
    );
    assert_eq!(lower_comp(&closed(), &nested), Err(BridgeRejection::UnboundName(String::from("y"))));
}

#[test]
fn a_shadowing_binder_is_the_innermost_index() {
    let inner = Comp::Abs(
        "x".to_owned(),
        None,
        Rc::new(Comp::Abs(
            "y".to_owned(),
            None,
            Rc::new(Comp::Ret(Rc::new(Value::Pair(Rc::new(Value::var("x")), Rc::new(Value::var("y")))))),
        )),
    );
    assert_eq!(
        lower_comp(&closed(), &inner),
        Ok(KernelComp::Lambda(Box::new(KernelComp::Lambda(Box::new(KernelComp::Return(Box::new(
            KernelValue::Pair(Box::new(KernelValue::Variable(1)), Box::new(KernelValue::Variable(0)))
        )))))))
    );
    assert_eq!(
        lower_value(&closed(), &Value::Int(-12)),
        Ok(KernelValue::Literal(KernelLiteral::Integer { negative: true, magnitude: 12 }))
    );
}
