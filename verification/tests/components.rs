use std::rc::Rc;

use gandr_core_checker::nominal::GandrSort;
use gandr_core_checker::prim::NativePrim;
use gandr_core_checker::stack::arrow_components;
use gandr_core_checker::stack::returner_components;
use gandr_core_checker::stack::stk_components;
use gandr_core_checker::stack::with_component;
use gandr_core_checker::stack::Shape;
use gandr_core_checker::stack::TypeError;
use gandr_core_checker::syntax::Side;
use gandr_core_checker::types::CompType;
use gandr_core_checker::types::EffectRow;
use gandr_core_checker::types::Ty;
use gandr_core_checker::types::ValueType;

fn returner(of: ValueType) -> CompType {
    CompType::F(Rc::new(of), Rc::new(EffectRow::empty()))
}

#[test]
fn an_arrow_splits_into_argument_and_result() {
    let arrow = CompType::Arrow(Rc::new(ValueType::Unit), Rc::new(returner(ValueType::Unit)));
    assert_eq!(arrow_components(arrow), Ok((ValueType::Unit, returner(ValueType::Unit))));
    assert_eq!(arrow_components(CompType::Unknown), Ok((ValueType::Unknown, CompType::Unknown)));
    assert_eq!(
        arrow_components(returner(ValueType::Unit)),
        Err(TypeError::ShapeMismatch {
            expected: Shape::Arrow,
            actual: Ty::Comp(returner(ValueType::Unit)),
        })
    );
}

#[test]
fn a_returner_splits_into_payload_and_row() {
    let (payload, row) = returner_components(returner(ValueType::Unit)).unwrap();
    assert_eq!(payload, ValueType::Unit);
    assert!(row.labels.is_empty());
    let (payload, row) = returner_components(CompType::Unknown).unwrap();
    assert_eq!(payload, ValueType::Unknown);
    assert!(row.labels.is_empty());
    assert!(returner_components(CompType::Unknown).is_ok());
    assert!(matches!(
        returner_components(CompType::Arrow(Rc::new(ValueType::Unit), Rc::new(CompType::Unknown))),
        Err(TypeError::ShapeMismatch { expected: Shape::Returner, .. })
    ));
}

#[test]
fn a_lazy_product_projects_the_chosen_side() {
    let with = CompType::With(Rc::new(returner(ValueType::Unit)), Rc::new(CompType::Unknown));
    assert_eq!(with_component(with.clone(), Side::Fst), Ok(returner(ValueType::Unit)));
    assert_eq!(with_component(with, Side::Snd), Ok(CompType::Unknown));
    assert_eq!(with_component(CompType::Unknown, Side::Fst), Ok(CompType::Unknown));
    assert!(matches!(
        with_component(returner(ValueType::Unit), Side::Fst),
        Err(TypeError::ShapeMismatch { expected: Shape::With, .. })
    ));
}

#[test]
fn a_stack_type_splits_into_what_it_consumes_and_delivers() {
    let stk = ValueType::Stk(Rc::new(CompType::Unknown), Rc::new(returner(ValueType::Unit)));
    assert_eq!(stk_components(stk), Ok((CompType::Unknown, returner(ValueType::Unit))));
    assert_eq!(stk_components(ValueType::Unknown), Ok((CompType::Unknown, CompType::Unknown)));
    assert_eq!(
        stk_components(ValueType::Unit),
        Err(TypeError::ShapeMismatch { expected: Shape::Stk, actual: Ty::Value(ValueType::Unit) })
    );
}

#[test]
fn only_solver_sorts_are_unifiable() {
    assert!(!GandrSort::ContKey.is_unifiable());
    assert!(!GandrSort::TmpHoist.is_unifiable());
    assert!(!GandrSort::HoleAddr.is_unifiable());
    assert!(GandrSort::TyVar.is_unifiable());
    assert!(GandrSort::GradeVar.is_unifiable());
}

#[test]
fn residual_types_peel_one_arrow_per_argument() {
    assert_eq!(NativePrim::Add.arity(), 2);
    let declared = NativePrim::Add.declared_type();
    assert_eq!(NativePrim::Add.residual_type(0), declared);
    match NativePrim::Add.residual_type(1) {
        CompType::Arrow(arg, res) => {
            assert_eq!(*arg, ValueType::Unknown);
            assert!(matches!(*res, CompType::F(_, _)));
        },
        other => panic!("expected an arrow, found {other:?}"),
    }
    assert!(matches!(NativePrim::Add.residual_type(2), CompType::F(_, _)));
    assert!(matches!(NativePrim::Add.residual_type(5), CompType::F(_, _)));
    assert_eq!(NativePrim::Reduce.arity(), 3);
    assert_eq!(NativePrim::Id.arity(), 1);
}
