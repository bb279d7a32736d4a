use gandr_core_checker::mark::Boundary;
use gandr_core_checker::mark::Mark;
use gandr_core_checker::mark::MarkNodeId;
use gandr_core_checker::mark::Marking;
use gandr_core_checker::mark::NodeFacts;
use gandr_core_checker::store::CompNodeId;
use gandr_core_checker::store::StackNodeId;
use gandr_core_checker::store::ValueNodeId;
use gandr_core_checker::types::CompType;
use gandr_core_checker::types::Grade;
use gandr_core_checker::types::Ty;
use gandr_core_checker::types::ValueType;

fn unit() -> Ty {
    Ty::Value(ValueType::Unit)
}

fn facts(marks: Vec<Mark>) -> NodeFacts {
    NodeFacts { analyzed: None, synthesized: Some(unit()), marks, dirty: false }
}

fn hole_mark(id: u64) -> Mark {
    Mark::EmptyHole(id)
}

fn free(name: &str) -> Mark {
    Mark::FreeVariable { name: name.to_string() }
}

#[test]
fn only_the_empty_hole_is_not_an_error() {
    assert!(!hole_mark(3).is_error());
    assert!(free("x").is_error());
    assert!(Mark::Stuck { hint: "annotate the binder" }.is_error());
    assert!(Mark::Thunkability { available: Grade::Fin(0) }.is_error());
    assert!(Mark::GradeBudget { required: Grade::Omega, available: Grade::Fin(1) }.is_error());
    let boundary = Boundary::new(unit(), Ty::Comp(CompType::Unknown));
    assert_eq!(boundary.expected, unit());
    assert_eq!(boundary.actual, Ty::Comp(CompType::Unknown));
    assert!(Mark::TypeMismatch(boundary.clone()).is_error());
    assert!(Mark::EffectRowMismatch(boundary).is_error());
}

#[test]
fn node_facts_report_error_marks_only() {
    assert!(!facts(vec![]).has_error());
    assert!(!facts(vec![hole_mark(0), hole_mark(1)]).has_error());
    assert!(facts(vec![hole_mark(0), free("y")]).has_error());
}

#[test]
fn a_fresh_marking_is_empty() {
    let marking = Marking::new(unit());
    assert!(marking.is_empty());
    assert_eq!(marking.len(), 0);
    assert_eq!(marking.root_type(), &unit());
    assert!(marking.get(MarkNodeId::Value(ValueNodeId(0))).is_none());
    assert!(!marking.has_errors());
}

#[test]
fn recorded_facts_are_found_by_id_and_by_path() {
    let mut marking = Marking::new(unit());
    let id = MarkNodeId::Comp(CompNodeId(4));
    marking.record(vec![0, 1], id, facts(vec![free("z")]));
    assert_eq!(marking.get(id), Some(&facts(vec![free("z")])));
    assert_eq!(marking.get_compat_path(&[0, 1]), Some(&facts(vec![free("z")])));
    assert_eq!(marking.get_compat_path(&[0]), None);
    assert_eq!(marking.len(), 1);
    assert!(marking.has_errors());
}

#[test]
fn iteration_follows_stable_id_order() {
    let mut marking = Marking::new(unit());
    marking.record(vec![2], MarkNodeId::Stack(StackNodeId(0)), facts(vec![]));
    marking.record(vec![1], MarkNodeId::Comp(CompNodeId(9)), facts(vec![]));
    marking.record(vec![0], MarkNodeId::Value(ValueNodeId(7)), facts(vec![]));
    marking.record(vec![0, 0], MarkNodeId::Value(ValueNodeId(2)), facts(vec![]));
    let ids: Vec<MarkNodeId> = marking.iter().iter().map(|(id, _)| *id).collect();
    assert_eq!(
        ids,
        vec![
            MarkNodeId::Value(ValueNodeId(2)),
            MarkNodeId::Value(ValueNodeId(7)),
            MarkNodeId::Comp(CompNodeId(9)),
            MarkNodeId::Stack(StackNodeId(0)),
        ]
    );
    let paths: Vec<Vec<u32>> = marking.compatibility_paths().iter().map(|(p, _)| p.clone()).collect();
    assert_eq!(paths, vec![vec![0], vec![0, 0], vec![1], vec![2]]);
}

#[test]
fn recording_an_id_again_replaces_its_facts() {
    let mut marking = Marking::new(unit());
    let id = MarkNodeId::Value(ValueNodeId(1));
    marking.record(vec![0], id, facts(vec![free("a")]));
    marking.record(vec![0], id, facts(vec![hole_mark(5)]));
    assert_eq!(marking.len(), 1);
    assert_eq!(marking.get(id), Some(&facts(vec![hole_mark(5)])));
    assert!(!marking.has_errors());
}

#[test]
fn a_shared_path_resolves_to_the_last_recorded_id() {
    let mut marking = Marking::new(unit());
    let first = MarkNodeId::Value(ValueNodeId(1));
    let second = MarkNodeId::Value(ValueNodeId(2));
    marking.record(vec![3], first, facts(vec![]));
    marking.record(vec![3], second, facts(vec![free("w")]));
    assert_eq!(marking.len(), 2);
    assert_eq!(marking.compatibility_paths().len(), 1);
    assert_eq!(marking.get_compat_path(&[3]), Some(&facts(vec![free("w")])));
}

#[test]
fn marks_and_errors_list_pairs_in_id_then_mark_order() {
    let mut marking = Marking::new(unit());
    let late = MarkNodeId::Comp(CompNodeId(0));
    let early = MarkNodeId::Value(ValueNodeId(5));
    marking.record(vec![1], late, facts(vec![free("b"), hole_mark(2)]));
    marking.record(vec![0], early, facts(vec![hole_mark(1), free("a")]));
    let marks: Vec<(MarkNodeId, Mark)> =
        marking.marks().into_iter().map(|(id, m)| (id, m.clone())).collect();
    assert_eq!(
        marks,
        vec![(early, hole_mark(1)), (early, free("a")), (late, free("b")), (late, hole_mark(2))]
    );
    let errors: Vec<(MarkNodeId, Mark)> =
        marking.errors().into_iter().map(|(id, m)| (id, m.clone())).collect();
    assert_eq!(errors, vec![(early, free("a")), (late, free("b"))]);
}
