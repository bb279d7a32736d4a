use std::rc::Rc;

use gandr_core_checker::nbe::conv::converts_values;
use gandr_core_checker::nbe::defs::Transparency;
use gandr_core_checker::nbe::eval::eval_value;
use gandr_core_checker::nbe::eval::force_value;
use gandr_core_checker::nbe::eval::ForceMode;
use gandr_core_checker::nbe::intern::canonical_key;
use gandr_core_checker::nbe::intern::Face;
use gandr_core_checker::nbe::quote::quote_value;
use gandr_core_checker::nbe::quote::QuoteMode;
use gandr_core_checker::nbe::sem::mix_word;
use gandr_core_checker::nbe::sem::seed;
use gandr_core_checker::nbe::sem::CompUnfold;
use gandr_core_checker::nbe::sem::Elim;
use gandr_core_checker::nbe::sem::Guard;
use gandr_core_checker::nbe::sem::Neutral;
use gandr_core_checker::nbe::sem::NeutralHead;
use gandr_core_checker::nbe::sem::Rigid;
use gandr_core_checker::nbe::sem::SemArena;
use gandr_core_checker::nbe::sem::SemValue;
use gandr_core_checker::nbe::sem::SemValueNode;
use gandr_core_checker::nbe::sem::ValueUnfold;
use gandr_core_checker::nbe::Normalizer;
use gandr_core_checker::store::ValueNodeId;
use gandr_core_checker::syntax::Branch;
use gandr_core_checker::syntax::Comp;
use gandr_core_checker::syntax::FieldValue;
use gandr_core_checker::syntax::Side;
use gandr_core_checker::syntax::Value;
use gandr_core_checker::syntax::WalkBase;
use gandr_core_checker::syntax::WalkMotive;
use gandr_core_checker::types::CompType;
use gandr_core_checker::types::EffectSig;
use gandr_core_checker::types::FieldType;
use gandr_core_checker::types::Grade;
use gandr_core_checker::types::ValueType;

/// Wraps a computation as the thunk value the value-level entry points take.
fn thunk(body: Comp) -> Rc<Value> {
    Rc::new(Value::Thunk(Grade::one(), Rc::new(body)))
}

/// A source variable.
fn var(name: &str) -> Rc<Value> {
    Rc::new(Value::var(name))
}

/// An integer literal.
fn lit(literal: i64) -> Rc<Value> {
    Rc::new(Value::Int(literal))
}

/// A record literal over the given labelled fields, ordered by label.
fn record(fields: &[(&str, Rc<Value>)]) -> Rc<Value> {
    let mut fields: Vec<FieldValue> = fields
        .iter()
        .map(|(label, value)| FieldValue { label: label.to_string(), value: Rc::clone(value) })
        .collect();
    fields.sort_by(|a, b| a.label.cmp(&b.label));
    Rc::new(Value::Record(fields))
}

/// Lowers a caller's term into the normalizer's syntax store.
fn lower(nbe: &mut Normalizer, term: &Value) -> ValueNodeId {
    nbe.lower_input(term).expect("lowering must succeed")
}

/// The trivial effect signature the quarantine tests perform against.
fn signature() -> EffectSig {
    EffectSig::new(String::from("State"), Vec::new())
}

fn branch(binder: &str, body: Comp) -> Branch {
    Branch { binder: binder.to_string(), body: Rc::new(body) }
}

#[test]
fn guard_settles_distinct_only_for_rigid_hole_free_pairs() {
    let one = Guard::leaf(seed(1));
    let two = Guard::leaf(seed(2));
    assert!(one.settles_distinct(two));
    assert!(!one.settles_distinct(one));
    assert!(!one.with_unfolding().settles_distinct(two));
    assert!(!one.with_hole().settles_distinct(two));
}

#[test]
fn guard_folding_propagates_holes_and_unfolding() {
    let plain = Guard::leaf(seed(1));
    let holed = plain.with_hole();
    let opaque = plain.with_unfolding();
    assert!(plain.fold(holed).holes());
    assert!(!plain.fold(opaque).rigid());
    assert!(plain.fold(plain).rigid());
    assert!(plain.fold(plain).depth() > plain.depth());
}

#[test]
fn extending_a_glued_spine_reopens_the_unfolding_face() {
    let mut nbe = Normalizer::new();
    let node = lower(&mut nbe, &var("f"));
    let head = eval_value(&mut nbe, SemArena::empty_env(), node).unwrap();
    let rigid = Neutral::new(NeutralHead::Force(head), CompUnfold::Rigid);
    assert_eq!(rigid.extended(Elim::Project(Side::Fst), None).unfold(), CompUnfold::Rigid);
    let height = 3;
    let glued = Neutral::new(NeutralHead::Force(head), CompUnfold::Pending(height));
    let grown = glued.extended(Elim::Project(Side::Fst), Some(height));
    assert_eq!(grown.unfold(), CompUnfold::Pending(height));
    assert_eq!(grown.spine_len(), 1);
}

#[test]
fn truncating_to_a_watermark_drops_every_family() {
    let mut nbe = Normalizer::new();
    let term = thunk(Comp::app(Comp::lam("x", Comp::ret(Value::Unit)), Value::Unit));
    let node = lower(&mut nbe, &term);
    let mark = nbe.watermark();
    let evaluated = eval_value(&mut nbe, SemArena::empty_env(), node).unwrap();
    let _forced = force_value(&mut nbe, evaluated, ForceMode::Unfold).unwrap();
    assert_ne!(nbe.watermark(), mark);
    nbe.truncate_to(mark);
    assert_eq!(nbe.watermark(), mark);
}

#[test]
fn an_arena_id_resolves_only_while_it_is_live() {
    let mut nbe = Normalizer::new();
    let node = lower(&mut nbe, &lit(1));
    let mark = nbe.watermark();
    let evaluated = eval_value(&mut nbe, SemArena::empty_env(), node).unwrap();
    assert!(nbe.arena().value(evaluated).is_ok());
    nbe.truncate_to(mark);
    assert!(nbe.arena().value(evaluated).is_err());
}

#[test]
fn definition_height_is_one_above_what_the_body_mentions() {
    let mut nbe = Normalizer::new();
    nbe.define("a", &lit(1)).unwrap();
    let base = nbe.definitions().lookup("a").unwrap().height();
    assert_eq!(base, 1);
    nbe.define("b", &Value::Pair(var("a"), lit(2))).unwrap();
    assert_eq!(nbe.definitions().lookup("b").unwrap().height(), 2);
    nbe.define("c", &lit(3)).unwrap();
    assert_eq!(nbe.definitions().lookup("c").unwrap().height(), 1);
}

#[test]
fn a_nested_scope_shadows_and_then_releases() {
    let mut nbe = Normalizer::new();
    nbe.define("a", &lit(1)).unwrap();
    let outer = nbe.definitions().lookup("a").unwrap().body();
    nbe.definitions_mut().open_scope();
    nbe.define("a", &lit(2)).unwrap();
    let inner = nbe.definitions().lookup("a").unwrap().body();
    assert_ne!(outer, inner);
    assert_eq!(*nbe.reify(inner).unwrap(), Value::Int(2));
    nbe.definitions_mut().close_scope();
    assert_eq!(nbe.definitions().lookup("a").unwrap().body(), outer);
    nbe.definitions_mut().close_scope();
    assert_eq!(nbe.definitions().depth(), 1);
}

#[test]
fn interning_shares_alpha_equivalent_terms_within_a_face() {
    let mut nbe = Normalizer::new();
    let first = thunk(Comp::lam("x", Comp::ret(Value::var("x"))));
    let second = thunk(Comp::lam("y", Comp::ret(Value::var("y"))));
    let canonical = lower(&mut nbe, &first);
    let again = lower(&mut nbe, &second);
    assert_eq!(canonical, again);
    let other = lower(&mut nbe, &thunk(Comp::lam("x", Comp::ret(Value::Unit))));
    assert_ne!(canonical, other);
    assert_eq!(nbe.interner().len(Face::ElaborationInput), 2);
}

#[test]
fn interning_keeps_the_two_faces_disjoint() {
    let mut nbe = Normalizer::new();
    let term = thunk(Comp::ret(Value::Int(1)));
    let input = lower(&mut nbe, &term);
    let fresh = nbe.syntax_mut().alloc_value(&term).unwrap();
    let readback = nbe.intern_readback(fresh);
    assert_ne!(input, readback);
    assert_eq!(canonical_key(nbe.syntax(), input), canonical_key(nbe.syntax(), readback));
    assert_eq!(nbe.interner().len(Face::ElaborationInput), 1);
    assert_eq!(nbe.interner().len(Face::ReadbackNormalForm), 1);
}

#[test]
fn normalize_node_interns_a_canonical_form_not_the_input() {
    let mut nbe = Normalizer::new();
    let term = thunk(Comp::lam("x", Comp::ret(Value::var("x"))));
    let input = lower(&mut nbe, &term);
    let normal = nbe.normalize_node(&term).unwrap();
    assert_ne!(input, normal, "the readback face took the input representative");
    assert_eq!(nbe.interner().len(Face::ElaborationInput), 1);
    assert_eq!(nbe.interner().len(Face::ReadbackNormalForm), 1);
    assert_eq!(
        canonical_key(nbe.syntax(), input),
        canonical_key(nbe.syntax(), normal),
        "the two faces should hold one alpha-key under two representatives"
    );
    let Value::Thunk(_, ref body) = *nbe.reify(normal).unwrap() else {
        panic!("normalizing a thunk did not produce one");
    };
    let Comp::Abs(ref binder, ..) = **body else {
        panic!("normalizing a lambda did not produce one");
    };
    assert_eq!(binder.as_str(), "\u{ab}0\u{bb}");
}

#[test]
fn evaluating_an_unreduced_value_retains_its_term_face() {
    let mut nbe = Normalizer::new();
    let term = Value::Pair(lit(1), var("free"));
    let node = lower(&mut nbe, &term);
    let evaluated = eval_value(&mut nbe, SemArena::empty_env(), node).unwrap();
    assert_eq!(nbe.arena().value(evaluated).unwrap().face().retained(), Some(node));
}

#[test]
fn evaluating_through_the_environment_drops_the_term_face() {
    let mut nbe = Normalizer::new();
    let bound = lower(&mut nbe, &lit(9));
    let bound = eval_value(&mut nbe, SemArena::empty_env(), bound).unwrap();
    let env = nbe.arena_mut().bind(SemArena::empty_env(), String::from("x"), bound).unwrap();
    let term = Value::Pair(lit(1), var("x"));
    let node = lower(&mut nbe, &term);
    let evaluated = eval_value(&mut nbe, env, node).unwrap();
    assert!(nbe.arena().value(evaluated).unwrap().face().retained().is_none());
}

#[test]
fn retained_readback_hands_back_the_source_term() {
    let mut nbe = Normalizer::new();
    let term = Value::Pair(lit(1), lit(2));
    let node = lower(&mut nbe, &term);
    let evaluated = eval_value(&mut nbe, SemArena::empty_env(), node).unwrap();
    let quoted = quote_value(&mut nbe, evaluated, QuoteMode::Retained).unwrap();
    assert_eq!(quoted, node, "the term face rebuilt instead of handing back");
}

#[test]
fn quote_after_eval_is_the_identity_on_inert_values() {
    let mut nbe = Normalizer::new();
    for term in [
        Rc::new(Value::Unit),
        lit(3),
        Rc::new(Value::Pair(lit(1), lit(2))),
        Rc::new(Value::Inj(Side::Snd, lit(4))),
        Rc::new(Value::List(vec![lit(1), lit(2)])),
        record(&[("a", lit(1)), ("b", lit(2))]),
        Rc::new(Value::Here(lit(5))),
    ] {
        let node = lower(&mut nbe, &term);
        let evaluated = eval_value(&mut nbe, SemArena::empty_env(), node).unwrap();
        let quoted = quote_value(&mut nbe, evaluated, QuoteMode::Canonical).unwrap();
        assert_eq!(
            canonical_key(nbe.syntax(), quoted),
            canonical_key(nbe.syntax(), node),
            "canonical readback changed an inert value"
        );
    }
}

#[test]
fn forcing_unfolds_a_reducible_definition() {
    let mut nbe = Normalizer::new();
    nbe.define("f", &lit(5)).unwrap();
    let node = lower(&mut nbe, &var("f"));
    let evaluated = eval_value(&mut nbe, SemArena::empty_env(), node).unwrap();
    let held = force_value(&mut nbe, evaluated, ForceMode::WeakHead).unwrap();
    assert!(matches!(*nbe.arena().value(held).unwrap().node(), SemValueNode::Rigid(Rigid::Free(_), _)));
    let spent = force_value(&mut nbe, evaluated, ForceMode::Unfold).unwrap();
    assert!(matches!(*nbe.arena().value(spent).unwrap().node(), SemValueNode::Int(5)));
}

#[test]
fn speculative_forcing_leaves_an_irreducible_definition_alone() {
    let mut nbe = Normalizer::new();
    nbe.define_with("f", &lit(5), Transparency::Irreducible).unwrap();
    let node = lower(&mut nbe, &var("f"));
    let evaluated = eval_value(&mut nbe, SemArena::empty_env(), node).unwrap();
    let speculative = force_value(&mut nbe, evaluated, ForceMode::Speculative).unwrap();
    assert!(matches!(
        *nbe.arena().value(speculative).unwrap().node(),
        SemValueNode::Rigid(Rigid::Free(_), _)
    ));
    let full = force_value(&mut nbe, evaluated, ForceMode::Unfold).unwrap();
    assert!(matches!(*nbe.arena().value(full).unwrap().node(), SemValueNode::Int(5)));
}

#[test]
fn forcing_a_self_referential_definition_terminates() {
    let mut nbe = Normalizer::new();
    nbe.set_fuel(16);
    nbe.define("f", &var("f")).unwrap();
    let node = lower(&mut nbe, &var("f"));
    let evaluated = eval_value(&mut nbe, SemArena::empty_env(), node).unwrap();
    let forced = force_value(&mut nbe, evaluated, ForceMode::Unfold).unwrap();
    assert!(matches!(*nbe.arena().value(forced).unwrap().node(), SemValueNode::Rigid(Rigid::Free(_), _)));
}

#[test]
fn beta_fires_for_every_positive_eliminator() {
    let mut nbe = Normalizer::new();
    let cases: [(Rc<Value>, Rc<Value>); 7] = [
        (
            thunk(Comp::app(Comp::lam("x", Comp::ret(Value::var("x"))), Value::Int(3))),
            thunk(Comp::ret(Value::Int(3))),
        ),
        (
            thunk(Comp::force(Value::Thunk(Grade::one(), Rc::new(Comp::ret(Value::Int(1)))))),
            thunk(Comp::ret(Value::Int(1))),
        ),
        (
            thunk(Comp::bind(Comp::ret(Value::Int(1)), "x", Comp::ret(Value::var("x")))),
            thunk(Comp::ret(Value::Int(1))),
        ),
        (
            thunk(Comp::Case(
                Rc::new(Value::Inj(Side::Fst, lit(1))),
                branch("l", Comp::ret(Value::var("l"))),
                branch("r", Comp::ret(Value::Int(0))),
            )),
            thunk(Comp::ret(Value::Int(1))),
        ),
        (
            thunk(Comp::Split {
                scrut: Rc::new(Value::Pair(lit(1), lit(2))),
                fst_name: String::from("a"),
                snd_name: String::from("b"),
                motive: None,
                body: Rc::new(Comp::ret(Value::var("b"))),
            }),
            thunk(Comp::ret(Value::Int(2))),
        ),
        (
            thunk(Comp::ListCase {
                scrut: Rc::new(Value::List(vec![lit(1), lit(2)])),
                nil: Rc::new(Comp::ret(Value::Int(0))),
                head: String::from("h"),
                tail: String::from("t"),
                cons: Rc::new(Comp::ret(Value::var("h"))),
            }),
            thunk(Comp::ret(Value::Int(1))),
        ),
        (
            thunk(Comp::Prj(
                Side::Snd,
                Rc::new(Comp::With(Rc::new(Comp::ret(Value::Int(1))), Rc::new(Comp::ret(Value::Int(2))))),
            )),
            thunk(Comp::ret(Value::Int(2))),
        ),
    ];
    for (redex, contractum) in cases {
        assert!(nbe.converts(&redex, &contractum), "a beta rule did not fire: {redex:?}");
    }
}

#[test]
fn walk_beta_fires_on_here() {
    let mut nbe = Normalizer::new();
    let redex = thunk(Comp::Walk {
        scrut: Rc::new(Value::Here(lit(7))),
        motive: Rc::new(WalkMotive::new("x", "y", "q", CompType::Unknown)),
        base: WalkBase { x: String::from("w"), body: Rc::new(Comp::ret(Value::var("w"))) },
    });
    assert!(nbe.converts(&redex, &thunk(Comp::ret(Value::Int(7)))));
    let other = thunk(Comp::Walk {
        scrut: Rc::new(Value::Here(lit(7))),
        motive: Rc::new(WalkMotive::new("a", "b", "c", CompType::Unknown)),
        base: WalkBase { x: String::from("z"), body: Rc::new(Comp::ret(Value::var("z"))) },
    });
    assert!(nbe.converts(&redex, &other));
}

#[test]
fn record_projection_reduces_and_stays_spine_local() {
    let mut nbe = Normalizer::new();
    let sibling = Rc::new(Value::Thunk(
        Grade::one(),
        Rc::new(Comp::RecordProj { record: var("undefined"), label: String::from("missing") }),
    ));
    let projection = thunk(Comp::RecordProj {
        record: record(&[("a", sibling), ("b", lit(2))]),
        label: String::from("b"),
    });
    let normal = nbe.normalize(&projection).unwrap();
    assert_eq!(
        *normal,
        Value::Thunk(Grade::one(), Rc::new(Comp::Ret(lit(2)))),
        "projection did not reduce to its field alone"
    );
    let neutral = thunk(Comp::RecordProj { record: var("m"), label: String::from("b") });
    let normal = nbe.normalize(&neutral).unwrap();
    assert!(matches!(*normal, Value::Thunk(_, ref body) if matches!(**body, Comp::RecordProj { .. })));
}

#[test]
fn a_record_module_projects_its_component_and_nothing_else() {
    let mut nbe = Normalizer::new();
    let module = record(&[
        (
            "identity",
            Rc::new(Value::Thunk(Grade::one(), Rc::new(Comp::lam("x", Comp::ret(Value::var("x")))))),
        ),
        ("constant", lit(7)),
    ]);
    let projected = thunk(Comp::bind(
        Comp::RecordProj { record: Rc::clone(&module), label: String::from("identity") },
        "f",
        Comp::app(Comp::force(Value::var("f")), Value::Int(4)),
    ));
    assert!(nbe.converts(&projected, &thunk(Comp::ret(Value::Int(4)))));
}

#[test]
fn the_quarantine_leaves_effects_neutral() {
    let mut nbe = Normalizer::new();
    let performed = thunk(Comp::Perform(Rc::new(signature()), String::from("get"), lit(1)));
    let normal = nbe.normalize(&performed).unwrap();
    assert!(
        matches!(*normal, Value::Thunk(_, ref body) if matches!(**body, Comp::Perform(..))),
        "an effect was run inside conversion"
    );
    assert!(nbe.converts(&performed, &performed));
    let other = thunk(Comp::Perform(Rc::new(signature()), String::from("get"), lit(2)));
    assert!(!nbe.converts(&performed, &other));
    let reducible = thunk(Comp::Perform(
        Rc::new(signature()),
        String::from("get"),
        Rc::new(Value::Annot(lit(1), Rc::new(ValueType::integer()))),
    ));
    assert!(nbe.converts(&performed, &reducible));
}

#[test]
fn canonical_readback_renames_binders_to_levels() {
    let mut nbe = Normalizer::new();
    let term = thunk(Comp::lam("someSourceName", Comp::ret(Value::var("someSourceName"))));
    let normal = nbe.normalize(&term).unwrap();
    let Value::Thunk(_, ref body) = *normal else {
        panic!("normalizing a thunk did not produce one");
    };
    let Comp::Abs(ref binder, _, ref inner) = **body else {
        panic!("normalizing a lambda did not produce one");
    };
    assert_eq!(binder.as_str(), "\u{ab}0\u{bb}");
    assert_eq!(**inner, Comp::Ret(Rc::new(Value::Var(binder.clone()))));
}

#[test]
fn unfolding_readback_spends_the_definition() {
    let mut nbe = Normalizer::new();
    nbe.define("five", &lit(5)).unwrap();
    let node = lower(&mut nbe, &var("five"));
    let evaluated = eval_value(&mut nbe, SemArena::empty_env(), node).unwrap();
    let held = quote_value(&mut nbe, evaluated, QuoteMode::Canonical).unwrap();
    assert_eq!(*nbe.reify(held).unwrap(), Value::Var(String::from("five")));
    let spent = quote_value(&mut nbe, evaluated, QuoteMode::Unfolding).unwrap();
    assert_eq!(*nbe.reify(spent).unwrap(), Value::Int(5));
}

#[test]
fn readback_is_deterministic_across_runs() {
    let term = thunk(Comp::lam(
        "x",
        Comp::bind(Comp::ret(Value::var("x")), "y", Comp::ret(Value::Pair(var("y"), var("x")))),
    ));
    let first = Normalizer::new().normalize(&term).unwrap();
    let second = Normalizer::new().normalize(&term).unwrap();
    assert_eq!(*first, *second);
}

#[test]
fn readback_is_byte_stable_on_one_normalizer() {
    let mut nbe = Normalizer::new();
    let term = thunk(Comp::lam("x", Comp::ret(Value::var("x"))));
    let once = nbe.normalize_node(&term).unwrap();
    let twice = nbe.normalize_node(&term).unwrap();
    assert_eq!(once, twice, "the readback face failed to dedup");
    let reified = nbe.reify(once).unwrap();
    let thrice = nbe.normalize_node(&reified).unwrap();
    assert_eq!(once, thrice);
}

#[test]
fn conversion_is_reflexive_and_symmetric() {
    let mut nbe = Normalizer::new();
    let terms = [
        Rc::new(Value::Unit),
        lit(1),
        var("x"),
        record(&[("a", lit(1))]),
        thunk(Comp::lam("x", Comp::ret(Value::Unit))),
    ];
    for left in &terms {
        assert!(nbe.converts(left, left), "not reflexive");
        for right in &terms {
            assert_eq!(nbe.converts(left, right), nbe.converts(right, left), "not symmetric");
        }
    }
}

#[test]
fn a_hole_is_consistent_with_every_value() {
    let mut nbe = Normalizer::new();
    let hole = Rc::new(Value::Hole(0));
    for term in [Rc::new(Value::Unit), lit(1), record(&[("a", lit(1))])] {
        assert!(nbe.converts(&hole, &term));
        assert!(nbe.converts(&term, &hole));
    }
    assert!(!nbe.converts(&lit(1), &Rc::new(Value::Unit)));
}

#[test]
fn conversion_agrees_with_canonical_readback() {
    let mut nbe = Normalizer::new();
    let terms = [
        Rc::new(Value::Unit),
        lit(1),
        lit(2),
        var("x"),
        var("y"),
        record(&[("a", lit(1)), ("b", lit(2))]),
        record(&[("a", lit(1)), ("b", lit(3))]),
        thunk(Comp::app(Comp::lam("z", Comp::ret(Value::var("z"))), Value::Int(1))),
        thunk(Comp::ret(Value::Int(1))),
        thunk(Comp::ret(Value::Int(2))),
    ];
    for left in &terms {
        for right in &terms {
            let normal_left = nbe.normalize_node(left).unwrap();
            let normal_right = nbe.normalize_node(right).unwrap();
            let same_normal_form = normal_left == normal_right;
            let convertible = nbe.converts(left, right);
            assert_eq!(
                same_normal_form, convertible,
                "readback and conversion disagreed on {left:?} and {right:?}"
            );
        }
    }
}

#[test]
fn eta_relates_a_function_to_its_expansion() {
    let mut nbe = Normalizer::new();
    let neutral = thunk(Comp::force(Value::var("f")));
    let expanded = thunk(Comp::lam("x", Comp::app(Comp::force(Value::var("f")), Value::var("x"))));
    assert!(nbe.converts(&neutral, &expanded));
    assert!(nbe.converts(&expanded, &neutral));
    let other = thunk(Comp::lam("x", Comp::ret(Value::Unit)));
    assert!(!nbe.converts(&neutral, &other));
}

#[test]
fn an_ascription_is_transparent_to_conversion() {
    let mut nbe = Normalizer::new();
    let bare = lit(1);
    let ascribed = Rc::new(Value::Annot(lit(1), Rc::new(ValueType::integer())));
    assert!(nbe.converts(&bare, &ascribed));
}

#[test]
fn conversion_unfolds_the_taller_side() {
    let mut nbe = Normalizer::new();
    nbe.define("one", &lit(1)).unwrap();
    nbe.define("also_one", &var("one")).unwrap();
    assert!(nbe.converts(&var("one"), &var("also_one")));
    assert!(nbe.converts(&var("also_one"), &lit(1)));
    assert!(!nbe.converts(&var("one"), &lit(2)));
}

#[test]
fn speculation_closes_a_spine_without_unfolding_and_backtracks_when_it_must() {
    let mut nbe = Normalizer::new();
    nbe.define("f", &Value::Thunk(Grade::one(), Rc::new(Comp::lam("x", Comp::ret(Value::Int(0))))))
        .unwrap();
    let applied = |arg: i64| thunk(Comp::app(Comp::force(Value::var("f")), Value::Int(arg)));
    assert!(nbe.converts(&applied(1), &applied(1)));
    assert!(nbe.converts(&applied(1), &applied(2)));
}

/// A record type over the given labelled fields, ordered by label.
fn signature_type(fields: &[(&str, ValueType)]) -> ValueType {
    let mut fields: Vec<FieldType> = fields
        .iter()
        .map(|(label, ty)| FieldType { label: label.to_string(), ty: Rc::new(ty.clone()) })
        .collect();
    fields.sort_by(|a, b| a.label.cmp(&b.label));
    ValueType::Record(fields)
}

#[test]
fn signature_conversion_is_label_exact() {
    let mut nbe = Normalizer::new();
    let base = signature_type(&[("x", ValueType::integer()), ("y", ValueType::Unit)]);
    let same = signature_type(&[("y", ValueType::Unit), ("x", ValueType::integer())]);
    assert!(nbe.type_converts(&base, &same));
    let wider = signature_type(&[
        ("x", ValueType::integer()),
        ("y", ValueType::Unit),
        ("z", ValueType::Unit),
    ]);
    assert!(!nbe.type_converts(&base, &wider));
    assert!(!nbe.type_converts(&wider, &base));
    let retyped = signature_type(&[("x", ValueType::Unit), ("y", ValueType::Unit)]);
    assert!(!nbe.type_converts(&base, &retyped));
}

#[test]
fn identity_endpoints_convert_up_to_beta() {
    let mut nbe = Normalizer::new();
    let redex = thunk(Comp::app(Comp::lam("x", Comp::ret(Value::var("x"))), Value::Int(3)));
    let contractum = thunk(Comp::ret(Value::Int(3)));
    let path = |lhs: Rc<Value>, rhs: Rc<Value>| ValueType::Path {
        ty: Rc::new(ValueType::integer()),
        lhs,
        rhs,
    };
    let left = path(Rc::clone(&redex), Rc::clone(&redex));
    let right = path(Rc::clone(&contractum), Rc::clone(&contractum));
    assert!(nbe.type_converts(&left, &right), "identity endpoints did not convert up to beta");
    let apart = path(Rc::clone(&contractum), thunk(Comp::ret(Value::Int(4))));
    assert!(!nbe.type_converts(&left, &apart));
}

#[test]
fn the_unknown_type_is_consistent_in_both_directions() {
    let mut nbe = Normalizer::new();
    assert!(nbe.type_converts(&ValueType::Unknown, &ValueType::integer()));
    assert!(nbe.type_converts(&ValueType::integer(), &ValueType::Unknown));
}

#[test]
fn a_term_converts_with_its_own_normal_form() {
    let mut nbe = Normalizer::new();
    for term in [
        thunk(Comp::app(Comp::lam("x", Comp::ret(Value::var("x"))), Value::Int(3))),
        record(&[("a", lit(1))]),
        thunk(Comp::RecordProj { record: record(&[("a", lit(1))]), label: String::from("a") }),
    ] {
        let normal = nbe.normalize(&term).unwrap();
        assert!(nbe.converts(&term, &normal), "a term did not convert with its own normal form");
    }
}

#[test]
fn normalization_is_idempotent() {
    let mut nbe = Normalizer::new();
    let term = thunk(Comp::bind(
        Comp::app(Comp::lam("x", Comp::ret(Value::var("x"))), Value::Int(3)),
        "y",
        Comp::ret(Value::Pair(var("y"), var("y"))),
    ));
    let once = nbe.normalize(&term).unwrap();
    let twice = nbe.normalize(&once).unwrap();
    assert_eq!(*once, *twice);
}

#[test]
fn normalizing_leaves_the_arena_where_it_found_it() {
    let mut nbe = Normalizer::new();
    let term = thunk(Comp::app(Comp::lam("x", Comp::ret(Value::var("x"))), Value::Int(3)));
    let before = nbe.watermark();
    let _normal = nbe.normalize(&term).unwrap();
    assert_eq!(nbe.watermark(), before, "normalization left semantic nodes behind");
    let _decision = nbe.converts(&term, &term);
    assert_eq!(nbe.watermark(), before, "conversion left semantic nodes behind");
}

#[test]
fn the_arena_reports_its_own_population() {
    let mut nbe = Normalizer::new();
    let node = lower(&mut nbe, &lit(1));
    let before = nbe.arena().value_count();
    let _evaluated = eval_value(&mut nbe, SemArena::empty_env(), node).unwrap();
    assert!(nbe.arena().value_count() > before);
}

#[test]
fn a_semantic_value_carries_the_guard_it_was_minted_with() {
    let mut nbe = Normalizer::new();
    let node = lower(&mut nbe, &lit(1));
    let guard = Guard::leaf(mix_word(seed(1), 2));
    let value = SemValue::new(SemValueNode::Rigid(Rigid::Free(String::from("x")), ValueUnfold::Rigid), guard);
    assert_eq!(value.guard(), guard);
    assert!(value.face().retained().is_none());
    let retained = value.retaining(node);
    assert_eq!(retained.face().retained(), Some(node));
}

#[test]
fn grades_separate_two_thunks_that_agree_on_their_bodies() {
    let mut nbe = Normalizer::new();
    let one = Rc::new(Value::Thunk(Grade::one(), Rc::new(Comp::ret(Value::Unit))));
    let many = Rc::new(Value::Thunk(Grade::omega(), Rc::new(Comp::ret(Value::Unit))));
    let also_one = Rc::new(Value::Thunk(Grade::fin(1), Rc::new(Comp::ret(Value::Unit))));
    assert!(!nbe.converts(&one, &many));
    assert!(nbe.converts(&one, &also_one));
}

#[test]
fn a_free_variable_is_a_blocker_the_neutral_names() {
    let mut nbe = Normalizer::new();
    let node = lower(&mut nbe, &var("stuck"));
    let evaluated = eval_value(&mut nbe, SemArena::empty_env(), node).unwrap();
    let named = match *nbe.arena().value(evaluated).unwrap().node() {
        SemValueNode::Rigid(Rigid::Free(ref name), _) => name.clone(),
        _ => String::new(),
    };
    assert_eq!(named.as_str(), "stuck");
}

#[test]
fn the_computation_entry_points_answer_for_computations_directly() {
    let mut nbe = Normalizer::new();
    let redex = thunk(Comp::app(Comp::lam("x", Comp::ret(Value::var("x"))), Value::Int(3)));
    let contractum = thunk(Comp::ret(Value::Int(3)));
    let left = lower(&mut nbe, &redex);
    let right = lower(&mut nbe, &contractum);
    let left = eval_value(&mut nbe, SemArena::empty_env(), left).unwrap();
    let right = eval_value(&mut nbe, SemArena::empty_env(), right).unwrap();
    assert!(converts_values(&mut nbe, left, right).unwrap());
}

#[test]
fn a_normalizer_can_be_built_over_an_existing_environment() {
    let mut nbe = Normalizer::new();
    nbe.define("f", &lit(5)).unwrap();
    assert!(nbe.converts(&var("f"), &lit(5)));
}


#[test]
fn lookup_follows_every_enclosing_link() {
    let mut arena = SemArena::new();
    let v = gandr_core_checker::nbe::sem::SemValueId(0);
    let w = gandr_core_checker::nbe::sem::SemValueId(1);
    let ahead = gandr_core_checker::nbe::sem::EnvId(2);
    let first = arena.bind(ahead, String::from("x"), v).unwrap();
    assert_eq!(first, gandr_core_checker::nbe::sem::EnvId(1));
    assert_eq!(arena.lookup(first, "x"), Ok(Some(v)));
    assert_eq!(
        arena.lookup(first, "y"),
        Err(gandr_core_checker::nbe::sem::SemError::MissingEnv(ahead))
    );
    let second = arena.bind(SemArena::empty_env(), String::from("y"), w).unwrap();
    assert_eq!(second, ahead);
    assert_eq!(arena.lookup(first, "y"), Ok(Some(w)));
    assert_eq!(arena.lookup(first, "z"), Ok(None));
    let looped = arena.bind(gandr_core_checker::nbe::sem::EnvId(4), String::from("a"), v).unwrap();
    let back = arena.bind(looped, String::from("b"), w).unwrap();
    assert_eq!(back, gandr_core_checker::nbe::sem::EnvId(4));
    assert_eq!(arena.lookup(back, "a"), Ok(Some(v)));
    assert_eq!(
        arena.lookup(back, "z"),
        Err(gandr_core_checker::nbe::sem::SemError::StepLimit)
    );
}
