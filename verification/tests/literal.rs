#![allow(unused_imports)]
use spindle_core::intern::{Interner, LiteralId};
use spindle_core::literal::{Literal, LiteralName};
use spindle_core::mode::Mode;
use spindle_core::temporal::{Temporal, TimePoint};


#[test]
fn test_simple_literal() {
    let lit = Literal::simple("bird");
    assert_eq!(lit.name(), "bird");
    assert!(!lit.negation);
    assert!(lit.mode.is_empty());
}

#[test]
fn test_negated_literal() {
    let lit = Literal::negated("flies");
    assert_eq!(lit.name(), "flies");
    assert!(lit.negation);
}

#[test]
fn test_complement() {
    let lit = Literal::simple("bird");
    let comp = lit.complement();
    assert_eq!(comp.name(), "bird");
    assert!(comp.negation);

    let comp2 = comp.complement();
    assert!(!comp2.negation);
}

#[test]
fn literal_test_display() {
    let lit = Literal::simple("bird");
    assert_eq!(lit.to_text(), "bird");

    let neg = Literal::negated("flies");
    assert_eq!(neg.to_text(), "~flies");
}

#[test]
fn test_to_spl_quotes_atoms_with_spaces_and_escapes() {
    let lit = Literal::new(
        "p",
        false,
        Mode::empty(),
        Temporal::empty(),
        vec![
            "doc 1".to_string(),
            "quote\"me".to_string(),
            "path\\to".to_string(),
        ],
    );

    assert_eq!(lit.to_spl(), "(p \"doc 1\" \"quote\\\"me\" \"path\\\\to\")");
}

#[test]
fn test_name_literal_id() {
    let mut interner = Interner::new();
    let pos = Literal::simple("bird");
    let neg = Literal::negated("bird");

    assert!(!pos.name_literal_id(&mut interner).is_negated());
    assert!(neg.name_literal_id(&mut interner).is_negated());
    assert_eq!(
        pos.name_literal_id(&mut interner).symbol(),
        neg.name_literal_id(&mut interner).symbol()
    );
    assert_eq!(pos.name_literal_id(&mut interner), neg.name_literal_id(&mut interner).complement());
}

#[test]
fn test_canonical_name_compat() {
    let pos = Literal::simple("bird");
    let neg = Literal::negated("flies");

    assert_eq!(pos.canonical_name(), "bird");
    assert_eq!(neg.canonical_name(), "~flies");
}

#[test]
fn test_predicates() {
    let lit = Literal::new(
        "parent",
        false,
        Mode::empty(),
        Temporal::empty(),
        vec!["alice".to_string(), "bob".to_string()],
    );

    let preds = lit.predicates();
    assert_eq!(preds, vec!["alice", "bob"]);
}

#[test]
fn test_is_positive() {
    let pos = Literal::simple("bird");
    let neg = Literal::negated("bird");

    assert!(pos.is_positive());
    assert!(!neg.is_positive());
}

#[test]
fn test_is_modal() {
    let simple = Literal::simple("bird");
    assert!(!simple.is_modal());

    let modal = Literal::new("pay", false, Mode::obligation(), Temporal::empty(), vec![]);
    assert!(modal.is_modal());
}

#[test]
fn test_is_temporal() {
    let simple = Literal::simple("bird");
    assert!(!simple.is_temporal());

    let temporal = Literal::new(
        "valid",
        false,
        Mode::empty(),
        Temporal::new(TimePoint::Moment(2024), TimePoint::Moment(2025)),
        vec![],
    );
    assert!(temporal.is_temporal());
}

#[test]
fn test_is_predicate() {
    let simple = Literal::simple("bird");
    assert!(!simple.is_predicate());

    let pred = Literal::new(
        "parent",
        false,
        Mode::empty(),
        Temporal::empty(),
        vec!["alice".to_string()],
    );
    assert!(pred.is_predicate());
}

#[test]
fn test_display_with_mode() {
    let modal = Literal::new("pay", false, Mode::obligation(), Temporal::empty(), vec![]);
    assert_eq!(modal.to_text(), "[O]pay");
}

#[test]
fn test_display_with_predicates() {
    let pred = Literal::new(
        "parent",
        false,
        Mode::empty(),
        Temporal::empty(),
        vec!["alice".to_string(), "bob".to_string()],
    );
    assert_eq!(pred.to_text(), "parent(alice, bob)");
}

#[test]
fn test_display_with_temporal() {
    let temporal = Literal::new(
        "valid",
        false,
        Mode::empty(),
        Temporal::new(TimePoint::Moment(2024), TimePoint::Moment(2025)),
        vec![],
    );
    let display = temporal.to_text();
    assert!(display.contains("valid"));
    assert!(display.contains("["));
}

#[test]
fn test_literal_name_source_compatibility() {
    let name: LiteralName = "bird".to_string();
    let copy: String = name.clone();
    assert_eq!(name, "bird");
    assert_eq!(copy, "bird");
}

#[test]
fn test_literal_name_method_returns_string() {
    let lit = Literal::simple("bird");
    let name: LiteralName = lit.literal_name();
    assert_eq!(name, "bird".to_string());
}
