#![allow(unused_imports)]
use spindle_core::error::SpindleError;
use spindle_core::literal::Literal;
use spindle_core::mode::Mode;
use spindle_core::pipeline::{prepare, validate_range_restriction, validate_wildcards, PrepareOptions};
use spindle_core::rule::Rule;
use spindle_core::stages::{PipelineContext, PipelineStage, Validate};
use spindle_core::temporal::Temporal;
use spindle_core::theory::Theory;

#[test]
fn wildcard_in_head_name_rejected() {
    let mut theory = Theory::new();
    // Rule: a => _  (wildcard as the head literal name)
    let head = Literal::simple("_");
    let body = vec![Literal::simple("a")];
    let rule = Rule::defeasible("r1", body, head);
    theory.add_rule(rule);

    let err = validate_wildcards(&theory).unwrap_err();
    match err {
        SpindleError::Validation { message } => {
            assert!(
                message.contains("Wildcard '_' found in rule head"),
                "unexpected message: {message}"
            );
            assert!(
                message.contains("r1"),
                "message should mention rule label: {message}"
            );
        }
        other => panic!("expected Validation error, got: {other:?}"),
    }
}

#[test]
fn wildcard_in_head_predicate_rejected() {
    let mut theory = Theory::new();
    // Rule: a => foo(_)  (wildcard as a predicate argument in head)
    let head = Literal::new(
        "foo",
        false,
        Mode::empty(),
        Temporal::empty(),
        vec!["_".into()],
    );
    let body = vec![Literal::simple("a")];
    let rule = Rule::defeasible("r2", body, head);
    theory.add_rule(rule);

    let err = validate_wildcards(&theory).unwrap_err();
    match err {
        SpindleError::Validation { message } => {
            assert!(
                message.contains("Wildcard '_' found in rule head"),
                "unexpected message: {message}"
            );
            assert!(
                message.contains("r2"),
                "message should mention rule label: {message}"
            );
        }
        other => panic!("expected Validation error, got: {other:?}"),
    }
}

#[test]
fn no_wildcard_in_head_passes() {
    let mut theory = Theory::new();
    let head = Literal::simple("b");
    let body = vec![Literal::simple("a")];
    let rule = Rule::defeasible("r3", body, head);
    theory.add_rule(rule);

    assert!(validate_wildcards(&theory).is_ok());
}

#[test]
fn wildcard_in_body_is_fine() {
    let mut theory = Theory::new();
    // Rule: _ => b  (wildcard in body, not in head -- body is not checked)
    let head = Literal::simple("b");
    let body = vec![Literal::simple("_")];
    let rule = Rule::defeasible("r4", body, head);
    theory.add_rule(rule);

    assert!(validate_wildcards(&theory).is_ok());
}


#[test]
fn unsafe_variable_in_head_name_rejected() {
    let mut theory = Theory::new();
    // Rule: a => ?X  (variable ?X as head name, not appearing in body)
    let head = Literal::simple("?X");
    let body = vec![Literal::simple("a")];
    let rule = Rule::defeasible("r5", body, head);
    theory.add_rule(rule);

    let err = validate_range_restriction(&theory).unwrap_err();
    match err {
        SpindleError::Validation { message } => {
            assert!(
                message.contains("Unsafe rule 'r5'"),
                "unexpected message: {message}"
            );
            assert!(
                message.contains("?X"),
                "message should mention the variable: {message}"
            );
        }
        other => panic!("expected Validation error, got: {other:?}"),
    }
}

#[test]
fn unsafe_variable_in_head_predicate_rejected() {
    let mut theory = Theory::new();
    // Rule: a => foo(?Y)  (variable ?Y in head predicate, not in body)
    let head = Literal::new(
        "foo",
        false,
        Mode::empty(),
        Temporal::empty(),
        vec!["?Y".into()],
    );
    let body = vec![Literal::simple("a")];
    let rule = Rule::defeasible("r6", body, head);
    theory.add_rule(rule);

    let err = validate_range_restriction(&theory).unwrap_err();
    match err {
        SpindleError::Validation { message } => {
            assert!(
                message.contains("Unsafe rule 'r6'"),
                "unexpected message: {message}"
            );
            assert!(
                message.contains("?Y"),
                "message should mention the variable: {message}"
            );
        }
        other => panic!("expected Validation error, got: {other:?}"),
    }
}

#[test]
fn safe_variable_in_head_name_passes() {
    let mut theory = Theory::new();
    // Rule: ?X => ?X  (variable in head also in body name)
    let head = Literal::simple("?X");
    let body = vec![Literal::simple("?X")];
    let rule = Rule::defeasible("r7", body, head);
    theory.add_rule(rule);

    assert!(validate_range_restriction(&theory).is_ok());
}

#[test]
fn safe_variable_in_head_predicate_passes() {
    let mut theory = Theory::new();
    // Rule: bar(?Z) => foo(?Z)  (variable in head predicate also in body predicate)
    let head = Literal::new(
        "foo",
        false,
        Mode::empty(),
        Temporal::empty(),
        vec!["?Z".into()],
    );
    let body = vec![Literal::new(
        "bar",
        false,
        Mode::empty(),
        Temporal::empty(),
        vec!["?Z".into()],
    )];
    let rule = Rule::defeasible("r8", body, head);
    theory.add_rule(rule);

    assert!(validate_range_restriction(&theory).is_ok());
}

#[test]
fn safe_variable_from_body_predicate_to_head_name() {
    let mut theory = Theory::new();
    // Rule: bar(?X) => ?X  (variable in head name appears in body predicate)
    let head = Literal::simple("?X");
    let body = vec![Literal::new(
        "bar",
        false,
        Mode::empty(),
        Temporal::empty(),
        vec!["?X".into()],
    )];
    let rule = Rule::defeasible("r9", body, head);
    theory.add_rule(rule);

    assert!(validate_range_restriction(&theory).is_ok());
}

#[test]
fn no_variables_passes() {
    let mut theory = Theory::new();
    // Rule: a => b  (no variables at all)
    let head = Literal::simple("b");
    let body = vec![Literal::simple("a")];
    let rule = Rule::defeasible("r10", body, head);
    theory.add_rule(rule);

    assert!(validate_range_restriction(&theory).is_ok());
}

#[test]
fn fact_with_no_body_no_variables_passes() {
    let mut theory = Theory::new();
    theory.add_fact("a");

    assert!(validate_range_restriction(&theory).is_ok());
}


#[test]
fn validate_stage_rejects_wildcard_in_head() {
    let mut theory = Theory::new();
    let head = Literal::simple("_");
    let body = vec![Literal::simple("a")];
    let rule = Rule::defeasible("r_wc", body, head);
    theory.add_rule(rule);

    let stage = Validate::default();
    let mut ctx = PipelineContext::default();
    let result = stage.apply(theory, &mut ctx);
    assert!(result.is_err());
}

#[test]
fn validate_stage_rejects_unsafe_variable() {
    let mut theory = Theory::new();
    let head = Literal::simple("?X");
    let body = vec![Literal::simple("a")];
    let rule = Rule::defeasible("r_unsafe", body, head);
    theory.add_rule(rule);

    let stage = Validate::default();
    let mut ctx = PipelineContext::default();
    let result = stage.apply(theory, &mut ctx);
    assert!(result.is_err());
}

#[test]
fn validate_stage_passes_valid_theory() {
    let mut theory = Theory::new();
    theory.add_fact("a");
    theory.add_defeasible_rule(&["a"], "b");

    let stage = Validate::default();
    let mut ctx = PipelineContext::default();
    let result = stage.apply(theory, &mut ctx);
    assert!(result.is_ok());
    assert_eq!(ctx.diagnostics.len(), 1);
    assert_eq!(ctx.diagnostics[0].message, "validation passed");
}

#[test]
fn validate_stage_skips_checks_when_disabled() {
    let mut theory = Theory::new();
    // Add wildcard in head AND unsafe variable -- both should be ignored
    let head_wc = Literal::simple("_");
    let body_wc = vec![Literal::simple("a")];
    theory.add_rule(Rule::defeasible("r_wc", body_wc, head_wc));

    let head_unsafe = Literal::simple("?X");
    let body_unsafe = vec![Literal::simple("a")];
    theory.add_rule(Rule::defeasible("r_unsafe", body_unsafe, head_unsafe));

    let stage = Validate {
        enforce_range_restricted: false,
        reject_wildcard_in_head: false,
    };
    let mut ctx = PipelineContext::default();
    let result = stage.apply(theory, &mut ctx);
    assert!(result.is_ok());
    assert_eq!(ctx.diagnostics.len(), 1);
    assert_eq!(ctx.diagnostics[0].message, "validation passed");
}

fn body_wildcard_theory() -> Theory {
    let mut theory = Theory::new();
    let body = vec![
        Literal::new("p", false, Mode::empty(), Temporal::empty(), vec!["_".into()]),
        Literal::new("r", false, Mode::empty(), Temporal::empty(), vec!["_".into()]),
    ];
    theory.add_rule(Rule::defeasible("w1", body, Literal::simple("q")));
    theory
}

#[test]
fn prepare_rewrites_body_wildcards_without_grounding() {
    let theory = body_wildcard_theory();
    let mut opts = PrepareOptions::default();
    opts.grounding.enabled = false;
    let res = prepare(&theory, opts).unwrap();
    let rule = &res.theory.rules()[0];
    assert_eq!(rule.body[0].predicates(), vec!["?_w1".to_string()]);
    assert_eq!(rule.body[1].predicates(), vec!["?_w2".to_string()]);
    assert_eq!(rule.head[0].name(), "q");
}

#[test]
fn prepare_refuses_body_wildcards_when_grounding_is_on() {
    let theory = body_wildcard_theory();
    match prepare(&theory, PrepareOptions::default()) {
        Err(SpindleError::Grounding { .. }) => {}
        other => panic!("expected a grounding error, got {:?}", other.map(|r| r.theory.rule_count())),
    }
}
