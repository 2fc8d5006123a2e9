#![allow(unused_imports)]
use spindle_core::error::SpindleError;
use spindle_core::literal::Literal;
use spindle_core::mode::Mode;
use spindle_core::rule::Rule;
use spindle_core::stages::{
    default_pipeline, Ground, MetadataVal, Pipeline, PipelineContext, PipelineStage, Severity, Stage,
    TemporalFilter, TemporalVarValidation, Validate, WildcardRewrite,
};
use spindle_core::temporal::{Temporal, TemporalExpr, TimePoint, TimeTerm};
use spindle_core::theory::Theory;
use spindle_core::wildcard::rewrite_wildcards;

fn timed_fact(label: &str, name: &str, start: i64, end: i64) -> Rule {
    let lit = Literal::new(name, false, Mode::default(), Temporal::from_bounds(start, end), vec![]);
    Rule::fact(label, lit)
}

#[test]
fn severity_texts() {
    assert_eq!(Severity::Info.to_text(), "INFO");
    assert_eq!(Severity::Warning.to_text(), "WARN");
    assert_eq!(Severity::Error.to_text(), "ERROR");
}

#[test]
fn context_metadata_set_and_replace() {
    let mut ctx = PipelineContext::default();
    ctx.set_metadata("k", MetadataVal::Usize(1));
    ctx.set_metadata("other", MetadataVal::Bool(true));
    ctx.set_metadata("k", MetadataVal::Usize(7));
    assert_eq!(ctx.metadata.len(), 2);
    match ctx.get_metadata("k") {
        Some(MetadataVal::Usize(n)) => assert_eq!(*n, 7),
        other => panic!("unexpected metadata: {other:?}"),
    }
    assert!(ctx.get_metadata("missing").is_none());
}

#[test]
fn temporal_filter_removes_inactive_rules() {
    let mut theory = Theory::new();
    theory.add_rule(timed_fact("f1", "early", 0, 10));
    theory.add_rule(timed_fact("f2", "late", 100, 200));
    theory.add_fact("always");
    let stage = TemporalFilter { reference_time: TimePoint::from_millis(150) };
    let mut ctx = PipelineContext::default();
    let out = stage.apply(theory, &mut ctx).unwrap();
    assert_eq!(out.rule_count(), 2);
    assert_eq!(ctx.diagnostics.len(), 1);
    assert_eq!(ctx.diagnostics[0].message, "removed 1 temporally inactive rules");
    assert_eq!(ctx.diagnostics[0].stage, "temporal_filter");
    assert!(matches!(ctx.get_metadata("evaluated_at"), Some(MetadataVal::TimePoint(_))));
}

#[test]
fn temporal_filter_without_removal_adds_no_diagnostic() {
    let mut theory = Theory::new();
    theory.add_fact("always");
    let stage = TemporalFilter { reference_time: TimePoint::from_millis(5) };
    let mut ctx = PipelineContext::default();
    let out = stage.apply(theory, &mut ctx).unwrap();
    assert_eq!(out.rule_count(), 1);
    assert!(ctx.diagnostics.is_empty());
}

fn theory_with_temporal_variable() -> Theory {
    let mut theory = Theory::new();
    let expr = TemporalExpr { start: TimeTerm::Var("t".to_string()), end: TimeTerm::Point(TimePoint::from_millis(5)) };
    let lit = Literal::new_with_temporal_expr("meeting", false, Mode::default(), expr, vec![]);
    theory.add_rule(Rule::fact("f1", lit));
    theory
}

#[test]
fn temporal_var_validation_strict_rejects() {
    let theory = theory_with_temporal_variable();
    let stage = TemporalVarValidation { strict: true };
    let mut ctx = PipelineContext::default();
    match stage.apply(theory, &mut ctx) {
        Err(SpindleError::Validation { message }) => {
            assert!(message.starts_with("1 unresolved temporal variable(s) after grounding:\n  rule 'f1': literal '"));
            assert!(message.ends_with("' has unresolved temporal variables"));
        }
        other => panic!("expected a validation error, got {:?}", other.map(|t| t.rule_count())),
    }
    assert!(ctx.diagnostics.is_empty());
}

#[test]
fn temporal_var_validation_lenient_warns() {
    let theory = theory_with_temporal_variable();
    let stage = TemporalVarValidation::default();
    let mut ctx = PipelineContext::default();
    let out = stage.apply(theory, &mut ctx).unwrap();
    assert_eq!(out.rule_count(), 1);
    assert_eq!(ctx.diagnostics.len(), 1);
    assert_eq!(ctx.diagnostics[0].severity, Severity::Warning);
}

#[test]
fn ground_without_variables_records_metadata() {
    let mut theory = Theory::new();
    theory.add_fact("a");
    let mut ctx = PipelineContext::default();
    let out = Ground::default().apply(theory, &mut ctx).unwrap();
    assert_eq!(out.rule_count(), 1);
    assert_eq!(ctx.diagnostics[0].message, "no variables found; grounding skipped");
    assert!(matches!(ctx.get_metadata("grounding_performed"), Some(MetadataVal::Bool(false))));
    assert!(matches!(ctx.get_metadata("grounding_instances"), Some(MetadataVal::Usize(0))));
    assert_eq!(ctx.metadata.len(), 4);
}

#[test]
fn ground_with_variables_is_refused() {
    let mut theory = Theory::new();
    theory.add_rule(Rule::defeasible("r1", vec![Literal::simple("?x")], Literal::simple("?x")));
    let mut ctx = PipelineContext::default();
    let r = Ground::default().apply(theory, &mut ctx);
    assert!(matches!(r, Err(SpindleError::Grounding { .. })));
}

#[test]
fn wildcards_become_numbered_variables() {
    let mut theory = Theory::new();
    let body = vec![Literal::new("p", false, Mode::default(), Temporal::empty(), vec!["_".into(), "x".into(), "_".into()])];
    theory.add_rule(Rule::defeasible("r1", body, Literal::simple("_")));
    theory.add_superiority("r1", "r2");
    let out = rewrite_wildcards(&theory).unwrap();
    let rule = &out.rules()[0];
    assert_eq!(rule.body[0].predicates, vec!["?_w1".to_string(), "x".to_string(), "?_w2".to_string()]);
    assert_eq!(rule.head[0].name, "?_w3");
    assert_eq!(out.superiorities().len(), 1);
}

#[test]
fn wildcard_stage_leaves_context_alone() {
    let mut theory = Theory::new();
    theory.add_fact("a");
    let mut ctx = PipelineContext::default();
    let out = WildcardRewrite.apply(theory, &mut ctx).unwrap();
    assert_eq!(out.rule_count(), 1);
    assert!(ctx.diagnostics.is_empty());
}

#[test]
fn default_pipeline_runs_validation_rewrite_and_grounding() {
    let mut theory = Theory::new();
    theory.add_fact("a");
    theory.add_defeasible_rule(&["a"], "b");
    let pipeline = default_pipeline();
    let (out, ctx) = pipeline.run(theory).unwrap();
    assert_eq!(out.rule_count(), 2);
    let messages: Vec<&str> = ctx.diagnostics.iter().map(|d| d.message.as_str()).collect();
    assert_eq!(messages, vec!["validation passed", "no variables found; grounding skipped"]);
}

#[test]
fn pipeline_stops_at_first_failure() {
    let mut theory = Theory::new();
    theory.add_rule(Rule::defeasible("r1", vec![Literal::simple("a")], Literal::simple("_")));
    let pipeline = Pipeline::builder()
        .stage(Stage::Validate(Validate::default()))
        .stage_at(0, Stage::TemporalFilter(TemporalFilter { reference_time: TimePoint::from_millis(0) }))
        .build();
    match pipeline.run(theory) {
        Err(SpindleError::Validation { message }) => assert_eq!(message, "Wildcard '_' found in rule head: r1"),
        _ => panic!("expected the validation stage to fail"),
    }
}

#[test]
fn stage_names() {
    assert_eq!(Stage::Validate(Validate::default()).name(), "validate");
    assert_eq!(Stage::WildcardRewrite(WildcardRewrite).name(), "wildcard_rewrite");
    assert_eq!(Stage::Ground(Ground::default()).name(), "ground");
    assert_eq!(Stage::TemporalVarValidation(TemporalVarValidation::default()).name(), "temporal_var_validation");
}

#[test]
fn facts_come_in_the_order_they_were_added() {
    let mut t = Theory::new();
    t.add_fact("a");
    t.add_defeasible_rule(&["a"], "b");
    t.add_fact("c");
    let facts = t.facts();
    assert_eq!(facts.len(), 2);
    assert_eq!(facts[0].head[0].name(), "a");
    assert_eq!(facts[1].head[0].name(), "c");
}

#[test]
fn prepare_keeps_a_theory_with_unresolved_temporal_variables() {
    let theory = theory_with_temporal_variable();
    let res = spindle_core::pipeline::prepare(&theory, spindle_core::pipeline::PrepareOptions::default()).unwrap();
    assert_eq!(res.theory.rule_count(), 1);
}
