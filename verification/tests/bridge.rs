use spindle_core::bridge::TemporalBridge;
use spindle_core::conclusion::ConclusionType;
use spindle_core::literal::Literal;
use spindle_core::mode::Mode;
use spindle_core::reason::reason_prepared;
use spindle_core::rule::{Rule, RuleType};
use spindle_core::stages::{PipelineContext, PipelineStage, Severity, Stage};
use spindle_core::temporal::{Temporal, TimePoint};
use spindle_core::theory::Theory;

fn lit(name: &str, negation: bool, temporal: Temporal) -> Literal {
    Literal::new(name, negation, Mode::empty(), temporal, vec![])
}

fn span(start: i64, end: i64) -> Temporal {
    Temporal::new(TimePoint::from_millis(start), TimePoint::from_millis(end))
}

/// A temporal fact `>> name [start, end].`
fn temporal_fact(label: &str, name: &str, start: i64, end: i64) -> Rule {
    Rule::new(label, RuleType::Fact, Vec::new(), vec![lit(name, false, span(start, end))])
}

#[test]
fn no_op_for_non_temporal_theory() {
    let mut theory = Theory::new();
    theory.add_fact("a");
    theory.add_defeasible_rule(&["a"], "b");

    let mut ctx = PipelineContext::default();
    let result = TemporalBridge.apply(theory.duplicate(), &mut ctx).unwrap();

    assert_eq!(result.rule_count(), theory.rule_count());
}

#[test]
fn generates_bridge_pair_for_temporal_head() {
    let mut theory = Theory::new();
    theory.add_rule(Rule::new("f1", RuleType::Fact, Vec::new(), vec![lit("p", false, span(100, 200))]));

    let original_count = theory.rule_count();
    let mut ctx = PipelineContext::default();
    let result = TemporalBridge.apply(theory, &mut ctx).unwrap();

    assert_eq!(result.rule_count(), original_count + 2);

    let pos_bridge = result
        .rules()
        .iter()
        .find(|r| r.label.starts_with("__bridge::") && !r.label.contains("neg"))
        .expect("positive bridge should exist");
    assert_eq!(pos_bridge.rule_type, RuleType::Strict);
    assert_eq!(pos_bridge.head.len(), 1);
    assert!(pos_bridge.head[0].temporal.is_empty());
    assert!(!pos_bridge.head[0].negation);

    let neg_bridge = result
        .rules()
        .iter()
        .find(|r| r.label.contains("__bridge::neg::"))
        .expect("negation bridge should exist");
    assert_eq!(neg_bridge.rule_type, RuleType::Strict);
    assert_eq!(neg_bridge.head.len(), 1);
    assert!(neg_bridge.head[0].temporal.is_empty());
    assert!(neg_bridge.head[0].negation);
}

#[test]
fn deduplicates_same_temporal_head() {
    let mut theory = Theory::new();
    let head = lit("q", false, span(0, 50));
    theory.add_rule(Rule::new("r1", RuleType::Fact, Vec::new(), vec![head.clone()]));
    theory.add_rule(Rule::new(
        "r2",
        RuleType::Defeasible,
        vec![lit("a", false, Temporal::empty())],
        vec![head],
    ));

    let original_count = theory.rule_count();
    let mut ctx = PipelineContext::default();
    let result = TemporalBridge.apply(theory, &mut ctx).unwrap();

    assert_eq!(result.rule_count(), original_count + 2);
}

#[test]
fn different_temporal_intervals_get_separate_bridges() {
    let mut theory = Theory::new();
    theory.add_rule(Rule::new("f1", RuleType::Fact, Vec::new(), vec![lit("p", false, span(0, 100))]));
    theory.add_rule(Rule::new("f2", RuleType::Fact, Vec::new(), vec![lit("p", false, span(200, 300))]));

    let original_count = theory.rule_count();
    let mut ctx = PipelineContext::default();
    let result = TemporalBridge.apply(theory, &mut ctx).unwrap();

    assert_eq!(result.rule_count(), original_count + 4);
}

#[test]
fn skips_generation_when_structural_bridges_already_exist() {
    let mut theory = Theory::new();
    let head = lit("p", false, span(100, 200));
    let spl_key = head.to_spl();
    theory.add_rule(Rule::new("f1", RuleType::Fact, Vec::new(), vec![head.clone()]));

    let pos_label = format!("__bridge::{spl_key}");
    theory.add_rule(Rule::strict(
        &pos_label,
        vec![lit("p", false, head.temporal)],
        lit("p", false, Temporal::empty()),
    ));
    let neg_label = format!("__bridge::neg::{spl_key}");
    theory.add_rule(Rule::strict(
        &neg_label,
        vec![lit("p", true, head.temporal)],
        lit("p", true, Temporal::empty()),
    ));

    let original_count = theory.rule_count();
    let mut ctx = PipelineContext::default();
    let result = TemporalBridge.apply(theory, &mut ctx).unwrap();

    assert_eq!(result.rule_count(), original_count);
}

#[test]
fn user_labeled_bridge_prefix_does_not_block_required_generation() {
    let mut theory = Theory::new();
    let temporal_head = lit("p", false, span(10, 20));
    let spl_key = temporal_head.to_spl();
    let expected_base = lit("p", false, Temporal::empty());

    theory.add_rule(Rule::new("f1", RuleType::Fact, Vec::new(), vec![temporal_head.clone()]));
    theory.add_rule(Rule::strict(&format!("__bridge::{spl_key}"), vec![], Literal::simple("sentinel")));

    let mut ctx = PipelineContext::default();
    let bridged = TemporalBridge.apply(theory, &mut ctx).unwrap();

    assert_eq!(
        bridged.rule_count(),
        4,
        "bridge generation should add two rules without replacing the user-authored collision"
    );
    let sentinel_rule = bridged
        .get_rule(&format!("__bridge::{spl_key}"))
        .expect("original user-authored rule should be preserved");
    assert_eq!(sentinel_rule.head.len(), 1);
    assert_eq!(sentinel_rule.head[0].name(), "sentinel");
    assert!(sentinel_rule.body.is_empty(), "original colliding rule body should remain unchanged");

    let has_real_bridge = bridged.rules().iter().any(|rule| {
        rule.rule_type == RuleType::Strict
            && rule.head.len() == 1
            && rule.head[0] == expected_base
            && rule.head[0].temporal == expected_base.temporal
            && rule.body.len() == 1
            && rule.body[0] == temporal_head
            && rule.body[0].temporal == temporal_head.temporal
    });
    assert!(has_real_bridge, "user labels with __bridge:: prefix must not suppress actual bridge generation");

    let conclusions = reason_prepared(&bridged).unwrap();
    let base_proved = conclusions.iter().any(|c| {
        c.literal == expected_base
            && c.literal.temporal.is_empty()
            && c.conclusion_type == ConclusionType::DefinitelyProvable
            && c.is_positive()
    });
    assert!(base_proved, "base literal p should be derived through bridge");
}

#[test]
fn bridge_rule_generated_for_temporal_fact() {
    let mut theory = Theory::new();
    theory.add_rule(temporal_fact("f1", "p", 1, 10));

    let mut ctx = PipelineContext::default();
    let bridged = TemporalBridge.apply(theory, &mut ctx).unwrap();

    let has_bridge = bridged.rules().iter().any(|r| {
        r.label.starts_with("__bridge::")
            && !r.label.contains("neg")
            && r.head.iter().any(|h| h.temporal.is_empty() && !h.negation)
            && r.body.iter().any(|b| !b.temporal.is_empty())
    });
    assert!(has_bridge, "Expected bridging rule p[1,10] → p");
}

#[test]
fn bridge_generated_even_when_base_head_exists() {
    let mut theory = Theory::new();
    theory.add_rule(temporal_fact("tf1", "p", 1, 10));
    theory.add_fact("p");

    let mut ctx = PipelineContext::default();
    let bridged = TemporalBridge.apply(theory, &mut ctx).unwrap();

    let bridge_count = bridged.rules().iter().filter(|r| r.label.starts_with("__bridge::")).count();
    assert!(
        bridge_count > 0,
        "Bridge generated unconditionally for temporal heads even when base fact exists"
    );
}

#[test]
fn negation_bridge_generated() {
    let mut theory = Theory::new();
    theory.add_rule(temporal_fact("f1", "p", 1, 10));

    let mut ctx = PipelineContext::default();
    let bridged = TemporalBridge.apply(theory, &mut ctx).unwrap();

    let neg_bridge = bridged
        .rules()
        .iter()
        .find(|r| r.label.starts_with("__bridge::neg::"))
        .expect("Expected negation bridging rule ~p[1,10] → ~p");

    assert_eq!(neg_bridge.rule_type, RuleType::Strict);
    assert!(neg_bridge.head[0].negation, "Negation bridge head must be negated");
    assert!(neg_bridge.head[0].temporal.is_empty(), "Negation bridge head must be atemporal");
    let body_lit = &neg_bridge.body[0];
    assert!(body_lit.negation, "Negation bridge body must be negated");
    assert!(!body_lit.temporal.is_empty(), "Negation bridge body must be temporal");
}

#[test]
fn bridge_no_op_for_non_temporal_spl_theory() {
    let mut theory = Theory::new();
    theory.add_fact("bird");
    theory.add_defeasible_rule(&["bird"], "can_fly");

    let original_count = theory.rule_count();
    let mut ctx = PipelineContext::default();
    let bridged = TemporalBridge.apply(theory, &mut ctx).unwrap();

    assert_eq!(
        original_count,
        bridged.rule_count(),
        "No bridge rules should be added to a non-temporal theory"
    );
    assert!(ctx.diagnostics.is_empty(), "No diagnostics expected for non-temporal theory");
}

#[test]
fn bridge_labels_are_deterministic() {
    let bridge = TemporalBridge;

    let mut theory1 = Theory::new();
    theory1.add_rule(temporal_fact("f1", "p", 1, 10));
    let mut ctx1 = PipelineContext::default();
    let bridged1 = bridge.apply(theory1, &mut ctx1).unwrap();
    let mut labels1: Vec<String> = bridged1
        .rules()
        .iter()
        .filter(|r| r.label.starts_with("__bridge::"))
        .map(|r| r.label.clone())
        .collect();
    labels1.sort();

    let mut theory2 = Theory::new();
    theory2.add_rule(temporal_fact("f1", "p", 1, 10));
    let mut ctx2 = PipelineContext::default();
    let bridged2 = bridge.apply(theory2, &mut ctx2).unwrap();
    let mut labels2: Vec<String> = bridged2
        .rules()
        .iter()
        .filter(|r| r.label.starts_with("__bridge::"))
        .map(|r| r.label.clone())
        .collect();
    labels2.sort();

    assert_eq!(labels1, labels2, "Bridge labels must be deterministic");
    assert_eq!(labels1.len(), 2, "Expected exactly 2 bridge labels");
}

#[test]
fn bridge_labels_diagnostic_and_template_labels() {
    let mut theory = Theory::new();
    theory.add_rule(Rule::new("z_pos", RuleType::Fact, Vec::new(), vec![lit("p", false, span(100, 200))]));
    theory.add_rule(Rule::new("a_neg", RuleType::Fact, Vec::new(), vec![lit("p", true, span(100, 200))]));
    let key = lit("p", false, span(100, 200)).to_spl();

    let mut ctx = PipelineContext::default();
    let bridged = TemporalBridge.apply(theory, &mut ctx).unwrap();

    assert_eq!(bridged.rule_count(), 4);
    let pos = &bridged.rules()[2];
    let neg = &bridged.rules()[3];
    assert_eq!(pos.label, format!("__bridge::{key}"));
    assert_eq!(neg.label, format!("__bridge::neg::{key}"));
    assert_eq!(pos.template_label.as_deref(), Some("z_pos"));
    assert_eq!(neg.template_label.as_deref(), Some("a_neg"));
    assert_eq!(ctx.diagnostics.len(), 1);
    assert_eq!(ctx.diagnostics[0].severity, Severity::Info);
    assert_eq!(ctx.diagnostics[0].stage, "temporal_bridge");
    assert_eq!(ctx.diagnostics[0].message, "generated 2 bridging rules (1 pairs)");
}

#[test]
fn bridge_template_label_falls_back_to_other_sign() {
    let mut theory = Theory::new();
    theory.add_rule(Rule::new("b", RuleType::Fact, Vec::new(), vec![lit("p", false, span(1, 2))]));
    theory.add_rule(Rule::new("a", RuleType::Fact, Vec::new(), vec![lit("p", false, span(1, 2))]));

    let mut ctx = PipelineContext::default();
    let bridged = TemporalBridge.apply(theory, &mut ctx).unwrap();

    assert_eq!(bridged.rule_count(), 4);
    assert_eq!(bridged.rules()[2].template_label.as_deref(), Some("a"));
    assert_eq!(bridged.rules()[3].template_label.as_deref(), Some("a"));
}

#[test]
fn bridge_label_collision_gets_auto_suffix() {
    let mut theory = Theory::new();
    let head = lit("p", false, span(10, 20));
    let key = head.to_spl();
    theory.add_rule(Rule::new("f1", RuleType::Fact, Vec::new(), vec![head]));
    theory.add_rule(Rule::fact(&format!("__bridge::{key}"), Literal::simple("x")));
    theory.add_rule(Rule::fact(&format!("__bridge::{key}::auto::1"), Literal::simple("y")));

    let mut ctx = PipelineContext::default();
    let bridged = TemporalBridge.apply(theory, &mut ctx).unwrap();

    let n = bridged.rule_count();
    assert_eq!(bridged.rules()[n - 2].label, format!("__bridge::{key}::auto::2"));
    assert_eq!(bridged.rules()[n - 1].label, format!("__bridge::neg::{key}"));
}

#[test]
fn bridge_stage_runs_in_a_pipeline() {
    let mut theory = Theory::new();
    theory.add_rule(temporal_fact("f1", "p", 1, 10));
    let pipeline = spindle_core::stages::Pipeline::builder().stage(Stage::TemporalBridge(TemporalBridge)).build();
    let (t, ctx) = pipeline.run(theory).unwrap();
    assert_eq!(t.rule_count(), 3);
    assert_eq!(ctx.diagnostics.len(), 1);
}

#[test]
fn bridging_twice_adds_nothing_more() {
    let mut theory = Theory::new();
    theory.add_rule(temporal_fact("f1", "p", 1, 10));
    theory.add_rule(Rule::new("f2", RuleType::Fact, Vec::new(), vec![lit("q", true, span(3, 4))]));
    let mut ctx = PipelineContext::default();
    let once = TemporalBridge.apply(theory, &mut ctx).unwrap();
    assert_eq!(once.rule_count(), 6);
    let mut ctx2 = PipelineContext::default();
    let twice = TemporalBridge.apply(once.duplicate(), &mut ctx2).unwrap();
    assert_eq!(twice.rule_count(), once.rule_count());
    assert!(ctx2.diagnostics.is_empty());
}
