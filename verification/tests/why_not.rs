#![allow(unused_imports)]
use spindle_core::conclusion::{Conclusion, ConclusionType};
use spindle_core::literal::Literal;
use spindle_core::mode::Mode;
use spindle_core::pipeline::{GroundingOptions, PrepareOptions};
use spindle_core::query::{evaluate_query, is_proven_temporal, matches_literal_temporal, matches_query_temporal, query, query_with_options, ProvenSet, QueryResult, QueryStatus};
use spindle_core::reason::{reason, reason_with_options};
use spindle_core::rule::{Rule, RuleType};
use spindle_core::temporal::{Temporal, TimePoint};
use spindle_core::theory::Theory;
use spindle_core::what_if::{next_hyp_label, what_if, what_if_provable, HypotheticalClaim, WhatIfResult};
use spindle_core::why_not::{why_not, BlockingCondition, BlockingType, WhyNotResult};



#[test]
fn test_display_provable_literal() {
    // A fact is provable. why_not should return is_provable() == true,
    // and Display should produce "X is provable (derived by rule: ...)"
    let mut th = Theory::new();
    th.add_fact("bird");

    let result = why_not(&th, &Literal::simple("bird")).unwrap();
    assert!(result.is_provable());
    assert!(result.would_derive.is_some());

    let display = result.to_text();
    assert!(
        display.contains("is provable"),
        "Expected 'is provable' in display, got: {display}"
    );
    assert!(
        display.contains("derived by rule"),
        "Expected 'derived by rule' in display, got: {display}"
    );
}
#[test]
fn test_display_provable_defeasible() {
    // Defeasibly derived literal should also hit the provable Display branch
    let mut th = Theory::new();
    th.add_fact("bird");
    th.add_defeasible_rule(&["bird"], "flies");

    let result = why_not(&th, &Literal::simple("flies")).unwrap();
    assert!(result.is_provable());

    let display = result.to_text();
    assert!(display.contains("flies is provable"));
    assert!(display.contains("derived by rule"));
}
#[test]
fn test_attacker_with_unsatisfied_body_is_ignored() {
    // bird => flies, heavy ~> ~flies (defeater), but heavy is NOT a fact.
    // The defeater's body is unsatisfied, so it should be skipped (continue).
    // flies should be provable.
    let mut th = Theory::new();
    th.add_fact("bird");
    th.add_defeasible_rule(&["bird"], "flies");
    // Defeater with unsatisfied body: "heavy" is not a fact
    th.add_defeater(&["heavy"], "~flies");

    let result = why_not(&th, &Literal::simple("flies")).unwrap();
    // flies IS provable because the defeater body is unsatisfied
    assert!(
        result.is_provable(),
        "flies should be provable when defeater body is unsatisfied"
    );
    assert!(
        !result.has_blockers(),
        "No blockers expected when attacker body is not satisfied"
    );
}
#[test]
fn test_defeasible_attacker_with_unsatisfied_body_is_ignored() {
    // bird => flies, penguin => ~flies, but penguin is NOT a fact.
    // The attacker's body is unsatisfied, so it should be skipped.
    let mut th = Theory::new();
    th.add_fact("bird");
    th.add_defeasible_rule(&["bird"], "flies");
    th.add_defeasible_rule(&["penguin"], "~flies");

    let result = why_not(&th, &Literal::simple("flies")).unwrap();
    assert!(
        result.is_provable(),
        "flies should be provable when defeasible attacker body is unsatisfied"
    );
}
#[test]
fn test_rule_superior_to_defeater_no_blocking() {
    // bird => flies (r1), broken_wing ~> ~flies (d1), r1 > d1
    // The defeater's body IS satisfied, but r1 is superior so it should NOT block.
    let mut th = Theory::new();
    th.add_fact("bird");
    th.add_fact("broken_wing");
    let r1 = th.add_defeasible_rule(&["bird"], "flies");
    let d1 = th.add_defeater(&["broken_wing"], "~flies");
    th.add_superiority(&r1, &d1);

    let result = why_not(&th, &Literal::simple("flies")).unwrap();
    // flies should be provable because r1 > d1 overrides the defeater
    assert!(
        !result.has_blockers(),
        "Defeater should not block when rule is superior, got blockers: {:?}",
        result.blocked_by
    );
}
#[test]
fn test_defeater_blocks_when_not_superior() {
    // bird => flies (r1), broken_wing ~> ~flies (d1), NO superiority
    // The defeater's body IS satisfied and r1 is NOT superior, so it blocks.
    let mut th = Theory::new();
    th.add_fact("bird");
    th.add_fact("broken_wing");
    th.add_defeasible_rule(&["bird"], "flies");
    th.add_defeater(&["broken_wing"], "~flies");

    let result = why_not(&th, &Literal::simple("flies")).unwrap();
    let has_defeated = result
        .blocked_by
        .iter()
        .any(|b| b.blocking_type == BlockingType::Defeated);
    assert!(
        has_defeated,
        "Defeater should block when rule is NOT superior, got blockers: {:?}",
        result.blocked_by
    );
}
#[test]
fn test_defeasible_vs_defeasible_contradicted_attacker_superior() {
    // bird => flies (r1), penguin => ~flies (r2), r2 > r1
    // Attacker r2 is superior, so the reasoner does NOT prove flies.
    // why_not should report a Contradicted blocker from r2.
    // (This exercises lines ~250-266 with attacker_superior=true, rule_superior=false)
    let mut th = Theory::new();
    th.add_fact("bird");
    th.add_fact("penguin");
    let r1 = th.add_defeasible_rule(&["bird"], "flies");
    let r2 = th.add_defeasible_rule(&["penguin"], "~flies");
    th.add_superiority(&r2, &r1);

    let result = why_not(&th, &Literal::simple("flies")).unwrap();
    let has_contradicted = result
        .blocked_by
        .iter()
        .any(|b| b.blocking_type == BlockingType::Contradicted);
    assert!(
        has_contradicted,
        "Expected Contradicted blocker when attacker is superior, got: {:?}",
        result.blocked_by
    );
}
#[test]
fn test_defeasible_vs_defeasible_no_superiority_credulous() {
    // bird => flies (r1), penguin => ~flies (r2), NO superiority
    // With credulous semantics (reason.rs), flies is still provable.
    // why_not should report no blockers because the literal IS provable.
    // This test documents the credulous behavior.
    let mut th = Theory::new();
    th.add_fact("bird");
    th.add_fact("penguin");
    th.add_defeasible_rule(&["bird"], "flies");
    th.add_defeasible_rule(&["penguin"], "~flies");

    let result = why_not(&th, &Literal::simple("flies")).unwrap();
    // Under credulous semantics, flies IS provable
    // If the reasoner blocks it (skeptical), it should report a Contradicted blocker
    if result.is_provable() {
        assert!(
            !result.has_blockers(),
            "Provable literal should have no blockers"
        );
    } else {
        let has_contradicted = result
            .blocked_by
            .iter()
            .any(|b| b.blocking_type == BlockingType::Contradicted);
        assert!(
            has_contradicted,
            "Non-provable literal with conflicting rules should have Contradicted blocker"
        );
    }
}
#[test]
fn test_rule_superior_to_defeasible_attacker_skips_blocker() {
    // bird => flies (r1), penguin => ~flies (r2), r1 > r2
    // Rule r1 is superior to attacker r2, so r2 should be skipped.
    let mut th = Theory::new();
    th.add_fact("bird");
    th.add_fact("penguin");
    let r1 = th.add_defeasible_rule(&["bird"], "flies");
    let r2 = th.add_defeasible_rule(&["penguin"], "~flies");
    th.add_superiority(&r1, &r2);

    let result = why_not(&th, &Literal::simple("flies")).unwrap();
    // flies should be provable since r1 > r2
    assert!(
        !result.has_blockers(),
        "Rule superior to defeasible attacker should skip blocker, got: {:?}",
        result.blocked_by
    );
}
#[test]
fn test_rule_superior_no_contradicted_entry() {
    // Verify that when rule is superior, no Contradicted entry is added for that attacker
    let mut th = Theory::new();
    th.add_fact("bird");
    th.add_fact("penguin");
    let r1 = th.add_defeasible_rule(&["bird"], "flies");
    let r2 = th.add_defeasible_rule(&["penguin"], "~flies");
    th.add_superiority(&r1, &r2);

    let result = why_not(&th, &Literal::simple("flies")).unwrap();
    let has_r2_blocker = result
        .blocked_by
        .iter()
        .any(|b| b.blocking_rule.as_deref() == Some(r2.as_str()));
    assert!(
        !has_r2_blocker,
        "Inferior attacker r2 should not appear as a blocker"
    );
}
#[test]
fn test_ambiguity_blocking_body_satisfied_but_not_provable() {
    // The ambiguity fallback (lines 269-279) fires when a rule's body is
    // fully satisfied, no attacker has a satisfied body, yet the reasoner
    // still did not prove the literal.
    //
    // Known bug: reason.rs doesn't fire empty-body non-fact defeasible rules.
    // An empty-body DEFEASIBLE rule (not a strict fact) should trigger this:
    // why_not sees the body as trivially satisfied, finds no attackers, but
    // the reasoner never proved the literal.

    let mut th = Theory::new();
    let rule = Rule::defeasible("r1", vec![], Literal::simple("p"));
    th.add_rule(rule);

    let result = why_not(&th, &Literal::simple("p")).unwrap();

    if !result.is_provable() {
        // We hit the ambiguity blocking fallback path
        let has_ambiguity = result.blocked_by.iter().any(|b| {
            b.blocking_type == BlockingType::Contradicted && b.explanation.contains("ambiguity")
        });
        assert!(
            has_ambiguity,
            "Expected ambiguity blocking condition, got: {:?}",
            result.blocked_by
        );
    }
    // If provable, the reasoner fires empty-body defeasible rules and the
    // ambiguity fallback is not reached. The Display provable path is tested
    // separately in test_display_provable_literal.
}
#[test]
fn test_ambiguity_blocking_display_format() {
    // Directly construct a WhyNotResult that represents ambiguity blocking
    // and verify the Display output covers the blocked_by branch with
    // the ambiguity explanation.
    let mut result = WhyNotResult::new(Literal::simple("goal"));
    result.would_derive = Some("r1".to_string());
    result.blocked_by.push(BlockingCondition {
        blocking_type: BlockingType::Contradicted,
        rule_label: "r1".to_string(),
        missing_literals: Vec::new(),
        blocking_rule: None,
        explanation: "Body satisfied but conclusion blocked by ambiguity".to_string(),
    });

    assert!(result.has_blockers());
    assert!(!result.is_provable());

    let display = result.to_text();
    assert!(
        display.contains("not provable"),
        "Display should say 'not provable', got: {display}"
    );
    assert!(
        display.contains("Would be derived by rule: r1"),
        "Display should mention deriving rule, got: {display}"
    );
    assert!(
        display.contains("Blocked by"),
        "Display should mention blocking, got: {display}"
    );
    assert!(
        display.contains("contradicted"),
        "Display should mention contradicted type, got: {display}"
    );
    assert!(
        display.contains("ambiguity"),
        "Display should mention ambiguity, got: {display}"
    );
}
#[test]
fn test_multiple_attackers_mixed_types() {
    // r1: bird => flies, d1: broken_wing ~> ~flies (defeater),
    // r2: penguin => ~flies (defeasible). Both bodies satisfied, no superiority.
    // Should get both Defeated (from defeater) and Contradicted (from defeasible).
    let mut th = Theory::new();
    th.add_fact("bird");
    th.add_fact("broken_wing");
    th.add_fact("penguin");
    th.add_defeasible_rule(&["bird"], "flies");
    th.add_defeater(&["broken_wing"], "~flies");
    th.add_defeasible_rule(&["penguin"], "~flies");

    let result = why_not(&th, &Literal::simple("flies")).unwrap();
    let types: Vec<_> = result.blocked_by.iter().map(|b| b.blocking_type).collect();
    assert!(
        types.contains(&BlockingType::Defeated),
        "Should have Defeated blocker from defeater, got: {:?}",
        types
    );
    assert!(
        types.contains(&BlockingType::Contradicted),
        "Should have Contradicted blocker from defeasible attacker, got: {:?}",
        types
    );
}
#[test]
fn test_why_not_result_accessors() {
    let mut result = WhyNotResult::new(Literal::simple("x"));
    assert!(!result.is_provable());
    assert!(!result.has_blockers());
    assert!(result.get_missing_premises().is_empty());

    result.would_derive = Some("r1".to_string());
    assert!(result.is_provable());

    result.blocked_by.push(BlockingCondition::missing_premise("r1", vec![Literal::simple("y")]));
    assert!(!result.is_provable());
    assert!(result.has_blockers());
    assert_eq!(result.get_missing_premises().len(), 1);
}
