#![allow(unused_imports)]
use spindle_core::conclusion::{Conclusion, ConclusionType};
use spindle_core::literal::Literal;
use spindle_core::mode::Mode;
use spindle_core::pipeline::{GroundingOptions, PrepareOptions};
use spindle_core::query::{evaluate_query, is_proven_temporal, matches_literal_temporal, matches_query_temporal, query, query_with_options, ProvenSet, QueryResult, QueryStatus};
use spindle_core::reason::{reason, reason_with_options};
use spindle_core::rule::{Rule, RuleType};
use spindle_core::temporal::{Temporal, TimePoint};
use spindle_core::theory::Theory;
use spindle_core::what_if::{next_hyp_label, what_if, what_if_provable, HypotheticalClaim, WhatIfResult};
use spindle_core::why_not::{why_not, BlockingCondition, BlockingType, WhyNotResult};

fn make_fact_theory() -> Theory {
    let mut th = Theory::new();
    th.add_fact("bird");
    th
}
fn make_defeasible_theory() -> Theory {
    let mut th = Theory::new();
    th.add_fact("bird");
    th.add_defeasible_rule(&["bird"], "flies");
    th
}
fn make_strict_theory() -> Theory {
    let mut th = Theory::new();
    th.add_fact("human");
    th.add_strict_rule(&["human"], "mortal");
    th
}
fn make_conflict_theory() -> Theory {
    let mut th = Theory::new();
    th.add_fact("bird");
    th.add_fact("penguin");
    let r1 = th.add_defeasible_rule(&["bird"], "flies");
    let r2 = th.add_defeasible_rule(&["penguin"], "~flies");
    th.add_superiority(&r2, &r1);
    th
}
fn make_defeater_theory() -> Theory {
    let mut th = Theory::new();
    th.add_fact("bird");
    th.add_fact("broken_wing");
    th.add_defeasible_rule(&["bird"], "flies");
    th.add_defeater(&["broken_wing"], "~flies");
    th
}
fn make_missing_premise_theory() -> Theory {
    let mut th = Theory::new();
    th.add_fact("code_complete");
    th.add_defeasible_rule(&["tests_pass", "code_complete"], "ready_review");
    th
}
fn make_chain_theory() -> Theory {
    let mut th = Theory::new();
    th.add_fact("a");
    th.add_defeasible_rule(&["a"], "b");
    th.add_defeasible_rule(&["b"], "c");
    th.add_defeasible_rule(&["c"], "d");
    th
}

#[test]
fn query_test_query_provable_fact() {
    let th = make_fact_theory();
    let result = query(&th, &Literal::simple("bird")).unwrap();
    assert_eq!(result.status, QueryStatus::Provable);
    assert!(result.is_provable());
}
#[test]
fn query_test_query_unknown_for_nonexistent() {
    let th = make_fact_theory();
    let result = query(&th, &Literal::simple("unknown")).unwrap();
    assert_eq!(result.status, QueryStatus::Unknown);
    assert!(!result.is_provable());
}
#[test]
fn query_test_query_refuted_when_complement_proven() {
    let mut theory = Theory::new();
    theory.add_fact("~bird");

    let result = query(&theory, &Literal::simple("bird")).unwrap();
    assert_eq!(result.status, QueryStatus::Refuted);
}
#[test]
fn query_test_query_detects_definite_conclusions() {
    let th = make_fact_theory();
    let result = query(&th, &Literal::simple("bird")).unwrap();
    assert_eq!(result.status, QueryStatus::Provable);
    assert!(result.is_definitely_provable());
}
#[test]
fn query_test_query_detects_defeasible_conclusions() {
    let th = make_defeasible_theory();
    let result = query(&th, &Literal::simple("flies")).unwrap();
    assert_eq!(result.status, QueryStatus::Provable);
    assert!(result.is_defeasibly_provable());
}
#[test]
fn query_test_query_strict_rule_produces_definite() {
    let th = make_strict_theory();
    let result = query(&th, &Literal::simple("mortal")).unwrap();
    assert_eq!(result.status, QueryStatus::Provable);
    assert!(result.is_definitely_provable());
}
#[test]
fn query_test_query_chain_derivation() {
    let th = make_chain_theory();

    // All should be provable through the chain
    assert_eq!(
        query(&th, &Literal::simple("a")).unwrap().status,
        QueryStatus::Provable
    );
    assert_eq!(
        query(&th, &Literal::simple("b")).unwrap().status,
        QueryStatus::Provable
    );
    assert_eq!(
        query(&th, &Literal::simple("c")).unwrap().status,
        QueryStatus::Provable
    );
    assert_eq!(
        query(&th, &Literal::simple("d")).unwrap().status,
        QueryStatus::Provable
    );
}
#[test]
fn query_test_query_conflict_with_superiority() {
    let th = make_conflict_theory();
    // flies should be refuted because penguin > bird and penguin => ~flies
    let result = query(&th, &Literal::simple("flies")).unwrap();
    assert_eq!(result.status, QueryStatus::Refuted);
}
#[test]
fn query_test_query_defeater_blocks() {
    let th = make_defeater_theory();
    // With broken_wing, flies should be unknown (defeated but not refuted)
    let result = query(&th, &Literal::simple("flies")).unwrap();
    // Defeaters prevent positive conclusion but don't prove negative
    assert!(result.status == QueryStatus::Unknown || result.status == QueryStatus::Refuted);
}
#[test]
fn query_test_query_negated_literal() {
    let mut theory = Theory::new();
    theory.add_fact("~happy");
    theory.add_defeasible_rule(&["~happy"], "sad");

    let result = query(&theory, &Literal::negated("happy")).unwrap();
    assert_eq!(result.status, QueryStatus::Provable);
}
#[test]
fn query_test_query_result_literal_preserved() {
    let th = make_fact_theory();
    let lit = Literal::simple("bird");
    let result = query(&th, &lit).unwrap();
    assert_eq!(result.literal.name(), "bird");
}
#[test]
fn query_test_query_status_display() {
    assert_eq!(QueryStatus::Provable.to_text(), "provable");
    assert_eq!(QueryStatus::Refuted.to_text(), "refuted");
    assert_eq!(QueryStatus::Unknown.to_text(), "unknown");
}
#[test]
fn query_test_why_not_returns_result() {
    let th = make_missing_premise_theory();
    let result = why_not(&th, &Literal::simple("ready_review")).unwrap();
    assert!(result.has_blockers());
}
#[test]
fn query_test_why_not_preserves_literal() {
    let th = make_missing_premise_theory();
    let lit = Literal::simple("ready_review");
    let result = why_not(&th, &lit).unwrap();
    assert_eq!(result.literal.name(), "ready_review");
}
#[test]
fn query_test_why_not_shows_missing_premise() {
    let th = make_missing_premise_theory();
    let result = why_not(&th, &Literal::simple("ready_review")).unwrap();

    let missing = result.get_missing_premises();
    assert!(!missing.is_empty());
    assert!(missing.iter().any(|l| l.name() == "tests_pass"));
}
#[test]
fn query_test_why_not_no_rules_for_literal() {
    let th = Theory::new();
    let result = why_not(&th, &Literal::simple("unknown")).unwrap();
    assert!(result.would_derive.is_none());
}
#[test]
fn query_test_why_not_no_applicable_rules() {
    let mut theory = Theory::new();
    theory.add_defeasible_rule(&["x"], "y"); // Rule exists but for different literal

    let result = why_not(&theory, &Literal::simple("z")).unwrap();
    assert!(result.would_derive.is_none());
}
#[test]
fn query_test_why_not_contradicted() {
    let mut theory = Theory::new();
    theory.add_fact("~flies"); // Complement is proven

    let result = why_not(&theory, &Literal::simple("flies")).unwrap();
    assert!(
        result
            .blocked_by
            .iter()
            .any(|b| b.blocking_type == BlockingType::Contradicted)
    );
}
#[test]
fn query_test_why_not_contradicted_explanation() {
    let mut theory = Theory::new();
    theory.add_fact("~happy");

    let result = why_not(&theory, &Literal::simple("happy")).unwrap();
    let contradicted = result
        .blocked_by
        .iter()
        .find(|b| b.blocking_type == BlockingType::Contradicted);

    assert!(contradicted.is_some());
    assert!(contradicted.unwrap().explanation.contains("~happy"));
}
#[test]
fn query_test_why_not_for_provable_literal() {
    let th = make_fact_theory();
    let result = why_not(&th, &Literal::simple("bird")).unwrap();
    // For provable literals, why-not should return no blockers
    assert!(!result.has_blockers());
}
#[test]
fn query_test_why_not_display_format() {
    let th = make_missing_premise_theory();
    let result = why_not(&th, &Literal::simple("ready_review")).unwrap();
    let s = result.to_text();
    assert!(s.contains("not provable"));
    assert!(s.contains("ready_review"));
}
#[test]
fn query_test_why_not_display_no_rules() {
    let th = Theory::new();
    let result = why_not(&th, &Literal::simple("unknown")).unwrap();
    let s = result.to_text();
    assert!(s.contains("no rules"));
}
#[test]
fn query_test_blocking_condition_defeated() {
    let bc = BlockingCondition::defeated("r1", "d1");
    assert_eq!(bc.blocking_type, BlockingType::Defeated);
    assert_eq!(bc.blocking_rule, Some("d1".to_string()));
}
#[test]
fn query_test_blocking_condition_contradicted() {
    let bc = BlockingCondition::contradicted("r1", "r2");
    assert_eq!(bc.blocking_type, BlockingType::Contradicted);
    assert!(bc.explanation.contains("Contradicted"));
}
#[test]
fn query_test_blocking_type_display() {
    assert_eq!(
        BlockingType::MissingPremise.to_text(),
        "missing premise"
    );
    assert_eq!(BlockingType::Defeated.to_text(), "defeated");
    assert_eq!(BlockingType::Contradicted.to_text(), "contradicted");
}
#[test]
fn query_test_what_if_returns_result() {
    let th = make_missing_premise_theory();
    let hypotheticals = vec![HypotheticalClaim::new(Literal::simple("tests_pass"))];
    let result = what_if(&th, hypotheticals, &Literal::simple("ready_review")).unwrap();
    assert!(result.is_provable());
}
#[test]
fn query_test_what_if_enables_conclusion() {
    let th = make_missing_premise_theory();
    let hypotheticals = vec![HypotheticalClaim::new(Literal::simple("tests_pass"))];

    let result = what_if(&th, hypotheticals, &Literal::simple("ready_review")).unwrap();
    assert!(result.is_provable());
    assert!(
        result
            .new_conclusions
            .iter()
            .any(|l| l.name() == "ready_review")
    );
}
#[test]
fn query_test_what_if_does_not_modify_original_theory() {
    let th = make_missing_premise_theory();
    let original_count = th.rule_count();

    let hypotheticals = vec![HypotheticalClaim::new(Literal::simple("tests_pass"))];
    let _ = what_if(&th, hypotheticals, &Literal::simple("ready_review")).unwrap();

    // Original theory unchanged
    assert_eq!(th.rule_count(), original_count);
}
#[test]
fn query_test_what_if_provable_convenience() {
    let th = make_missing_premise_theory();
    let hypotheticals = vec![HypotheticalClaim::new(Literal::simple("tests_pass"))];

    assert!(what_if_provable(&th, hypotheticals, &Literal::simple("ready_review")).unwrap());
}
#[test]
fn query_test_what_if_provable_false_when_insufficient() {
    let th = make_missing_premise_theory();
    let hypotheticals = vec![HypotheticalClaim::new(Literal::simple("irrelevant"))];

    assert!(!what_if_provable(&th, hypotheticals, &Literal::simple("ready_review")).unwrap());
}
#[test]
fn query_test_what_if_with_source() {
    let th = make_missing_premise_theory();
    let hypotheticals = vec![HypotheticalClaim::with_source(
        Literal::simple("tests_pass"),
        "ci_server",
    )];

    let result = what_if(&th, hypotheticals, &Literal::simple("ready_review")).unwrap();
    assert!(result.is_provable());
    assert_eq!(
        result.hypotheticals[0].source,
        Some("ci_server".to_string())
    );
}
#[test]
fn query_test_hypothetical_claim_anonymous() {
    let claim = HypotheticalClaim::new(Literal::simple("fact"));
    assert!(claim.source.is_none());
    assert_eq!(claim.literal.name(), "fact");
}
#[test]
fn query_test_hypothetical_claim_with_source() {
    let claim = HypotheticalClaim::with_source(Literal::simple("verified"), "qa_team");
    assert_eq!(claim.source, Some("qa_team".to_string()));
}
#[test]
fn query_test_what_if_multiple_claims() {
    let mut theory = Theory::new();
    theory.add_defeasible_rule(&["a", "b"], "c");

    let hypotheticals = vec![
        HypotheticalClaim::new(Literal::simple("a")),
        HypotheticalClaim::new(Literal::simple("b")),
    ];

    assert!(what_if_provable(&theory, hypotheticals, &Literal::simple("c")).unwrap());
}
#[test]
fn query_test_what_if_chain_derivation() {
    let mut theory = Theory::new();
    theory.add_defeasible_rule(&["a"], "b");
    theory.add_defeasible_rule(&["b"], "c");

    let hypotheticals = vec![HypotheticalClaim::new(Literal::simple("a"))];

    let result = what_if(&theory, hypotheticals, &Literal::simple("c")).unwrap();
    assert!(result.is_provable());
}
#[test]
fn query_test_what_if_negated_hypothetical() {
    let mut theory = Theory::new();
    theory.add_defeasible_rule(&["~broken"], "works");

    let hypotheticals = vec![HypotheticalClaim::new(Literal::negated("broken"))];

    let result = what_if(&theory, hypotheticals, &Literal::simple("works")).unwrap();
    assert!(result.is_provable());
}
#[test]
fn query_test_what_if_tracks_new_conclusions() {
    let th = make_missing_premise_theory();
    let hypotheticals = vec![HypotheticalClaim::new(Literal::simple("tests_pass"))];

    let result = what_if(&th, hypotheticals, &Literal::simple("ready_review")).unwrap();

    // new_conclusions should contain ready_review and tests_pass
    assert!(!result.new_conclusions.is_empty());
}
#[test]
fn query_test_what_if_newly_provable() {
    let th = make_missing_premise_theory();
    let hypotheticals = vec![HypotheticalClaim::new(Literal::simple("tests_pass"))];

    let result = what_if(&th, hypotheticals, &Literal::simple("ready_review")).unwrap();

    let newly = result.newly_provable();
    assert!(newly.iter().any(|l| l.name() == "ready_review"));
}
#[test]
fn query_test_what_if_already_provable() {
    let th = make_fact_theory();
    let hypotheticals = vec![HypotheticalClaim::new(Literal::simple("extra"))];

    let result = what_if(&th, hypotheticals, &Literal::simple("bird")).unwrap();
    assert!(result.is_provable());
}
#[test]
fn query_test_what_if_goal_already_satisfied() {
    let th = make_defeasible_theory();
    let hypotheticals = vec![]; // No hypotheticals needed

    let result = what_if(&th, hypotheticals, &Literal::simple("flies")).unwrap();
    assert!(result.is_provable());
}
#[test]
fn query_test_query_and_why_not_consistency_for_provable() {
    let th = make_defeasible_theory();
    let flies = Literal::simple("flies");

    // Query says provable
    let q_result = query(&th, &flies).unwrap();
    assert!(q_result.is_provable());

    // Why-not should have no blockers
    let wn_result = why_not(&th, &flies).unwrap();
    assert!(!wn_result.has_blockers());
}
#[test]
fn query_test_query_and_why_not_consistency_for_non_provable() {
    let th = make_missing_premise_theory();
    let ready = Literal::simple("ready_review");

    // Query says not provable
    let q_result = query(&th, &ready).unwrap();
    assert!(!q_result.is_provable());

    // Why-not should explain why
    let wn_result = why_not(&th, &ready).unwrap();
    assert!(wn_result.has_blockers());
}
#[test]
fn query_test_query_with_options_default_matches_query() {
    let th = make_defeasible_theory();
    let bird = Literal::simple("bird");

    let result_default = query(&th, &bird).unwrap();
    let result_with_opts = query_with_options(&th, &bird, PrepareOptions::default()).unwrap();

    assert_eq!(result_default.status, result_with_opts.status);
    assert_eq!(result_default.is_provable(), result_with_opts.is_provable());
}
#[test]
fn query_test_query_with_options_accepts_reference_time() {

    let mut theory = Theory::new();

    // Add a fact with a specific temporal window
    let bird_lit = Literal::new(
        "bird",
        false,
        Mode::default(),
        Temporal::from_bounds(1000, 2000), // active from 1000 to 2000
        vec![],
    );
    theory.add_rule(Rule::fact("f1", bird_lit.clone()));

    let bird_query = Literal::simple("bird");

    // Query at time 1500 (inside the window)
    let opts_inside = PrepareOptions {
        reference_time: Some(TimePoint::from_millis(1500)),
        ..Default::default()
    };
    let result_inside = query_with_options(&theory, &bird_query, opts_inside).unwrap();
    assert!(
        result_inside.is_provable(),
        "bird should be provable at time 1500"
    );

    // Query at time 3000 (outside the window)
    let opts_outside = PrepareOptions {
        reference_time: Some(TimePoint::from_millis(3000)),
        ..Default::default()
    };
    let result_outside = query_with_options(&theory, &bird_query, opts_outside).unwrap();
    assert!(
        !result_outside.is_provable(),
        "bird should NOT be provable at time 3000 (outside temporal window)"
    );
}
#[test]
fn query_test_query_with_options_temporal_disjoint_no_conflict() {

    let mut theory = Theory::new();

    // Add bird fact active from 1000 to 2000
    let bird_lit = Literal::new(
        "bird",
        false,
        Mode::default(),
        Temporal::from_bounds(1000, 2000),
        vec![],
    );
    theory.add_rule(Rule::fact("f1", bird_lit));

    // Add ~bird fact active from 3000 to 4000 (disjoint!)
    let not_bird_lit = Literal::new(
        "bird",
        true, // negated
        Mode::default(),
        Temporal::from_bounds(3000, 4000),
        vec![],
    );
    theory.add_rule(Rule::fact("f2", not_bird_lit));

    // At time 1500, bird should be provable (no conflict because ~bird is disjoint)
    let opts = PrepareOptions {
        reference_time: Some(TimePoint::from_millis(1500)),
        ..Default::default()
    };
    let result = query_with_options(&theory, &Literal::simple("bird"), opts).unwrap();
    assert!(
        result.is_provable(),
        "bird should be provable at time 1500 (disjoint temporals don't conflict)"
    );

    // At time 3500, ~bird should be provable
    let opts = PrepareOptions {
        reference_time: Some(TimePoint::from_millis(3500)),
        ..Default::default()
    };
    let result = query_with_options(&theory, &Literal::negated("bird"), opts).unwrap();
    assert!(
        result.is_provable(),
        "~bird should be provable at time 3500"
    );
}
#[test]
fn query_test_why_not_detects_defeater_blocking() {
    // Regression: why_not should detect when a defeater blocks a conclusion
    let th = make_defeater_theory();
    // bird => flies, broken_wing ~> ~flies (defeater)
    let result = why_not(&th, &Literal::simple("flies")).unwrap();

    // Should detect the defeater blocking
    let has_defeated = result
        .blocked_by
        .iter()
        .any(|b| b.blocking_type == BlockingType::Defeated);
    let has_contradicted = result
        .blocked_by
        .iter()
        .any(|b| b.blocking_type == BlockingType::Contradicted);

    assert!(
        has_defeated || has_contradicted,
        "why_not should detect defeater or contradiction blocking, got: {:?}",
        result.blocked_by
    );
}
#[test]
fn query_test_what_if_no_triple_reasoning() {
    // Regression: what_if should not call reason() 3 times.
    // We verify correctness (the performance fix is structural).
    let th = make_missing_premise_theory();
    let hypotheticals = vec![HypotheticalClaim::new(Literal::simple("tests_pass"))];

    let result = what_if(&th, hypotheticals, &Literal::simple("ready_review")).unwrap();
    assert!(result.is_provable());
    assert!(!result.new_conclusions.is_empty());
}
#[test]
fn query_test_what_if_unique_labels_no_collision() {
    // Regression: hypothetical labels should not collide with user labels
    let mut theory = Theory::new();
    // User has a rule labeled "hyp1" (which old code would collide with)
    theory.add_rule(Rule::defeasible(
        "hyp1",
        vec![Literal::simple("a")],
        Literal::simple("b"),
    ));
    theory.add_fact("x");
    theory.add_defeasible_rule(&["x"], "goal");

    let hypotheticals = vec![HypotheticalClaim::new(Literal::simple("a"))];
    let result = what_if(&theory, hypotheticals, &Literal::simple("goal")).unwrap();

    // Should still work correctly despite user having "hyp1" label
    assert!(result.is_provable());
}
#[test]
fn query_test_next_hyp_label_skips_existing_rule_labels() {
    let mut theory = Theory::new();
    theory.add_rule(Rule::fact("__hyp_42_1", Literal::simple("a")));
    theory.add_rule(Rule::fact("__hyp_42_2", Literal::simple("b")));

    let label = next_hyp_label(&theory, 42, 1);
    assert_eq!(label, "__hyp_42_3");
}
#[test]
fn query_test_what_if_changed_conclusions_no_false_positive_when_status_unchanged() {
    // Regression: baseline and modified can both contain +D and +d for the same literal.
    // This should not be reported as a status change.
    let mut theory = Theory::new();
    theory.add_fact("p");

    let result = what_if(
        &theory,
        vec![HypotheticalClaim::new(Literal::simple("irrelevant"))],
        &Literal::simple("p"),
    )
    .unwrap();

    assert!(
        result.changed_conclusions.is_empty(),
        "No status change expected for p, got {:?}",
        result.changed_conclusions
    );
}
#[test]
fn query_test_what_if_changed_conclusions_includes_becomes_unprovable() {
    let mut theory = Theory::new();
    theory.add_fact("p");
    theory.add_defeasible_rule(&["p"], "q");

    // Baseline: +d q. Hypothetical ~q fact should block q.
    let result = what_if(
        &theory,
        vec![HypotheticalClaim::new(Literal::negated("q"))],
        &Literal::simple("q"),
    )
    .unwrap();

    let has_transition = result.changed_conclusions.iter().any(|(lit, old, new)| {
        lit == &Literal::simple("q")
            && *old == ConclusionType::DefeasiblyProvable
            && !new.is_positive()
    });
    assert!(
        has_transition,
        "Expected q to appear in changed_conclusions when it becomes unprovable, got {:?}",
        result.changed_conclusions
    );
}
#[test]
fn query_test_what_if_changed_conclusions_detects_real_upgrade() {
    // When a hypothetical adds a strict rule that upgrades a literal
    // from +d to +D, changed_conclusions should report it.

    let mut theory = Theory::new();
    // p is only defeasibly provable in baseline
    theory.add_rule(Rule::new(
        "d1",
        RuleType::Defeasible,
        vec![],
        vec![Literal::simple("p")],
    ));
    // q depends on a premise we'll supply
    theory.add_defeasible_rule(&["trigger"], "q");

    // Use a strict rule body: trigger => p (strict)
    theory.add_rule(Rule::strict(
        "s1",
        vec![Literal::simple("trigger")],
        Literal::simple("p"),
    ));

    let result = what_if(
        &theory,
        vec![HypotheticalClaim::new(Literal::simple("trigger"))],
        &Literal::simple("q"),
    )
    .unwrap();

    // p should go from +d (baseline) to +D (modified) — a real change
    let p_change = result
        .changed_conclusions
        .iter()
        .find(|(lit, _, _)| lit.name() == "p" && !lit.negation);
    assert!(
        p_change.is_some(),
        "Should detect p upgrading from +d to +D, got: {:?}",
        result.changed_conclusions
    );
    let (_, old, new) = p_change.unwrap();
    assert_eq!(*old, ConclusionType::DefeasiblyProvable);
    assert_eq!(*new, ConclusionType::DefinitelyProvable);
}
#[test]
fn query_test_what_if_new_conclusion_also_in_changed() {
    // A literal that becomes provable under hypotheticals should appear
    // in new_conclusions AND in changed_conclusions (negative → positive).
    let mut theory = Theory::new();
    theory.add_defeasible_rule(&["trigger"], "q");

    let result = what_if(
        &theory,
        vec![HypotheticalClaim::new(Literal::simple("trigger"))],
        &Literal::simple("q"),
    )
    .unwrap();

    // q is new (not provable in baseline)
    assert!(
        result.new_conclusions.iter().any(|l| l.name() == "q"),
        "q should appear in new_conclusions"
    );
    // q should also appear in changed_conclusions (it went from -d to +d)
    let q_in_changed = result.changed_conclusions.iter().any(|(lit, old, new)| {
        lit.name() == "q" && !lit.negation && !old.is_positive() && new.is_positive()
    });
    assert!(
        q_in_changed,
        "q should appear in changed_conclusions as a negative→positive transition, got {:?}",
        result.changed_conclusions
    );
}
#[test]
fn query_test_why_not_provable_literal_no_false_blockers() {
    // Regression: why_not on a provable literal should return no blockers
    // and should identify the deriving rule
    let th = make_defeasible_theory();
    let result = why_not(&th, &Literal::simple("flies")).unwrap();

    assert!(!result.has_blockers());
    assert!(
        result.would_derive.is_some(),
        "Should identify deriving rule"
    );
}
#[test]
fn query_test_why_not_respects_superiority() {
    // r1 > r2: why_not for r1's head should NOT list r2 as blocker
    let mut theory = Theory::new();
    theory.add_fact("bird");
    theory.add_fact("penguin");
    let r1 = theory.add_defeasible_rule(&["bird"], "flies");
    let r2 = theory.add_defeasible_rule(&["penguin"], "~flies");
    theory.add_superiority(&r1, &r2);

    // flies should be provable since r1 > r2
    let q = query(&theory, &Literal::simple("flies")).unwrap();
    assert!(q.is_provable(), "flies should be provable with r1 > r2");

    // why_not should have no blockers (since it IS provable)
    let result = why_not(&theory, &Literal::simple("flies")).unwrap();
    assert!(
        !result.has_blockers(),
        "why_not should not report blockers for provable literal with superior rule"
    );
}
#[test]
fn query_test_why_not_superiority_inferior_not_blocker() {
    // When r1 > r2 and flies is NOT provable for other reasons,
    // r2 should still not be listed as a blocker for r1
    let mut theory = Theory::new();
    theory.add_fact("penguin");
    // bird is NOT a fact, so r1's body is unsatisfied
    let r1 = theory.add_defeasible_rule(&["bird"], "flies");
    let r2 = theory.add_defeasible_rule(&["penguin"], "~flies");
    theory.add_superiority(&r1, &r2);

    let result = why_not(&theory, &Literal::simple("flies")).unwrap();
    assert!(result.has_blockers());

    // The blocker should be missing premise (bird), not r2 as contradicted
    let has_r2_blocker = result
        .blocked_by
        .iter()
        .any(|b| b.blocking_rule.as_deref() == Some(&r2));
    assert!(
        !has_r2_blocker,
        "Inferior rule r2 should not be listed as a blocker when r1 > r2"
    );
}
#[test]
fn query_test_why_not_defeater_not_blocker_when_superior() {
    // When rule is superior to a defeater, the defeater should not block
    let mut theory = Theory::new();
    theory.add_fact("bird");
    theory.add_fact("broken_wing");
    let r1 = theory.add_defeasible_rule(&["bird"], "flies");
    let d1 = theory.add_defeater(&["broken_wing"], "~flies");
    theory.add_superiority(&r1, &d1);

    let result = why_not(&theory, &Literal::simple("flies")).unwrap();
    // flies should be provable since r1 > d1
    assert!(
        !result.has_blockers(),
        "Defeater should not block when rule is superior"
    );
}
#[test]
fn query_test_why_not_multiple_missing_premises() {
    let mut theory = Theory::new();
    theory.add_defeasible_rule(&["a", "b", "c"], "goal");

    let result = why_not(&theory, &Literal::simple("goal")).unwrap();
    let missing = result.get_missing_premises();
    assert_eq!(missing.len(), 3);
}

#[test]
fn query_test_why_not_partial_premises() {
    let mut theory = Theory::new();
    theory.add_fact("a");
    theory.add_fact("b");
    theory.add_defeasible_rule(&["a", "b", "c"], "goal");

    let result = why_not(&theory, &Literal::simple("goal")).unwrap();
    let missing = result.get_missing_premises();
    assert_eq!(missing.len(), 1);
    assert!(missing.iter().any(|l| l.name() == "c"));
}

#[test]
fn query_test_blocking_condition_missing_premise() {
    let missing = vec![Literal::simple("a"), Literal::simple("b")];
    let bc = BlockingCondition::missing_premise("r1", missing);
    assert_eq!(bc.blocking_type, BlockingType::MissingPremise);
    assert_eq!(bc.rule_label, "r1");
    assert_eq!(bc.missing_literals.len(), 2);
}

#[test]
fn query_test_what_if_hypotheticals_preserved() {
    let th = make_missing_premise_theory();
    let hypotheticals = vec![
        HypotheticalClaim::new(Literal::simple("tests_pass")),
        HypotheticalClaim::new(Literal::simple("extra")),
    ];

    let result = what_if(&th, hypotheticals, &Literal::simple("ready_review")).unwrap();
    assert_eq!(result.hypotheticals.len(), 2);
}
