#![allow(unused_imports)]
use spindle_core::conclusion::{Conclusion, ConclusionType};
use spindle_core::literal::Literal;
use spindle_core::mode::Mode;
use spindle_core::pipeline::{GroundingOptions, PrepareOptions};
use spindle_core::reason::{reason, reason_with_options};
use spindle_core::rule::{Rule, RuleType};
use spindle_core::temporal::{Temporal, TimePoint};
use spindle_core::theory::Theory;


#[test]
fn test_simple_fact() {
    let mut theory = Theory::new();
    theory.add_fact("bird");

    let conclusions = reason(&theory).unwrap();

    assert!(
        conclusions
            .iter()
            .any(|c| c.conclusion_type == ConclusionType::DefinitelyProvable
                && c.literal.name() == "bird")
    );
}

#[test]
fn test_negated_fact() {
    let mut theory = Theory::new();
    theory.add_fact("~guilty");

    let conclusions = reason(&theory).unwrap();

    assert!(
        conclusions
            .iter()
            .any(|c| c.conclusion_type == ConclusionType::DefinitelyProvable
                && c.literal.name() == "guilty"
                && c.literal.negation)
    );
}

#[test]
fn test_strict_chain() {
    let mut theory = Theory::new();
    theory.add_fact("bird");
    theory.add_strict_rule(&["bird"], "animal");

    let conclusions = reason(&theory).unwrap();

    assert!(
        conclusions
            .iter()
            .any(|c| c.conclusion_type == ConclusionType::DefinitelyProvable
                && c.literal.name() == "animal")
    );
}

#[test]
fn test_defeasible_rule() {
    let mut theory = Theory::new();
    theory.add_fact("bird");
    theory.add_defeasible_rule(&["bird"], "flies");

    let conclusions = reason(&theory).unwrap();

    assert!(
        conclusions
            .iter()
            .any(|c| c.conclusion_type == ConclusionType::DefeasiblyProvable
                && c.literal.name() == "flies")
    );
}

#[test]
fn test_multiple_body_literals() {
    let mut theory = Theory::new();
    theory.add_fact("p");
    theory.add_fact("q");
    theory.add_fact("r");
    theory.add_defeasible_rule(&["p", "q", "r"], "s");

    let conclusions = reason(&theory).unwrap();

    assert!(
        conclusions
            .iter()
            .any(|c| c.conclusion_type == ConclusionType::DefeasiblyProvable
                && c.literal.name() == "s"),
        "s should be defeasibly provable when all antecedents are satisfied"
    );
}

#[test]
fn test_unsatisfied_rule_body() {
    let mut theory = Theory::new();
    theory.add_fact("p");
    theory.add_defeasible_rule(&["p", "q"], "r");

    let conclusions = reason(&theory).unwrap();

    assert!(
        !conclusions
            .iter()
            .any(|c| c.conclusion_type == ConclusionType::DefeasiblyProvable
                && c.literal.name() == "r"),
        "r should not be provable without q"
    );
}

#[test]
fn test_penguin_doesnt_fly() {
    let mut theory = Theory::new();
    theory.add_fact("bird");
    theory.add_fact("penguin");

    let r1 = theory.add_defeasible_rule(&["bird"], "flies");
    let r2 = theory.add_defeasible_rule(&["penguin"], "~flies");

    theory.add_superiority(&r2, &r1);

    let conclusions = reason(&theory).unwrap();

    // ~flies should be defeasibly provable (penguins don't fly)
    assert!(
        conclusions
            .iter()
            .any(|c| c.conclusion_type == ConclusionType::DefeasiblyProvable
                && c.literal.name() == "flies"
                && c.literal.negation)
    );
}

#[test]
fn test_superiority_resolves_conflict() {
    let mut theory = Theory::new();
    theory.add_fact("bird");

    let r1 = theory.add_defeasible_rule(&["bird"], "flies");
    let r2 = theory.add_defeasible_rule(&["bird"], "~flies");

    theory.add_superiority(&r1, &r2);

    let conclusions = reason(&theory).unwrap();

    // Superior rule r1 should win
    assert!(
        conclusions
            .iter()
            .any(|c| c.conclusion_type == ConclusionType::DefeasiblyProvable
                && c.literal.name() == "flies"
                && !c.literal.negation),
        "flies should be defeasibly provable via superior rule"
    );
}

#[test]
fn test_strict_beats_defeasible() {
    let mut theory = Theory::new();
    theory.add_fact("a");
    theory.add_fact("b");
    theory.add_strict_rule(&["a", "b"], "c");
    theory.add_defeasible_rule(&["a", "b"], "~c");

    let conclusions = reason(&theory).unwrap();

    // Strict rule should definitely prove c
    assert!(
        conclusions
            .iter()
            .any(|c| c.conclusion_type == ConclusionType::DefinitelyProvable
                && c.literal.name() == "c"
                && !c.literal.negation),
        "c should be definitely provable via strict rule"
    );

    assert!(
        !conclusions.iter().any(|c| {
            c.conclusion_type == ConclusionType::DefeasiblyProvable
                && c.literal.name() == "c"
                && c.literal.negation
        }),
        "~c should not be defeasibly provable against a strict attacker"
    );
}

#[test]
fn test_forward_chaining() {
    let mut theory = Theory::new();
    theory.add_fact("a");
    theory.add_defeasible_rule(&["a"], "b");
    theory.add_defeasible_rule(&["b"], "c");
    theory.add_defeasible_rule(&["c"], "d");

    let conclusions = reason(&theory).unwrap();

    for lit_name in &["b", "c", "d"] {
        assert!(
            conclusions
                .iter()
                .any(|c| c.conclusion_type == ConclusionType::DefeasiblyProvable
                    && c.literal.name() == *lit_name),
            "{lit_name} should be defeasibly provable via chain"
        );
    }
}

#[test]
fn test_negative_definite_conclusion() {
    let mut theory = Theory::new();
    theory.add_fact("p");
    theory.add_defeasible_rule(&["p"], "q");

    let conclusions = reason(&theory).unwrap();

    // q has no strict path, so -D q
    assert!(
        conclusions.iter().any(
            |c| c.conclusion_type == ConclusionType::DefinitelyNotProvable
                && c.literal.name() == "q"
                && !c.literal.negation
        ),
        "q should be definitely NOT provable (no strict rule)"
    );
}

#[test]
fn test_negative_defeasible_unsatisfied() {
    let mut theory = Theory::new();
    theory.add_defeasible_rule(&["p"], "q"); // p not proven

    let conclusions = reason(&theory).unwrap();

    assert!(
        conclusions.iter().any(
            |c| c.conclusion_type == ConclusionType::DefeasiblyNotProvable
                && c.literal.name() == "q"
        ),
        "q should be defeasibly NOT provable when body unsatisfied"
    );
}

#[test]
fn test_superiority_yields_negative_for_inferior() {
    let mut theory = Theory::new();
    theory.add_fact("p");

    let r1 = theory.add_defeasible_rule(&["p"], "q");
    let r2 = theory.add_defeasible_rule(&["p"], "~q");

    theory.add_superiority(&r1, &r2);

    let conclusions = reason(&theory).unwrap();

    // r1 > r2, so +d q, but ~q should be blocked
    assert!(
        conclusions
            .iter()
            .any(|c| c.conclusion_type == ConclusionType::DefeasiblyProvable
                && c.literal.name() == "q"
                && !c.literal.negation),
        "q should be defeasibly provable via superior rule"
    );
}

#[test]
fn test_defeater_blocks_conclusion() {
    let mut theory = Theory::new();
    theory.add_fact("p");
    theory.add_defeasible_rule(&["p"], "q");
    theory.add_defeater(&["p"], "~q");

    let conclusions = reason(&theory).unwrap();

    // Defeater should block q from being proven
    let has_q = conclusions.iter().any(|c| {
        c.conclusion_type == ConclusionType::DefeasiblyProvable
            && c.literal.name() == "q"
            && !c.literal.negation
    });

    let has_not_q = conclusions.iter().any(|c| {
        c.conclusion_type == ConclusionType::DefeasiblyProvable
            && c.literal.name() == "q"
            && c.literal.negation
    });

    // Defeater blocks q from being proven
    assert!(
        !has_q,
        "q should NOT be defeasibly provable when blocked by defeater"
    );

    // Defeater doesn't prove ~q (it only blocks)
    assert!(
        !has_not_q,
        "~q should NOT be defeasibly provable by defeater alone"
    );
}

#[test]
fn test_defeater_doesnt_prove() {
    let mut theory = Theory::new();
    theory.add_fact("p");
    theory.add_defeater(&["p"], "q");

    let conclusions = reason(&theory).unwrap();

    // Defeaters don't prove anything
    assert!(
        !conclusions
            .iter()
            .any(|c| c.conclusion_type == ConclusionType::DefeasiblyProvable
                && c.literal.name() == "q"),
        "Defeater alone should not prove q"
    );
}

#[test]
fn test_empty_theory() {
    let theory = Theory::new();
    let conclusions = reason(&theory).unwrap();

    // Empty theory should produce no positive conclusions
    assert!(
        !conclusions.iter().any(|c| c.conclusion_type.is_positive()),
        "Empty theory should produce no positive conclusions"
    );
}

#[test]
fn test_theory_with_only_rules() {
    let mut theory = Theory::new();
    theory.add_defeasible_rule(&["p"], "q");
    theory.add_defeasible_rule(&["q"], "r");

    let conclusions = reason(&theory).unwrap();

    // No facts, so no positive conclusions
    assert!(
        !conclusions.iter().any(|c| c.conclusion_type.is_positive()),
        "Theory with no facts should produce no positive conclusions"
    );
}

#[test]
fn test_self_referential_rule() {
    let mut theory = Theory::new();
    theory.add_defeasible_rule(&["p"], "p");

    let conclusions = reason(&theory).unwrap();

    // Should not crash and p should not be proven
    assert!(
        !conclusions
            .iter()
            .any(|c| c.conclusion_type == ConclusionType::DefeasiblyProvable
                && c.literal.name() == "p"),
        "Self-referential rule without initial fact should not prove p"
    );
}

#[test]
fn test_circular_dependencies() {
    let mut theory = Theory::new();
    theory.add_defeasible_rule(&["p"], "q");
    theory.add_defeasible_rule(&["q"], "r");
    theory.add_defeasible_rule(&["r"], "p");

    let conclusions = reason(&theory).unwrap();

    // Should terminate without infinite loop - the fact that we reach this assertion
    // means the function terminated successfully
    let _ = conclusions;
}

#[test]
fn test_conflicting_facts() {
    let mut theory = Theory::new();
    theory.add_fact("p");
    theory.add_fact("~p");

    let conclusions = reason(&theory).unwrap();

    // Both should be definitely provable (inconsistent theory)
    assert!(
        conclusions
            .iter()
            .any(|c| c.conclusion_type == ConclusionType::DefinitelyProvable
                && c.literal.name() == "p"
                && !c.literal.negation),
        "p should be definitely provable"
    );
    assert!(
        conclusions
            .iter()
            .any(|c| c.conclusion_type == ConclusionType::DefinitelyProvable
                && c.literal.name() == "p"
                && c.literal.negation),
        "~p should be definitely provable"
    );
}

#[test]
fn test_long_chain() {
    let mut theory = Theory::new();
    theory.add_fact("l0");

    for i in 0..50 {
        theory.add_defeasible_rule(&[&format!("l{i}")], &format!("l{}", i + 1));
    }

    let conclusions = reason(&theory).unwrap();

    // All literals in chain should be provable
    assert!(
        conclusions
            .iter()
            .any(|c| c.conclusion_type == ConclusionType::DefeasiblyProvable
                && c.literal.name() == "l50"),
        "l50 should be defeasibly provable through long chain"
    );
}

#[test]
fn test_wide_theory() {
    let mut theory = Theory::new();

    // 100 independent facts and derived conclusions
    for i in 0..100 {
        theory.add_fact(&format!("fact{i}"));
        theory.add_defeasible_rule(&[&format!("fact{i}")], &format!("derived{i}"));
    }

    let conclusions = reason(&theory).unwrap();

    // Check a sample of derived conclusions
    for i in [0, 25, 50, 75, 99].iter() {
        assert!(
            conclusions
                .iter()
                .any(|c| c.conclusion_type == ConclusionType::DefeasiblyProvable
                    && c.literal.name() == format!("derived{i}")),
            "derived{i} should be defeasibly provable"
        );
    }
}

#[test]
fn test_many_facts() {
    let mut theory = Theory::new();

    for i in 0..100 {
        theory.add_fact(&format!("p{i}"));
    }

    let conclusions = reason(&theory).unwrap();

    let definite_count = conclusions
        .iter()
        .filter(|c| c.conclusion_type == ConclusionType::DefinitelyProvable)
        .count();

    assert!(
        definite_count >= 100,
        "Should definitely prove all {} facts, got {}",
        100,
        definite_count
    );
}

#[test]
fn test_rule_superior_to_defeater() {
    // Test that a rule can override a defeater with explicit superiority
    let mut theory = Theory::new();
    theory.add_fact("p");
    let r1 = theory.add_defeasible_rule(&["p"], "q");
    let d1 = theory.add_defeater(&["p"], "~q");
    theory.add_superiority(&r1, &d1); // r1 is superior to defeater

    let conclusions = reason(&theory).unwrap();

    // q should be provable because r1 > d1
    let has_q = conclusions.iter().any(|c| {
        c.conclusion_type == ConclusionType::DefeasiblyProvable
            && c.literal.name() == "q"
            && !c.literal.negation
    });

    assert!(
        has_q,
        "q should be defeasibly provable when rule is superior to defeater"
    );
}

#[test]
fn test_ambiguity_blocking_no_superiority() {
    // SDL ambiguity blocking: conflicting defeasible rules with no superiority
    // relation should block BOTH conclusions (neither is +d).
    let mut theory = Theory::new();
    theory.add_fact("p");
    theory.add_defeasible_rule(&["p"], "q");
    theory.add_defeasible_rule(&["p"], "~q");
    // No superiority relation

    let conclusions = reason(&theory).unwrap();

    let has_q = conclusions.iter().any(|c| {
        c.conclusion_type == ConclusionType::DefeasiblyProvable
            && c.literal.name() == "q"
            && !c.literal.negation
    });
    let has_not_q = conclusions.iter().any(|c| {
        c.conclusion_type == ConclusionType::DefeasiblyProvable
            && c.literal.name() == "q"
            && c.literal.negation
    });

    assert!(
        !has_q,
        "q should NOT be defeasibly provable (ambiguity blocking)"
    );
    assert!(
        !has_not_q,
        "~q should NOT be defeasibly provable (ambiguity blocking)"
    );

    // Both should be -d
    assert!(
        conclusions.iter().any(|c| {
            c.conclusion_type == ConclusionType::DefeasiblyNotProvable
                && c.literal.name() == "q"
                && !c.literal.negation
        }),
        "-d q expected"
    );
    assert!(
        conclusions.iter().any(|c| {
            c.conclusion_type == ConclusionType::DefeasiblyNotProvable
                && c.literal.name() == "q"
                && c.literal.negation
        }),
        "-d ~q expected"
    );
}

#[test]
fn test_attacker_with_unsatisfied_body() {
    // Attacker's body is not satisfied, so it can't block
    let mut theory = Theory::new();
    theory.add_fact("p");
    theory.add_defeasible_rule(&["p"], "q");
    theory.add_defeasible_rule(&["x"], "~q"); // x is not a fact

    let conclusions = reason(&theory).unwrap();

    let has_q = conclusions.iter().any(|c| {
        c.conclusion_type == ConclusionType::DefeasiblyProvable
            && c.literal.name() == "q"
            && !c.literal.negation
    });

    assert!(
        has_q,
        "q should be provable when attacker's body is unsatisfied"
    );
}

#[test]
fn test_attacker_superior_blocks() {
    // Attacker is superior, so it blocks the defender
    let mut theory = Theory::new();
    theory.add_fact("p");
    let r1 = theory.add_defeasible_rule(&["p"], "q");
    let r2 = theory.add_defeasible_rule(&["p"], "~q");
    theory.add_superiority(&r2, &r1); // r2 > r1

    let conclusions = reason(&theory).unwrap();

    // q should NOT be provable (blocked by superior r2)
    let has_q = conclusions.iter().any(|c| {
        c.conclusion_type == ConclusionType::DefeasiblyProvable
            && c.literal.name() == "q"
            && !c.literal.negation
    });

    // ~q should be provable
    let has_not_q = conclusions.iter().any(|c| {
        c.conclusion_type == ConclusionType::DefeasiblyProvable
            && c.literal.name() == "q"
            && c.literal.negation
    });

    assert!(!has_q, "q should be blocked by superior attacker");
    assert!(has_not_q, "~q should be provable via superior rule");
}

#[test]
fn test_empty_body_strict_rule() {
    // Empty-body strict rules should fire and prove their head

    let mut theory = Theory::new();
    let rule = Rule::new(
        "axiom",
        RuleType::Strict,
        vec![],
        vec![Literal::simple("truth")],
    );
    theory.add_rule(rule);

    let conclusions = reason(&theory).unwrap();

    assert!(
        conclusions
            .iter()
            .any(|c| c.conclusion_type == ConclusionType::DefinitelyProvable
                && c.literal.name() == "truth"),
        "Empty-body strict rule should prove its head"
    );
}

#[test]
fn test_empty_body_defeasible_rule() {

    let mut theory = Theory::new();
    let rule = Rule::new(
        "axiom",
        RuleType::Defeasible,
        vec![],
        vec![Literal::simple("maybe")],
    );
    theory.add_rule(rule);

    let conclusions = reason(&theory).unwrap();

    assert!(
        conclusions
            .iter()
            .any(|c| c.conclusion_type == ConclusionType::DefeasiblyProvable
                && c.literal.name() == "maybe"),
        "Empty-body defeasible rule should prove its head"
    );
}

#[test]
fn test_empty_body_rule_chains() {
    // Empty-body rule should seed forward chaining

    let mut theory = Theory::new();
    let base_rule = Rule::new(
        "base_rule",
        RuleType::Strict,
        vec![],
        vec![Literal::simple("base")],
    );
    theory.add_rule(base_rule);
    theory.add_defeasible_rule(&["base"], "derived");

    let conclusions = reason(&theory).unwrap();

    assert!(
        conclusions
            .iter()
            .any(|c| c.conclusion_type == ConclusionType::DefeasiblyProvable
                && c.literal.name() == "derived"),
        "Forward chaining should work from empty-body rule heads"
    );
}

#[test]
fn test_empty_body_strict_not_lost_when_defeasible_same_head_exists() {
    // Regression: if an empty-body defeasible rule for `p` is seen before an
    // empty-body strict rule for `p`, strict derivation must still be emitted.
    // We iterate labels to avoid depending on HashMap iteration order.

    for i in 0..128 {
        let mut theory = Theory::new();
        theory.add_rule(Rule::new(
            &format!("d{i}"),
            RuleType::Defeasible,
            vec![],
            vec![Literal::simple("p")],
        ));
        theory.add_rule(Rule::new(
            &format!("s{i}"),
            RuleType::Strict,
            vec![],
            vec![Literal::simple("p")],
        ));

        let conclusions = reason(&theory).unwrap();
        let has_definite_p = conclusions.iter().any(|c| {
            c.conclusion_type == ConclusionType::DefinitelyProvable
                && c.literal.name() == "p"
                && !c.literal.negation
        });

        assert!(has_definite_p, "missing +D p for label pair d{i} / s{i}");
    }
}

#[test]
fn test_fact_plus_empty_body_strict_no_duplicate_conclusions() {
    // A fact already proves +D p. An empty-body strict rule for p should not
    // emit a second +D p conclusion.

    let mut theory = Theory::new();
    theory.add_fact("p");
    theory.add_rule(Rule::new(
        "axiom",
        RuleType::Strict,
        vec![],
        vec![Literal::simple("p")],
    ));

    let conclusions = reason(&theory).unwrap();
    let definite_p_count = conclusions
        .iter()
        .filter(|c| {
            c.conclusion_type == ConclusionType::DefinitelyProvable
                && c.literal.name() == "p"
                && !c.literal.negation
        })
        .count();

    assert_eq!(definite_p_count, 1, "Should have exactly one +D p");
}

#[test]
fn test_fact_plus_empty_body_defeasible_no_duplicate_and_chains() {
    // A fact already proves p. An empty-body defeasible rule for p should
    // not produce a duplicate, and forward chaining from p should still work.

    let mut theory = Theory::new();
    theory.add_fact("p");
    theory.add_rule(Rule::new(
        "d_axiom",
        RuleType::Defeasible,
        vec![],
        vec![Literal::simple("p")],
    ));
    theory.add_defeasible_rule(&["p"], "q");

    let conclusions = reason(&theory).unwrap();

    let defeasible_p_count = conclusions
        .iter()
        .filter(|c| {
            c.conclusion_type == ConclusionType::DefeasiblyProvable
                && c.literal.name() == "p"
                && !c.literal.negation
        })
        .count();
    assert_eq!(defeasible_p_count, 1, "Should have exactly one +d p");

    let has_q = conclusions.iter().any(|c| {
        c.conclusion_type == ConclusionType::DefeasiblyProvable
            && c.literal.name() == "q"
            && !c.literal.negation
    });
    assert!(has_q, "Forward chaining from p to q should still work");
}

#[test]
fn test_two_empty_body_defeasible_same_head_only_one_conclusion() {
    // Two empty-body defeasible rules for the same head should produce
    // exactly one +d conclusion, not two.

    let mut theory = Theory::new();
    theory.add_rule(Rule::new(
        "d1",
        RuleType::Defeasible,
        vec![],
        vec![Literal::simple("p")],
    ));
    theory.add_rule(Rule::new(
        "d2",
        RuleType::Defeasible,
        vec![],
        vec![Literal::simple("p")],
    ));

    let conclusions = reason(&theory).unwrap();
    let defeasible_p_count = conclusions
        .iter()
        .filter(|c| {
            c.conclusion_type == ConclusionType::DefeasiblyProvable
                && c.literal.name() == "p"
                && !c.literal.negation
        })
        .count();

    assert_eq!(defeasible_p_count, 1, "Should have exactly one +d p");
}

#[test]
fn test_duplicate_facts_no_double_conclusions() {
    let mut theory = Theory::new();
    theory.add_fact("bird");
    theory.add_fact("bird"); // duplicate

    let conclusions = reason(&theory).unwrap();

    let bird_definite_count = conclusions
        .iter()
        .filter(|c| {
            c.conclusion_type == ConclusionType::DefinitelyProvable
                && c.literal.name() == "bird"
        })
        .count();

    assert_eq!(
        bird_definite_count, 1,
        "Duplicate facts should produce exactly one +D conclusion, got {bird_definite_count}"
    );
}

#[test]
fn test_duplicate_facts_no_premature_rule_firing() {
    // Critical regression test: duplicate facts must not cause
    // multi-body rules to fire with unsatisfied body literals.
    let mut theory = Theory::new();
    theory.add_fact("p");
    theory.add_fact("p"); // duplicate
    theory.add_defeasible_rule(&["p", "q"], "r");

    let conclusions = reason(&theory).unwrap();

    let has_r = conclusions.iter().any(|c| {
        c.conclusion_type == ConclusionType::DefeasiblyProvable && c.literal.name() == "r"
    });

    assert!(
        !has_r,
        "Rule with body [p, q] must NOT fire when only p is proven (even with duplicate p facts)"
    );
}

#[test]
fn test_conflict_resolution_with_superiority() {
    // When superiority resolves the conflict, the superior rule should win
    let mut theory = Theory::new();
    theory.add_fact("p");
    let r1 = theory.add_defeasible_rule(&["p"], "q");
    let r2 = theory.add_defeasible_rule(&["p"], "~q");
    theory.add_superiority(&r1, &r2);

    let conclusions = reason(&theory).unwrap();

    let has_q = conclusions.iter().any(|c| {
        c.conclusion_type == ConclusionType::DefeasiblyProvable
            && c.literal.name() == "q"
            && !c.literal.negation
    });

    assert!(has_q, "Superior rule should prove q");
}

#[test]
fn test_conflict_resolution_no_conflict_when_attacker_unsatisfied() {
    // If attacker's body is not satisfied, no blocking should occur
    let mut theory = Theory::new();
    theory.add_fact("p");
    theory.add_defeasible_rule(&["p"], "q");
    theory.add_defeasible_rule(&["unproven"], "~q");

    let conclusions = reason(&theory).unwrap();

    let has_q = conclusions.iter().any(|c| {
        c.conclusion_type == ConclusionType::DefeasiblyProvable
            && c.literal.name() == "q"
            && !c.literal.negation
    });

    assert!(
        has_q,
        "q should be provable when attacker body is unsatisfied"
    );
}

#[test]
fn test_reason_with_options_default_matches_reason() {
    let mut theory = Theory::new();
    theory.add_fact("bird");
    theory.add_defeasible_rule(&["bird"], "flies");

    let conclusions_default = reason(&theory).unwrap();
    let conclusions_with_opts =
        reason_with_options(&theory, PrepareOptions::default()).unwrap();

    // Both should produce the same positive conclusions
    let pos_default: Vec<_> = conclusions_default
        .iter()
        .filter(|c| c.is_positive())
        .map(|c| c.literal.name())
        .collect();

    let pos_with_opts: Vec<_> = conclusions_with_opts
        .iter()
        .filter(|c| c.is_positive())
        .map(|c| c.literal.name())
        .collect();

    assert_eq!(pos_default, pos_with_opts);
}

#[test]
fn test_reason_with_options_accepts_reference_time() {

    let mut theory = Theory::new();

    // Add a fact with a specific temporal window
    let bird_lit = Literal::new(
        "bird",
        false,
        spindle_core::mode::Mode::default(),
        Temporal::from_bounds(1000, 2000), // active from 1000 to 2000
        vec![],
    );
    theory.add_rule(spindle_core::rule::Rule::fact("f1", bird_lit));

    // Reason at time 1500 (inside the window)
    let opts_inside = PrepareOptions {
        reference_time: Some(TimePoint::from_millis(1500)),
        ..Default::default()
    };
    let conclusions_inside = reason_with_options(&theory, opts_inside).unwrap();
    let has_bird_inside = conclusions_inside
        .iter()
        .any(|c| c.literal.name() == "bird" && c.is_positive());
    assert!(has_bird_inside, "bird should be provable at time 1500");

    // Reason at time 3000 (outside the window)
    let opts_outside = PrepareOptions {
        reference_time: Some(TimePoint::from_millis(3000)),
        ..Default::default()
    };
    let conclusions_outside = reason_with_options(&theory, opts_outside).unwrap();
    let has_bird_outside = conclusions_outside
        .iter()
        .any(|c| c.literal.name() == "bird" && c.is_positive());
    assert!(
        !has_bird_outside,
        "bird should NOT be provable at time 3000 (outside temporal window)"
    );
}

#[test]
fn test_reason_with_options_grounding_can_be_disabled() {

    let mut theory = Theory::new();
    theory.add_fact("p");

    // With grounding disabled, variables won't be instantiated
    let opts = PrepareOptions {
        grounding: GroundingOptions {
            enabled: false,
            ..Default::default()
        },
        ..Default::default()
    };

    // Should still work for ground theories
    let conclusions = reason_with_options(&theory, opts).unwrap();
    assert!(
        conclusions.iter().any(|c| c.is_positive()),
        "should have positive conclusions"
    );
}

#[test]
fn test_spec_worked_example_conflicting_facts() {
    // Spec worked example (lines 114-134):
    //   f1: >> p
    //   f2: >> -p
    // Both are facts. No superiority. Result: -d p, -d -p.
    //
    // Note: our implementation treats facts as +D (definitively provable).
    // With +D p and +D -p, condition (2) of +d fails for both:
    //   +d p requires -D -p, but +D -p, so blocked.
    //   +d -p requires -D p, but +D p, so blocked.
    // So neither is defeasibly provable even though both are definite.
    let mut theory = Theory::new();
    theory.add_fact("p");
    theory.add_fact("~p");

    let conclusions = reason(&theory).unwrap();

    // Both should be +D (they are axioms)
    assert!(conclusions.iter().any(|c| {
        c.conclusion_type == ConclusionType::DefinitelyProvable
            && c.literal.name() == "p"
            && !c.literal.negation
    }));
    assert!(conclusions.iter().any(|c| {
        c.conclusion_type == ConclusionType::DefinitelyProvable
            && c.literal.name() == "p"
            && c.literal.negation
    }));
}

#[test]
fn test_spec_ambiguity_blocking_localized() {
    // Spec section "Ambiguity Blocking" (lines 143-148):
    // When p and ~p are blocked, downstream rules that don't depend on p
    // proceed normally.
    //
    //   r1: => p
    //   r2: => -p
    //   r3: => q          (independent support for q)
    //   r4: p => q         (depends on ambiguous p)
    //
    // Result: -d p, -d -p, but +d q (via r3, uncontested)

    let mut theory = Theory::new();
    theory.add_rule(Rule::new(
        "r1",
        RuleType::Defeasible,
        vec![],
        vec![Literal::simple("p")],
    ));
    theory.add_rule(Rule::new(
        "r2",
        RuleType::Defeasible,
        vec![],
        vec![Literal::new("p", true, Default::default(), Default::default(), vec![])],
    ));
    theory.add_rule(Rule::new(
        "r3",
        RuleType::Defeasible,
        vec![],
        vec![Literal::simple("q")],
    ));
    theory.add_rule(Rule::defeasible(
        "r4",
        vec![Literal::simple("p")],
        Literal::simple("q"),
    ));

    let conclusions = reason(&theory).unwrap();

    // p and ~p are ambiguous → -d
    assert!(
        !conclusions.iter().any(|c| {
            c.conclusion_type == ConclusionType::DefeasiblyProvable
                && c.literal.name() == "p"
                && !c.literal.negation
        }),
        "p should NOT be +d (ambiguity blocked)"
    );
    assert!(
        !conclusions.iter().any(|c| {
            c.conclusion_type == ConclusionType::DefeasiblyProvable
                && c.literal.name() == "p"
                && c.literal.negation
        }),
        "~p should NOT be +d (ambiguity blocked)"
    );

    // q should be +d via r3 (uncontested, independent of ambiguous p)
    assert!(
        conclusions.iter().any(|c| {
            c.conclusion_type == ConclusionType::DefeasiblyProvable
                && c.literal.name() == "q"
                && !c.literal.negation
        }),
        "q should be +d via independent rule r3 (ambiguity blocking is localized)"
    );
}

#[test]
fn test_spec_superiority_defeats_attacker() {
    // Spec condition (3): an applicable attacker s is defeated if
    // ∃t ∈ Rsd[q]: t applicable AND t > s.
    //
    //   >> bird, >> penguin
    //   r1: bird => flies
    //   r2: penguin => ~flies
    //   r2 > r1
    //
    // Result: +d ~flies (r2 wins), -d flies (r1 is defeated)
    let mut theory = Theory::new();
    theory.add_fact("bird");
    theory.add_fact("penguin");

    let r1 = theory.add_defeasible_rule(&["bird"], "flies");
    let r2 = theory.add_defeasible_rule(&["penguin"], "~flies");
    theory.add_superiority(&r2, &r1);

    let conclusions = reason(&theory).unwrap();

    assert!(
        conclusions.iter().any(|c| {
            c.conclusion_type == ConclusionType::DefeasiblyProvable
                && c.literal.name() == "flies"
                && c.literal.negation
        }),
        "+d ~flies expected (superior rule)"
    );
    assert!(
        !conclusions.iter().any(|c| {
            c.conclusion_type == ConclusionType::DefeasiblyProvable
                && c.literal.name() == "flies"
                && !c.literal.negation
        }),
        "flies should NOT be +d (defeated by superior r2)"
    );
}

#[test]
fn test_spec_defeater_uniform_blocking() {
    // Defeaters and defeasible attackers use the same blocking condition.
    //   >> p
    //   r1: p => q
    //   d1: p ~> ~q     (defeater)
    //
    // d1 is an applicable attacker. Need t ∈ Rsd[q] with t > d1.
    // r1 exists but no superiority → blocked.
    // Result: -d q AND -d ~q (defeater blocks but can't prove)
    let mut theory = Theory::new();
    theory.add_fact("p");
    theory.add_defeasible_rule(&["p"], "q");
    theory.add_defeater(&["p"], "~q");

    let conclusions = reason(&theory).unwrap();

    assert!(
        !conclusions.iter().any(|c| {
            c.conclusion_type == ConclusionType::DefeasiblyProvable
                && c.literal.name() == "q"
                && !c.literal.negation
        }),
        "q should NOT be +d (blocked by defeater)"
    );
    assert!(
        !conclusions.iter().any(|c| {
            c.conclusion_type == ConclusionType::DefeasiblyProvable
                && c.literal.name() == "q"
                && c.literal.negation
        }),
        "~q should NOT be +d (defeater can't prove)"
    );
}

#[test]
fn test_spec_cross_rule_superiority() {
    // Issue 5: is_blocked_by_superior must check ALL applicable Rsd[q] rules.
    // Rule t (different from the triggering rule) may be the one that defeats
    // the attacker.
    //
    //   >> a, >> b
    //   r1: a => q
    //   r2: b => ~q
    //   r3: b => q         (r3 > r2)
    //
    // r1 fires first. Attacker r2 is applicable. r1 is NOT superior to r2,
    // but r3 IS superior to r2. So the attacker is defeated, +d q.
    let mut theory = Theory::new();
    theory.add_fact("a");
    theory.add_fact("b");

    theory.add_defeasible_rule(&["a"], "q");
    let r2 = theory.add_defeasible_rule(&["b"], "~q");
    let r3 = theory.add_defeasible_rule(&["b"], "q");
    theory.add_superiority(&r3, &r2);

    let conclusions = reason(&theory).unwrap();

    assert!(
        conclusions.iter().any(|c| {
            c.conclusion_type == ConclusionType::DefeasiblyProvable
                && c.literal.name() == "q"
                && !c.literal.negation
        }),
        "+d q expected (r3 > r2 defeats the attacker, even though r1 triggered first)"
    );
}

#[test]
fn test_spec_strict_always_blocks_defeasible() {
    // Strict attackers always block defeasible conclusions, regardless of
    // superiority. (+D ~q means condition (2) of +d q fails.)
    //
    //   >> a
    //   r1: a => q
    //   r2: a -> ~q     (strict)
    //
    // Result: +D ~q, -d q
    let mut theory = Theory::new();
    theory.add_fact("a");
    theory.add_defeasible_rule(&["a"], "q");
    theory.add_strict_rule(&["a"], "~q");

    let conclusions = reason(&theory).unwrap();

    assert!(
        conclusions.iter().any(|c| {
            c.conclusion_type == ConclusionType::DefinitelyProvable
                && c.literal.name() == "q"
                && c.literal.negation
        }),
        "+D ~q expected"
    );
    assert!(
        !conclusions.iter().any(|c| {
            c.conclusion_type == ConclusionType::DefeasiblyProvable
                && c.literal.name() == "q"
                && !c.literal.negation
        }),
        "q should NOT be +d (strict rule proves ~q)"
    );
}

#[test]
fn test_spec_cascading_chain_uncontested() {
    // Uncontested defeasible chain should propagate.
    //   >> a
    //   r1: a => b
    //   r2: b => c
    //   r3: c => d
    //
    // Result: +d a, +d b, +d c, +d d
    let mut theory = Theory::new();
    theory.add_fact("a");
    theory.add_defeasible_rule(&["a"], "b");
    theory.add_defeasible_rule(&["b"], "c");
    theory.add_defeasible_rule(&["c"], "d");

    let conclusions = reason(&theory).unwrap();

    for lit in &["b", "c", "d"] {
        assert!(
            conclusions.iter().any(|c| {
                c.conclusion_type == ConclusionType::DefeasiblyProvable
                    && c.literal.name() == *lit
                    && !c.literal.negation
            }),
            "+d {lit} expected in uncontested chain"
        );
    }
}

#[test]
fn test_two_phase_strict_chain_blocks_defeasible() {
    // Regression test for Issue 3 (two-phase reasoning).
    // A multi-hop strict chain to ~q must complete in phase 1 before
    // phase 2 checks definite_proven for the complement.
    //
    //   >> a, >> b
    //   r1: a -> c       (strict)
    //   r2: c -> ~p      (strict chain: a → c → ~p)
    //   r3: b => p       (defeasible)
    //
    // Phase 1 must produce +D ~p. Then phase 2: condition (2) of +d p
    // requires -D ~p, which is false → -d p.
    let mut theory = Theory::new();
    theory.add_fact("a");
    theory.add_fact("b");
    theory.add_strict_rule(&["a"], "c");
    theory.add_strict_rule(&["c"], "~p");
    theory.add_defeasible_rule(&["b"], "p");

    let conclusions = reason(&theory).unwrap();

    assert!(
        conclusions.iter().any(|c| {
            c.conclusion_type == ConclusionType::DefinitelyProvable
                && c.literal.name() == "p"
                && c.literal.negation
        }),
        "+D ~p expected from strict chain"
    );
    assert!(
        !conclusions.iter().any(|c| {
            c.conclusion_type == ConclusionType::DefeasiblyProvable
                && c.literal.name() == "p"
                && !c.literal.negation
        }),
        "p should NOT be +d (blocked by +D ~p from strict chain)"
    );
}

#[test]
fn a_defeasible_conclusion_names_the_first_live_rule() {
    let mut theory = Theory::new();
    theory.add_fact("a");
    theory.add_fact("b");
    let late = theory.add_defeasible_rule(&["a", "c"], "q");
    let first = theory.add_defeasible_rule(&["a"], "q");
    let second = theory.add_defeasible_rule(&["b"], "q");
    let conclusions = reason(&theory).unwrap();
    let found: Vec<&Conclusion> = conclusions
        .iter()
        .filter(|c| c.conclusion_type == ConclusionType::DefeasiblyProvable && c.literal.name() == "q")
        .collect();
    assert_eq!(found.len(), 1);
    assert_eq!(found[0].rule_label.as_deref(), Some(first.as_str()));
    assert_ne!(found[0].rule_label.as_deref(), Some(late.as_str()));
    assert_ne!(found[0].rule_label.as_deref(), Some(second.as_str()));
}

#[test]
fn a_defeasible_conclusion_seeded_from_a_fact_names_no_rule() {
    let mut theory = Theory::new();
    theory.add_fact("a");
    let conclusions = reason(&theory).unwrap();
    let found: Vec<&Conclusion> = conclusions
        .iter()
        .filter(|c| c.conclusion_type == ConclusionType::DefeasiblyProvable && c.literal.name() == "a")
        .collect();
    assert_eq!(found.len(), 1);
    assert_eq!(found[0].rule_label, None);
}
