#![allow(unused_imports)]
use spindle_core::abduce::{abduce, abduce_with_conclusions, AbductionResult, AbductionSolution};
use spindle_core::literal::Literal;
use spindle_core::mode::Mode;
use spindle_core::query::query;
use spindle_core::reason::reason;
use spindle_core::requirement::{requires_facts, requires_with_options, RequiresOptions, RequiresSearchStatus, DEFAULT_MAX_RAW_CANDIDATES};
use spindle_core::rule::Rule;
use spindle_core::temporal::{Temporal, TimePoint};
use spindle_core::theory::Theory;
use spindle_core::what_if::{what_if, HypotheticalClaim};
use spindle_core::why_not::why_not;

fn make_fact_theory() -> Theory {
    let mut th = Theory::new();
    th.add_fact("bird");
    th
}

fn make_defeasible_theory() -> Theory {
    let mut th = Theory::new();
    th.add_fact("bird");
    th.add_defeasible_rule(&["bird"], "flies");
    th
}

fn make_missing_premise_theory() -> Theory {
    let mut th = Theory::new();
    th.add_fact("code_complete");
    th.add_defeasible_rule(&["tests_pass", "code_complete"], "ready_review");
    th
}

fn temporal_lit(name: &str, start: i64, end: i64) -> Literal {
    Literal::new(name, false, Mode::empty(), Temporal::new(TimePoint::Moment(start), TimePoint::Moment(end)), vec![])
}

#[test]
fn abduce_test_abduce_returns_result() {
    let th = make_missing_premise_theory();
    let result = abduce(&th, &Literal::simple("ready_review"), 10).unwrap();
    assert!(result.has_solutions());
}

#[test]
fn abduce_test_abduce_preserves_goal() {
    let th = make_missing_premise_theory();
    let goal = Literal::simple("ready_review");
    let result = abduce(&th, &goal, 10).unwrap();
    assert_eq!(result.goal.name(), "ready_review");
}

#[test]
fn abduce_test_abduce_already_provable() {
    let th = make_fact_theory();
    let result = abduce(&th, &Literal::simple("bird"), 10).unwrap();
    assert!(result.is_already_provable());
}

#[test]
fn abduce_test_abduce_already_provable_empty_solution() {
    let th = make_fact_theory();
    let result = abduce(&th, &Literal::simple("bird"), 10).unwrap();
    let sol = result.smallest_solution().unwrap();
    assert!(sol.is_already_provable());
    assert_eq!(sol.size(), 0);
}

#[test]
fn abduce_test_abduce_finds_missing_facts() {
    let th = make_missing_premise_theory();
    let result = abduce(&th, &Literal::simple("ready_review"), 10).unwrap();
    let sol = result.smallest_solution().unwrap();
    assert!(sol.facts.iter().any(|l| l.name() == "tests_pass"));
}

#[test]
fn abduce_test_abduce_single_missing_premise() {
    let mut theory = Theory::new();
    theory.add_defeasible_rule(&["p"], "q");

    let result = abduce(&theory, &Literal::simple("q"), 10).unwrap();
    let sol = result.smallest_solution().unwrap();
    assert_eq!(sol.size(), 1);
    assert!(sol.facts.contains(&Literal::simple("p")));
}

#[test]
fn abduce_test_abduce_multiple_missing_premises() {
    let mut theory = Theory::new();
    theory.add_defeasible_rule(&["a", "b", "c"], "goal");

    let result = abduce(&theory, &Literal::simple("goal"), 10).unwrap();
    let sol = result.smallest_solution().unwrap();
    assert_eq!(sol.size(), 3);
}

#[test]
fn abduce_test_abduce_partial_satisfaction() {
    let mut theory = Theory::new();
    theory.add_fact("a");
    theory.add_defeasible_rule(&["a", "b"], "goal");

    let result = abduce(&theory, &Literal::simple("goal"), 10).unwrap();
    let sol = result.smallest_solution().unwrap();
    assert_eq!(sol.size(), 1);
    assert!(sol.facts.contains(&Literal::simple("b")));
}

#[test]
fn abduce_test_abduce_finds_alternative_paths() {
    let mut theory = Theory::new();
    theory.add_defeasible_rule(&["bird"], "flies");
    theory.add_defeasible_rule(&["plane"], "flies");

    let result = abduce(&theory, &Literal::simple("flies"), 10).unwrap();
    assert_eq!(result.solutions.len(), 2);
}

#[test]
fn abduce_test_abduce_solutions_contain_alternatives() {
    let mut theory = Theory::new();
    theory.add_defeasible_rule(&["bird"], "flies");
    theory.add_defeasible_rule(&["plane"], "flies");

    let result = abduce(&theory, &Literal::simple("flies"), 10).unwrap();

    let has_bird = result.solutions.iter().any(|s| s.facts.contains(&Literal::simple("bird")));
    let has_plane = result.solutions.iter().any(|s| s.facts.contains(&Literal::simple("plane")));

    assert!(has_bird);
    assert!(has_plane);
}

#[test]
fn abduce_test_abduce_respects_max_solutions() {
    let mut theory = Theory::new();
    theory.add_defeasible_rule(&["a"], "x");
    theory.add_defeasible_rule(&["b"], "x");
    theory.add_defeasible_rule(&["c"], "x");

    let result = abduce(&theory, &Literal::simple("x"), 1).unwrap();
    assert!(result.solutions.len() <= 1);
}

#[test]
fn abduce_test_abduce_solutions_sorted_by_size() {
    let mut theory = Theory::new();
    theory.add_defeasible_rule(&["a"], "goal");
    theory.add_defeasible_rule(&["b", "c"], "goal");

    let result = abduce(&theory, &Literal::simple("goal"), 10).unwrap();

    if result.solutions.len() > 1 {
        let sizes: Vec<_> = result.solutions.iter().map(|s| s.size()).collect();
        for i in 1..sizes.len() {
            assert!(sizes[i - 1] <= sizes[i], "Solutions should be sorted by size");
        }
    }
}

#[test]
fn abduce_test_abduce_hypothesizes_goal_when_no_rules() {
    let th = Theory::new();
    let result = abduce(&th, &Literal::simple("unknown"), 10).unwrap();

    let sol = result.smallest_solution().unwrap();
    assert!(sol.facts.contains(&Literal::simple("unknown")));
}

#[test]
fn abduce_test_abduction_solution_size() {
    let mut theory = Theory::new();
    theory.add_defeasible_rule(&["a", "b"], "goal");

    let result = abduce(&theory, &Literal::simple("goal"), 10).unwrap();
    let sol = result.smallest_solution().unwrap();
    assert_eq!(sol.size(), 2);
}

#[test]
fn abduce_test_abduction_solution_tracks_rules() {
    let mut theory = Theory::new();
    let r1 = theory.add_defeasible_rule(&["p"], "q");

    let result = abduce(&theory, &Literal::simple("q"), 10).unwrap();
    let sol = result.smallest_solution().unwrap();
    assert!(sol.rules_used.contains(&r1));
}

#[test]
fn abduce_test_smallest_solution() {
    let mut theory = Theory::new();
    theory.add_defeasible_rule(&["a"], "goal");
    theory.add_defeasible_rule(&["b", "c"], "goal");

    let result = abduce(&theory, &Literal::simple("goal"), 10).unwrap();
    let smallest = result.smallest_solution().unwrap();
    assert_eq!(smallest.size(), 1);
}

#[test]
fn abduce_test_smallest_solution_none_for_empty() {
    let result = AbductionResult::new(Literal::simple("x"));
    assert!(result.smallest_solution().is_none());
}

#[test]
fn abduce_test_abduction_result_display() {
    let mut theory = Theory::new();
    theory.add_defeasible_rule(&["p"], "q");

    let result = abduce(&theory, &Literal::simple("q"), 10).unwrap();
    let s = result.to_text();
    assert!(s.contains("Abduction"));
    assert!(s.contains("Add facts"));
}

#[test]
fn abduce_test_abduction_result_display_already_provable() {
    let mut theory = Theory::new();
    theory.add_fact("p");

    let result = abduce(&theory, &Literal::simple("p"), 10).unwrap();
    let s = result.to_text();
    assert!(s.contains("Already provable"));
}

#[test]
fn abduce_test_abduction_result_display_no_solutions() {
    let result = AbductionResult::new(Literal::simple("x"));
    let s = result.to_text();
    assert!(s.contains("No hypotheses"));
}

#[test]
fn test_abduction_solution_tracks_only_contributing_rules() {
    let mut theory = Theory::new();
    let r1 = theory.add_defeasible_rule(&["p"], "goal");
    let r2 = theory.add_defeasible_rule(&["q", "r"], "goal");

    let result = abduce(&theory, &Literal::simple("goal"), 10).unwrap();
    let sol = result.smallest_solution().unwrap();

    assert_eq!(sol.facts.len(), 1);
    assert!(sol.rules_used.contains(&r1));
    assert!(!sol.rules_used.contains(&r2));
}

#[test]
fn test_abduction_solution_merges_rules_for_identical_hypotheses() {
    let mut theory = Theory::new();
    let r1 = theory.add_defeasible_rule(&["p"], "goal");
    let r2 = theory.add_strict_rule(&["p"], "goal");

    let result = abduce(&theory, &Literal::simple("goal"), 10).unwrap();
    let sol = result.smallest_solution().unwrap();

    assert_eq!(sol.facts.len(), 1);
    assert!(sol.rules_used.contains(&r1));
    assert!(sol.rules_used.contains(&r2));
}

#[test]
fn test_abduce_family_aware_already_provable() {
    let mut th = Theory::new();
    let temporal_lit = Literal::new(
        "p",
        false,
        Mode::empty(),
        Temporal::new(TimePoint::Moment(1), TimePoint::Moment(10)),
        vec![],
    );
    th.add_rule(Rule::fact("f1", temporal_lit));

    let result = abduce(&th, &Literal::simple("p"), 10).unwrap();
    assert!(result.is_already_provable(), "Temporal p[1,10] should family-satisfy atemporal goal p");
}

#[test]
fn test_abduce_family_aware_body_satisfaction() {
    let mut th = Theory::new();
    let temporal_a = Literal::new(
        "a",
        false,
        Mode::empty(),
        Temporal::new(TimePoint::Moment(5), TimePoint::Moment(15)),
        vec![],
    );
    th.add_rule(Rule::fact("f1", temporal_a));
    th.add_defeasible_rule(&["a"], "goal");

    let result = abduce(&th, &Literal::simple("goal"), 10).unwrap();
    assert!(result.is_already_provable(), "Temporal a[5,15] should family-satisfy body literal a");
}

#[test]
fn test_abduce_returns_raw_candidates_even_if_blocked() {
    let mut th = Theory::new();
    th.add_fact("broken_wing");
    th.add_defeasible_rule(&["bird"], "flies");
    th.add_defeater(&["broken_wing"], "~flies");

    let result = abduce(&th, &Literal::simple("flies"), 10).unwrap();
    assert!(result.has_solutions());
    assert!(result.solutions.iter().any(|sol| sol.facts == vec![Literal::simple("bird")]));
}

#[test]
fn test_abduce_returns_valid_raw_solutions() {
    let mut th = Theory::new();
    th.add_defeasible_rule(&["p"], "q");

    let result = abduce(&th, &Literal::simple("q"), 10).unwrap();
    assert!(result.has_solutions());
    let sol = result.smallest_solution().unwrap();
    assert!(sol.facts.contains(&Literal::simple("p")));
}

#[test]
fn test_abduce_family_head_match() {
    let mut th = Theory::new();
    let temporal_head = temporal_lit("p", 1, 10);
    let body = vec![Literal::simple("a")];
    th.add_rule(Rule::defeasible("r1", body, temporal_head));

    let result = abduce(&th, &Literal::simple("p"), 10).unwrap();
    assert!(result.has_solutions());
    let sol = result.smallest_solution().unwrap();
    assert!(
        sol.facts.contains(&Literal::simple("a")),
        "Should find body literal 'a' as hypothesis via family head match"
    );
}

#[test]
fn test_abduce_temporal_goal_does_not_cross_match_other_window() {
    let mut th = Theory::new();
    th.add_rule(Rule::fact("f1", temporal_lit("p", 20, 30)));

    let goal = temporal_lit("p", 1, 10);
    let result = abduce(&th, &goal, 10).unwrap();

    assert!(!result.is_already_provable(), "A different temporal window must not satisfy a bounded goal");
    let sol = result.smallest_solution().unwrap();
    let fact = sol.facts.first().unwrap();
    assert_eq!(fact.to_spl(), goal.to_spl());
}

#[test]
fn test_abduce_temporal_body_requires_exact_window() {
    let mut th = Theory::new();
    th.add_rule(Rule::fact("f1", temporal_lit("p", 20, 30)));
    th.add_fact("block");
    th.add_rule(Rule::defeasible("r1", vec![temporal_lit("p", 1, 10)], Literal::simple("q")));
    th.add_defeater(&["block"], "~q");

    let result = abduce(&th, &Literal::simple("q"), 10).unwrap();
    let sol = result.smallest_solution().unwrap();
    let fact = sol.facts.first().unwrap();

    assert_eq!(
        fact.to_spl(),
        temporal_lit("p", 1, 10).to_spl(),
        "A temporal premise should stay exact during body satisfaction"
    );
}

#[test]
fn test_abduce_preserves_all_temporal_variants_in_body() {
    let mut th = Theory::new();
    th.add_rule(Rule::defeasible(
        "r1",
        vec![temporal_lit("p", 1, 10), temporal_lit("p", 20, 30)],
        Literal::simple("q"),
    ));

    let result = abduce(&th, &Literal::simple("q"), 10).unwrap();
    let sol = result.smallest_solution().unwrap();

    assert_eq!(sol.facts.len(), 2, "Both temporal variants must be retained as distinct premises");
    let keys: std::collections::BTreeSet<String> = sol.facts.iter().map(Literal::to_spl).collect();
    assert!(keys.contains(&temporal_lit("p", 1, 10).to_spl()));
    assert!(keys.contains(&temporal_lit("p", 20, 30).to_spl()));
}

#[test]
fn query_test_abduce_returns_result() {
    let th = make_missing_premise_theory();
    let result = abduce(&th, &Literal::simple("ready_review"), 10).unwrap();
    assert!(result.has_solutions());
}

#[test]
fn query_test_abduce_preserves_goal() {
    let th = make_missing_premise_theory();
    let goal = Literal::simple("ready_review");
    let result = abduce(&th, &goal, 10).unwrap();
    assert_eq!(result.goal.name(), "ready_review");
}

#[test]
fn query_test_abduce_already_provable() {
    let th = make_fact_theory();
    let result = abduce(&th, &Literal::simple("bird"), 10).unwrap();
    assert!(result.is_already_provable());
}

#[test]
fn query_test_abduce_already_provable_empty_solution() {
    let th = make_fact_theory();
    let result = abduce(&th, &Literal::simple("bird"), 10).unwrap();
    let sol = result.smallest_solution().unwrap();
    assert!(sol.is_already_provable());
    assert_eq!(sol.size(), 0);
}

#[test]
fn query_test_abduce_finds_missing_facts() {
    let th = make_missing_premise_theory();
    let result = abduce(&th, &Literal::simple("ready_review"), 10).unwrap();
    let sol = result.smallest_solution().unwrap();
    assert!(sol.facts.iter().any(|l| l.name() == "tests_pass"));
}

#[test]
fn query_test_abduce_single_missing_premise() {
    let mut theory = Theory::new();
    theory.add_defeasible_rule(&["p"], "q");

    let result = abduce(&theory, &Literal::simple("q"), 10).unwrap();
    let sol = result.smallest_solution().unwrap();
    assert_eq!(sol.size(), 1);
    assert!(sol.facts.contains(&Literal::simple("p")));
}

#[test]
fn query_test_abduce_multiple_missing_premises() {
    let mut theory = Theory::new();
    theory.add_defeasible_rule(&["a", "b", "c"], "goal");

    let result = abduce(&theory, &Literal::simple("goal"), 10).unwrap();
    let sol = result.smallest_solution().unwrap();
    assert_eq!(sol.size(), 3);
}

#[test]
fn query_test_abduce_partial_satisfaction() {
    let mut theory = Theory::new();
    theory.add_fact("a");
    theory.add_defeasible_rule(&["a", "b"], "goal");

    let result = abduce(&theory, &Literal::simple("goal"), 10).unwrap();
    let sol = result.smallest_solution().unwrap();
    assert_eq!(sol.size(), 1);
    assert!(sol.facts.contains(&Literal::simple("b")));
}

#[test]
fn query_test_abduce_finds_alternative_paths() {
    let mut theory = Theory::new();
    theory.add_defeasible_rule(&["bird"], "flies");
    theory.add_defeasible_rule(&["plane"], "flies");

    let result = abduce(&theory, &Literal::simple("flies"), 10).unwrap();
    assert_eq!(result.solutions.len(), 2);
}

#[test]
fn query_test_abduce_solutions_contain_alternatives() {
    let mut theory = Theory::new();
    theory.add_defeasible_rule(&["bird"], "flies");
    theory.add_defeasible_rule(&["plane"], "flies");

    let result = abduce(&theory, &Literal::simple("flies"), 10).unwrap();

    let has_bird = result.solutions.iter().any(|s| s.facts.contains(&Literal::simple("bird")));
    let has_plane = result.solutions.iter().any(|s| s.facts.contains(&Literal::simple("plane")));

    assert!(has_bird);
    assert!(has_plane);
}

#[test]
fn query_test_abduce_respects_max_solutions() {
    let mut theory = Theory::new();
    theory.add_defeasible_rule(&["a"], "x");
    theory.add_defeasible_rule(&["b"], "x");
    theory.add_defeasible_rule(&["c"], "x");

    let result = abduce(&theory, &Literal::simple("x"), 1).unwrap();
    assert!(result.solutions.len() <= 1);
}

#[test]
fn query_test_abduce_solutions_sorted_by_size() {
    let mut theory = Theory::new();
    theory.add_defeasible_rule(&["a"], "goal");
    theory.add_defeasible_rule(&["b", "c"], "goal");

    let result = abduce(&theory, &Literal::simple("goal"), 10).unwrap();

    if result.solutions.len() > 1 {
        let sizes: Vec<_> = result.solutions.iter().map(|s| s.size()).collect();
        for i in 1..sizes.len() {
            assert!(sizes[i - 1] <= sizes[i], "Solutions should be sorted by size");
        }
    }
}

#[test]
fn query_test_abduce_hypothesizes_goal_when_no_rules() {
    let th = Theory::new();
    let result = abduce(&th, &Literal::simple("unknown"), 10).unwrap();

    let sol = result.smallest_solution().unwrap();
    assert!(sol.facts.contains(&Literal::simple("unknown")));
}

#[test]
fn query_test_abduction_solution_size() {
    let mut theory = Theory::new();
    theory.add_defeasible_rule(&["a", "b"], "goal");

    let result = abduce(&theory, &Literal::simple("goal"), 10).unwrap();
    let sol = result.smallest_solution().unwrap();
    assert_eq!(sol.size(), 2);
}

#[test]
fn query_test_abduction_solution_tracks_rules() {
    let mut theory = Theory::new();
    let r1 = theory.add_defeasible_rule(&["p"], "q");

    let result = abduce(&theory, &Literal::simple("q"), 10).unwrap();
    let sol = result.smallest_solution().unwrap();
    assert!(sol.rules_used.contains(&r1));
}

#[test]
fn query_test_smallest_solution() {
    let mut theory = Theory::new();
    theory.add_defeasible_rule(&["a"], "goal");
    theory.add_defeasible_rule(&["b", "c"], "goal");

    let result = abduce(&theory, &Literal::simple("goal"), 10).unwrap();
    let smallest = result.smallest_solution().unwrap();
    assert_eq!(smallest.size(), 1);
}

#[test]
fn query_test_smallest_solution_none_for_empty() {
    let result = AbductionResult::new(Literal::simple("x"));
    assert!(result.smallest_solution().is_none());
}

#[test]
fn query_test_abduction_result_display() {
    let mut theory = Theory::new();
    theory.add_defeasible_rule(&["p"], "q");

    let result = abduce(&theory, &Literal::simple("q"), 10).unwrap();
    let s = result.to_text();
    assert!(s.contains("Abduction"));
    assert!(s.contains("Add facts"));
}

#[test]
fn query_test_abduction_result_display_already_provable() {
    let mut theory = Theory::new();
    theory.add_fact("p");

    let result = abduce(&theory, &Literal::simple("p"), 10).unwrap();
    let s = result.to_text();
    assert!(s.contains("Already provable"));
}

#[test]
fn query_test_abduction_result_display_no_solutions() {
    let result = AbductionResult::new(Literal::simple("x"));
    let s = result.to_text();
    assert!(s.contains("No hypotheses"));
}

#[test]
fn query_test_why_not_and_requires_consistency() {
    let th = make_missing_premise_theory();
    let ready = Literal::simple("ready_review");

    let wn = why_not(&th, &ready).unwrap();
    let missing = wn.get_missing_premises();
    assert!(!missing.is_empty());

    let needed = requires_facts(&th, &ready).unwrap();
    assert!(!needed.is_empty());

    assert!(missing.iter().any(|l| l.name() == "tests_pass"));
    assert!(needed.iter().any(|l| l.name() == "tests_pass"));
}

#[test]
fn mod_test_why_not_and_requires_consistency() {
    let th = make_missing_premise_theory();
    let ready = Literal::simple("ready_review");

    let wn = why_not(&th, &ready).unwrap();
    let missing = wn.get_missing_premises();
    assert!(!missing.is_empty());

    let needed = requires_facts(&th, &ready).unwrap();
    assert!(!needed.is_empty());

    assert!(missing.iter().any(|l| l.name() == "tests_pass"));
    assert!(needed.iter().any(|l| l.name() == "tests_pass"));
}

#[test]
fn query_test_requires_and_what_if_consistency() {
    let th = make_missing_premise_theory();
    let ready = Literal::simple("ready_review");

    let needed = requires_facts(&th, &ready).unwrap();
    let hypotheticals: Vec<_> = needed.into_iter().map(HypotheticalClaim::new).collect();

    let result = what_if(&th, hypotheticals, &ready).unwrap();
    assert!(result.is_provable());
}

#[test]
fn mod_test_requires_and_what_if_consistency() {
    let th = make_missing_premise_theory();
    let ready = Literal::simple("ready_review");

    let needed = requires_facts(&th, &ready).unwrap();
    let hypotheticals: Vec<_> = needed.into_iter().map(HypotheticalClaim::new).collect();

    let result = what_if(&th, hypotheticals, &ready).unwrap();
    assert!(result.is_provable());
}

#[test]
fn query_test_full_workflow_non_provable() {
    let th = make_missing_premise_theory();
    let ready = Literal::simple("ready_review");

    let q = query(&th, &ready).unwrap();
    assert!(!q.is_provable());

    let wn = why_not(&th, &ready).unwrap();
    assert!(wn.has_blockers());
    assert!(!wn.get_missing_premises().is_empty());

    let ab = abduce(&th, &ready, 10).unwrap();
    assert!(ab.has_solutions());
    let sol = ab.smallest_solution().unwrap();
    assert!(sol.facts.iter().any(|l| l.name() == "tests_pass"));

    let hypotheticals = vec![HypotheticalClaim::new(Literal::simple("tests_pass"))];
    let wi = what_if(&th, hypotheticals, &ready).unwrap();
    assert!(wi.is_provable());
}

#[test]
fn mod_test_full_workflow_non_provable() {
    let th = make_missing_premise_theory();
    let ready = Literal::simple("ready_review");

    let q = query(&th, &ready).unwrap();
    assert!(!q.is_provable());

    let wn = why_not(&th, &ready).unwrap();
    assert!(wn.has_blockers());
    assert!(!wn.get_missing_premises().is_empty());

    let ab = abduce(&th, &ready, 10).unwrap();
    assert!(ab.has_solutions());
    let sol = ab.smallest_solution().unwrap();
    assert!(sol.facts.iter().any(|l| l.name() == "tests_pass"));

    let hypotheticals = vec![HypotheticalClaim::new(Literal::simple("tests_pass"))];
    let wi = what_if(&th, hypotheticals, &ready).unwrap();
    assert!(wi.is_provable());
}

#[test]
fn query_test_full_workflow_provable() {
    let th = make_defeasible_theory();
    let flies = Literal::simple("flies");

    let q = query(&th, &flies).unwrap();
    assert!(q.is_provable());

    let wn = why_not(&th, &flies).unwrap();
    assert!(!wn.has_blockers());

    let ab = abduce(&th, &flies, 10).unwrap();
    assert!(ab.is_already_provable());
}

#[test]
fn mod_test_full_workflow_provable() {
    let th = make_defeasible_theory();
    let flies = Literal::simple("flies");

    let q = query(&th, &flies).unwrap();
    assert!(q.is_provable());

    let wn = why_not(&th, &flies).unwrap();
    assert!(!wn.has_blockers());

    let ab = abduce(&th, &flies, 10).unwrap();
    assert!(ab.is_already_provable());
}

#[test]
fn test_requires_convenience_function() {
    let mut theory = Theory::new();
    theory.add_defeasible_rule(&["precondition"], "result");

    let needed = requires_facts(&theory, &Literal::simple("result")).unwrap();
    assert!(!needed.is_empty());
    assert!(needed.iter().any(|l| l.name() == "precondition"));
}

#[test]
fn test_requires_returns_empty_for_provable() {
    let mut theory = Theory::new();
    theory.add_fact("bird");

    let needed = requires_facts(&theory, &Literal::simple("bird")).unwrap();
    assert!(needed.is_empty());
}

#[test]
fn requires_rejects_zero_max_solutions() {
    let th = make_missing_premise_theory();
    let opts = RequiresOptions { max_solutions: 0, max_raw_candidates: 10 };
    let err = requires_with_options(&th, &Literal::simple("ready_review"), opts).unwrap_err();
    match err {
        spindle_core::error::SpindleError::Validation { message } => {
            assert_eq!(message, "requires options: max_solutions must be >= 1")
        }
        other => panic!("unexpected error {:?}", other),
    }
}

#[test]
fn requires_rejects_zero_raw_budget() {
    let th = make_missing_premise_theory();
    let opts = RequiresOptions { max_solutions: 1, max_raw_candidates: 0 };
    let err = requires_with_options(&th, &Literal::simple("ready_review"), opts).unwrap_err();
    match err {
        spindle_core::error::SpindleError::Validation { message } => {
            assert_eq!(message, "requires options: max_raw_candidates must be >= 1")
        }
        other => panic!("unexpected error {:?}", other),
    }
}

#[test]
fn requires_rejects_candidate_blocked_by_defeater() {
    let mut th = Theory::new();
    th.add_fact("broken_wing");
    th.add_defeasible_rule(&["bird"], "flies");
    th.add_defeater(&["broken_wing"], "~flies");

    let res = requires_with_options(&th, &Literal::simple("flies"), RequiresOptions::default()).unwrap();
    assert!(!res.already_provable);
    assert!(res.solutions.is_empty());
    assert_eq!(res.verification.raw_examined, 1);
    assert_eq!(res.verification.accepted, 0);
    assert_eq!(res.verification.rejected, 1);
    assert_eq!(res.search_status, RequiresSearchStatus::BoundedComplete);
}

#[test]
fn requires_reports_exhausted_budget() {
    let mut th = Theory::new();
    th.add_fact("block");
    th.add_defeasible_rule(&["a"], "x");
    th.add_defeasible_rule(&["b"], "x");
    th.add_defeasible_rule(&["c"], "x");
    th.add_defeater(&["block"], "~x");

    let opts = RequiresOptions { max_solutions: 1, max_raw_candidates: 2 };
    let res = requires_with_options(&th, &Literal::simple("x"), opts).unwrap();
    assert!(res.solutions.is_empty());
    assert_eq!(res.verification.raw_examined, 2);
    assert_eq!(res.verification.rejected, 2);
    assert_eq!(res.search_status, RequiresSearchStatus::BudgetExhausted);
}

#[test]
fn requires_returns_several_solutions_in_order() {
    let mut th = Theory::new();
    th.add_defeasible_rule(&["b", "c"], "g");
    th.add_defeasible_rule(&["z"], "g");
    th.add_defeasible_rule(&["a"], "g");

    let opts = RequiresOptions { max_solutions: 5, max_raw_candidates: DEFAULT_MAX_RAW_CANDIDATES };
    let res = requires_with_options(&th, &Literal::simple("g"), opts).unwrap();
    assert_eq!(res.solutions.len(), 3);
    assert_eq!(res.solutions[0].facts, vec![Literal::simple("a")]);
    assert_eq!(res.solutions[1].facts, vec![Literal::simple("z")]);
    assert_eq!(res.solutions[2].size(), 2);
    assert_eq!(res.verification.raw_examined, 3);
    assert_eq!(res.verification.accepted, 3);
    assert_eq!(res.search_status, RequiresSearchStatus::BoundedComplete);
}

#[test]
fn requires_already_provable_goal() {
    let th = make_fact_theory();
    let res = requires_with_options(&th, &Literal::simple("bird"), RequiresOptions::default()).unwrap();
    assert!(res.already_provable);
    assert!(res.solutions.is_empty());
    assert_eq!(res.verification.raw_examined, 0);
}

#[test]
fn abduce_orders_equal_sizes_by_key() {
    let mut th = Theory::new();
    th.add_defeasible_rule(&["z"], "g");
    th.add_defeasible_rule(&["a"], "g");
    let result = abduce(&th, &Literal::simple("g"), 10).unwrap();
    assert_eq!(result.solutions.len(), 2);
    assert_eq!(result.solutions[0].facts, vec![Literal::simple("a")]);
    assert_eq!(result.solutions[1].facts, vec![Literal::simple("z")]);
}

#[test]
fn abduce_drops_repeated_premise() {
    let mut th = Theory::new();
    th.add_defeasible_rule(&["p", "p"], "q");
    let result = abduce(&th, &Literal::simple("q"), 10).unwrap();
    assert_eq!(result.solutions[0].facts, vec![Literal::simple("p")]);
}

#[test]
fn abduce_ignores_defeaters_as_candidates() {
    let mut th = Theory::new();
    th.add_defeater(&["p"], "q");
    let result = abduce(&th, &Literal::simple("q"), 10).unwrap();
    assert_eq!(result.solutions.len(), 1);
    assert_eq!(result.solutions[0].facts, vec![Literal::simple("q")]);
    assert!(result.solutions[0].rules_used.is_empty());
}

#[test]
fn abduce_with_given_conclusions() {
    let mut th = Theory::new();
    th.add_defeasible_rule(&["p"], "q");
    th.add_fact("p");
    let none: Vec<spindle_core::conclusion::Conclusion> = Vec::new();
    let result = abduce_with_conclusions(&th, &Literal::simple("q"), &none, 10).unwrap();
    assert_eq!(result.solutions.len(), 1);
    assert_eq!(result.solutions[0].facts, vec![Literal::simple("p")]);
    let cs = reason(&th).unwrap();
    let proven = abduce_with_conclusions(&th, &Literal::simple("q"), &cs, 10).unwrap();
    assert!(proven.is_already_provable());
}

#[test]
fn abduction_result_text_exact() {
    let mut th = Theory::new();
    th.add_defeasible_rule(&["a", "b"], "q");
    let result = abduce(&th, &Literal::simple("q"), 10).unwrap();
    assert_eq!(result.to_text(), "Abduction solutions for q:\n  1. Add facts: {a, b}\n");
    let empty = AbductionResult::new(Literal::simple("x"));
    assert_eq!(empty.to_text(), "No hypotheses found for x");
    let mut th2 = Theory::new();
    th2.add_fact("p");
    let proven = abduce(&th2, &Literal::simple("p"), 10).unwrap();
    assert_eq!(proven.to_text(), "Abduction solutions for p:\n  1. Already provable\n");
}

#[test]
fn abduce_respects_a_zero_limit_when_already_provable() {
    let mut theory = Theory::new();
    theory.add_fact("goal");
    let result = abduce(&theory, &Literal::simple("goal"), 0).unwrap();
    assert!(result.solutions.is_empty());
    let result = abduce(&theory, &Literal::simple("goal"), 3).unwrap();
    assert_eq!(result.solutions.len(), 1);
    assert!(result.solutions[0].facts.is_empty());
}
