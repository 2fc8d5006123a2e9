#![allow(unused_imports)]
use spindle_core::conclusion::{Conclusion, ConclusionType};
use spindle_core::literal::Literal;
use spindle_core::mode::Mode;
use spindle_core::pipeline::{GroundingOptions, PrepareOptions};
use spindle_core::query::{evaluate_query, is_proven_temporal, matches_literal_temporal, matches_query_temporal, query, query_with_options, ProvenSet, QueryResult, QueryStatus};
use spindle_core::reason::{reason, reason_with_options};
use spindle_core::rule::{Rule, RuleType};
use spindle_core::temporal::{Temporal, TimePoint};
use spindle_core::theory::Theory;
use spindle_core::what_if::{next_hyp_label, what_if, what_if_provable, HypotheticalClaim, WhatIfResult};
use spindle_core::why_not::{why_not, BlockingCondition, BlockingType, WhyNotResult};

fn temporal_lit(name: &str, start: i64, end: i64) -> Literal {
    Literal::new(
        name,
        false,
        spindle_core::mode::Mode::empty(),
        Temporal::new(TimePoint::Moment(start), TimePoint::Moment(end)),
        vec![],
    )
}

#[test]
fn what_if_reports_new_temporal_window_as_new_conclusion() {
    // Baseline derives p[1,10]. A hypothetical p[20,30] is a genuinely new
    // temporal window of the same family. Because `Literal` equality ignores
    // temporal bounds, comparing on `Literal` alone would treat p[20,30] as
    // already present and omit it; the canonical exact-temporal key keeps it.
    let mut th = Theory::new();
    th.add_rule(Rule::fact("f1", temporal_lit("p", 1, 10)));

    let hyp = temporal_lit("p", 20, 30);
    let result = what_if(
        &th,
        vec![HypotheticalClaim::new(hyp.clone())],
        &temporal_lit("p", 20, 30),
    )
    .unwrap();

    assert!(
        result
            .new_conclusions
            .iter()
            .any(|l| l.to_spl() == hyp.to_spl()),
        "New temporal window p[20,30] must be reported as a new conclusion"
    );
    // The pre-existing window must not be reported as new.
    assert!(
        !result
            .new_conclusions
            .iter()
            .any(|l| l.to_spl() == temporal_lit("p", 1, 10).to_spl()),
        "Baseline window p[1,10] must not appear among new conclusions"
    );
}
#[test]
fn what_if_deduplicates_new_conclusions() {
    // `q` becomes provable under the hypothetical `a` both strictly (+D via
    // r1) and defeasibly (+d via r2), so it appears at two positive tags in
    // the modified conclusion set. `newly_provable` is a set of literals, so
    // it must list `q` once — without dedup a consumer prints
    // "now provable: q" once per tag/derivation path.
    let mut th = Theory::new();
    th.add_rule(Rule::strict(
        "r1",
        vec![Literal::simple("a")],
        Literal::simple("q"),
    ));
    th.add_rule(Rule::defeasible(
        "r2",
        vec![Literal::simple("a")],
        Literal::simple("q"),
    ));

    let result = what_if(
        &th,
        vec![HypotheticalClaim::new(Literal::simple("a"))],
        &Literal::simple("q"),
    )
    .unwrap();

    let q_count = result
        .new_conclusions
        .iter()
        .filter(|l| l.name() == "q" && !l.negation)
        .count();
    assert_eq!(q_count, 1, "q must be reported once, not once per tag/rule");
}