#![allow(unused_imports)]
use spindle_core::conclusion::{Conclusion, ConclusionType};
use spindle_core::intern::Interner;
use spindle_core::literal::Literal;
use spindle_core::query::{query, QueryStatus};
use spindle_core::reason::reason;
use spindle_core::theory::Theory;
use spindle_core::why_not::why_not;
use spindle_core::what_if::{what_if, what_if_provable, HypotheticalClaim};

fn penguin() -> Theory {
    let mut theory = Theory::new();
    theory.add_fact("bird");
    theory.add_fact("penguin");
    let r1 = theory.add_defeasible_rule(&["bird"], "flies");
    let r2 = theory.add_defeasible_rule(&["penguin"], "~flies");
    theory.add_superiority(&r2, &r1);
    theory
}

fn kinds_of(cs: &[Conclusion], name: &str, negated: bool) -> Vec<ConclusionType> {
    cs.iter()
        .filter(|c| c.literal.name() == name && c.literal.negation == negated)
        .map(|c| c.conclusion_type)
        .collect()
}

#[test]
fn every_literal_gets_exactly_one_of_each_pair() {
    let cs = reason(&penguin()).unwrap();
    for (name, neg) in [("bird", false), ("penguin", false), ("flies", false), ("flies", true), ("bird", true)] {
        let kinds = kinds_of(&cs, name, neg);
        let definite = kinds.iter().filter(|k| matches!(k, ConclusionType::DefinitelyProvable | ConclusionType::DefinitelyNotProvable)).count();
        let defeasible = kinds.iter().filter(|k| matches!(k, ConclusionType::DefeasiblyProvable | ConclusionType::DefeasiblyNotProvable)).count();
        assert_eq!(definite, 1, "{name} {neg}");
        assert_eq!(defeasible, 1, "{name} {neg}");
    }
}

#[test]
fn definite_facts_are_also_defeasible() {
    let cs = reason(&penguin()).unwrap();
    let kinds = kinds_of(&cs, "bird", false);
    assert!(kinds.contains(&ConclusionType::DefinitelyProvable));
    assert!(kinds.contains(&ConclusionType::DefeasiblyProvable));
}

#[test]
fn a_defeater_alone_proves_nothing() {
    let mut theory = Theory::new();
    theory.add_fact("a");
    theory.add_defeater(&["a"], "b");
    let cs = reason(&theory).unwrap();
    let kinds = kinds_of(&cs, "b", false);
    assert!(!kinds.contains(&ConclusionType::DefinitelyProvable));
    assert!(!kinds.contains(&ConclusionType::DefeasiblyProvable));
}

#[test]
fn no_literal_and_its_complement_both_defeasible() {
    let cs = reason(&penguin()).unwrap();
    let flies = kinds_of(&cs, "flies", false).contains(&ConclusionType::DefeasiblyProvable);
    let not_flies = kinds_of(&cs, "flies", true).contains(&ConclusionType::DefeasiblyProvable);
    assert!(!(flies && not_flies));
    assert!(not_flies);
}

#[test]
fn query_and_why_not_agree() {
    let theory = penguin();
    let lit = Literal::simple("bird");
    let q = query(&theory, &lit).unwrap();
    let w = why_not(&theory, &lit).unwrap();
    assert_eq!(q.status, QueryStatus::Provable);
    assert!(!w.has_blockers());
}

#[test]
fn interning_twice_gives_the_same_id() {
    let mut interner = Interner::new();
    let a = interner.intern("alpha");
    let b = interner.intern("beta");
    let a2 = interner.intern("alpha");
    assert_eq!(a, a2);
    assert_ne!(a, b);
}

fn summary(cs: &[Conclusion]) -> Vec<String> {
    let mut v: Vec<String> = cs
        .iter()
        .map(|c| format!("{:?} {}", c.conclusion_type, c.literal.to_text()))
        .collect();
    v.sort();
    v
}

#[test]
fn two_runs_of_reasoning_agree() {
    let theory = penguin();
    let a = reason(&theory).unwrap();
    let b = reason(&theory).unwrap();
    assert_eq!(summary(&a), summary(&b));
}

#[test]
fn the_empty_string_is_symbol_zero() {
    let mut interner = Interner::new();
    interner.intern("x");
    assert_eq!(interner.resolve(spindle_core::intern::SymbolId(0)), "");
    assert_eq!(interner.intern("").0, 0);
}

#[test]
fn what_if_provable_is_what_if_answer_for_the_goal() {
    let mut theory = Theory::new();
    theory.add_fact("a");
    theory.add_defeasible_rule(&["a", "b"], "goal");
    for (hyp, goal) in [("b", "goal"), ("c", "goal"), ("b", "flies"), ("b", "a")] {
        let hyps = vec![HypotheticalClaim::new(Literal::simple(hyp))];
        let full = what_if(&theory, hyps.clone(), &Literal::simple(goal)).unwrap();
        let short = what_if_provable(&theory, hyps, &Literal::simple(goal)).unwrap();
        assert_eq!(short, full.is_provable());
    }
}
