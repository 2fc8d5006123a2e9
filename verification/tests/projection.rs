#![allow(unused_imports)]
use spindle_core::projection::{ExactLitId, ProjectionDiagnostics};

#[test]
fn exact_lit_id_display_is_stable() {
    assert_eq!(ExactLitId::new(7, false).to_text(), "exact7");
    assert_eq!(ExactLitId::new(7, true).to_text(), "exact~7");
    assert_eq!(ExactLitId::new(7, true).atom_index(), 7);
    assert!(ExactLitId::new(7, true).is_negated());
}

#[test]
fn projection_totals_add_up() {
    let d = ProjectionDiagnostics {
        exact_supports: 2,
        family_supports: 3,
        family_attacks: 1,
        contributing_labels: std::collections::BTreeSet::new(),
    };
    assert_eq!(d.total_tokens(), 6);
}

use spindle_core::literal::Literal;
use spindle_core::mode::Mode;
use spindle_core::projection::{
    ExactIndex, ExactSupport, FamilyAttack, FamilyId, FamilySupport, ProjectionEngine, ProjectionToken,
};
use spindle_core::rule::{Rule, RuleType};
use spindle_core::temporal::{Temporal, TimePoint};
use spindle_core::theory::Theory;

fn make_index(_theory: &Theory) -> ExactIndex {
    ExactIndex::new()
}

fn first_exact(engine: &ProjectionEngine) -> &ExactSupport {
    engine
        .tokens()
        .iter()
        .find_map(|token| match token {
            ProjectionToken::Exact(s) => Some(s),
            _ => None,
        })
        .expect("expected Exact token")
}

fn first_family(engine: &ProjectionEngine) -> &FamilySupport {
    engine
        .tokens()
        .iter()
        .find_map(|token| match token {
            ProjectionToken::Family(s) => Some(s),
            _ => None,
        })
        .expect("expected Family token")
}

fn first_attack(engine: &ProjectionEngine) -> &FamilyAttack {
    engine
        .tokens()
        .iter()
        .find_map(|token| match token {
            ProjectionToken::Attack(a) => Some(a),
            _ => None,
        })
        .expect("expected Attack token")
}

#[test]
fn temporal_variants_share_family() {
    let lit_a = Literal::new("p", false, Mode::empty(), Temporal::new(TimePoint::Moment(1), TimePoint::Moment(10)), vec![]);
    let lit_b = Literal::new("p", false, Mode::empty(), Temporal::new(TimePoint::Moment(20), TimePoint::Moment(30)), vec![]);
    assert_eq!(FamilyId::from_literal(&lit_a), FamilyId::from_literal(&lit_b));
}

#[test]
fn negation_separates_families() {
    let pos = Literal::simple("p");
    let neg = Literal::negated("p");
    assert_ne!(FamilyId::from_literal(&pos), FamilyId::from_literal(&neg));
}

#[test]
fn different_args_separate_families() {
    let lit_a = Literal::new("parent", false, Mode::empty(), Temporal::empty(), vec!["alice".into()]);
    let lit_b = Literal::new("parent", false, Mode::empty(), Temporal::empty(), vec!["bob".into()]);
    assert_ne!(FamilyId::from_literal(&lit_a), FamilyId::from_literal(&lit_b));
}

#[test]
fn mode_separates_families() {
    let plain = Literal::new("pay", false, Mode::empty(), Temporal::empty(), vec![]);
    let obligatory = Literal::new("pay", false, Mode::obligation(), Temporal::empty(), vec![]);
    assert_ne!(FamilyId::from_literal(&plain), FamilyId::from_literal(&obligatory));
}

#[test]
fn complement_flips_negation() {
    let family = FamilyId::from_literal(&Literal::simple("p"));
    let comp = family.complement();
    assert!(comp.negated());
    assert_eq!(comp.functor(), family.functor());
    assert_eq!(comp.complement(), family);
}

#[test]
fn literal_family_id_method() {
    let lit = Literal::simple("bird");
    assert_eq!(lit.family_id(), FamilyId::from_literal(&lit));
}

#[test]
fn display_simple() {
    let family = FamilyId::from_literal(&Literal::simple("bird"));
    assert_eq!(family.to_text(), "bird");
}

#[test]
fn display_negated_with_args() {
    let lit = Literal::new("parent", true, Mode::empty(), Temporal::empty(), vec!["alice".into(), "bob".into()]);
    let family = FamilyId::from_literal(&lit);
    assert_eq!(family.to_text(), "~parent(alice, bob)");
}

#[test]
fn display_modal() {
    let lit = Literal::new("pay", false, Mode::obligation(), Temporal::empty(), vec![]);
    let family = FamilyId::from_literal(&lit);
    assert_eq!(family.to_text(), "[O]pay");
}

#[test]
fn usable_as_hashmap_key() {
    let lit_a = Literal::new("p", false, Mode::empty(), Temporal::new(TimePoint::Moment(1), TimePoint::Moment(10)), vec![]);
    let lit_b = Literal::new("p", false, Mode::empty(), Temporal::new(TimePoint::Moment(20), TimePoint::Moment(30)), vec![]);
    let mut map: std::collections::HashMap<FamilyId, u32> = std::collections::HashMap::new();
    map.insert(FamilyId::from_literal(&lit_a), 1);
    assert_eq!(map.get(&FamilyId::from_literal(&lit_b)), Some(&1));
}

#[test]
fn fact_emits_exact_and_family_support() {
    let mut theory = Theory::new();
    theory.add_rule(Rule::fact("f1", Literal::simple("bird")));

    let mut idx = make_index(&theory);
    let rule = theory.get_rule("f1").unwrap();

    let mut engine = ProjectionEngine::new();
    engine.project_rule(rule, &mut idx);

    assert_eq!(engine.len(), 2);
    assert_eq!(engine.exact_count(), 1);
    assert_eq!(engine.family_count(), 1);
    assert_eq!(engine.attack_count(), 0);

    let exact = first_exact(&engine);
    assert_eq!(exact.rule_label, "f1");
    assert_eq!(exact.rule_type, RuleType::Fact);

    let family = first_family(&engine);
    assert_eq!(family.rule_label, "f1");
    assert_eq!(family.family_id, FamilyId::from_literal(&Literal::simple("bird")));
}

#[test]
fn defeasible_rule_emits_exact_and_family_support() {
    let mut theory = Theory::new();
    theory.add_rule(Rule::defeasible("r1", vec![Literal::simple("bird")], Literal::simple("flies")));

    let mut idx = make_index(&theory);
    let rule = theory.get_rule("r1").unwrap();

    let mut engine = ProjectionEngine::new();
    engine.project_rule(rule, &mut idx);

    assert_eq!(engine.exact_count(), 1);
    assert_eq!(engine.family_count(), 1);
    assert_eq!(engine.attack_count(), 0);
}

#[test]
fn defeater_emits_exact_support_and_family_attack() {
    let mut theory = Theory::new();
    theory.add_rule(Rule::defeater("d1", vec![Literal::simple("broken")], Literal::negated("works")));

    let mut idx = make_index(&theory);
    let rule = theory.get_rule("d1").unwrap();

    let mut engine = ProjectionEngine::new();
    engine.project_rule(rule, &mut idx);

    assert_eq!(engine.exact_count(), 1);
    assert_eq!(engine.family_count(), 0);
    assert_eq!(engine.attack_count(), 1);

    let attack = first_attack(&engine);
    assert_eq!(attack.rule_label, "d1");
    assert_eq!(attack.family_id, FamilyId::from_literal(&Literal::negated("works")));
    assert_eq!(attack.source_exact_lit, idx.exact_lit_id(&Literal::negated("works")));
}

#[test]
fn temporal_defeater_attacks_base_family() {
    let head = Literal::new("q", true, Mode::empty(), Temporal::new(TimePoint::Moment(1), TimePoint::Moment(10)), vec![]);
    let mut theory = Theory::new();
    theory.add_rule(Rule::defeater("d_temp", vec![Literal::simple("b")], head.clone()));

    let mut idx = make_index(&theory);
    let rule = theory.get_rule("d_temp").unwrap();

    let mut engine = ProjectionEngine::new();
    engine.project_rule(rule, &mut idx);

    let attack = first_attack(&engine);
    let base_family = FamilyId::from_literal(&Literal::negated("q"));
    assert_eq!(attack.family_id, base_family);
    assert_eq!(attack.rule_label, "d_temp");
}

#[test]
fn grounded_rule_label_is_preserved() {
    let mut rule = Rule::defeasible("r1__ground_0", vec![Literal::simple("a")], Literal::simple("b"));
    rule.template_label = Some("r1".to_string());

    let mut theory = Theory::new();
    theory.add_rule(rule);

    let mut idx = make_index(&theory);
    let rule = theory.get_rule("r1__ground_0").unwrap();

    let mut engine = ProjectionEngine::new();
    engine.project_rule(rule, &mut idx);

    for token in engine.tokens() {
        match token {
            ProjectionToken::Exact(s) => assert_eq!(s.rule_label, "r1__ground_0"),
            ProjectionToken::Family(s) => assert_eq!(s.rule_label, "r1__ground_0"),
            ProjectionToken::Attack(a) => assert_eq!(a.rule_label, "r1__ground_0"),
        }
    }
}

#[test]
fn distinct_defeaters_remain_distinct() {
    let mut theory = Theory::new();
    theory.add_rule(Rule::defeater("d1", vec![Literal::simple("b")], Literal::negated("q")));
    theory.add_rule(Rule::defeater("d2", vec![Literal::simple("b")], Literal::negated("q")));

    let mut idx = make_index(&theory);
    let mut engine = ProjectionEngine::new();

    let r1 = theory.get_rule("d1").unwrap();
    let r2 = theory.get_rule("d2").unwrap();
    engine.project_rule(r1, &mut idx);
    engine.project_rule(r2, &mut idx);

    assert_eq!(engine.attack_count(), 2);

    let attacks: Vec<_> = engine
        .tokens()
        .iter()
        .filter_map(|t| match t {
            ProjectionToken::Attack(a) => Some(a),
            _ => None,
        })
        .collect();

    assert_eq!(attacks[0].rule_label, "d1");
    assert_eq!(attacks[1].rule_label, "d2");
}

#[test]
fn clear_resets_engine() {
    let mut theory = Theory::new();
    theory.add_rule(Rule::fact("f1", Literal::simple("a")));

    let mut idx = make_index(&theory);
    let mut engine = ProjectionEngine::new();
    engine.project_rule(theory.get_rule("f1").unwrap(), &mut idx);

    assert!(!engine.is_empty());
    engine.clear();
    assert!(engine.is_empty());
    assert_eq!(engine.len(), 0);
}

#[test]
fn into_tokens_consumes_engine() {
    let mut theory = Theory::new();
    theory.add_rule(Rule::fact("f1", Literal::simple("a")));

    let mut idx = make_index(&theory);
    let mut engine = ProjectionEngine::new();
    engine.project_rule(theory.get_rule("f1").unwrap(), &mut idx);

    let tokens = engine.into_tokens();
    assert_eq!(tokens.len(), 2);
}

#[test]
fn strict_rule_emits_support_not_attack() {
    let mut theory = Theory::new();
    theory.add_rule(Rule::strict("s1", vec![Literal::simple("a")], Literal::simple("b")));

    let mut idx = make_index(&theory);
    let mut engine = ProjectionEngine::new();
    engine.project_rule(theory.get_rule("s1").unwrap(), &mut idx);

    assert_eq!(engine.exact_count(), 1);
    assert_eq!(engine.family_count(), 1);
    assert_eq!(engine.attack_count(), 0);
}

#[test]
fn diagnostics_counts_tokens_correctly() {
    let mut theory = Theory::new();
    theory.add_rule(Rule::fact("f1", Literal::simple("bird")));
    theory.add_rule(Rule::defeater("d1", vec![Literal::simple("broken")], Literal::negated("flies")));

    let mut idx = make_index(&theory);
    let mut engine = ProjectionEngine::new();
    engine.project_rule(theory.get_rule("f1").unwrap(), &mut idx);
    engine.project_rule(theory.get_rule("d1").unwrap(), &mut idx);

    let diag = engine.diagnostics();
    assert_eq!(diag.exact_supports, 2);
    assert_eq!(diag.family_supports, 1);
    assert_eq!(diag.family_attacks, 1);
    assert_eq!(diag.total_tokens(), 4);
    assert!(diag.contributing_labels.contains("f1"));
    assert!(diag.contributing_labels.contains("d1"));
    assert_eq!(diag.contributing_labels.len(), 2);
}

#[test]
fn diagnostics_display_format() {
    let mut theory = Theory::new();
    theory.add_rule(Rule::fact("f1", Literal::simple("a")));

    let mut idx = make_index(&theory);
    let mut engine = ProjectionEngine::new();
    engine.project_rule(theory.get_rule("f1").unwrap(), &mut idx);

    let diag = engine.diagnostics();
    let s = diag.to_text();
    assert!(s.contains("exact_supports=1"));
    assert!(s.contains("family_supports=1"));
    assert!(s.contains("family_attacks=0"));
    assert!(s.contains("f1"));
}

#[test]
fn empty_engine_diagnostics() {
    let engine = ProjectionEngine::new();
    let diag = engine.diagnostics();
    assert_eq!(diag.exact_supports, 0);
    assert_eq!(diag.family_supports, 0);
    assert_eq!(diag.family_attacks, 0);
    assert_eq!(diag.total_tokens(), 0);
    assert!(diag.contributing_labels.is_empty());
}

#[test]
fn snapshot_is_deterministic() {
    let mut theory = Theory::new();
    theory.add_rule(Rule::fact("f2", Literal::simple("b")));
    theory.add_rule(Rule::fact("f1", Literal::simple("a")));

    let mut idx = make_index(&theory);
    let mut engine = ProjectionEngine::new();
    engine.project_rule(theory.get_rule("f2").unwrap(), &mut idx);
    engine.project_rule(theory.get_rule("f1").unwrap(), &mut idx);

    let id_a = idx.exact_lit_id(&Literal::simple("a"));
    let id_b = idx.exact_lit_id(&Literal::simple("b"));
    let key_a = idx.exact_lit_key(id_a).unwrap();
    let key_b = idx.exact_lit_key(id_b).unwrap();

    let snap = engine.snapshot(&idx);
    assert_eq!(snap.exact[0].0, "f1");
    assert_eq!(snap.exact[1].0, "f2");
    assert_eq!(snap.exact[0].1, key_a);
    assert_eq!(snap.exact[1].1, key_b);
    assert_eq!(snap.family[0].0, "f1");
    assert_eq!(snap.family[1].0, "f2");

    assert_eq!(snap, engine.snapshot(&idx));
}

#[test]
fn snapshot_uses_semantic_identity_not_interning_order() {
    let rule_a = Rule::fact("f1", Literal::simple("a"));
    let rule_b = Rule::fact("f2", Literal::simple("b"));

    let mut idx_ab = ExactIndex::new();
    let a_slot_first = idx_ab.exact_lit_id(&Literal::simple("a"));
    let b_slot_second = idx_ab.exact_lit_id(&Literal::simple("b"));

    let mut idx_ba = ExactIndex::new();
    let b_slot_first = idx_ba.exact_lit_id(&Literal::simple("b"));
    let a_slot_second = idx_ba.exact_lit_id(&Literal::simple("a"));

    assert_ne!(a_slot_first, a_slot_second);
    assert_ne!(b_slot_second, b_slot_first);

    let snap_ab = {
        let mut engine = ProjectionEngine::new();
        engine.project_rule(&rule_a, &mut idx_ab);
        engine.project_rule(&rule_b, &mut idx_ab);
        engine.snapshot(&idx_ab)
    };
    let snap_ba = {
        let mut engine = ProjectionEngine::new();
        engine.project_rule(&rule_a, &mut idx_ba);
        engine.project_rule(&rule_b, &mut idx_ba);
        engine.snapshot(&idx_ba)
    };
    assert_eq!(snap_ab, snap_ba);
}

#[test]
fn canonical_key_is_injective_on_argument_boundaries() {
    let one_arg = FamilyId::new("p", vec!["a, b".to_string()], Mode::empty(), false);
    let two_args = FamilyId::new("p", vec!["a".to_string(), "b".to_string()], Mode::empty(), false);
    assert_eq!(one_arg.to_text(), two_args.to_text());
    assert_ne!(one_arg.canonical_key(), two_args.canonical_key());
}

#[test]
fn snapshot_empty_engine() {
    let theory = Theory::new();
    let idx = make_index(&theory);
    let engine = ProjectionEngine::new();
    let snap = engine.snapshot(&idx);
    assert!(snap.exact.is_empty());
    assert!(snap.family.is_empty());
    assert!(snap.attack.is_empty());
}

#[test]
fn temporal_head_projects_to_atemporal_family() {
    let head = Literal::new("q", false, Mode::empty(), Temporal::new(TimePoint::Moment(1), TimePoint::Moment(10)), vec![]);
    let mut theory = Theory::new();
    theory.add_rule(Rule::defeasible("r1", vec![Literal::simple("a")], head.clone()));

    let mut idx = make_index(&theory);
    let mut engine = ProjectionEngine::new();
    engine.project_rule(theory.get_rule("r1").unwrap(), &mut idx);

    let family_tok = first_family(&engine);
    let base = FamilyId::from_literal(&Literal::simple("q"));
    assert_eq!(family_tok.family_id, base);
}

#[test]
fn canonical_key_exact_text() {
    let f = FamilyId::new("p(x)", vec!["a,b".to_string(), "c".to_string()], Mode::obligation(), true);
    assert_eq!(f.canonical_key(), "-+!O:p\\(x\\)(a\\,b,c)");
    let g = FamilyId::from_literal(&Literal::simple("q"));
    assert_eq!(g.canonical_key(), "++.:q()");
}

#[test]
fn exact_keys_carry_bounds_and_sign() {
    let mut idx = ExactIndex::new();
    let lit = Literal::new("p", true, Mode::empty(), Temporal::new(TimePoint::Moment(-5), TimePoint::PosInf), vec![]);
    let id = idx.exact_lit_id(&lit);
    assert!(id.is_negated());
    assert_eq!(id.atom_index(), 0);
    assert_eq!(idx.exact_lit_key(id).unwrap(), "-+.:p()[m-5,+inf]");
    let pos = idx.exact_lit_id(&Literal::new("p", false, Mode::empty(), lit.temporal, vec![]));
    assert_eq!(pos.atom_index(), 0);
    assert_eq!(idx.exact_lit_key(pos).unwrap(), "++.:p()[m-5,+inf]");
    assert_eq!(idx.len(), 1);
    assert!(idx.exact_lit_key(spindle_core::projection::ExactLitId::new(9, false)).is_none());
}

#[test]
fn snapshot_falls_back_to_slot_text_for_unknown_ids() {
    let rule = Rule::fact("f1", Literal::simple("a"));
    let mut idx = ExactIndex::new();
    let mut engine = ProjectionEngine::new();
    engine.project_rule(&rule, &mut idx);
    let other = ExactIndex::new();
    let snap = engine.snapshot(&other);
    assert_eq!(snap.exact, vec![("f1".to_string(), "exact0".to_string())]);
    assert_eq!(snap.family, vec![("f1".to_string(), "++.:a()".to_string(), "exact0".to_string())]);
}

#[test]
fn counts_add_up_to_tokens() {
    let mut theory = Theory::new();
    theory.add_rule(Rule::new("m", RuleType::Defeasible, vec![Literal::simple("a")], vec![Literal::simple("x"), Literal::simple("y")]));
    theory.add_rule(Rule::defeater("d", vec![Literal::simple("a")], Literal::negated("x")));
    let mut idx = ExactIndex::new();
    let mut engine = ProjectionEngine::new();
    engine.project_rule(theory.get_rule("m").unwrap(), &mut idx);
    assert_eq!(engine.exact_count(), 2);
    assert_eq!(engine.family_count(), 2);
    engine.project_rule(theory.get_rule("d").unwrap(), &mut idx);
    assert_eq!(engine.attack_count(), 1);
    assert_eq!(engine.exact_count() + engine.family_count() + engine.attack_count(), engine.len());
}

#[test]
fn family_arguments_keep_their_order_inline_and_spilled() {
    let two = FamilyId::new("p", vec!["a".to_string(), "b".to_string()], Mode::empty(), false);
    assert_eq!(two.args(), &["a".to_string(), "b".to_string()]);
    let three = FamilyId::new(
        "p",
        vec!["a".to_string(), "b".to_string(), "c".to_string()],
        Mode::empty(),
        false,
    );
    assert_eq!(three.args(), &["a".to_string(), "b".to_string(), "c".to_string()]);
    assert_eq!(three.duplicate().args(), three.args());
}
