//! Preparing a theory for reasoning: as-of temporal filtering, validation
//! of wildcards and range restriction, and the check that no temporal
//! variables are left.

use vstd::prelude::*;
use crate::error::{SpindleError, validation_message};
use crate::literal::Literal;
use crate::rule::{Rule, same_rule, same_rules, same_lit, same_rule_data, same_rules_data};
use crate::wildcard::{rewrite_wildcards, rules_rewritten, rules_wilds, lemma_rewritten_same, lemma_rewrite_plain, lemma_same_rules_wilds, lemma_same_data_wilds};
use crate::temporal::{Temporal, TimePoint};
use crate::theory::{Theory, has_label};
use crate::text::str_eq;

verus! {

/// Options for grounding.
#[derive(Debug, Clone)]
pub struct GroundingOptions {
    /// Whether grounding is enabled.
    pub enabled: bool,
    /// The most grounding iterations.
    pub max_iterations: usize,
    /// The most generated instances.
    pub max_instances: usize,
}

impl Default for GroundingOptions {
    fn default() -> (r: Self)
        ensures
            r.enabled,
            r.max_iterations == 100,
            r.max_instances == 10000,
    {
        GroundingOptions { enabled: true, max_iterations: 100, max_instances: 10000 }
    }
}

/// Options for validation.
#[derive(Debug, Clone)]
pub struct ValidationOptions {
    /// Head variables must occur in the body.
    pub enforce_range_restricted: bool,
    /// The wildcard `_` may not occur in a rule head.
    pub reject_wildcard_in_head: bool,
}

impl Default for ValidationOptions {
    fn default() -> (r: Self)
        ensures
            r.enforce_range_restricted,
            r.reject_wildcard_in_head,
    {
        ValidationOptions { enforce_range_restricted: true, reject_wildcard_in_head: true }
    }
}

/// Options for preparing a theory.
#[derive(Debug, Clone)]
pub struct PrepareOptions {
    /// Reason as of this time: only rules active at it are kept.
    pub reference_time: Option<TimePoint>,
    /// Grounding configuration.
    pub grounding: GroundingOptions,
    /// Validation configuration.
    pub validation: ValidationOptions,
}

impl PrepareOptions {
    /// The default options: no reference time, grounding enabled with its
    /// default limits, both validation checks on.
    pub open spec fn spec_default() -> PrepareOptions {
        PrepareOptions {
            reference_time: None,
            grounding: GroundingOptions { enabled: true, max_iterations: 100, max_instances: 10000 },
            validation: ValidationOptions { enforce_range_restricted: true, reject_wildcard_in_head: true },
        }
    }
}

impl Default for PrepareOptions {
    fn default() -> (r: Self)
        ensures
            r == PrepareOptions::spec_default(),
    {
        PrepareOptions {
            reference_time: None,
            grounding: GroundingOptions::default(),
            validation: ValidationOptions::default(),
        }
    }
}

/// What grounding did.
#[derive(Debug, Clone, Default)]
pub struct GroundingReport {
    /// Whether the grounding stage ran.
    pub performed: bool,
    /// Whether the theory held variables.
    pub had_variables: bool,
    /// The number of instances generated.
    pub instances: usize,
    /// Whether a limit stopped grounding.
    pub limit_hit: bool,
}

/// A prepared theory, with what preparation did.
pub struct PipelineResult {
    /// The prepared theory.
    pub theory: Theory,
    /// The time the theory was evaluated at, if any.
    pub evaluated_at: Option<TimePoint>,
    /// What grounding did.
    pub grounding_report: GroundingReport,
}

/// A name or argument is a variable when it starts with `?`.
pub open spec fn is_var(s: Seq<char>) -> bool {
    s.len() > 0 && s[0] == '?'
}

/// The wildcard `_`.
pub open spec fn is_wild(s: Seq<char>) -> bool {
    s == seq!['_']
}

/// Whether a name or argument is a variable.
pub fn is_variable(s: &str) -> (r: bool)
    ensures
        r == is_var(s@),
{
    s.unicode_len() > 0 && s.get_char(0) == '?'
}

/// Whether a name or argument is the wildcard.
pub(crate) fn is_wildcard(s: &str) -> (r: bool)
    ensures
        r == is_wild(s@),
{
    let r = s.unicode_len() == 1 && s.get_char(0) == '_';
    proof {
        if r {
            assert(s@ =~= seq!['_']);
        }
    }
    r
}

/// A literal's name or one of its arguments is the wildcard.
pub open spec fn lit_has_wild(l: Literal) -> bool {
    is_wild(l.spec_name()) || exists|j: int| 0 <= j < l.spec_preds().len() && is_wild(#[trigger] l.spec_preds()[j])
}

/// Some head literal of the rule holds the wildcard.
pub open spec fn head_has_wild(rule: Rule) -> bool {
    exists|h: int| 0 <= h < rule.head@.len() && lit_has_wild(#[trigger] rule.head@[h])
}

/// Whether the literal's name or an argument is the wildcard.
fn literal_has_wildcard(l: &Literal) -> (r: bool)
    ensures
        r == lit_has_wild(*l),
{
    if is_wildcard(l.name()) {
        return true;
    }
    let mut j: usize = 0;
    while j < l.arity()
        invariant
            0 <= j <= l.spec_preds().len(),
            forall|k: int| 0 <= k < j ==> !is_wild(#[trigger] l.spec_preds()[k]),
        decreases l.spec_preds().len() - j,
    {
        if is_wildcard(l.predicate(j)) {
            return true;
        }
        j = j + 1;
    }
    false
}

/// The message for a wildcard in the head of the rule labelled `label`.
pub open spec fn wildcard_message(label: Seq<char>) -> Seq<char> {
    "Wildcard '_' found in rule head: "@ + label
}

/// Reject a theory with the wildcard `_` in a rule head; the error names
/// the first such rule.
pub fn validate_wildcards(theory: &Theory) -> (r: Result<(), SpindleError>)
    ensures
        r is Ok <==> forall|i: int| 0 <= i < theory.spec_rules().len() ==> !head_has_wild(#[trigger] theory.spec_rules()[i]),
        r matches Err(e) ==> exists|i: int|
            0 <= i < theory.spec_rules().len() && head_has_wild(#[trigger] theory.spec_rules()[i])
                && (forall|k: int| 0 <= k < i ==> !head_has_wild(#[trigger] theory.spec_rules()[k]))
                && validation_message(e) == Some(wildcard_message(theory.spec_rules()[i].label@)),
{
    let rules = theory.rules();
    let mut i: usize = 0;
    while i < rules.len()
        invariant
            0 <= i <= rules@.len(),
            rules@ == theory.spec_rules(),
            forall|k: int| 0 <= k < i ==> !head_has_wild(#[trigger] rules@[k]),
        decreases rules@.len() - i,
    {
        let rule = &rules[i];
        let mut h: usize = 0;
        while h < rule.head.len()
            invariant
                0 <= h <= rule.head@.len(),
                0 <= i < rules@.len(),
                *rule == rules@[i as int],
                rules@ == theory.spec_rules(),
                forall|k: int| 0 <= k < i ==> !head_has_wild(#[trigger] rules@[k]),
                forall|k: int| 0 <= k < h ==> !lit_has_wild(#[trigger] rule.head@[k]),
            decreases rule.head@.len() - h,
        {
            if literal_has_wildcard(&rule.head[h]) {
                let mut message = String::from_str("Wildcard '_' found in rule head: ");
                message.append(rule.label.as_str());
                proof {
                    assert(head_has_wild(rules@[i as int]));
                }
                return Err(SpindleError::Validation { message });
            }
            h = h + 1;
        }
        i = i + 1;
    }
    Ok(())
}

/// `v` is a variable that the body of `rule` binds: a body literal's name
/// or argument.
pub open spec fn body_binds(rule: Rule, v: Seq<char>) -> bool {
    exists|b: int|
        0 <= b < rule.body@.len() && ((#[trigger] rule.body@[b]).spec_name() == v || exists|j: int|
            0 <= j < rule.body@[b].spec_preds().len() && #[trigger] rule.body@[b].spec_preds()[j] == v)
}

/// `v` is a variable of a head literal of `rule` that its body does not bind.
pub open spec fn unsafe_var(rule: Rule, v: Seq<char>) -> bool {
    &&& is_var(v)
    &&& !body_binds(rule, v)
    &&& exists|h: int|
        0 <= h < rule.head@.len() && ((#[trigger] rule.head@[h]).spec_name() == v || exists|j: int|
            0 <= j < rule.head@[h].spec_preds().len() && #[trigger] rule.head@[h].spec_preds()[j] == v)
}

/// Every variable of `lit` is bound by the body of `rule`.
pub open spec fn lit_vars_bound(rule: Rule, lit: Literal) -> bool {
    &&& (is_var(lit.spec_name()) ==> body_binds(rule, lit.spec_name()))
    &&& forall|j: int| 0 <= j < lit.spec_preds().len() && is_var(#[trigger] lit.spec_preds()[j]) ==> body_binds(rule, lit.spec_preds()[j])
}

/// The rule is range restricted: every head variable occurs in the body.
pub open spec fn range_restricted(rule: Rule) -> bool {
    forall|h: int| 0 <= h < rule.head@.len() ==> lit_vars_bound(rule, #[trigger] rule.head@[h])
}

/// The message for an unbound head variable `v` of the rule labelled `label`.
pub open spec fn unsafe_message(label: Seq<char>, v: Seq<char>) -> Seq<char> {
    "Unsafe rule '"@ + label + "': variable "@ + v + " in head but not in body"@
}

/// Whether `v` is a name or argument of some body literal of `rule`.
fn body_has(rule: &Rule, v: &str) -> (r: bool)
    ensures
        r == body_binds(*rule, v@),
{
    let mut b: usize = 0;
    while b < rule.body.len()
        invariant
            0 <= b <= rule.body@.len(),
            forall|k: int| 0 <= k < b ==> (#[trigger] rule.body@[k]).spec_name() != v@ && forall|j: int|
                0 <= j < rule.body@[k].spec_preds().len() ==> #[trigger] rule.body@[k].spec_preds()[j] != v@,
        decreases rule.body@.len() - b,
    {
        let lit = &rule.body[b];
        if str_eq(lit.name(), v) {
            proof {
                assert(rule.body@[b as int].spec_name() == v@);
            }
            return true;
        }
        let mut j: usize = 0;
        while j < lit.arity()
            invariant
                0 <= j <= lit.spec_preds().len(),
                0 <= b < rule.body@.len(),
                *lit == rule.body@[b as int],
                forall|k: int| 0 <= k < j ==> #[trigger] lit.spec_preds()[k] != v@,
            decreases lit.spec_preds().len() - j,
        {
            if str_eq(lit.predicate(j), v) {
                proof {
                    assert(rule.body@[b as int].spec_preds()[j as int] == v@);
                }
                return true;
            }
            j = j + 1;
        }
        b = b + 1;
    }
    false
}

/// Build the message for an unbound head variable.
fn unsafe_error(label: &str, v: &str) -> (r: SpindleError)
    ensures
        validation_message(r) == Some(unsafe_message(label@, v@)),
{
    let mut message = String::from_str("Unsafe rule '");
    message.append(label);
    message.append("': variable ");
    message.append(v);
    message.append(" in head but not in body");
    proof {
        assert(message@ =~= unsafe_message(label@, v@));
    }
    SpindleError::Validation { message }
}

/// The first unbound head variable of a rule, if any.
fn find_unsafe(rule: &Rule) -> (r: Option<String>)
    ensures
        match r {
            Some(v) => unsafe_var(*rule, v@) && !range_restricted(*rule),
            None => range_restricted(*rule),
        },
{
    let mut h: usize = 0;
    while h < rule.head.len()
        invariant
            0 <= h <= rule.head@.len(),
            forall|k: int| 0 <= k < h ==> lit_vars_bound(*rule, #[trigger] rule.head@[k]),
        decreases rule.head@.len() - h,
    {
        let lit = &rule.head[h];
        if is_variable(lit.name()) && !body_has(rule, lit.name()) {
            proof {
                assert(rule.head@[h as int].spec_name() == lit.spec_name());
                assert(!lit_vars_bound(*rule, rule.head@[h as int]));
            }
            return Some(lit.literal_name());
        }
        let mut j: usize = 0;
        while j < lit.arity()
            invariant
                0 <= j <= lit.spec_preds().len(),
                0 <= h < rule.head@.len(),
                *lit == rule.head@[h as int],
                is_var(lit.spec_name()) ==> body_binds(*rule, lit.spec_name()),
                forall|k: int| 0 <= k < h ==> lit_vars_bound(*rule, #[trigger] rule.head@[k]),
                forall|k: int| 0 <= k < j && is_var(#[trigger] lit.spec_preds()[k]) ==> body_binds(*rule, lit.spec_preds()[k]),
            decreases lit.spec_preds().len() - j,
        {
            let p = lit.predicate(j);
            if is_variable(p) && !body_has(rule, p) {
                proof {
                    assert(rule.head@[h as int].spec_preds()[j as int] == p@);
                    assert(!lit_vars_bound(*rule, rule.head@[h as int]));
                }
                return Some(p.to_owned());
            }
            j = j + 1;
        }
        proof {
            assert(lit_vars_bound(*rule, rule.head@[h as int]));
        }
        h = h + 1;
    }
    None
}

/// Reject a theory with a rule whose head has a variable that its body does
/// not bind; the error names the first such rule and variable.
pub fn validate_range_restriction(theory: &Theory) -> (r: Result<(), SpindleError>)
    ensures
        r is Ok <==> forall|i: int| 0 <= i < theory.spec_rules().len() ==> range_restricted(#[trigger] theory.spec_rules()[i]),
        r matches Err(e) ==> exists|i: int, v: Seq<char>|
            0 <= i < theory.spec_rules().len() && #[trigger] unsafe_var(theory.spec_rules()[i], v)
                && (forall|k: int| 0 <= k < i ==> range_restricted(#[trigger] theory.spec_rules()[k]))
                && validation_message(e) == Some(unsafe_message(theory.spec_rules()[i].label@, v)),
{
    let rules = theory.rules();
    let mut i: usize = 0;
    while i < rules.len()
        invariant
            0 <= i <= rules@.len(),
            rules@ == theory.spec_rules(),
            forall|k: int| 0 <= k < i ==> range_restricted(#[trigger] rules@[k]),
        decreases rules@.len() - i,
    {
        match find_unsafe(&rules[i]) {
            Some(v) => {
                let e = unsafe_error(rules[i].label.as_str(), v.as_str());
                proof {
                    assert(unsafe_var(rules@[i as int], v@));
                    assert(0 <= i < theory.spec_rules().len() && unsafe_var(theory.spec_rules()[i as int], v@)
                        && (forall|k: int| 0 <= k < i ==> range_restricted(#[trigger] theory.spec_rules()[k]))
                        && validation_message(e) == Some(unsafe_message(theory.spec_rules()[i as int].label@, v@)));
                }
                return Err(e);
            },
            None => {},
        }
        i = i + 1;
    }
    Ok(())
}

/// A literal takes part at time `t`: it still has a temporal expression,
/// or it has no bounds, or its bounds contain `t`.
pub open spec fn lit_active(l: Literal, t: TimePoint) -> bool {
    l.temporal_expr.is_some() || l.temporal.spec_is_empty() || l.temporal.spec_contains(t)
}

/// A rule takes part at time `t`: its own bounds and those of all its
/// literals admit `t`.
pub open spec fn rule_active(rule: Rule, t: TimePoint) -> bool {
    &&& (rule.temporal.spec_is_empty() || rule.temporal.spec_contains(t))
    &&& forall|h: int| 0 <= h < rule.head@.len() ==> lit_active(#[trigger] rule.head@[h], t)
    &&& forall|b: int| 0 <= b < rule.body@.len() ==> lit_active(#[trigger] rule.body@[b], t)
}

/// The rules active at `t`, in order.
pub open spec fn active_rules(rules: Seq<Rule>, t: TimePoint) -> Seq<Rule>
    decreases rules.len(),
{
    if rules.len() == 0 {
        Seq::empty()
    } else {
        active_rules(rules.drop_last(), t) + (if rule_active(rules.last(), t) {
            seq![rules.last()]
        } else {
            Seq::empty()
        })
    }
}

/// The temporal filter keeps only rules of the theory, in order, and drops
/// every rule whose own bounds are set and do not contain the reference
/// time: each rule kept at `t` is a rule of `rules` that has no bounds or
/// whose bounds contain `t`.
pub proof fn law_filter_drops_rules_outside_their_bounds(rules: Seq<Rule>, t: TimePoint, k: int)
    requires
        0 <= k < active_rules(rules, t).len(),
    ensures
        exists|j: int| 0 <= j < rules.len() && rules[j] == #[trigger] active_rules(rules, t)[k],
        active_rules(rules, t)[k].temporal.spec_is_empty() || active_rules(rules, t)[k].temporal.spec_contains(t),
    decreases rules.len(),
{
    let init = rules.drop_last();
    let prev = active_rules(init, t);
    if k < prev.len() {
        law_filter_drops_rules_outside_their_bounds(init, t, k);
        assert(active_rules(rules, t)[k] == prev[k]);
        let j = choose|j: int| 0 <= j < init.len() && init[j] == #[trigger] prev[k];
        assert(rules[j] == init[j]);
    } else {
        assert(active_rules(rules, t)[k] == rules.last());
        assert(rules[rules.len() - 1] == rules.last());
    }
}

/// A rule whose own bounds are set and do not contain `t` is not among the
/// rules kept at `t`.
pub proof fn law_rule_outside_its_bounds_is_not_kept(rules: Seq<Rule>, t: TimePoint, rule: Rule)
    requires
        !rule.temporal.spec_is_empty(),
        !rule.temporal.spec_contains(t),
    ensures
        !active_rules(rules, t).contains(rule),
{
    if active_rules(rules, t).contains(rule) {
        let k = choose|k: int| 0 <= k < active_rules(rules, t).len() && active_rules(rules, t)[k] == rule;
        law_filter_drops_rules_outside_their_bounds(rules, t, k);
    }
}

/// The superiority pairs both of whose labels are labels of `rules`.
pub open spec fn kept_sups(sups: Seq<(Seq<char>, Seq<char>)>, rules: Seq<Rule>) -> Seq<(Seq<char>, Seq<char>)>
    decreases sups.len(),
{
    if sups.len() == 0 {
        Seq::empty()
    } else {
        kept_sups(sups.drop_last(), rules) + (if has_label(rules, sups.last().0) && has_label(rules, sups.last().1) {
            seq![sups.last()]
        } else {
            Seq::empty()
        })
    }
}

/// Whether the literal takes part at time `t`.
fn literal_active(l: &Literal, t: TimePoint) -> (r: bool)
    ensures
        r == lit_active(*l, t),
{
    l.temporal_expr.is_some() || l.temporal.is_empty() || l.temporal.contains(t)
}

/// Whether all literals of `lits` take part at time `t`.
fn literals_active(lits: &Vec<Literal>, t: TimePoint) -> (r: bool)
    ensures
        r == forall|i: int| 0 <= i < lits@.len() ==> lit_active(#[trigger] lits@[i], t),
{
    let mut i: usize = 0;
    while i < lits.len()
        invariant
            0 <= i <= lits@.len(),
            forall|k: int| 0 <= k < i ==> lit_active(#[trigger] lits@[k], t),
        decreases lits@.len() - i,
    {
        if !literal_active(&lits[i], t) {
            return false;
        }
        i = i + 1;
    }
    true
}

/// Whether the rule takes part at time `t`.
pub fn is_rule_active(rule: &Rule, t: TimePoint) -> (r: bool)
    ensures
        r == rule_active(*rule, t),
{
    (rule.temporal.is_empty() || rule.temporal.contains(t)) && literals_active(&rule.head, t)
        && literals_active(&rule.body, t)
}

/// The theory as of time `t`: the rules active at `t`, and the superiority
/// pairs between labels of kept rules.
pub fn filter_temporal(theory: &Theory, t: TimePoint) -> (r: Theory)
    ensures
        same_rules(r.spec_rules(), active_rules(theory.spec_rules(), t)),
        r.spec_sups() == kept_sups(theory.spec_sups(), r.spec_rules()),
{
    let rules = theory.rules();
    let mut out = Theory::new();
    let mut i: usize = 0;
    while i < rules.len()
        invariant
            0 <= i <= rules@.len(),
            rules@ == theory.spec_rules(),
            same_rules(out.spec_rules(), active_rules(rules@.take(i as int), t)),
            out.spec_sups() == Seq::<(Seq<char>, Seq<char>)>::empty(),
        decreases rules@.len() - i,
    {
        proof {
            assert(rules@.take(i + 1).drop_last() =~= rules@.take(i as int));
            assert(rules@.take(i + 1).last() == rules@[i as int]);
        }
        if is_rule_active(&rules[i], t) {
            let ghost before = out.spec_rules();
            out.add_rule(rules[i].duplicate());
            proof {
                assert forall|k: int| 0 <= k < out.spec_rules().len() implies #[trigger] same_rule(
                    out.spec_rules()[k],
                    active_rules(rules@.take(i + 1), t)[k],
                ) by {
                    if k < before.len() {
                        assert(out.spec_rules()[k] == before[k]);
                    }
                }
            }
        }
        i = i + 1;
    }
    proof {
        assert(rules@.take(rules@.len() as int) =~= rules@);
    }
    let ghost kept = out.spec_rules();
    let sups = theory.superiorities();
    let mut k: usize = 0;
    while k < sups.len()
        invariant
            0 <= k <= sups@.len(),
            sups@.map_values(|s: crate::theory::Superiority| (s.superior@, s.inferior@)) == theory.spec_sups(),
            out.spec_rules() == kept,
            out.spec_sups() == kept_sups(theory.spec_sups().take(k as int), kept),
        decreases sups@.len() - k,
    {
        proof {
            assert(theory.spec_sups().take(k + 1).drop_last() =~= theory.spec_sups().take(k as int));
            assert(theory.spec_sups().take(k + 1).last() == theory.spec_sups()[k as int]);
            assert(theory.spec_sups()[k as int] == (sups@[k as int].superior@, sups@[k as int].inferior@));
        }
        let a = sups[k].superior.as_str();
        let b = sups[k].inferior.as_str();
        if out.has_rule(a) && out.has_rule(b) {
            out.add_superiority(a, b);
        }
        k = k + 1;
    }
    proof {
        assert(theory.spec_sups().take(sups@.len() as int) =~= theory.spec_sups());
    }
    out
}

/// A literal's name or an argument is a variable or the wildcard.
pub open spec fn lit_has_var(l: Literal) -> bool {
    is_var(l.spec_name()) || is_wild(l.spec_name()) || exists|j: int|
        0 <= j < l.spec_preds().len() && (is_var(#[trigger] l.spec_preds()[j]) || is_wild(l.spec_preds()[j]))
}

/// Some literal of `lits` has a variable or the wildcard.
pub open spec fn lits_have_var(lits: Seq<Literal>) -> bool {
    exists|j: int| 0 <= j < lits.len() && lit_has_var(#[trigger] lits[j])
}

/// Some literal of `lits` still has a temporal expression.
pub open spec fn lits_have_temporal_var(lits: Seq<Literal>) -> bool {
    exists|j: int| 0 <= j < lits.len() && (#[trigger] lits[j]).temporal_expr.is_some()
}

/// Some literal of some rule has a variable or the wildcard.
pub open spec fn rules_have_vars(rules: Seq<Rule>) -> bool {
    exists|i: int| 0 <= i < rules.len() && (lits_have_var((#[trigger] rules[i]).head@) || lits_have_var(rules[i].body@))
}

/// Some literal of some rule still has a temporal expression.
pub open spec fn rules_have_temporal_vars(rules: Seq<Rule>) -> bool {
    exists|i: int|
        0 <= i < rules.len() && (lits_have_temporal_var((#[trigger] rules[i]).head@) || lits_have_temporal_var(
            rules[i].body@,
        ))
}

/// Whether the literal has a variable or the wildcard.
fn literal_has_variable(l: &Literal) -> (r: bool)
    ensures
        r == lit_has_var(*l),
{
    if is_variable(l.name()) || is_wildcard(l.name()) {
        return true;
    }
    let mut j: usize = 0;
    while j < l.arity()
        invariant
            0 <= j <= l.spec_preds().len(),
            forall|k: int| 0 <= k < j ==> !is_var(#[trigger] l.spec_preds()[k]) && !is_wild(l.spec_preds()[k]),
        decreases l.spec_preds().len() - j,
    {
        if is_variable(l.predicate(j)) || is_wildcard(l.predicate(j)) {
            return true;
        }
        j = j + 1;
    }
    false
}

/// The first literal of `lits` that satisfies the check, by position.
fn any_literal(lits: &Vec<Literal>, vars: bool) -> (r: bool)
    ensures
        vars ==> (r == lits_have_var(lits@)),
        !vars ==> (r == lits_have_temporal_var(lits@)),
{
    let mut j: usize = 0;
    while j < lits.len()
        invariant
            0 <= j <= lits@.len(),
            vars ==> forall|k: int| 0 <= k < j ==> !lit_has_var(#[trigger] lits@[k]),
            !vars ==> forall|k: int| 0 <= k < j ==> (#[trigger] lits@[k]).temporal_expr.is_none(),
        decreases lits@.len() - j,
    {
        let hit = if vars {
            literal_has_variable(&lits[j])
        } else {
            lits[j].has_temporal_variables()
        };
        if hit {
            return true;
        }
        j = j + 1;
    }
    false
}

/// Whether some literal of the theory has a variable or the wildcard
/// (`vars`), or still has a temporal expression (`!vars`).
pub(crate) fn theory_has(theory: &Theory, vars: bool) -> (r: bool)
    ensures
        vars ==> (r == rules_have_vars(theory.spec_rules())),
        !vars ==> (r == rules_have_temporal_vars(theory.spec_rules())),
{
    let rules = theory.rules();
    let mut i: usize = 0;
    while i < rules.len()
        invariant
            0 <= i <= rules@.len(),
            rules@ == theory.spec_rules(),
            vars ==> forall|q: int| 0 <= q < i ==> !lits_have_var((#[trigger] rules@[q]).head@) && !lits_have_var(rules@[q].body@),
            !vars ==> forall|q: int|
                0 <= q < i ==> !lits_have_temporal_var((#[trigger] rules@[q]).head@) && !lits_have_temporal_var(rules@[q].body@),
        decreases rules@.len() - i,
    {
        if any_literal(&rules[i].head, vars) || any_literal(&rules[i].body, vars) {
            proof {
                assert(rules@[i as int] == theory.spec_rules()[i as int]);
            }
            return true;
        }
        i = i + 1;
    }
    false
}

/// Labels are the same in rules that carry the same data.
pub proof fn lemma_has_label_same_rules(a: Seq<Rule>, b: Seq<Rule>, x: Seq<char>)
    requires
        same_rules(a, b),
    ensures
        has_label(a, x) == has_label(b, x),
{
    if has_label(a, x) {
        let i = choose|i: int| 0 <= i < a.len() && (#[trigger] a[i]).label@ == x;
        assert(same_rule(a[i], b[i]));
    }
    if has_label(b, x) {
        let i = choose|i: int| 0 <= i < b.len() && (#[trigger] b[i]).label@ == x;
        assert(same_rule(a[i], b[i]));
    }
}

/// The kept superiority pairs depend only on the rules' labels.
pub proof fn lemma_kept_sups_same_rules(sups: Seq<(Seq<char>, Seq<char>)>, a: Seq<Rule>, b: Seq<Rule>)
    requires
        same_rules(a, b),
    ensures
        kept_sups(sups, a) == kept_sups(sups, b),
    decreases sups.len(),
{
    if sups.len() > 0 {
        lemma_kept_sups_same_rules(sups.drop_last(), a, b);
        lemma_has_label_same_rules(a, b, sups.last().0);
        lemma_has_label_same_rules(a, b, sups.last().1);
    }
}

/// The checks of preparation give the same answer on rules with the same data.
pub proof fn lemma_checks_same_rule(ra: Rule, rb: Rule)
    requires
        same_rule_data(ra, rb),
    ensures
        head_has_wild(ra) == head_has_wild(rb),
        range_restricted(ra) == range_restricted(rb),
        lits_have_var(ra.head@) == lits_have_var(rb.head@),
        lits_have_var(ra.body@) == lits_have_var(rb.body@),
        lits_have_temporal_var(ra.head@) == lits_have_temporal_var(rb.head@),
        lits_have_temporal_var(ra.body@) == lits_have_temporal_var(rb.body@),
{
    assert forall|h: int| 0 <= h < ra.head@.len() implies #[trigger] same_lit(ra.head@[h], rb.head@[h]) by {}
    assert forall|b: int| 0 <= b < ra.body@.len() implies #[trigger] same_lit(ra.body@[b], rb.body@[b]) by {}
    assert forall|h: int| 0 <= h < ra.head@.len() implies lit_has_wild(#[trigger] ra.head@[h]) == lit_has_wild(rb.head@[h]) by {
        assert(same_lit(ra.head@[h], rb.head@[h]));
    }
    if head_has_wild(ra) {
        let h = choose|h: int| 0 <= h < ra.head@.len() && lit_has_wild(#[trigger] ra.head@[h]);
        assert(lit_has_wild(rb.head@[h]));
    }
    if head_has_wild(rb) {
        let h = choose|h: int| 0 <= h < rb.head@.len() && lit_has_wild(#[trigger] rb.head@[h]);
        assert(lit_has_wild(ra.head@[h]));
    }
    assert forall|v: Seq<char>| #[trigger] body_binds(ra, v) == body_binds(rb, v) by {
        if body_binds(ra, v) {
            let b = choose|b: int|
                0 <= b < ra.body@.len() && ((#[trigger] ra.body@[b]).spec_name() == v || exists|j: int|
                    0 <= j < ra.body@[b].spec_preds().len() && #[trigger] ra.body@[b].spec_preds()[j] == v);
            assert(same_lit(ra.body@[b], rb.body@[b]));
            assert(rb.body@[b].spec_name() == ra.body@[b].spec_name());
        }
        if body_binds(rb, v) {
            let b = choose|b: int|
                0 <= b < rb.body@.len() && ((#[trigger] rb.body@[b]).spec_name() == v || exists|j: int|
                    0 <= j < rb.body@[b].spec_preds().len() && #[trigger] rb.body@[b].spec_preds()[j] == v);
            assert(same_lit(ra.body@[b], rb.body@[b]));
            assert(rb.body@[b].spec_name() == ra.body@[b].spec_name());
        }
    }
    assert forall|h: int| 0 <= h < ra.head@.len() implies lit_vars_bound(ra, #[trigger] ra.head@[h]) == lit_vars_bound(rb, rb.head@[h]) by {
        assert(same_lit(ra.head@[h], rb.head@[h]));
    }
    if range_restricted(ra) {
        assert forall|h: int| 0 <= h < rb.head@.len() implies lit_vars_bound(rb, #[trigger] rb.head@[h]) by {
            assert(lit_vars_bound(ra, ra.head@[h]));
        }
    }
    if range_restricted(rb) {
        assert forall|h: int| 0 <= h < ra.head@.len() implies lit_vars_bound(ra, #[trigger] ra.head@[h]) by {
            assert(lit_vars_bound(rb, rb.head@[h]));
        }
    }
    if lits_have_var(ra.head@) {
        let j = choose|j: int| 0 <= j < ra.head@.len() && lit_has_var(#[trigger] ra.head@[j]);
        assert(same_lit(ra.head@[j], rb.head@[j]));
        assert(lit_has_var(rb.head@[j]));
    }
    if lits_have_var(rb.head@) {
        let j = choose|j: int| 0 <= j < rb.head@.len() && lit_has_var(#[trigger] rb.head@[j]);
        assert(same_lit(ra.head@[j], rb.head@[j]));
        assert(lit_has_var(ra.head@[j]));
    }
    if lits_have_var(ra.body@) {
        let j = choose|j: int| 0 <= j < ra.body@.len() && lit_has_var(#[trigger] ra.body@[j]);
        assert(same_lit(ra.body@[j], rb.body@[j]));
        assert(lit_has_var(rb.body@[j]));
    }
    if lits_have_var(rb.body@) {
        let j = choose|j: int| 0 <= j < rb.body@.len() && lit_has_var(#[trigger] rb.body@[j]);
        assert(same_lit(ra.body@[j], rb.body@[j]));
        assert(lit_has_var(ra.body@[j]));
    }
    if lits_have_temporal_var(ra.head@) {
        let j = choose|j: int| 0 <= j < ra.head@.len() && (#[trigger] ra.head@[j]).temporal_expr.is_some();
        assert(same_lit(ra.head@[j], rb.head@[j]));
    }
    if lits_have_temporal_var(rb.head@) {
        let j = choose|j: int| 0 <= j < rb.head@.len() && (#[trigger] rb.head@[j]).temporal_expr.is_some();
        assert(same_lit(ra.head@[j], rb.head@[j]));
    }
    if lits_have_temporal_var(ra.body@) {
        let j = choose|j: int| 0 <= j < ra.body@.len() && (#[trigger] ra.body@[j]).temporal_expr.is_some();
        assert(same_lit(ra.body@[j], rb.body@[j]));
    }
    if lits_have_temporal_var(rb.body@) {
        let j = choose|j: int| 0 <= j < rb.body@.len() && (#[trigger] rb.body@[j]).temporal_expr.is_some();
        assert(same_lit(ra.body@[j], rb.body@[j]));
    }
}

/// The rules kept as of `t`, or all rules when no time is given.
pub open spec fn filtered_rules(th: Theory, t: Option<TimePoint>) -> Seq<Rule> {
    match t {
        Some(t) => active_rules(th.spec_rules(), t),
        None => th.spec_rules(),
    }
}

/// The superiority pairs kept as of `t`, or all pairs when no time is given.
pub open spec fn filtered_sups(th: Theory, t: Option<TimePoint>) -> Seq<(Seq<char>, Seq<char>)> {
    match t {
        Some(_) => kept_sups(th.spec_sups(), filtered_rules(th, t)),
        None => th.spec_sups(),
    }
}

/// The wildcard check fails on the rules.
pub open spec fn wildcard_fails(rules: Seq<Rule>, opts: PrepareOptions) -> bool {
    opts.validation.reject_wildcard_in_head && exists|i: int| 0 <= i < rules.len() && head_has_wild(#[trigger] rules[i])
}

/// The range-restriction check fails on the rules.
pub open spec fn range_fails(rules: Seq<Rule>, opts: PrepareOptions) -> bool {
    opts.validation.enforce_range_restricted && exists|i: int| 0 <= i < rules.len() && !range_restricted(#[trigger] rules[i])
}

/// The rules need grounding, which is not offered here.
pub open spec fn grounding_fails(rules: Seq<Rule>, opts: PrepareOptions) -> bool {
    opts.grounding.enabled && rules_have_vars(rules)
}

/// Preparation of the theory with the options fails.
pub open spec fn prepare_fails(th: Theory, opts: PrepareOptions) -> bool {
    rules_fail(filtered_rules(th, opts.reference_time), opts)
}

/// One of the checks of preparation fails on the (filtered) rules.
pub open spec fn rules_fail(f: Seq<Rule>, opts: PrepareOptions) -> bool {
    wildcard_fails(f, opts) || range_fails(f, opts) || grounding_fails(f, opts) || rules_wilds(f) >= usize::MAX
}

/// The preparation checks give the same answers on rules with the same data.
pub proof fn lemma_checks_same_rules(a: Seq<Rule>, b: Seq<Rule>, opts: PrepareOptions)
    requires
        same_rules(a, b),
    ensures
        wildcard_fails(a, opts) == wildcard_fails(b, opts),
        range_fails(a, opts) == range_fails(b, opts),
        grounding_fails(a, opts) == grounding_fails(b, opts),
        rules_have_temporal_vars(a) == rules_have_temporal_vars(b),
{
    assert forall|i: int| 0 <= i < a.len() implies {
        &&& head_has_wild(#[trigger] a[i]) == head_has_wild(b[i])
        &&& range_restricted(a[i]) == range_restricted(b[i])
        &&& lits_have_var(a[i].head@) == lits_have_var(b[i].head@)
        &&& lits_have_var(a[i].body@) == lits_have_var(b[i].body@)
        &&& lits_have_temporal_var(a[i].head@) == lits_have_temporal_var(b[i].head@)
        &&& lits_have_temporal_var(a[i].body@) == lits_have_temporal_var(b[i].body@)
    } by {
        assert(same_rule(a[i], b[i]));
        lemma_checks_same_rule(a[i], b[i]);
    }
    if exists|i: int| 0 <= i < b.len() && head_has_wild(#[trigger] b[i]) {
        let i = choose|i: int| 0 <= i < b.len() && head_has_wild(#[trigger] b[i]);
        assert(head_has_wild(a[i]));
    }
    if exists|i: int| 0 <= i < b.len() && !range_restricted(#[trigger] b[i]) {
        let i = choose|i: int| 0 <= i < b.len() && !range_restricted(#[trigger] b[i]);
        assert(!range_restricted(a[i]));
    }
    if rules_have_vars(b) {
        let i = choose|i: int| 0 <= i < b.len() && (lits_have_var((#[trigger] b[i]).head@) || lits_have_var(b[i].body@));
        assert(lits_have_var(a[i].head@) || lits_have_var(a[i].body@));
    }
    if rules_have_temporal_vars(b) {
        let i = choose|i: int|
            0 <= i < b.len() && (lits_have_temporal_var((#[trigger] b[i]).head@) || lits_have_temporal_var(b[i].body@));
        assert(lits_have_temporal_var(a[i].head@) || lits_have_temporal_var(a[i].body@));
    }
}

/// Preparation fails on rules exactly when it fails on rules with the same
/// data.
pub proof fn lemma_rules_fail_same_data(a: Seq<Rule>, b: Seq<Rule>, opts: PrepareOptions)
    requires
        same_rules_data(a, b),
    ensures
        rules_fail(a, opts) == rules_fail(b, opts),
{
    lemma_checks_same_data(a, b, opts);
    lemma_same_data_wilds(a, b);
}

/// The preparation checks give the same answers on rules with the same
/// data, labels compared by their characters.
pub proof fn lemma_checks_same_data(a: Seq<Rule>, b: Seq<Rule>, opts: PrepareOptions)
    requires
        same_rules_data(a, b),
    ensures
        wildcard_fails(a, opts) == wildcard_fails(b, opts),
        range_fails(a, opts) == range_fails(b, opts),
        grounding_fails(a, opts) == grounding_fails(b, opts),
        rules_have_temporal_vars(a) == rules_have_temporal_vars(b),
{
    assert forall|i: int| 0 <= i < a.len() implies {
        &&& head_has_wild(#[trigger] a[i]) == head_has_wild(b[i])
        &&& range_restricted(a[i]) == range_restricted(b[i])
        &&& lits_have_var(a[i].head@) == lits_have_var(b[i].head@)
        &&& lits_have_var(a[i].body@) == lits_have_var(b[i].body@)
        &&& lits_have_temporal_var(a[i].head@) == lits_have_temporal_var(b[i].head@)
        &&& lits_have_temporal_var(a[i].body@) == lits_have_temporal_var(b[i].body@)
    } by {
        assert(same_rule_data(a[i], b[i]));
        lemma_checks_same_rule(a[i], b[i]);
    }
    if exists|i: int| 0 <= i < b.len() && head_has_wild(#[trigger] b[i]) {
        let i = choose|i: int| 0 <= i < b.len() && head_has_wild(#[trigger] b[i]);
        assert(head_has_wild(a[i]));
    }
    if exists|i: int| 0 <= i < b.len() && !range_restricted(#[trigger] b[i]) {
        let i = choose|i: int| 0 <= i < b.len() && !range_restricted(#[trigger] b[i]);
        assert(!range_restricted(a[i]));
    }
    if rules_have_vars(b) {
        let i = choose|i: int| 0 <= i < b.len() && (lits_have_var((#[trigger] b[i]).head@) || lits_have_var(b[i].body@));
        assert(lits_have_var(a[i].head@) || lits_have_var(a[i].body@));
    }
    if rules_have_temporal_vars(b) {
        let i = choose|i: int|
            0 <= i < b.len() && (lits_have_temporal_var((#[trigger] b[i]).head@) || lits_have_temporal_var(b[i].body@));
        assert(lits_have_temporal_var(a[i].head@) || lits_have_temporal_var(a[i].body@));
    }
}

/// Prepare a theory for reasoning: keep the rules active at the reference
/// time (when one is given), check wildcards and range restriction (as the
/// options ask), refuse variables when grounding is enabled (grounding is
/// not offered here), and replace each wildcard by a fresh variable.
/// Unresolved temporal variables only warn, and the warning is not kept.
pub fn prepare(theory: &Theory, opts: PrepareOptions) -> (r: Result<PipelineResult, SpindleError>)
    ensures
        r is Ok <==> !prepare_fails(*theory, opts),
        r matches Ok(res) ==> {
            &&& rules_rewritten(filtered_rules(*theory, opts.reference_time), res.theory.spec_rules())
            &&& !rules_have_vars(filtered_rules(*theory, opts.reference_time)) ==> same_rules(
                res.theory.spec_rules(),
                filtered_rules(*theory, opts.reference_time),
            )
            &&& res.theory.spec_sups() == filtered_sups(*theory, opts.reference_time)
            &&& res.evaluated_at == opts.reference_time
            &&& !res.grounding_report.performed
            &&& !res.grounding_report.had_variables
            &&& res.grounding_report.instances == 0
            &&& !res.grounding_report.limit_hit
        },
        r matches Err(e) ==> {
            let f = filtered_rules(*theory, opts.reference_time);
            &&& (wildcard_fails(f, opts) || range_fails(f, opts)) ==> e is Validation
            &&& (!wildcard_fails(f, opts) && !range_fails(f, opts) && grounding_fails(f, opts)) ==> e is Grounding
            &&& (!wildcard_fails(f, opts) && !range_fails(f, opts) && !grounding_fails(f, opts)) ==> e is Validation
        },
{
    let filtered = match opts.reference_time {
        Some(t) => filter_temporal(theory, t),
        None => theory.duplicate(),
    };
    let ghost f = filtered_rules(*theory, opts.reference_time);
    proof {
        match opts.reference_time {
            Some(t) => {
                lemma_kept_sups_same_rules(theory.spec_sups(), filtered.spec_rules(), f);
            },
            None => {
                assert(same_rules(filtered.spec_rules(), f));
            },
        }
        lemma_checks_same_rules(filtered.spec_rules(), f, opts);
    }
    if opts.validation.reject_wildcard_in_head {
        match validate_wildcards(&filtered) {
            Ok(()) => {},
            Err(e) => {
                return Err(e);
            },
        }
    }
    if opts.validation.enforce_range_restricted {
        match validate_range_restriction(&filtered) {
            Ok(()) => {},
            Err(e) => {
                return Err(e);
            },
        }
    }
    if opts.grounding.enabled && theory_has(&filtered, true) {
        let message = String::from_str("grounding of variables is not available");
        return Err(SpindleError::Grounding { message });
    }
    let prepared = match rewrite_wildcards(&filtered) {
        Some(t) => t,
        None => {
            proof {
                lemma_same_rules_wilds(filtered.spec_rules(), f);
            }
            let message = String::from_str("too many wildcards to rewrite");
            return Err(SpindleError::Validation { message });
        },
    };
    proof {
        lemma_same_rules_wilds(filtered.spec_rules(), f);
        lemma_rewritten_same(filtered.spec_rules(), f, prepared.spec_rules());
        if !rules_have_vars(f) {
            lemma_rewrite_plain(f, prepared.spec_rules());
        }
    }
    Ok(PipelineResult {
        theory: prepared,
        evaluated_at: opts.reference_time,
        grounding_report: GroundingReport { performed: false, had_variables: false, instances: 0, limit_hit: false },
    })
}

} // verus!
