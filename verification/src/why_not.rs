//! Why-not: why a literal is not provable. The rules that could derive it
//! are inspected against the conclusions of reasoning, and each is reported
//! with what blocks it: missing premises, a defeater, or a contradicting rule.

use vstd::prelude::*;
use crate::conclusion::Conclusion;
use crate::error::SpindleError;
use crate::literal::Literal;
use crate::pipeline::{PrepareOptions, prepare_fails};
use crate::reason::{reason, reasonable, reasoned_with};
use crate::rule::{Rule, RuleType, same_lit, same_lits, clone_literals};
use crate::text::{joined, join};
use crate::theory::Theory;

verus! {

/// The kind of a blocking condition.
#[derive(Clone, Copy, PartialEq, Eq, Structural, Debug)]
pub enum BlockingType {
    /// A body literal of the rule is not proven.
    MissingPremise,
    /// A defeater for the complement applies.
    Defeated,
    /// A rule for the complement applies, or the complement is proven.
    Contradicted,
}

/// The display text of a blocking kind.
pub open spec fn blocking_text(t: BlockingType) -> Seq<char> {
    match t {
        BlockingType::MissingPremise => "missing premise"@,
        BlockingType::Defeated => "defeated"@,
        BlockingType::Contradicted => "contradicted"@,
    }
}

impl BlockingType {
    /// The display text: `missing premise`, `defeated` or `contradicted`.
    pub fn to_text(&self) -> (r: String)
        ensures
            r@ == blocking_text(*self),
    {
        match self {
            BlockingType::MissingPremise => String::from_str("missing premise"),
            BlockingType::Defeated => String::from_str("defeated"),
            BlockingType::Contradicted => String::from_str("contradicted"),
        }
    }
}

/// A condition that blocks a rule.
#[derive(Debug, Clone)]
pub struct BlockingCondition {
    /// The kind of condition.
    pub blocking_type: BlockingType,
    /// The label of the blocked rule (empty when no rule is concerned).
    pub rule_label: String,
    /// The body literals that are not proven (for missing premises).
    pub missing_literals: Vec<Literal>,
    /// The label of the blocking rule, when there is one.
    pub blocking_rule: Option<String>,
    /// A sentence saying what blocks.
    pub explanation: String,
}

/// The display texts of a sequence of literals.
pub open spec fn lit_texts(lits: Seq<Literal>) -> Seq<Seq<char>> {
    lits.map_values(|l: Literal| l.spec_text())
}

/// The explanation of missing premises.
pub open spec fn missing_text(lits: Seq<Literal>) -> Seq<char> {
    "Missing premises: "@ + joined(lit_texts(lits), ", "@)
}

impl BlockingCondition {
    /// Missing premises of the rule labelled `rule_label`.
    pub fn missing_premise(rule_label: &str, missing: Vec<Literal>) -> (r: Self)
        ensures
            r.blocking_type == BlockingType::MissingPremise,
            r.rule_label@ == rule_label@,
            r.missing_literals == missing,
            r.blocking_rule.is_none(),
            r.explanation@ == missing_text(missing@),
    {
        let mut texts: Vec<String> = Vec::new();
        let mut i: usize = 0;
        while i < missing.len()
            invariant
                0 <= i <= missing@.len(),
                texts@.len() == i,
                forall|k: int| 0 <= k < i ==> (#[trigger] texts@[k])@ == missing@[k].spec_text(),
            decreases missing@.len() - i,
        {
            texts.push(missing[i].to_text());
            i = i + 1;
        }
        proof {
            assert(crate::text::string_views(texts@) =~= lit_texts(missing@));
        }
        let mut explanation = String::from_str("Missing premises: ");
        let inner = join(&texts, ", ");
        explanation.append(inner.as_str());
        BlockingCondition {
            blocking_type: BlockingType::MissingPremise,
            rule_label: rule_label.to_owned(),
            missing_literals: missing,
            blocking_rule: None,
            explanation,
        }
    }

    /// The rule labelled `rule_label` is defeated by the rule labelled `by_rule`.
    pub fn defeated(rule_label: &str, by_rule: &str) -> (r: Self)
        ensures
            r.blocking_type == BlockingType::Defeated,
            r.rule_label@ == rule_label@,
            r.missing_literals@.len() == 0,
            r.blocking_rule.is_some() && r.blocking_rule.unwrap()@ == by_rule@,
            r.explanation@ == "Defeated by rule "@ + by_rule@,
    {
        let mut explanation = String::from_str("Defeated by rule ");
        explanation.append(by_rule);
        BlockingCondition {
            blocking_type: BlockingType::Defeated,
            rule_label: rule_label.to_owned(),
            missing_literals: Vec::new(),
            blocking_rule: Some(by_rule.to_owned()),
            explanation,
        }
    }

    /// The rule labelled `rule_label` is contradicted by the rule labelled `by_rule`.
    pub fn contradicted(rule_label: &str, by_rule: &str) -> (r: Self)
        ensures
            r.blocking_type == BlockingType::Contradicted,
            r.rule_label@ == rule_label@,
            r.missing_literals@.len() == 0,
            r.blocking_rule.is_some() && r.blocking_rule.unwrap()@ == by_rule@,
            r.explanation@ == "Contradicted by "@ + by_rule@,
    {
        let mut explanation = String::from_str("Contradicted by ");
        explanation.append(by_rule);
        BlockingCondition {
            blocking_type: BlockingType::Contradicted,
            rule_label: rule_label.to_owned(),
            missing_literals: Vec::new(),
            blocking_rule: Some(by_rule.to_owned()),
            explanation,
        }
    }
}

/// The result of a why-not query.
#[derive(Debug, Clone)]
pub struct WhyNotResult {
    /// The queried literal.
    pub literal: Literal,
    /// The label of the rule that would derive the literal.
    pub would_derive: Option<String>,
    /// What blocks the derivation.
    pub blocked_by: Vec<BlockingCondition>,
}

/// The lines that list the blocking conditions.
pub open spec fn blocker_lines(bs: Seq<BlockingCondition>) -> Seq<char>
    decreases bs.len(),
{
    if bs.len() == 0 {
        Seq::empty()
    } else {
        let b = bs.last();
        blocker_lines(bs.drop_last()) + "    - Rule "@ + b.rule_label@ + ": "@ + blocking_text(b.blocking_type) + "\n"@
            + "      ("@ + b.explanation@ + ")\n"@
    }
}

impl WhyNotResult {
    /// A result with nothing found yet.
    pub fn new(literal: Literal) -> (r: Self)
        ensures
            r.literal == literal,
            r.would_derive.is_none(),
            r.blocked_by@.len() == 0,
    {
        WhyNotResult { literal, would_derive: None, blocked_by: Vec::new() }
    }

    /// The literal is provable: a deriving rule is known and nothing blocks it.
    pub open spec fn spec_is_provable(&self) -> bool {
        self.would_derive.is_some() && self.blocked_by@.len() == 0
    }

    /// Whether the literal is provable (see [`WhyNotResult::spec_is_provable`]).
    pub fn is_provable(&self) -> (r: bool)
        ensures
            r == self.spec_is_provable(),
    {
        self.would_derive.is_some() && self.blocked_by.len() == 0
    }

    /// Whether anything blocks the derivation.
    pub fn has_blockers(&self) -> (r: bool)
        ensures
            r == (self.blocked_by@.len() > 0),
    {
        self.blocked_by.len() > 0
    }

    /// The missing literals of all missing-premise conditions, in order.
    pub fn get_missing_premises(&self) -> (r: Vec<&Literal>)
        ensures
            r@.map_values(|l: &Literal| *l) == missing_of(self.blocked_by@),
    {
        let mut out: Vec<&Literal> = Vec::new();
        let mut i: usize = 0;
        while i < self.blocked_by.len()
            invariant
                0 <= i <= self.blocked_by@.len(),
                out@.map_values(|l: &Literal| *l) == missing_of(self.blocked_by@.take(i as int)),
            decreases self.blocked_by@.len() - i,
        {
            let b = &self.blocked_by[i];
            proof {
                assert(self.blocked_by@.take(i + 1).drop_last() =~= self.blocked_by@.take(i as int));
            }
            if b.blocking_type == BlockingType::MissingPremise {
                let mut j: usize = 0;
                let ghost base = out@.map_values(|l: &Literal| *l);
                while j < b.missing_literals.len()
                    invariant
                        0 <= j <= b.missing_literals@.len(),
                        out@.map_values(|l: &Literal| *l) == base + b.missing_literals@.take(j as int),
                    decreases b.missing_literals@.len() - j,
                {
                    let ghost before = out@;
                    out.push(&b.missing_literals[j]);
                    proof {
                        assert(out@ == before.push(&b.missing_literals@[j as int]));
                        assert(b.missing_literals@.take(j + 1) =~= b.missing_literals@.take(j as int).push(b.missing_literals@[j as int]));
                        assert(out@.map_values(|l: &Literal| *l) =~= before.map_values(|l: &Literal| *l).push(b.missing_literals@[j as int]));
                        assert(out@.map_values(|l: &Literal| *l) =~= base + b.missing_literals@.take(j + 1));
                    }
                    j = j + 1;
                }
                proof {
                    assert(b.missing_literals@.take(b.missing_literals@.len() as int) =~= b.missing_literals@);
                }
            } else {
                proof {
                    assert(missing_of(self.blocked_by@.take(i + 1)) =~= missing_of(self.blocked_by@.take(i as int)));
                }
            }
            i = i + 1;
        }
        proof {
            assert(self.blocked_by@.take(self.blocked_by@.len() as int) =~= self.blocked_by@);
        }
        out
    }

    /// The display text (see [`why_not_text`]).
    pub fn to_text(&self) -> (r: String)
        ensures
            r@ == why_not_text(*self),
    {
        let lit = self.literal.to_text();
        let mut out = String::new();
        out.append(lit.as_str());
        if self.is_provable() {
            out.append(" is provable");
            match &self.would_derive {
                Some(rule) => {
                    out.append(" (derived by rule: ");
                    out.append(rule.as_str());
                    out.append(")");
                },
                None => {},
            }
            return out;
        }
        if self.blocked_by.len() == 0 {
            out.append(" is not provable: no rules can derive it");
            return out;
        }
        out.append(" is not provable:\n");
        match &self.would_derive {
            Some(rule) => {
                out.append("  Would be derived by rule: ");
                out.append(rule.as_str());
                out.append("\n");
            },
            None => {},
        }
        out.append("  Blocked by:\n");
        let ghost head = out@;
        let mut i: usize = 0;
        while i < self.blocked_by.len()
            invariant
                0 <= i <= self.blocked_by@.len(),
                out@ == head + blocker_lines(self.blocked_by@.take(i as int)),
            decreases self.blocked_by@.len() - i,
        {
            let b = &self.blocked_by[i];
            proof {
                assert(self.blocked_by@.take(i + 1).drop_last() =~= self.blocked_by@.take(i as int));
                assert(self.blocked_by@.take(i + 1).last() == *b);
            }
            out.append("    - Rule ");
            out.append(b.rule_label.as_str());
            out.append(": ");
            let t = b.blocking_type.to_text();
            out.append(t.as_str());
            out.append("\n");
            out.append("      (");
            out.append(b.explanation.as_str());
            out.append(")\n");
            proof {
                assert(out@ =~= head + blocker_lines(self.blocked_by@.take(i + 1)));
            }
            i = i + 1;
        }
        proof {
            assert(self.blocked_by@.take(self.blocked_by@.len() as int) =~= self.blocked_by@);
        }
        out
    }
}

/// The missing literals of the missing-premise conditions, in order.
pub open spec fn missing_of(bs: Seq<BlockingCondition>) -> Seq<Literal>
    decreases bs.len(),
{
    if bs.len() == 0 {
        Seq::empty()
    } else {
        missing_of(bs.drop_last()) + (if bs.last().blocking_type == BlockingType::MissingPremise {
            bs.last().missing_literals@
        } else {
            Seq::empty()
        })
    }
}

/// The display text of a why-not result: `L is provable (derived by rule: R)`
/// when provable; `L is not provable: no rules can derive it` when nothing
/// blocks; else `L is not provable:`, the deriving rule, and one entry per
/// blocking condition with its kind and explanation.
pub open spec fn why_not_text(w: WhyNotResult) -> Seq<char> {
    let lit = w.literal.spec_text();
    if w.spec_is_provable() {
        lit + " is provable"@ + " (derived by rule: "@ + w.would_derive.unwrap()@ + ")"@
    } else if w.blocked_by@.len() == 0 {
        lit + " is not provable: no rules can derive it"@
    } else {
        lit + " is not provable:\n"@ + (match w.would_derive {
            Some(r) => "  Would be derived by rule: "@ + r@ + "\n"@,
            None => Seq::empty(),
        }) + "  Blocked by:\n"@ + blocker_lines(w.blocked_by@)
    }
}

/// Some positive conclusion's literal equals `l` (bounds are not compared).
pub open spec fn proven_in(cs: Seq<Conclusion>, l: Literal) -> bool {
    exists|i: int| 0 <= i < cs.len() && (#[trigger] cs[i]).conclusion_type.spec_is_positive() && cs[i].literal.same_as(&l)
}

/// `a` equals the complement of `l`: equal but for the negation.
pub open spec fn is_complement(a: Literal, l: Literal) -> bool {
    &&& a.spec_name() == l.spec_name()
    &&& a.negation != l.negation
    &&& a.mode@ == l.mode@
    &&& a.spec_preds() == l.spec_preds()
}

/// The complement of `l`.
pub open spec fn comp_lit(l: Literal) -> Literal {
    Literal {
        name: l.name,
        negation: !l.negation,
        mode: l.mode,
        temporal: l.temporal,
        temporal_expr: l.temporal_expr,
        predicates: l.predicates,
    }
}

/// Every body literal is proven.
pub open spec fn body_proven(cs: Seq<Conclusion>, body: Seq<Literal>) -> bool {
    forall|i: int| 0 <= i < body.len() ==> proven_in(cs, #[trigger] body[i])
}

/// The positions among the first `n` body literals of those not proven.
pub open spec fn missing_idx(cs: Seq<Conclusion>, body: Seq<Literal>, n: nat) -> Seq<int>
    decreases n,
{
    if n == 0 {
        Seq::empty()
    } else {
        missing_idx(cs, body, (n - 1) as nat) + (if !proven_in(cs, body[n - 1]) {
            seq![n - 1]
        } else {
            Seq::empty()
        })
    }
}

/// A blocking condition, by positions: its kind, the blocked rule (`-1` for
/// none), the missing body positions, and the blocking rule.
pub struct Blocker {
    /// The kind.
    pub kind: BlockingType,
    /// The blocked rule's position, or `-1`.
    pub rule: int,
    /// The positions of the missing body literals.
    pub missing: Seq<int>,
    /// The blocking rule's position.
    pub by: Option<int>,
}

/// The rule labelled like `a` beats the rule labelled like `b`.
pub open spec fn sup_labels(sups: Seq<(Seq<char>, Seq<char>)>, a: Rule, b: Rule) -> bool {
    sups.contains((a.label@, b.label@))
}

/// The conditions raised against rule `r` by the first `n` rules: each rule
/// for the complement whose body is proven; a defeater unless `r` beats it,
/// any other rule unless `r` beats it and it does not beat `r`.
pub open spec fn attack_entries(
    rules: Seq<Rule>,
    sups: Seq<(Seq<char>, Seq<char>)>,
    cs: Seq<Conclusion>,
    lit: Literal,
    r: int,
    n: nat,
) -> Seq<Blocker>
    decreases n,
{
    if n == 0 {
        Seq::empty()
    } else {
        let a = n - 1;
        let prev = attack_entries(rules, sups, cs, lit, r, (n - 1) as nat);
        let att = rules[a];
        if is_complement(att.head@[0], lit) && body_proven(cs, att.body@) {
            if att.rule_type == RuleType::Defeater {
                if !sup_labels(sups, rules[r], att) {
                    prev.push(Blocker { kind: BlockingType::Defeated, rule: r, missing: Seq::empty(), by: Some(a) })
                } else {
                    prev
                }
            } else {
                if sup_labels(sups, rules[r], att) && !sup_labels(sups, att, rules[r]) {
                    prev
                } else {
                    prev.push(Blocker { kind: BlockingType::Contradicted, rule: r, missing: Seq::empty(), by: Some(a) })
                }
            }
        } else {
            prev
        }
    }
}

/// Rule `r` could derive `lit`: its head is `lit` and it is not a defeater.
pub open spec fn is_candidate(rule: Rule, lit: Literal) -> bool {
    rule.head@[0].same_as(&lit) && rule.rule_type != RuleType::Defeater
}

/// The conditions reported for rule `r`: its missing premises; else the
/// attacks on it; else ambiguity.
pub open spec fn rule_entries(
    rules: Seq<Rule>,
    sups: Seq<(Seq<char>, Seq<char>)>,
    cs: Seq<Conclusion>,
    lit: Literal,
    r: int,
) -> Seq<Blocker> {
    if is_candidate(rules[r], lit) {
        let miss = missing_idx(cs, rules[r].body@, rules[r].body@.len());
        if miss.len() > 0 {
            seq![Blocker { kind: BlockingType::MissingPremise, rule: r, missing: miss, by: None }]
        } else {
            let att = attack_entries(rules, sups, cs, lit, r, rules.len());
            if att.len() > 0 {
                att
            } else {
                seq![Blocker { kind: BlockingType::Contradicted, rule: r, missing: Seq::empty(), by: None }]
            }
        }
    } else {
        Seq::empty()
    }
}

/// The conditions reported for the first `n` rules, in order.
pub open spec fn entries_upto(
    rules: Seq<Rule>,
    sups: Seq<(Seq<char>, Seq<char>)>,
    cs: Seq<Conclusion>,
    lit: Literal,
    n: nat,
) -> Seq<Blocker>
    decreases n,
{
    if n == 0 {
        Seq::empty()
    } else {
        entries_upto(rules, sups, cs, lit, (n - 1) as nat) + rule_entries(rules, sups, cs, lit, n - 1)
    }
}

/// Some rule could derive `lit`.
pub open spec fn has_candidate(rules: Seq<Rule>, lit: Literal) -> bool {
    exists|r: int| 0 <= r < rules.len() && is_candidate(#[trigger] rules[r], lit)
}

/// All conditions reported: those of the rules, or, when no rule could
/// derive the literal and its complement is proven, that contradiction.
pub open spec fn all_entries(
    rules: Seq<Rule>,
    sups: Seq<(Seq<char>, Seq<char>)>,
    cs: Seq<Conclusion>,
    lit: Literal,
) -> Seq<Blocker> {
    entries_upto(rules, sups, cs, lit, rules.len()) + (if !has_candidate(rules, lit) && proven_in(cs, comp_lit(lit)) {
        seq![Blocker { kind: BlockingType::Contradicted, rule: -1, missing: Seq::empty(), by: None }]
    } else {
        Seq::empty()
    })
}

/// The explanation of a condition.
pub open spec fn blocker_text(rules: Seq<Rule>, lit: Literal, b: BlockingCondition, e: Blocker) -> Seq<char> {
    match e.kind {
        BlockingType::MissingPremise => missing_text(b.missing_literals@),
        BlockingType::Defeated => "Defeated by rule "@ + rules[e.by.unwrap()].label@,
        BlockingType::Contradicted => match e.by {
            Some(a) => "Contradicted by "@ + rules[a].label@,
            None => if e.rule >= 0 {
                "Body satisfied but conclusion blocked by ambiguity"@
            } else {
                "Complement "@ + comp_lit(lit).spec_text() + " is proven"@
            },
        },
    }
}

/// `b` is the condition `e` made concrete.
pub open spec fn renders_blocker(rules: Seq<Rule>, lit: Literal, b: BlockingCondition, e: Blocker) -> bool {
    &&& b.blocking_type == e.kind
    &&& (e.rule >= 0 ==> b.rule_label@ == rules[e.rule].label@)
    &&& (e.rule < 0 ==> b.rule_label@ == Seq::<char>::empty())
    &&& b.missing_literals@.len() == e.missing.len()
    &&& forall|j: int| 0 <= j < e.missing.len() ==> #[trigger] same_lit(b.missing_literals@[j], rules[e.rule].body@[e.missing[j]])
    &&& match e.by {
        Some(a) => b.blocking_rule is Some && b.blocking_rule.unwrap()@ == rules[a].label@,
        None => b.blocking_rule is None,
    }
    &&& b.explanation@ == blocker_text(rules, lit, b, e)
}

/// The why-not result for `lit` given the rules, superiority pairs and the
/// conclusions `cs`.
pub open spec fn why_not_outcome(
    rules: Seq<Rule>,
    sups: Seq<(Seq<char>, Seq<char>)>,
    cs: Seq<Conclusion>,
    lit: Literal,
    res: WhyNotResult,
) -> bool {
    &&& same_lit(res.literal, lit)
    &&& proven_in(cs, lit) ==> {
        &&& res.blocked_by@.len() == 0
        &&& exists|i: int|
            0 <= i < cs.len() && (#[trigger] cs[i]).conclusion_type.spec_is_positive() && cs[i].literal.same_as(&lit)
                && (forall|j: int| 0 <= j < i ==> !((#[trigger] cs[j]).conclusion_type.spec_is_positive() && cs[j].literal.same_as(&lit)))
                && res.would_derive == cs[i].rule_label
    }
    &&& !proven_in(cs, lit) ==> {
        let es = all_entries(rules, sups, cs, lit);
        &&& (has_candidate(rules, lit) ==> exists|r: int|
            0 <= r < rules.len() && is_candidate(#[trigger] rules[r], lit) && (forall|q: int| 0 <= q < r ==> !is_candidate(#[trigger] rules[q], lit))
                && res.would_derive == Some(rules[r].label))
        &&& (!has_candidate(rules, lit) ==> res.would_derive.is_none())
        &&& res.blocked_by@.len() == es.len()
        &&& forall|k: int| 0 <= k < es.len() ==> renders_blocker(rules, lit, #[trigger] res.blocked_by@[k], es[k])
    }
}

/// Whether some positive conclusion's literal equals `l`.
pub fn is_proven(cs: &Vec<Conclusion>, l: &Literal) -> (r: bool)
    ensures
        r == proven_in(cs@, *l),
{
    let mut i: usize = 0;
    while i < cs.len()
        invariant
            0 <= i <= cs@.len(),
            forall|j: int| 0 <= j < i ==> !((#[trigger] cs@[j]).conclusion_type.spec_is_positive() && cs@[j].literal.same_as(l)),
        decreases cs@.len() - i,
    {
        if cs[i].conclusion_type.is_positive() && cs[i].literal == *l {
            return true;
        }
        i = i + 1;
    }
    false
}

/// Whether `a` is the complement of `l`.
fn literal_is_complement(a: &Literal, l: &Literal) -> (r: bool)
    ensures
        r == is_complement(*a, *l),
{
    crate::text::str_eq(a.name(), l.name()) && a.negation != l.negation && a.mode.same(&l.mode)
        && crate::literal::strings_eq(&a.predicates, &l.predicates)
}

/// Whether every literal of `body` is proven.
fn body_all_proven(cs: &Vec<Conclusion>, body: &Vec<Literal>) -> (r: bool)
    ensures
        r == body_proven(cs@, body@),
{
    let mut i: usize = 0;
    while i < body.len()
        invariant
            0 <= i <= body@.len(),
            forall|j: int| 0 <= j < i ==> proven_in(cs@, #[trigger] body@[j]),
        decreases body@.len() - i,
    {
        if !is_proven(cs, &body[i]) {
            return false;
        }
        i = i + 1;
    }
    true
}

/// The body literals that are not proven, in order.
fn missing_premises(cs: &Vec<Conclusion>, body: &Vec<Literal>) -> (r: Vec<Literal>)
    ensures
        r@.len() == missing_idx(cs@, body@, body@.len()).len(),
        forall|j: int| 0 <= j < r@.len() ==> #[trigger] same_lit(r@[j], body@[missing_idx(cs@, body@, body@.len())[j]]),
        forall|j: int| 0 <= j < r@.len() ==> 0 <= #[trigger] missing_idx(cs@, body@, body@.len())[j] < body@.len(),
{
    let mut out: Vec<Literal> = Vec::new();
    let mut i: usize = 0;
    while i < body.len()
        invariant
            0 <= i <= body@.len(),
            out@.len() == missing_idx(cs@, body@, i as nat).len(),
            forall|j: int| 0 <= j < out@.len() ==> #[trigger] same_lit(out@[j], body@[missing_idx(cs@, body@, i as nat)[j]]),
            forall|j: int| 0 <= j < out@.len() ==> 0 <= #[trigger] missing_idx(cs@, body@, i as nat)[j] < i,
        decreases body@.len() - i,
    {
        let ghost prev = missing_idx(cs@, body@, i as nat);
        let ghost next = missing_idx(cs@, body@, (i + 1) as nat);
        if !is_proven(cs, &body[i]) {
            let ghost before = out@;
            out.push(body[i].duplicate());
            proof {
                assert(next == prev.push(i as int));
                assert forall|j: int| 0 <= j < out@.len() implies #[trigger] same_lit(out@[j], body@[next[j]]) by {
                    if j < before.len() {
                        assert(out@[j] == before[j]);
                        assert(next[j] == prev[j]);
                    }
                }
                assert forall|j: int| 0 <= j < out@.len() implies 0 <= #[trigger] next[j] < i + 1 by {
                    if j < before.len() {
                        assert(next[j] == prev[j]);
                    }
                }
            }
        } else {
            proof {
                assert(next =~= prev);
            }
        }
        i = i + 1;
    }
    out
}

/// The conditions raised by the rules for the complement of `lit` against rule `r`.
fn attack_blockers(theory: &Theory, cs: &Vec<Conclusion>, lit: &Literal, r: usize) -> (out: Vec<BlockingCondition>)
    requires
        crate::index::rules_have_heads(theory.spec_rules()),
        r < theory.spec_rules().len(),
    ensures
        out@.len() == attack_entries(theory.spec_rules(), theory.spec_sups(), cs@, *lit, r as int, theory.spec_rules().len()).len(),
        forall|k: int| 0 <= k < out@.len() ==> renders_blocker(
            theory.spec_rules(),
            *lit,
            #[trigger] out@[k],
            attack_entries(theory.spec_rules(), theory.spec_sups(), cs@, *lit, r as int, theory.spec_rules().len())[k],
        ),
{
    let rules = theory.rules();
    let ghost sups = theory.spec_sups();
    let mut out: Vec<BlockingCondition> = Vec::new();
    let mut a: usize = 0;
    while a < rules.len()
        invariant
            0 <= a <= rules@.len(),
            rules@ == theory.spec_rules(),
            sups == theory.spec_sups(),
            crate::index::rules_have_heads(rules@),
            r < rules@.len(),
            out@.len() == attack_entries(rules@, sups, cs@, *lit, r as int, a as nat).len(),
            forall|k: int| 0 <= k < out@.len() ==> renders_blocker(
                rules@,
                *lit,
                #[trigger] out@[k],
                attack_entries(rules@, sups, cs@, *lit, r as int, a as nat)[k],
            ),
            forall|k: int| 0 <= k < attack_entries(rules@, sups, cs@, *lit, r as int, a as nat).len() ==> {
                let e = #[trigger] attack_entries(rules@, sups, cs@, *lit, r as int, a as nat)[k];
                &&& e.rule == r
                &&& e.missing.len() == 0
                &&& e.by is Some
                &&& 0 <= e.by.unwrap() < a
                &&& e.kind != BlockingType::MissingPremise
            },
        decreases rules@.len() - a,
    {
        let ghost prev = attack_entries(rules@, sups, cs@, *lit, r as int, a as nat);
        let ghost next = attack_entries(rules@, sups, cs@, *lit, r as int, (a + 1) as nat);
        let att = &rules[a];
        assert(att.head@.len() > 0);
        let ghost before = out@;
        if literal_is_complement(att.head_literal(), lit) && body_all_proven(cs, &att.body) {
            if att.rule_type == RuleType::Defeater {
                if !theory.is_superior(rules[r].label.as_str(), att.label.as_str()) {
                    out.push(BlockingCondition::defeated(rules[r].label.as_str(), att.label.as_str()));
                }
            } else {
                let attacker_superior = theory.is_superior(att.label.as_str(), rules[r].label.as_str());
                let rule_superior = theory.is_superior(rules[r].label.as_str(), att.label.as_str());
                if !(rule_superior && !attacker_superior) {
                    out.push(BlockingCondition::contradicted(rules[r].label.as_str(), att.label.as_str()));
                }
            }
        }
        proof {
            assert forall|k: int| 0 <= k < out@.len() implies renders_blocker(rules@, *lit, #[trigger] out@[k], next[k]) by {
                if k < before.len() {
                    assert(out@[k] == before[k]);
                    assert(next[k] == prev[k]);
                }
            }
            assert forall|k: int| 0 <= k < next.len() implies {
                let e = #[trigger] next[k];
                &&& e.rule == r
                &&& e.missing.len() == 0
                &&& e.by is Some
                &&& 0 <= e.by.unwrap() < a + 1
                &&& e.kind != BlockingType::MissingPremise
            } by {
                if k < prev.len() {
                    assert(next[k] == prev[k]);
                }
            }
        }
        a = a + 1;
    }
    out
}

/// Explain why `literal` is not provable, given the conclusions `cs` of
/// reasoning over `theory`.
pub fn explain_why_not(theory: &Theory, cs: &Vec<Conclusion>, literal: &Literal) -> (res: WhyNotResult)
    requires
        crate::index::rules_have_heads(theory.spec_rules()),
    ensures
        why_not_outcome(theory.spec_rules(), theory.spec_sups(), cs@, *literal, res),
{
    let mut i: usize = 0;
    while i < cs.len()
        invariant
            0 <= i <= cs@.len(),
            forall|j: int| 0 <= j < i ==> !((#[trigger] cs@[j]).conclusion_type.spec_is_positive() && cs@[j].literal.same_as(literal)),
        decreases cs@.len() - i,
    {
        if cs[i].conclusion_type.is_positive() && cs[i].literal == *literal {
            let mut result = WhyNotResult::new(literal.duplicate());
            result.would_derive = crate::mode::clone_opt_string(&cs[i].rule_label);
            return result;
        }
        i = i + 1;
    }
    let rules = theory.rules();
    let ghost sups = theory.spec_sups();
    let mut result = WhyNotResult::new(literal.duplicate());
    let mut found_rule = false;
    let mut r: usize = 0;
    while r < rules.len()
        invariant
            0 <= r <= rules@.len(),
            rules@ == theory.spec_rules(),
            sups == theory.spec_sups(),
            crate::index::rules_have_heads(rules@),
            !proven_in(cs@, *literal),
            same_lit(result.literal, *literal),
            found_rule == exists|q: int| 0 <= q < r && is_candidate(#[trigger] rules@[q], *literal),
            found_rule ==> exists|q: int|
                0 <= q < r && is_candidate(#[trigger] rules@[q], *literal) && (forall|p: int| 0 <= p < q ==> !is_candidate(#[trigger] rules@[p], *literal))
                    && result.would_derive == Some(rules@[q].label),
            !found_rule ==> result.would_derive.is_none(),
            result.blocked_by@.len() == entries_upto(rules@, sups, cs@, *literal, r as nat).len(),
            forall|k: int| 0 <= k < result.blocked_by@.len() ==> renders_blocker(
                rules@,
                *literal,
                #[trigger] result.blocked_by@[k],
                entries_upto(rules@, sups, cs@, *literal, r as nat)[k],
            ),
        decreases rules@.len() - r,
    {
        let rule = &rules[r];
        assert(rule.head@.len() > 0);
        let ghost prev = entries_upto(rules@, sups, cs@, *literal, r as nat);
        let ghost next = entries_upto(rules@, sups, cs@, *literal, (r + 1) as nat);
        let ghost re = rule_entries(rules@, sups, cs@, *literal, r as int);
        let ghost before = result.blocked_by@;
        proof {
            assert(next == prev + re);
        }
        if *rule.head_literal() == *literal && rule.rule_type != RuleType::Defeater {
            proof {
                assert(is_candidate(rules@[r as int], *literal));
            }
            if !found_rule {
                result.would_derive = Some(rule.label.clone());
                proof {
                    assert(forall|p: int| 0 <= p < r ==> !is_candidate(#[trigger] rules@[p], *literal));
                }
            }
            found_rule = true;
            let missing = missing_premises(cs, &rule.body);
            let ghost mi = missing_idx(cs@, rule.body@, rule.body@.len());
            if missing.len() > 0 {
                let b = BlockingCondition::missing_premise(rule.label.as_str(), missing);
                proof {
                    let e = Blocker { kind: BlockingType::MissingPremise, rule: r as int, missing: mi, by: None };
                    assert(re == seq![e]);
                    assert(renders_blocker(rules@, *literal, b, e));
                }
                result.blocked_by.push(b);
            } else {
                let mut attacks = attack_blockers(theory, cs, literal, r);
                let ghost ae = attack_entries(rules@, sups, cs@, *literal, r as int, rules@.len());
                if attacks.len() > 0 {
                    proof {
                        assert(re == ae);
                    }
                    let ghost att = attacks@;
                    result.blocked_by.append(&mut attacks);
                    proof {
                        assert(result.blocked_by@ == before + att);
                    }
                } else {
                    let b = BlockingCondition {
                        blocking_type: BlockingType::Contradicted,
                        rule_label: rule.label.clone(),
                        missing_literals: Vec::new(),
                        blocking_rule: None,
                        explanation: String::from_str("Body satisfied but conclusion blocked by ambiguity"),
                    };
                    proof {
                        let e = Blocker { kind: BlockingType::Contradicted, rule: r as int, missing: Seq::empty(), by: None };
                        assert(re == seq![e]);
                        assert(renders_blocker(rules@, *literal, b, e));
                    }
                    result.blocked_by.push(b);
                }
            }
        } else {
            proof {
                assert(!is_candidate(rules@[r as int], *literal));
                assert(re == Seq::<Blocker>::empty());
                assert(next =~= prev);
            }
        }
        proof {
            assert(result.blocked_by@.len() == next.len());
            assert forall|k: int| 0 <= k < result.blocked_by@.len() implies renders_blocker(
                rules@,
                *literal,
                #[trigger] result.blocked_by@[k],
                next[k],
            ) by {
                if k < before.len() {
                    assert(result.blocked_by@[k] == before[k]);
                    assert(next[k] == prev[k]);
                } else {
                    assert(next[k] == re[k - before.len()]);
                }
            }
        }
        r = r + 1;
    }
    proof {
        assert(found_rule == has_candidate(rules@, *literal));
    }
    let ghost before_end = result.blocked_by@;
    if !found_rule {
        let comp = literal.complement();
        proof {
            assert(forall|c: Literal| #[trigger] c.same_as(&comp) == c.same_as(&comp_lit(*literal)));
            assert(comp.spec_text() == comp_lit(*literal).spec_text());
        }
        if is_proven(cs, &comp) {
            let mut explanation = String::from_str("Complement ");
            let t = comp.to_text();
            explanation.append(t.as_str());
            explanation.append(" is proven");
            let b = BlockingCondition {
                blocking_type: BlockingType::Contradicted,
                rule_label: String::new(),
                missing_literals: Vec::new(),
                blocking_rule: None,
                explanation,
            };
            proof {
                let e = Blocker { kind: BlockingType::Contradicted, rule: -1, missing: Seq::empty(), by: None };
                assert(renders_blocker(rules@, *literal, b, e));
            }
            result.blocked_by.push(b);
        }
    }
    proof {
        let es = all_entries(rules@, sups, cs@, *literal);
        assert forall|k: int| 0 <= k < es.len() implies renders_blocker(rules@, *literal, #[trigger] result.blocked_by@[k], es[k]) by {
            if k < before_end.len() {
                assert(result.blocked_by@[k] == before_end[k]);
            }
        }
    }
    result
}

/// Explain why `literal` is not provable in `theory` (reasoned over with the
/// default options).
pub fn why_not(theory: &Theory, literal: &Literal) -> (r: Result<WhyNotResult, SpindleError>)
    requires
        reasonable(*theory),
    ensures
        r is Ok <==> !prepare_fails(*theory, PrepareOptions::spec_default()),
        r matches Ok(res) ==> exists|cs: Seq<Conclusion>|
            reasoned_with(*theory, PrepareOptions::spec_default(), cs) && why_not_outcome(
                theory.spec_rules(),
                theory.spec_sups(),
                cs,
                *literal,
                res,
            ),
{
    match reason(theory) {
        Ok(cs) => Ok(explain_why_not(theory, &cs, literal)),
        Err(e) => Err(e),
    }
}

} // verus!
