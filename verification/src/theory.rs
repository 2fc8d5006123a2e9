//! Theories: rules in order, and a superiority relation between rule labels.

use vstd::prelude::*;
use crate::intern::{has_tilde, strip_tilde};
use crate::literal::Literal;
use crate::rule::{Rule, RuleType, same_rule};
use crate::text::{push_decimal, str_eq};

verus! {

/// A superiority pair: the rule labelled `superior` beats the rule
/// labelled `inferior`.
#[derive(Debug)]
pub struct Superiority {
    /// The label of the stronger rule.
    pub superior: String,
    /// The label of the weaker rule.
    pub inferior: String,
}

impl Superiority {
    /// A pair by its labels.
    pub fn new(superior: &str, inferior: &str) -> (r: Self)
        ensures
            r.superior@ == superior@,
            r.inferior@ == inferior@,
    {
        Superiority { superior: superior.to_owned(), inferior: inferior.to_owned() }
    }
}

impl Clone for Superiority {
    fn clone(&self) -> (r: Self)
        ensures
            r.superior@ == self.superior@,
            r.inferior@ == self.inferior@,
    {
        Superiority { superior: self.superior.clone(), inferior: self.inferior.clone() }
    }
}

/// A literal written as text: a leading `~` negates it.
pub fn parse_literal(s: &str) -> (r: Literal)
    ensures
        r.spec_name() == strip_tilde(s@),
        r.negation == has_tilde(s@),
        r.mode@ == (None::<Seq<char>>, false),
        r.temporal == crate::temporal::Temporal::spec_empty(),
        r.temporal_expr.is_none(),
        r.spec_preds() == Seq::<Seq<char>>::empty(),
{
    let n = s.unicode_len();
    if n > 0 && s.get_char(0) == '~' {
        let rest = s.substring_char(1, n);
        proof {
            assert(rest@ =~= s@.drop_first());
        }
        Literal::negated(rest)
    } else {
        Literal::simple(s)
    }
}

/// The labels of a sequence of rules hold `l`.
pub open spec fn has_label(rules: Seq<Rule>, l: Seq<char>) -> bool {
    exists|i: int| 0 <= i < rules.len() && (#[trigger] rules[i]).label@ == l
}

/// The facts among `rules`, in order.
pub open spec fn facts_of(rules: Seq<Rule>) -> Seq<Rule>
    decreases rules.len(),
{
    if rules.len() == 0 {
        Seq::empty()
    } else {
        let before = facts_of(rules.drop_last());
        if rules.last().rule_type == RuleType::Fact {
            before.push(rules.last())
        } else {
            before
        }
    }
}

/// `l` is the literal written as `text`: a leading `~` negates it, the rest
/// is its name; no mode, bounds or arguments.
pub open spec fn lit_from_text(l: Literal, text: Seq<char>) -> bool {
    &&& l.spec_name() == strip_tilde(text)
    &&& l.negation == has_tilde(text)
    &&& l.mode@ == (None::<Seq<char>>, false)
    &&& l.temporal == crate::temporal::Temporal::spec_empty()
    &&& l.spec_preds() == Seq::<Seq<char>>::empty()
}

/// `rule` is the rule of kind `kind` with the body and head written as
/// text, no template label and no bounds.
pub open spec fn rule_from_text(rule: Rule, kind: RuleType, body: Seq<&str>, head: Seq<char>) -> bool {
    &&& rule.rule_type == kind
    &&& rule.body@.len() == body.len()
    &&& forall|i: int| 0 <= i < body.len() ==> lit_from_text(#[trigger] rule.body@[i], body[i]@)
    &&& rule.head@.len() == 1
    &&& lit_from_text(rule.head@[0], head)
    &&& rule.template_label.is_none()
    &&& rule.temporal == crate::temporal::Temporal::spec_empty()
}

/// A defeasible theory: rules in the order they were added, and a
/// superiority relation over rule labels.
#[derive(Debug)]
pub struct Theory {
    rules: Vec<Rule>,
    superiorities: Vec<Superiority>,
}

impl Theory {
    /// The rules, in order.
    pub closed spec fn spec_rules(&self) -> Seq<Rule> {
        self.rules@
    }

    /// The superiority pairs, by their labels' characters.
    pub closed spec fn spec_sups(&self) -> Seq<(Seq<char>, Seq<char>)> {
        self.superiorities@.map_values(|s: Superiority| (s.superior@, s.inferior@))
    }

    /// The rule labelled `a` beats the rule labelled `b`.
    pub open spec fn spec_superior(&self, a: Seq<char>, b: Seq<char>) -> bool {
        self.spec_sups().contains((a, b))
    }

    /// An empty theory.
    pub fn new() -> (r: Self)
        ensures
            r.spec_rules() == Seq::<Rule>::empty(),
            r.spec_sups() == Seq::<(Seq<char>, Seq<char>)>::empty(),
    {
        let r = Theory { rules: Vec::new(), superiorities: Vec::new() };
        proof {
            assert(r.spec_sups() =~= Seq::<(Seq<char>, Seq<char>)>::empty());
        }
        r
    }

    /// The rules, in order.
    pub fn rules(&self) -> (r: &[Rule])
        ensures
            r@ == self.spec_rules(),
    {
        self.rules.as_slice()
    }

    /// The number of rules.
    pub fn rule_count(&self) -> (r: usize)
        ensures
            r == self.spec_rules().len(),
    {
        self.rules.len()
    }

    /// The superiority pairs.
    pub fn superiorities(&self) -> (r: &[Superiority])
        ensures
            r@.map_values(|s: Superiority| (s.superior@, s.inferior@)) == self.spec_sups(),
    {
        self.superiorities.as_slice()
    }

    /// Add a rule at the end.
    pub fn add_rule(&mut self, rule: Rule)
        ensures
            final(self).spec_rules() == old(self).spec_rules().push(rule),
            final(self).spec_sups() == old(self).spec_sups(),
    {
        self.rules.push(rule);
    }

    /// Add a superiority pair: `superior` beats `inferior`.
    pub fn add_superiority(&mut self, superior: &str, inferior: &str)
        ensures
            final(self).spec_rules() == old(self).spec_rules(),
            final(self).spec_sups() == old(self).spec_sups().push((superior@, inferior@)),
    {
        self.superiorities.push(Superiority::new(superior, inferior));
        proof {
            assert(self.spec_sups() =~= old(self).spec_sups().push((superior@, inferior@)));
        }
    }

    /// Whether the rule labelled `superior` beats the rule labelled `inferior`.
    pub fn is_superior(&self, superior: &str, inferior: &str) -> (r: bool)
        ensures
            r == self.spec_superior(superior@, inferior@),
    {
        let mut k: usize = 0;
        while k < self.superiorities.len()
            invariant
                0 <= k <= self.superiorities@.len(),
                self.spec_sups() == self.superiorities@.map_values(|s: Superiority| (s.superior@, s.inferior@)),
                forall|j: int| 0 <= j < k ==> #[trigger] self.spec_sups()[j] != (superior@, inferior@),
            decreases self.superiorities@.len() - k,
        {
            let s = &self.superiorities[k];
            if str_eq(s.superior.as_str(), superior) && str_eq(s.inferior.as_str(), inferior) {
                proof {
                    assert(self.spec_sups()[k as int] == (superior@, inferior@));
                }
                return true;
            }
            k = k + 1;
        }
        false
    }

    /// Whether some rule has label `label`.
    pub fn has_rule(&self, label: &str) -> (r: bool)
        ensures
            r == has_label(self.spec_rules(), label@),
    {
        let mut i: usize = 0;
        while i < self.rules.len()
            invariant
                0 <= i <= self.rules@.len(),
                forall|k: int| 0 <= k < i ==> (#[trigger] self.rules@[k]).label@ != label@,
            decreases self.rules@.len() - i,
        {
            if str_eq(self.rules[i].label.as_str(), label) {
                return true;
            }
            i = i + 1;
        }
        false
    }

    /// The first rule labelled `label`, if any.
    pub fn get_rule(&self, label: &str) -> (r: Option<&Rule>)
        ensures
            match r {
                Some(rule) => exists|i: int|
                    0 <= i < self.spec_rules().len() && self.spec_rules()[i] == *rule && rule.label@ == label@
                        && forall|k: int| 0 <= k < i ==> (#[trigger] self.spec_rules()[k]).label@ != label@,
                None => !has_label(self.spec_rules(), label@),
            },
    {
        let mut i: usize = 0;
        while i < self.rules.len()
            invariant
                0 <= i <= self.rules@.len(),
                forall|k: int| 0 <= k < i ==> (#[trigger] self.rules@[k]).label@ != label@,
            decreases self.rules@.len() - i,
        {
            if str_eq(self.rules[i].label.as_str(), label) {
                proof {
                    assert(self.spec_rules() == self.rules@);
                    assert(0 <= i < self.spec_rules().len() && self.spec_rules()[i as int] == self.rules@[i as int]
                        && forall|k: int| 0 <= k < i ==> (#[trigger] self.spec_rules()[k]).label@ != label@);
                }
                return Some(&self.rules[i]);
            }
            i = i + 1;
        }
        None
    }

    /// The facts, in order.
    pub fn facts(&self) -> (r: Vec<&Rule>)
        ensures
            r@.map_values(|x: &Rule| *x) == facts_of(self.spec_rules()),
            forall|i: int| 0 <= i < r@.len() ==> (#[trigger] r@[i]).rule_type == RuleType::Fact
                && self.spec_rules().contains(*r@[i]),
    {
        let mut out: Vec<&Rule> = Vec::new();
        let mut i: usize = 0;
        while i < self.rules.len()
            invariant
                0 <= i <= self.rules@.len(),
                out@.map_values(|x: &Rule| *x) == facts_of(self.rules@.take(i as int)),
                forall|k: int| 0 <= k < out@.len() ==> (#[trigger] out@[k]).rule_type == RuleType::Fact
                    && self.rules@.contains(*out@[k]),
            decreases self.rules@.len() - i,
        {
            proof {
                assert(self.rules@.take(i + 1).drop_last() =~= self.rules@.take(i as int));
                assert(self.rules@.take(i + 1).last() == self.rules@[i as int]);
            }
            if self.rules[i].rule_type == RuleType::Fact {
                proof {
                    assert(self.rules@[i as int] == self.rules@[i as int]);
                }
                let ghost before = out@;
                out.push(&self.rules[i]);
                proof {
                    assert(out@.map_values(|x: &Rule| *x) =~= before.map_values(|x: &Rule| *x).push(self.rules@[i as int]));
                }
            }
            i = i + 1;
        }
        proof {
            assert(self.rules@.take(self.rules@.len() as int) =~= self.rules@);
        }
        out
    }

    /// A label `prefix` followed by a number that no rule carries yet.
    pub fn fresh_label(&self, prefix: &str) -> (r: String)
        ensures
            !has_label(self.spec_rules(), r@),
    {
        let n = self.rules.len();
        let mut k: usize = 1;
        loop
            invariant
                n == self.rules@.len(),
                1 <= k,
            decreases usize::MAX - k,
        {
            let mut candidate = String::from_str(prefix);
            push_decimal(&mut candidate, k as u64);
            if !self.has_rule(candidate.as_str()) {
                return candidate;
            }
            if k > n || k == usize::MAX {
                break;
            }
            k = k + 1;
        }
        // Every number was taken: use a label longer than every label.
        let mut out = String::from_str(prefix);
        let mut i: usize = 0;
        while i < n
            invariant
                n == self.rules@.len(),
                0 <= i <= n,
                forall|j: int| 0 <= j < i ==> out@.len() >= (#[trigger] self.rules@[j]).label@.len(),
            decreases n - i,
        {
            out.append(self.rules[i].label.as_str());
            i = i + 1;
        }
        proof {
            reveal_strlit("_");
        }
        out.append("_");
        proof {
            assert forall|j: int| 0 <= j < n implies (#[trigger] self.rules@[j]).label@ != out@ by {
                assert(out@.len() > self.rules@[j].label@.len());
            }
        }
        out
    }

    /// Add a fact for the literal written as `literal`; returns its label.
    pub fn add_fact(&mut self, literal: &str) -> (r: String)
        ensures
            !has_label(old(self).spec_rules(), r@),
            final(self).spec_sups() == old(self).spec_sups(),
            final(self).spec_rules().len() == old(self).spec_rules().len() + 1,
            final(self).spec_rules().drop_last() == old(self).spec_rules(),
            ({
                let rule = final(self).spec_rules().last();
                &&& rule.label@ == r@
                &&& rule.rule_type == RuleType::Fact
                &&& rule.body@.len() == 0
                &&& rule.head@.len() == 1
                &&& rule.head@[0].spec_name() == strip_tilde(literal@)
                &&& rule.head@[0].negation == has_tilde(literal@)
                &&& rule.head@[0].mode@ == (None::<Seq<char>>, false)
                &&& rule.head@[0].temporal == crate::temporal::Temporal::spec_empty()
                &&& rule.head@[0].spec_preds() == Seq::<Seq<char>>::empty()
                &&& rule.template_label.is_none()
                &&& rule.temporal == crate::temporal::Temporal::spec_empty()
            }),
    {
        proof {
            reveal_strlit("f");
        }
        let label = self.fresh_label("f");
        let rule = Rule::fact(label.as_str(), parse_literal(literal));
        self.rules.push(rule);
        proof {
            assert(self.spec_rules().drop_last() =~= old(self).spec_rules());
        }
        label
    }

    /// Add a rule of kind `kind` with body and head written as text;
    /// returns its label.
    pub fn add_rule_from_text(&mut self, prefix: &str, kind: RuleType, body: &[&str], head: &str) -> (r: String)
        ensures
            !has_label(old(self).spec_rules(), r@),
            final(self).spec_sups() == old(self).spec_sups(),
            final(self).spec_rules().len() == old(self).spec_rules().len() + 1,
            final(self).spec_rules().drop_last() == old(self).spec_rules(),
            ({
                let rule = final(self).spec_rules().last();
                &&& rule.label@ == r@
                &&& rule.rule_type == kind
                &&& rule.body@.len() == body@.len()
                &&& forall|i: int| 0 <= i < body@.len() ==> {
                    &&& (#[trigger] rule.body@[i]).spec_name() == strip_tilde(body@[i]@)
                    &&& rule.body@[i].negation == has_tilde(body@[i]@)
                    &&& rule.body@[i].mode@ == (None::<Seq<char>>, false)
                    &&& rule.body@[i].temporal == crate::temporal::Temporal::spec_empty()
                    &&& rule.body@[i].spec_preds() == Seq::<Seq<char>>::empty()
                }
                &&& rule.head@.len() == 1
                &&& rule.head@[0].spec_name() == strip_tilde(head@)
                &&& rule.head@[0].negation == has_tilde(head@)
                &&& rule.head@[0].mode@ == (None::<Seq<char>>, false)
                &&& rule.head@[0].temporal == crate::temporal::Temporal::spec_empty()
                &&& rule.head@[0].spec_preds() == Seq::<Seq<char>>::empty()
                &&& rule.template_label.is_none()
                &&& rule.temporal == crate::temporal::Temporal::spec_empty()
            }),
    {
        let label = self.fresh_label(prefix);
        let mut lits: Vec<Literal> = Vec::new();
        let mut i: usize = 0;
        while i < body.len()
            invariant
                0 <= i <= body@.len(),
                lits@.len() == i,
                forall|k: int| 0 <= k < i ==> {
                    &&& (#[trigger] lits@[k]).spec_name() == strip_tilde(body@[k]@)
                    &&& lits@[k].negation == has_tilde(body@[k]@)
                    &&& lits@[k].mode@ == (None::<Seq<char>>, false)
                    &&& lits@[k].temporal == crate::temporal::Temporal::spec_empty()
                    &&& lits@[k].spec_preds() == Seq::<Seq<char>>::empty()
                },
            decreases body@.len() - i,
        {
            lits.push(parse_literal(body[i]));
            i = i + 1;
        }
        let mut h: Vec<Literal> = Vec::new();
        h.push(parse_literal(head));
        let rule = Rule::new(label.as_str(), kind, lits, h);
        self.rules.push(rule);
        proof {
            assert(self.spec_rules().drop_last() =~= old(self).spec_rules());
        }
        label
    }

    /// Add a strict rule written as text; returns its label.
    pub fn add_strict_rule(&mut self, body: &[&str], head: &str) -> (r: String)
        ensures
            !has_label(old(self).spec_rules(), r@),
            final(self).spec_sups() == old(self).spec_sups(),
            final(self).spec_rules().len() == old(self).spec_rules().len() + 1,
            final(self).spec_rules().drop_last() == old(self).spec_rules(),
            final(self).spec_rules().last().label@ == r@,
            rule_from_text(final(self).spec_rules().last(), RuleType::Strict, body@, head@),
    {
        proof {
            reveal_strlit("r");
        }
        self.add_rule_from_text("r", RuleType::Strict, body, head)
    }

    /// Add a defeasible rule written as text; returns its label.
    pub fn add_defeasible_rule(&mut self, body: &[&str], head: &str) -> (r: String)
        ensures
            !has_label(old(self).spec_rules(), r@),
            final(self).spec_sups() == old(self).spec_sups(),
            final(self).spec_rules().len() == old(self).spec_rules().len() + 1,
            final(self).spec_rules().drop_last() == old(self).spec_rules(),
            final(self).spec_rules().last().label@ == r@,
            rule_from_text(final(self).spec_rules().last(), RuleType::Defeasible, body@, head@),
    {
        proof {
            reveal_strlit("r");
        }
        self.add_rule_from_text("r", RuleType::Defeasible, body, head)
    }

    /// Add a defeater written as text; returns its label.
    pub fn add_defeater(&mut self, body: &[&str], head: &str) -> (r: String)
        ensures
            !has_label(old(self).spec_rules(), r@),
            final(self).spec_sups() == old(self).spec_sups(),
            final(self).spec_rules().len() == old(self).spec_rules().len() + 1,
            final(self).spec_rules().drop_last() == old(self).spec_rules(),
            final(self).spec_rules().last().label@ == r@,
            rule_from_text(final(self).spec_rules().last(), RuleType::Defeater, body@, head@),
    {
        proof {
            reveal_strlit("d");
        }
        self.add_rule_from_text("d", RuleType::Defeater, body, head)
    }

    /// A copy of this theory.
    pub fn duplicate(&self) -> (r: Self)
        ensures
            r.spec_rules().len() == self.spec_rules().len(),
            forall|i: int| 0 <= i < self.spec_rules().len() ==> #[trigger] same_rule(r.spec_rules()[i], self.spec_rules()[i]),
            r.spec_sups() == self.spec_sups(),
    {
        let mut rules: Vec<Rule> = Vec::new();
        let mut i: usize = 0;
        while i < self.rules.len()
            invariant
                0 <= i <= self.rules@.len(),
                rules@.len() == i,
                forall|k: int| 0 <= k < i ==> #[trigger] same_rule(rules@[k], self.rules@[k]),
            decreases self.rules@.len() - i,
        {
            rules.push(self.rules[i].duplicate());
            i = i + 1;
        }
        let mut sups: Vec<Superiority> = Vec::new();
        let mut j: usize = 0;
        while j < self.superiorities.len()
            invariant
                0 <= j <= self.superiorities@.len(),
                sups@.len() == j,
                forall|k: int| 0 <= k < j ==> (#[trigger] sups@[k]).superior@ == self.superiorities@[k].superior@
                    && sups@[k].inferior@ == self.superiorities@[k].inferior@,
            decreases self.superiorities@.len() - j,
        {
            sups.push(self.superiorities[j].clone());
            j = j + 1;
        }
        let r = Theory { rules, superiorities: sups };
        proof {
            assert(r.spec_sups() =~= self.spec_sups());
        }
        r
    }
}

impl Clone for Theory {
    fn clone(&self) -> (r: Self)
        ensures
            r.spec_rules().len() == self.spec_rules().len(),
            forall|i: int| 0 <= i < self.spec_rules().len() ==> #[trigger] same_rule(r.spec_rules()[i], self.spec_rules()[i]),
            r.spec_sups() == self.spec_sups(),
    {
        self.duplicate()
    }
}

} // verus!
