//! Rules: facts, strict rules, defeasible rules and defeaters.

use vstd::prelude::*;
use crate::literal::Literal;
use crate::mode::clone_opt_string;
use crate::temporal::Temporal;

verus! {

/// The kind of a rule.
#[derive(Clone, Copy, PartialEq, Eq, Structural, Debug, Hash)]
pub enum RuleType {
    /// An unconditional truth (`>>`).
    Fact,
    /// A rule whose head must hold when its body holds (`->`).
    Strict,
    /// A rule whose head normally holds when its body holds (`=>`).
    Defeasible,
    /// A rule that only blocks the complement of its head (`~>`).
    Defeater,
}

impl RuleType {
    /// Whether rules of this kind can support a conclusion (all but defeaters).
    pub open spec fn spec_supports(self) -> bool {
        self != RuleType::Defeater
    }

    /// Whether this is a defeater.
    pub fn is_defeater(self) -> (r: bool)
        ensures
            r == (self == RuleType::Defeater),
    {
        self == RuleType::Defeater
    }
}

/// Two literals carry the same data: name, negation, mode, bounds,
/// temporal expression and arguments.
pub open spec fn same_lit(a: Literal, b: Literal) -> bool {
    &&& a.spec_name() == b.spec_name()
    &&& a.negation == b.negation
    &&& a.mode == b.mode
    &&& a.temporal == b.temporal
    &&& a.temporal_expr == b.temporal_expr
    &&& a.spec_preds() == b.spec_preds()
}

/// Two sequences of literals carry the same data, position by position.
pub open spec fn same_lits(a: Seq<Literal>, b: Seq<Literal>) -> bool {
    &&& a.len() == b.len()
    &&& forall|i: int| 0 <= i < a.len() ==> #[trigger] same_lit(a[i], b[i])
}

/// Copy a vector of literals.
pub fn clone_literals(v: &Vec<Literal>) -> (r: Vec<Literal>)
    ensures
        same_lits(r@, v@),
{
    let mut out: Vec<Literal> = Vec::new();
    let mut i: usize = 0;
    while i < v.len()
        invariant
            0 <= i <= v@.len(),
            out@.len() == i,
            forall|k: int| 0 <= k < i ==> #[trigger] same_lit(out@[k], v@[k]),
        decreases v@.len() - i,
    {
        out.push(v[i].duplicate());
        i = i + 1;
    }
    out
}

/// A rule: a label, a kind, body literals and head literals. Only the first
/// head literal takes part in reasoning.
#[derive(Debug)]
pub struct Rule {
    /// The rule's label.
    pub label: String,
    /// The kind of rule.
    pub rule_type: RuleType,
    /// The body (antecedent) literals.
    pub body: Vec<Literal>,
    /// The head (consequent) literals.
    pub head: Vec<Literal>,
    /// The label of the rule this one was instantiated from, if any.
    pub template_label: Option<String>,
    /// The temporal bounds of the rule itself.
    pub temporal: Temporal,
}

/// Two rules carry the same data.
pub open spec fn same_rule(a: Rule, b: Rule) -> bool {
    &&& a.label == b.label
    &&& a.rule_type == b.rule_type
    &&& same_lits(a.body@, b.body@)
    &&& same_lits(a.head@, b.head@)
    &&& a.template_label == b.template_label
    &&& a.temporal == b.temporal
}

/// Two rules carry the same data, labels compared by their characters.
pub open spec fn same_rule_data(a: Rule, b: Rule) -> bool {
    &&& a.label@ == b.label@
    &&& a.rule_type == b.rule_type
    &&& same_lits(a.body@, b.body@)
    &&& same_lits(a.head@, b.head@)
    &&& a.spec_template_label() == b.spec_template_label()
    &&& a.temporal == b.temporal
}

/// Two sequences of rules carry the same data, position by position, labels
/// compared by their characters.
pub open spec fn same_rules_data(a: Seq<Rule>, b: Seq<Rule>) -> bool {
    &&& a.len() == b.len()
    &&& forall|i: int| 0 <= i < a.len() ==> #[trigger] same_rule_data(a[i], b[i])
}

/// Carrying the same data is symmetric.
pub proof fn lemma_same_rule_symmetric(a: Rule, b: Rule)
    requires
        same_rule(a, b),
    ensures
        same_rule(b, a),
{
    assert forall|i: int| 0 <= i < b.body@.len() implies #[trigger] same_lit(b.body@[i], a.body@[i]) by {
        assert(same_lit(a.body@[i], b.body@[i]));
    }
    assert forall|i: int| 0 <= i < b.head@.len() implies #[trigger] same_lit(b.head@[i], a.head@[i]) by {
        assert(same_lit(a.head@[i], b.head@[i]));
    }
}

/// Two sequences of rules carry the same data, position by position.
pub open spec fn same_rules(a: Seq<Rule>, b: Seq<Rule>) -> bool {
    &&& a.len() == b.len()
    &&& forall|i: int| 0 <= i < a.len() ==> #[trigger] same_rule(a[i], b[i])
}

impl Rule {
    /// The label used for superiority: the template label when there is
    /// one, else the rule's own label.
    pub open spec fn spec_template_label(&self) -> Seq<char> {
        match self.template_label {
            Some(t) => t@,
            None => self.label@,
        }
    }

    /// A rule of any kind.
    pub fn new(label: &str, rule_type: RuleType, body: Vec<Literal>, head: Vec<Literal>) -> (r: Self)
        ensures
            r.label@ == label@,
            r.rule_type == rule_type,
            r.body == body,
            r.head == head,
            r.template_label.is_none(),
            r.temporal == Temporal::spec_empty(),
    {
        Rule {
            label: label.to_owned(),
            rule_type,
            body,
            head,
            template_label: None,
            temporal: Temporal::empty(),
        }
    }

    /// A fact: a rule with no body.
    pub fn fact(label: &str, head: Literal) -> (r: Self)
        ensures
            r.label@ == label@,
            r.rule_type == RuleType::Fact,
            r.body@ == Seq::<Literal>::empty(),
            r.head@ == seq![head],
            r.template_label.is_none(),
            r.temporal == Temporal::spec_empty(),
    {
        let mut h: Vec<Literal> = Vec::new();
        h.push(head);
        Rule::new(label, RuleType::Fact, Vec::new(), h)
    }

    /// A strict rule.
    pub fn strict(label: &str, body: Vec<Literal>, head: Literal) -> (r: Self)
        ensures
            r.label@ == label@,
            r.rule_type == RuleType::Strict,
            r.body == body,
            r.head@ == seq![head],
            r.template_label.is_none(),
            r.temporal == Temporal::spec_empty(),
    {
        let mut h: Vec<Literal> = Vec::new();
        h.push(head);
        Rule::new(label, RuleType::Strict, body, h)
    }

    /// A defeasible rule.
    pub fn defeasible(label: &str, body: Vec<Literal>, head: Literal) -> (r: Self)
        ensures
            r.label@ == label@,
            r.rule_type == RuleType::Defeasible,
            r.body == body,
            r.head@ == seq![head],
            r.template_label.is_none(),
            r.temporal == Temporal::spec_empty(),
    {
        let mut h: Vec<Literal> = Vec::new();
        h.push(head);
        Rule::new(label, RuleType::Defeasible, body, h)
    }

    /// A defeater.
    pub fn defeater(label: &str, body: Vec<Literal>, head: Literal) -> (r: Self)
        ensures
            r.label@ == label@,
            r.rule_type == RuleType::Defeater,
            r.body == body,
            r.head@ == seq![head],
            r.template_label.is_none(),
            r.temporal == Temporal::spec_empty(),
    {
        let mut h: Vec<Literal> = Vec::new();
        h.push(head);
        Rule::new(label, RuleType::Defeater, body, h)
    }

    /// The first head literal.
    pub fn head_literal(&self) -> (r: &Literal)
        requires
            self.head@.len() > 0,
        ensures
            *r == self.head@[0],
    {
        &self.head[0]
    }

    /// Whether the rule is a fact.
    pub fn is_fact(&self) -> (r: bool)
        ensures
            r == (self.rule_type == RuleType::Fact),
    {
        self.rule_type == RuleType::Fact
    }

    /// The label used for superiority (see [`Rule::spec_template_label`]).
    pub fn template_label(&self) -> (r: &str)
        ensures
            r@ == self.spec_template_label(),
    {
        match &self.template_label {
            Some(t) => t.as_str(),
            None => self.label.as_str(),
        }
    }

    /// A copy of this rule.
    pub fn duplicate(&self) -> (r: Self)
        ensures
            same_rule(r, *self),
    {
        Rule {
            label: self.label.clone(),
            rule_type: self.rule_type,
            body: clone_literals(&self.body),
            head: clone_literals(&self.head),
            template_label: clone_opt_string(&self.template_label),
            temporal: self.temporal,
        }
    }
}

impl Clone for Rule {
    fn clone(&self) -> (r: Self)
        ensures
            same_rule(r, *self),
    {
        self.duplicate()
    }
}

} // verus!
