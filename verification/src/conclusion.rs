//! Conclusions: what reasoning establishes about a literal.

use vstd::prelude::*;
use crate::literal::Literal;
use crate::mode::clone_opt_string;
use crate::rule::same_lit;

verus! {

/// The four kinds of conclusion of defeasible logic.
#[derive(Clone, Copy, PartialEq, Eq, Structural, Debug, Hash)]
pub enum ConclusionType {
    /// +D: provable from facts and strict rules alone.
    DefinitelyProvable,
    /// -D: not provable from facts and strict rules alone.
    DefinitelyNotProvable,
    /// +d: defeasibly provable.
    DefeasiblyProvable,
    /// -d: not defeasibly provable.
    DefeasiblyNotProvable,
}

impl ConclusionType {
    /// Whether this kind establishes the literal (+D or +d).
    pub open spec fn spec_is_positive(self) -> bool {
        self == ConclusionType::DefinitelyProvable || self == ConclusionType::DefeasiblyProvable
    }

    /// Whether this kind establishes the literal (+D or +d).
    pub fn is_positive(&self) -> (r: bool)
        ensures
            r == self.spec_is_positive(),
    {
        match self {
            ConclusionType::DefinitelyProvable => true,
            ConclusionType::DefeasiblyProvable => true,
            _ => false,
        }
    }

    /// The strength order used to compare conclusions about one literal:
    /// +D above +d above -d above -D.
    pub open spec fn spec_strength(self) -> u8 {
        match self {
            ConclusionType::DefinitelyProvable => 4,
            ConclusionType::DefeasiblyProvable => 3,
            ConclusionType::DefeasiblyNotProvable => 2,
            ConclusionType::DefinitelyNotProvable => 1,
        }
    }

    /// The strength of this kind (see [`ConclusionType::spec_strength`]).
    pub fn strength(&self) -> (r: u8)
        ensures
            r == self.spec_strength(),
    {
        match self {
            ConclusionType::DefinitelyProvable => 4,
            ConclusionType::DefeasiblyProvable => 3,
            ConclusionType::DefeasiblyNotProvable => 2,
            ConclusionType::DefinitelyNotProvable => 1,
        }
    }
}

/// A conclusion: its kind, the literal, and the rule that established it
/// when there is one.
#[derive(Debug)]
pub struct Conclusion {
    /// The kind of conclusion.
    pub conclusion_type: ConclusionType,
    /// The literal concluded about.
    pub literal: Literal,
    /// The label of the rule behind a positive conclusion, if recorded.
    pub rule_label: Option<String>,
}

impl Conclusion {
    /// A conclusion with no rule recorded.
    pub fn new(conclusion_type: ConclusionType, literal: Literal) -> (r: Self)
        ensures
            r.conclusion_type == conclusion_type,
            r.literal == literal,
            r.rule_label.is_none(),
    {
        Conclusion { conclusion_type, literal, rule_label: None }
    }

    /// A +D conclusion.
    pub fn definitely_provable(literal: Literal) -> (r: Self)
        ensures
            r.conclusion_type == ConclusionType::DefinitelyProvable,
            r.literal == literal,
            r.rule_label.is_none(),
    {
        Conclusion::new(ConclusionType::DefinitelyProvable, literal)
    }

    /// A +d conclusion.
    pub fn defeasibly_provable(literal: Literal) -> (r: Self)
        ensures
            r.conclusion_type == ConclusionType::DefeasiblyProvable,
            r.literal == literal,
            r.rule_label.is_none(),
    {
        Conclusion::new(ConclusionType::DefeasiblyProvable, literal)
    }

    /// The same conclusion with the rule behind it recorded.
    pub fn with_rule(self, label: &str) -> (r: Self)
        ensures
            r.conclusion_type == self.conclusion_type,
            r.literal == self.literal,
            r.rule_label.is_some() && r.rule_label.unwrap()@ == label@,
    {
        Conclusion { conclusion_type: self.conclusion_type, literal: self.literal, rule_label: Some(label.to_owned()) }
    }

    /// Whether the conclusion establishes its literal.
    pub fn is_positive(&self) -> (r: bool)
        ensures
            r == self.conclusion_type.spec_is_positive(),
    {
        self.conclusion_type.is_positive()
    }
}

impl Clone for Conclusion {
    fn clone(&self) -> (r: Self)
        ensures
            r.conclusion_type == self.conclusion_type,
            same_lit(r.literal, self.literal),
            r.rule_label == self.rule_label,
    {
        Conclusion {
            conclusion_type: self.conclusion_type,
            literal: self.literal.duplicate(),
            rule_label: clone_opt_string(&self.rule_label),
        }
    }
}

} // verus!
