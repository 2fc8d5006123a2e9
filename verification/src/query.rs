//! Queries over a theory: the status of a literal, temporal matching of
//! literals against conclusions, hypothetical reasoning (what-if) and
//! explanations of failure (why-not).

use vstd::prelude::*;
use crate::conclusion::{Conclusion, ConclusionType};
use crate::error::SpindleError;
use crate::literal::Literal;
use crate::pipeline::{PrepareOptions, prepare_fails};
use crate::reason::{reason_with_options, reasonable, reasoned_with};
use crate::rule::same_lit;
use crate::temporal::Temporal;
use crate::theory::Theory;

verus! {

/// The status of a queried literal.
#[derive(Clone, Copy, PartialEq, Eq, Structural, Debug)]
pub enum QueryStatus {
    /// The literal is provable.
    Provable,
    /// The complement of the literal is provable.
    Refuted,
    /// Neither the literal nor its complement is provable.
    Unknown,
}

impl QueryStatus {
    /// The display text: `provable`, `refuted` or `unknown`.
    pub fn to_text(&self) -> (r: String)
        ensures
            r@ == match *self {
                QueryStatus::Provable => "provable"@,
                QueryStatus::Refuted => "refuted"@,
                QueryStatus::Unknown => "unknown"@,
            },
    {
        match self {
            QueryStatus::Provable => String::from_str("provable"),
            QueryStatus::Refuted => String::from_str("refuted"),
            QueryStatus::Unknown => String::from_str("unknown"),
        }
    }
}

/// The result of querying a literal.
#[derive(Debug, Clone)]
pub struct QueryResult {
    /// The queried literal.
    pub literal: Literal,
    /// The status found.
    pub status: QueryStatus,
    /// The kind of the conclusion that proved the literal, when provable.
    pub conclusion_type: Option<ConclusionType>,
}

impl QueryResult {
    /// A result with no conclusion kind.
    pub fn new(literal: Literal, status: QueryStatus) -> (r: Self)
        ensures
            r.literal == literal,
            r.status == status,
            r.conclusion_type.is_none(),
    {
        QueryResult { literal, status, conclusion_type: None }
    }

    /// The same result with the conclusion kind recorded.
    pub fn with_conclusion_type(self, ct: ConclusionType) -> (r: Self)
        ensures
            r.literal == self.literal,
            r.status == self.status,
            r.conclusion_type == Some(ct),
    {
        QueryResult { literal: self.literal, status: self.status, conclusion_type: Some(ct) }
    }

    /// Whether the literal is provable.
    pub fn is_provable(&self) -> (r: bool)
        ensures
            r == (self.status == QueryStatus::Provable),
    {
        self.status == QueryStatus::Provable
    }

    /// Whether the literal was proved definitely (+D).
    pub fn is_definitely_provable(&self) -> (r: bool)
        ensures
            r == (self.conclusion_type == Some(ConclusionType::DefinitelyProvable)),
    {
        match self.conclusion_type {
            Some(ConclusionType::DefinitelyProvable) => true,
            _ => false,
        }
    }

    /// Whether the literal was proved defeasibly (+d).
    pub fn is_defeasibly_provable(&self) -> (r: bool)
        ensures
            r == (self.conclusion_type == Some(ConclusionType::DefeasiblyProvable)),
    {
        match self.conclusion_type {
            Some(ConclusionType::DefeasiblyProvable) => true,
            _ => false,
        }
    }
}

/// A query's bounds match a candidate's: a query without bounds matches any
/// bounds, a query with bounds only the same bounds.
pub open spec fn temporal_matches(query: Temporal, candidate: Temporal) -> bool {
    query.spec_is_empty() || query == candidate
}

/// Whether a query's bounds match a candidate's (see [`temporal_matches`]).
pub fn matches_query_temporal(query_temporal: &Temporal, candidate_temporal: &Temporal) -> (r: bool)
    ensures
        r == temporal_matches(*query_temporal, *candidate_temporal),
{
    if query_temporal.is_empty() {
        true
    } else {
        *query_temporal == *candidate_temporal
    }
}

/// A candidate literal matches a query literal: equal as literals, and the
/// bounds match.
pub open spec fn lit_matches(query: Literal, candidate: Literal) -> bool {
    query.same_as(&candidate) && temporal_matches(query.temporal, candidate.temporal)
}

/// Whether `candidate` matches `query`, bounds included (see [`lit_matches`]).
pub fn matches_literal_temporal(query: &Literal, candidate: &Literal) -> (r: bool)
    ensures
        r == lit_matches(*query, *candidate),
{
    *query == *candidate && matches_query_temporal(&query.temporal, &candidate.temporal)
}

/// The complement of `query` is what `candidate` is: equal but for the
/// negation, and the bounds match.
pub open spec fn lit_matches_complement(query: Literal, candidate: Literal) -> bool {
    &&& query.spec_name() == candidate.spec_name()
    &&& query.negation != candidate.negation
    &&& query.mode@ == candidate.mode@
    &&& query.spec_preds() == candidate.spec_preds()
    &&& temporal_matches(query.temporal, candidate.temporal)
}

/// `c` is a positive conclusion whose literal matches `q`.
pub open spec fn proves(c: Conclusion, q: Literal) -> bool {
    c.conclusion_type.spec_is_positive() && lit_matches(q, c.literal)
}

/// `c` is a positive conclusion whose literal matches the complement of `q`.
pub open spec fn refutes(c: Conclusion, q: Literal) -> bool {
    c.conclusion_type.spec_is_positive() && lit_matches_complement(q, c.literal)
}

/// Some conclusion of `cs` proves `q`.
pub open spec fn some_proof(cs: Seq<Conclusion>, q: Literal) -> bool {
    exists|i: int| 0 <= i < cs.len() && proves(#[trigger] cs[i], q)
}

/// Some conclusion of `cs` refutes `q`.
pub open spec fn some_refutation(cs: Seq<Conclusion>, q: Literal) -> bool {
    exists|i: int| 0 <= i < cs.len() && refutes(#[trigger] cs[i], q)
}

/// The query result that the conclusions `cs` give for `q`: provable, with
/// the kind of the first proving conclusion; else refuted; else unknown.
pub open spec fn query_outcome(cs: Seq<Conclusion>, q: Literal, res: QueryResult) -> bool {
    &&& same_lit(res.literal, q)
    &&& some_proof(cs, q) ==> res.status == QueryStatus::Provable && exists|i: int|
        0 <= i < cs.len() && proves(#[trigger] cs[i], q) && (forall|j: int| 0 <= j < i ==> !proves(#[trigger] cs[j], q))
            && res.conclusion_type == Some(cs[i].conclusion_type)
    &&& (!some_proof(cs, q) && some_refutation(cs, q)) ==> res.status == QueryStatus::Refuted
        && res.conclusion_type.is_none()
    &&& (!some_proof(cs, q) && !some_refutation(cs, q)) ==> res.status == QueryStatus::Unknown
        && res.conclusion_type.is_none()
}

/// Whether the conclusion proves `q`.
fn conclusion_proves(c: &Conclusion, q: &Literal) -> (r: bool)
    ensures
        r == proves(*c, *q),
{
    c.conclusion_type.is_positive() && matches_literal_temporal(q, &c.literal)
}

/// Whether the conclusion refutes `q`.
fn conclusion_refutes(c: &Conclusion, q: &Literal) -> (r: bool)
    ensures
        r == refutes(*c, *q),
{
    c.conclusion_type.is_positive() && crate::text::str_eq(q.name(), c.literal.name()) && q.negation
        != c.literal.negation && q.mode.same(&c.literal.mode) && crate::literal::strings_eq(
        &q.predicates,
        &c.literal.predicates,
    ) && matches_query_temporal(&q.temporal, &c.literal.temporal)
}

/// The status of `literal` given the conclusions of reasoning.
pub fn evaluate_query(conclusions: &Vec<Conclusion>, literal: &Literal) -> (r: QueryResult)
    ensures
        query_outcome(conclusions@, *literal, r),
{
    let mut i: usize = 0;
    while i < conclusions.len()
        invariant
            0 <= i <= conclusions@.len(),
            forall|j: int| 0 <= j < i ==> !proves(#[trigger] conclusions@[j], *literal),
        decreases conclusions@.len() - i,
    {
        if conclusion_proves(&conclusions[i], literal) {
            return QueryResult::new(literal.duplicate(), QueryStatus::Provable).with_conclusion_type(
                conclusions[i].conclusion_type,
            );
        }
        i = i + 1;
    }
    let mut k: usize = 0;
    while k < conclusions.len()
        invariant
            0 <= k <= conclusions@.len(),
            !some_proof(conclusions@, *literal),
            forall|j: int| 0 <= j < k ==> !refutes(#[trigger] conclusions@[j], *literal),
        decreases conclusions@.len() - k,
    {
        if conclusion_refutes(&conclusions[k], literal) {
            return QueryResult::new(literal.duplicate(), QueryStatus::Refuted);
        }
        k = k + 1;
    }
    QueryResult::new(literal.duplicate(), QueryStatus::Unknown)
}

/// Query a literal against a theory prepared with `opts`.
pub fn query_with_options(theory: &Theory, literal: &Literal, opts: PrepareOptions) -> (r: Result<QueryResult, SpindleError>)
    requires
        reasonable(*theory),
    ensures
        r is Ok <==> !prepare_fails(*theory, opts),
        r matches Ok(res) ==> exists|cs: Seq<Conclusion>| reasoned_with(*theory, opts, cs) && query_outcome(cs, *literal, res),
{
    match reason_with_options(theory, opts) {
        Ok(cs) => {
            let res = evaluate_query(&cs, literal);
            Ok(res)
        },
        Err(e) => Err(e),
    }
}

/// Query a literal against a theory with the default options.
pub fn query(theory: &Theory, literal: &Literal) -> (r: Result<QueryResult, SpindleError>)
    requires
        reasonable(*theory),
    ensures
        r is Ok <==> !prepare_fails(*theory, PrepareOptions::spec_default()),
        r matches Ok(res) ==> exists|cs: Seq<Conclusion>|
            reasoned_with(*theory, PrepareOptions::spec_default(), cs) && query_outcome(cs, *literal, res),
{
    query_with_options(theory, literal, PrepareOptions::default())
}

/// Whether some positive conclusion matches `lit` (see [`lit_matches`]).
pub fn is_proven_temporal(conclusions: &Vec<Conclusion>, lit: &Literal) -> (r: bool)
    ensures
        r == some_proof(conclusions@, *lit),
{
    let mut i: usize = 0;
    while i < conclusions.len()
        invariant
            0 <= i <= conclusions@.len(),
            forall|j: int| 0 <= j < i ==> !proves(#[trigger] conclusions@[j], *lit),
        decreases conclusions@.len() - i,
    {
        if conclusion_proves(&conclusions[i], lit) {
            return true;
        }
        i = i + 1;
    }
    false
}

/// The conclusions of a report, kept for repeated lookups of proven literals.
pub struct ProvenSet {
    entries: Vec<(bool, Literal)>,
}

impl ProvenSet {
    /// For each conclusion: whether it is positive, and its literal.
    pub closed spec fn entries(&self) -> Seq<(bool, Literal)> {
        self.entries@
    }

    /// Whether some positive conclusion's literal equals `lit`, bounds included.
    pub open spec fn spec_contains(&self, lit: Literal) -> bool {
        exists|k: int|
            0 <= k < self.entries().len() && (#[trigger] self.entries()[k]).0 && lit.same_as(&self.entries()[k].1)
                && lit.temporal == self.entries()[k].1.temporal
    }

    /// The conclusions' polarities and literals, in order.
    pub fn from_conclusions(conclusions: &Vec<Conclusion>) -> (r: Self)
        ensures
            r.entries().len() == conclusions@.len(),
            forall|i: int| 0 <= i < conclusions@.len() ==> (#[trigger] r.entries()[i]).0
                == conclusions@[i].conclusion_type.spec_is_positive() && same_lit(r.entries()[i].1, conclusions@[i].literal),
    {
        let mut entries: Vec<(bool, Literal)> = Vec::new();
        let mut i: usize = 0;
        while i < conclusions.len()
            invariant
                0 <= i <= conclusions@.len(),
                entries@.len() == i,
                forall|j: int| 0 <= j < i ==> (#[trigger] entries@[j]).0
                    == conclusions@[j].conclusion_type.spec_is_positive() && same_lit(entries@[j].1, conclusions@[j].literal),
            decreases conclusions@.len() - i,
        {
            entries.push((conclusions[i].conclusion_type.is_positive(), conclusions[i].literal.duplicate()));
            i = i + 1;
        }
        ProvenSet { entries }
    }

    /// Whether `lit` is proven: some positive conclusion's literal equals it,
    /// bounds included (a literal without bounds needs a conclusion without
    /// bounds).
    pub fn contains(&self, lit: &Literal) -> (r: bool)
        ensures
            r == self.spec_contains(*lit),
    {
        let mut k: usize = 0;
        while k < self.entries.len()
            invariant
                0 <= k <= self.entries@.len(),
                forall|j: int| 0 <= j < k ==> !((#[trigger] self.entries@[j]).0 && lit.same_as(&self.entries@[j].1)
                    && lit.temporal == self.entries@[j].1.temporal),
            decreases self.entries@.len() - k,
        {
            let e = &self.entries[k];
            if e.0 && *lit == e.1 && lit.temporal == e.1.temporal {
                return true;
            }
            k = k + 1;
        }
        false
    }
}

/// The arguments shared by query operators: the preparation options, and
/// the most solutions to return.
#[derive(Debug, Clone)]
pub struct QueryArgs {
    /// The options for preparing the theory.
    pub prepare_options: PrepareOptions,
    /// The most solutions to return.
    pub max_solutions: usize,
}

impl Default for QueryArgs {
    fn default() -> (r: Self)
        ensures
            r.prepare_options == PrepareOptions::spec_default(),
            r.max_solutions == 10,
    {
        QueryArgs { prepare_options: PrepareOptions::default(), max_solutions: 10 }
    }
}

} // verus!
