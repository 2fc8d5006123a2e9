//! Verified fact-set search: which raw abduction candidates, added to the
//! theory as facts, really make the goal provable once reasoning is run
//! again.

use vstd::prelude::*;
use crate::abduce::{AbductionSolution, Entry, abduce, abduced, sol_is, raw_candidates, sorted_entries, sorted_entries_of, lemma_raw_candidates_facts, some_empty};
use crate::bridge::labels_of;
use crate::conclusion::Conclusion;
use crate::error::SpindleError;
use crate::index::{lits_in, rules_have_heads};
use crate::literal::Literal;
use crate::pipeline::{PrepareOptions, prepare_fails, rules_fail};
use crate::query::some_proof;
use crate::reason::{lemma_reasoned_plain, reason, reasonable, reasoned_over, reasoned_with};
use crate::rule::{Rule, RuleType, same_lit, same_lits, same_rule};
use crate::temporal::Temporal;
use crate::text::{decimal, push_decimal, lemma_decimal_injective};
use crate::theory::{Theory, has_label};

verus! {

/// The label `__requires_verify_<ci>_<fi>_<k>`.
pub open spec fn verify_label(ci: nat, fi: nat, k: nat) -> Seq<char> {
    "__requires_verify_"@ + decimal(ci) + "_"@ + decimal(fi) + "_"@ + decimal(k)
}

/// `label` is the first of `pref` followed by `0`, `1`, ... that no rule
/// carries.
#[verifier::opaque]
pub open spec fn first_free(rules: Seq<Rule>, pref: Seq<char>, label: Seq<char>) -> bool {
    exists|k: nat|
        #![trigger pref + decimal(k)]
        label == pref + decimal(k) && !has_label(rules, label) && forall|j: nat| j < k ==> has_label(rules, #[trigger] (pref + decimal(j)))
}

/// Numbered labels with different numbers differ.
pub proof fn lemma_numbered_injective(pref: Seq<char>, a: nat, b: nat)
    requires
        pref + decimal(a) == pref + decimal(b),
    ensures
        a == b,
{
    let x = pref + decimal(a);
    assert(x.subrange(pref.len() as int, x.len() as int) =~= decimal(a));
    assert((pref + decimal(b)).subrange(pref.len() as int, x.len() as int) =~= decimal(b));
    lemma_decimal_injective(a, b);
}

/// When the first `k` numbered labels are all taken, there are at least `k`
/// rules.
proof fn lemma_numbered_fit(rules: Seq<Rule>, pref: Seq<char>, k: nat)
    requires
        forall|j: nat| j < k ==> has_label(rules, #[trigger] (pref + decimal(j))),
    ensures
        k <= rules.len(),
{
    let cands = Seq::new(k, |j: int| pref + decimal(j as nat));
    let taken = labels_of(rules);
    assert(cands.no_duplicates()) by {
        assert forall|i: int, j: int| 0 <= i < cands.len() && 0 <= j < cands.len() && i != j implies cands[i] != cands[j] by {
            if cands[i] == cands[j] {
                lemma_numbered_injective(pref, i as nat, j as nat);
            }
        }
    }
    cands.unique_seq_to_set();
    taken.lemma_cardinality_of_set();
    vstd::seq_lib::seq_to_set_is_finite(taken);
    assert(cands.to_set().subset_of(taken.to_set())) by {
        assert forall|x: Seq<char>| cands.to_set().contains(x) implies taken.to_set().contains(x) by {
            let i = choose|i: int| 0 <= i < cands.len() && cands[i] == x;
            assert(has_label(rules, pref + decimal(i as nat)));
            let r = choose|r: int| 0 <= r < rules.len() && (#[trigger] rules[r]).label@ == x;
            assert(taken[r] == x);
        }
    }
    vstd::set_lib::lemma_len_subset(cands.to_set(), taken.to_set());
}

/// The first of `pref` followed by `0`, `1`, ... that no rule of the theory
/// carries.
fn first_free_label(theory: &Theory, pref: &str) -> (r: String)
    ensures
        first_free(theory.spec_rules(), pref@, r@),
{
    let n = theory.rule_count();
    let mut k: usize = 0;
    loop
        invariant
            n == theory.spec_rules().len(),
            forall|j: nat| j < k ==> has_label(theory.spec_rules(), #[trigger] (pref@ + decimal(j))),
        decreases n - k,
    {
        proof {
            lemma_numbered_fit(theory.spec_rules(), pref@, k as nat);
        }
        let mut cand = String::from_str(pref);
        push_decimal(&mut cand, k as u64);
        if !theory.has_rule(cand.as_str()) {
            proof {
                assert(cand@ == pref@ + decimal(k as nat));
                reveal(first_free);
            }
            return cand;
        }
        proof {
            assert(cand@ == pref@ + decimal(k as nat));
            assert forall|j: nat| j < k + 1 implies has_label(theory.spec_rules(), #[trigger] (pref@ + decimal(j))) by {
                if j == k {
                    assert(pref@ + decimal(j) == cand@);
                }
            }
            lemma_numbered_fit(theory.spec_rules(), pref@, (k + 1) as nat);
        }
        k = k + 1;
    }
}

/// Rule `n + j` of `mods` is the fact for `facts[j]`, labelled with the
/// first free `__requires_verify_<ci>_<j>_<k>`.
pub open spec fn fact_at(mods: Seq<Rule>, n: int, facts: Seq<Literal>, ci: nat, j: int) -> bool {
    let f = mods[n + j];
    &&& f.rule_type == RuleType::Fact
    &&& f.body@.len() == 0
    &&& f.head@.len() == 1
    &&& same_lit(f.head@[0], facts[j])
    &&& f.template_label.is_none()
    &&& f.temporal == Temporal::spec_empty()
    &&& first_free(mods.take(n + j), "__requires_verify_"@ + decimal(ci) + "_"@ + decimal(j as nat) + "_"@, f.label@)
}

/// `mods` is `rules` (carrying the same data) followed by one fact per
/// literal of `facts` (see [`fact_at`]).
pub open spec fn with_facts(rules: Seq<Rule>, facts: Seq<Literal>, ci: nat, mods: Seq<Rule>) -> bool {
    &&& mods.len() == rules.len() + facts.len()
    &&& forall|i: int| 0 <= i < rules.len() ==> #[trigger] same_rule(mods[i], rules[i])
    &&& forall|j: int| 0 <= j < facts.len() ==> #[trigger] fact_at(mods, rules.len() as int, facts, ci, j)
}

/// Some positive conclusion is about the goal's literal (name, sign, mode
/// and arguments; bounds are not compared).
pub open spec fn goal_proven(cs: Seq<Conclusion>, goal: Literal) -> bool {
    exists|i: int| 0 <= i < cs.len() && (#[trigger] cs[i]).literal.same_as(&goal) && cs[i].conclusion_type.spec_is_positive()
}

/// Whether some positive conclusion is about the goal's literal.
fn is_goal_provable(cs: &Vec<Conclusion>, goal: &Literal) -> (r: bool)
    ensures
        r == goal_proven(cs@, *goal),
{
    let mut i: usize = 0;
    while i < cs.len()
        invariant
            0 <= i <= cs@.len(),
            forall|j: int| 0 <= j < i ==> !((#[trigger] cs@[j]).literal.same_as(goal) && cs@[j].conclusion_type.spec_is_positive()),
        decreases cs@.len() - i,
    {
        if cs[i].literal == *goal && cs[i].conclusion_type.is_positive() {
            return true;
        }
        i = i + 1;
    }
    false
}

/// The literal occurrences grow by one with each fact.
proof fn lemma_lits_in_push_fact(rules: Seq<Rule>, f: Rule)
    requires
        f.body@.len() == 0,
    ensures
        lits_in(rules.push(f)) == lits_in(rules) + 1,
{
    assert(rules.push(f).drop_last() =~= rules);
}

/// A copy of the theory with the facts added (see [`with_facts`]).
fn theory_with_facts(theory: &Theory, facts: &Vec<Literal>, ci: usize) -> (m: Theory)
    requires
        reasonable(*theory),
        2 * (lits_in(theory.spec_rules()) + facts@.len()) + 1 < usize::MAX,
    ensures
        with_facts(theory.spec_rules(), facts@, ci as nat, m.spec_rules()),
        m.spec_sups() == theory.spec_sups(),
        reasonable(m),
{
    let mut modified = theory.duplicate();
    proof {
        crate::reason::lemma_lits_in_same_rules(modified.spec_rules(), theory.spec_rules());
    }
    let n = theory.rule_count();
    let mut j: usize = 0;
    while j < facts.len()
        invariant
            0 <= j <= facts@.len(),
            n == theory.spec_rules().len(),
            modified.spec_sups() == theory.spec_sups(),
            modified.spec_rules().len() == n + j,
            forall|i: int| 0 <= i < n ==> #[trigger] same_rule(modified.spec_rules()[i], theory.spec_rules()[i]),
            forall|q: int| 0 <= q < j ==> #[trigger] fact_at(modified.spec_rules(), n as int, facts@, ci as nat, q),
            lits_in(modified.spec_rules()) == lits_in(theory.spec_rules()) + j,
            rules_have_heads(modified.spec_rules()),
            2 * (lits_in(theory.spec_rules()) + facts@.len()) + 1 < usize::MAX,
        decreases facts@.len() - j,
    {
        let mut pref = String::from_str("__requires_verify_");
        push_decimal(&mut pref, ci as u64);
        pref.append("_");
        push_decimal(&mut pref, j as u64);
        pref.append("_");
        proof {
            reveal_strlit("__requires_verify_");
            reveal_strlit("_");
            assert(pref@ =~= "__requires_verify_"@ + decimal(ci as nat) + "_"@ + decimal(j as nat) + "_"@);
        }
        let label = first_free_label(&modified, pref.as_str());
        let ghost before = modified.spec_rules();
        let fact = Rule::fact(label.as_str(), facts[j].duplicate());
        proof {
            lemma_lits_in_push_fact(before, fact);
        }
        modified.add_rule(fact);
        proof {
            assert(modified.spec_rules().take(n + j) =~= before);
            assert forall|q: int| 0 <= q < j + 1 implies #[trigger] fact_at(modified.spec_rules(), n as int, facts@, ci as nat, q) by {
                if q < j {
                    assert(fact_at(before, n as int, facts@, ci as nat, q));
                    assert(modified.spec_rules()[n + q] == before[n + q]);
                    assert(modified.spec_rules().take(n + q) =~= before.take(n + q));
                } else {
                    assert(pref@ == "__requires_verify_"@ + decimal(ci as nat) + "_"@ + decimal(q as nat) + "_"@);
                    assert(modified.spec_rules().take(n + q) == before);
                }
            }
            assert forall|i: int| 0 <= i < n implies #[trigger] same_rule(modified.spec_rules()[i], theory.spec_rules()[i]) by {
                assert(modified.spec_rules()[i] == before[i]);
            }
            assert forall|r: int| 0 <= r < modified.spec_rules().len() implies (#[trigger] modified.spec_rules()[r]).head@.len() > 0 by {
                if r < before.len() {
                    assert(modified.spec_rules()[r] == before[r]);
                }
            }
        }
        j = j + 1;
    }
    modified
}

/// Add the candidate's facts to a copy of the theory, reason over it, and
/// tell whether some positive conclusion is about the goal's literal.
fn verify_candidate(theory: &Theory, goal: &Literal, facts: &Vec<Literal>, ci: usize) -> (r: Result<bool, SpindleError>)
    requires
        reasonable(*theory),
        2 * (lits_in(theory.spec_rules()) + facts@.len()) + 1 < usize::MAX,
    ensures
        r matches Ok(b) ==> exists|mods: Seq<Rule>, mc: Seq<Conclusion>|
            #[trigger] with_facts(theory.spec_rules(), facts@, ci as nat, mods) && !rules_fail(mods, PrepareOptions::spec_default())
                && #[trigger] reasoned_over(mods, theory.spec_sups(), mc) && b == goal_proven(mc, *goal),
        r is Err ==> exists|mods: Seq<Rule>|
            #[trigger] with_facts(theory.spec_rules(), facts@, ci as nat, mods) && rules_fail(mods, PrepareOptions::spec_default()),
{
    let modified = theory_with_facts(theory, facts, ci);
    match reason(&modified) {
        Ok(cs) => {
            let b = is_goal_provable(&cs, goal);
            proof {
                lemma_reasoned_plain(modified, PrepareOptions::spec_default(), cs@);
                assert(reasoned_over(modified.spec_rules(), theory.spec_sups(), cs@));
            }
            Ok(b)
        },
        Err(e) => Err(e),
    }
}


/// The number of raw candidates examined by default at most.
pub const DEFAULT_MAX_RAW_CANDIDATES: usize = 1000;

/// Options for the verified search.
#[derive(Debug, Clone, Copy, PartialEq, Eq, Structural)]
pub struct RequiresOptions {
    /// The number of verified solutions to return at most.
    pub max_solutions: usize,
    /// The number of raw candidates to examine at most.
    pub max_raw_candidates: usize,
}

impl Default for RequiresOptions {
    fn default() -> (r: Self)
        ensures
            r.max_solutions == 1,
            r.max_raw_candidates == DEFAULT_MAX_RAW_CANDIDATES,
    {
        RequiresOptions { max_solutions: 1, max_raw_candidates: DEFAULT_MAX_RAW_CANDIDATES }
    }
}

/// Why the verified search stopped.
#[derive(Debug, Clone, Copy, PartialEq, Eq, Structural)]
pub enum RequiresSearchStatus {
    /// The candidates ran out, or enough solutions were found.
    BoundedComplete,
    /// The budget of raw candidates ran out while more candidates exist.
    BudgetExhausted,
}

/// How much verification work was done.
#[derive(Debug, Clone, Copy, PartialEq, Eq, Structural)]
pub struct RequiresVerificationStats {
    /// Raw candidates examined.
    pub raw_examined: usize,
    /// Examined candidates that verification accepted.
    pub accepted: usize,
    /// Examined candidates that verification rejected.
    pub rejected: usize,
}

impl Default for RequiresVerificationStats {
    fn default() -> (r: Self)
        ensures
            r.raw_examined == 0 && r.accepted == 0 && r.rejected == 0,
    {
        RequiresVerificationStats { raw_examined: 0, accepted: 0, rejected: 0 }
    }
}

/// The result of the verified search.
#[derive(Debug)]
pub struct RequiresResult {
    /// Whether the goal is already provable without new facts.
    pub already_provable: bool,
    /// The verified fact-sets, fewest facts first.
    pub solutions: Vec<AbductionSolution>,
    /// Why the search stopped.
    pub search_status: RequiresSearchStatus,
    /// How much verification work was done.
    pub verification: RequiresVerificationStats,
}

/// The number of verdicts that are true.
pub open spec fn count_true(vs: Seq<bool>) -> nat
    decreases vs.len(),
{
    if vs.len() == 0 {
        0
    } else {
        count_true(vs.drop_last()) + (if vs.last() {
            1nat
        } else {
            0nat
        })
    }
}

/// The candidates whose verdict is true, in order.
pub open spec fn accepted_of(c: Seq<Entry>, vs: Seq<bool>) -> Seq<Entry>
    decreases vs.len(),
{
    if vs.len() == 0 {
        Seq::empty()
    } else {
        accepted_of(c, vs.drop_last()) + (if vs.last() {
            seq![c[vs.len() - 1]]
        } else {
            Seq::empty()
        })
    }
}

/// `v` is the verdict on the facts as candidate number `ci`: the theory
/// with the facts added (see [`with_facts`]) passes preparation, and `v`
/// tells whether reasoning over it proves the goal's literal.
pub open spec fn verdict(th: Theory, goal: Literal, facts: Seq<Literal>, ci: nat, v: bool) -> bool {
    exists|mods: Seq<Rule>, mc: Seq<Conclusion>|
        #[trigger] with_facts(th.spec_rules(), facts, ci, mods) && !rules_fail(mods, PrepareOptions::spec_default())
            && #[trigger] reasoned_over(mods, th.spec_sups(), mc) && v == goal_proven(mc, goal)
}

/// The examination stops after the verdicts `vs`: each one came while fewer
/// than `max` had been accepted, and then the `n` candidates ran out or
/// `max` were accepted.
pub open spec fn stops_at(vs: Seq<bool>, n: nat, max: nat) -> bool {
    &&& vs.len() <= n
    &&& forall|e: int| 0 <= e < vs.len() ==> count_true(#[trigger] vs.take(e)) < max
    &&& (vs.len() == n || count_true(vs) >= max)
}

/// The number of raw candidates requested: one more than the budget.
pub open spec fn raw_limit(max_raw: usize) -> nat {
    if max_raw == usize::MAX {
        max_raw as nat
    } else {
        (max_raw + 1) as nat
    }
}

/// The smaller of two numbers.
pub open spec fn min_nat(a: nat, b: nat) -> nat {
    if a < b {
        a
    } else {
        b
    }
}

/// The raw candidates within the budget, in order.
pub open spec fn budget_candidates(th: Theory, goal: Literal, base: Seq<Conclusion>, max_raw: usize) -> Seq<Entry> {
    let t = sorted_entries(raw_candidates(th.spec_rules(), goal, base));
    t.take(min_nat(max_raw as nat, t.len()) as int)
}

/// `res` is the verified search's result, given the base conclusions and
/// the verdicts `vs` on the examined candidates.
pub open spec fn requires_outcome(
    th: Theory,
    goal: Literal,
    base: Seq<Conclusion>,
    opts: RequiresOptions,
    vs: Seq<bool>,
    res: RequiresResult,
) -> bool {
    if some_proof(base, goal) {
        &&& res.already_provable
        &&& res.solutions@.len() == 0
        &&& res.search_status == RequiresSearchStatus::BoundedComplete
        &&& res.verification == RequiresVerificationStats { raw_examined: 0, accepted: 0, rejected: 0 }
    } else {
        let t = sorted_entries(raw_candidates(th.spec_rules(), goal, base));
        let raw_n = min_nat(raw_limit(opts.max_raw_candidates), t.len());
        let cl = budget_candidates(th, goal, base, opts.max_raw_candidates);
        let acc = accepted_of(cl, vs);
        &&& !res.already_provable
        &&& stops_at(vs, cl.len(), opts.max_solutions as nat)
        &&& forall|i: int| 0 <= i < vs.len() ==> #[trigger] verdict(th, goal, cl[i].1, i as nat, vs[i])
        &&& res.solutions@.len() == acc.len()
        &&& forall|i: int| 0 <= i < acc.len() ==> #[trigger] sol_is(res.solutions@[i], acc[i])
        &&& res.verification.raw_examined == vs.len()
        &&& res.verification.accepted == count_true(vs)
        &&& res.verification.rejected == vs.len() - count_true(vs)
        &&& res.search_status == (if count_true(vs) >= opts.max_solutions {
            RequiresSearchStatus::BoundedComplete
        } else if raw_n > opts.max_raw_candidates {
            RequiresSearchStatus::BudgetExhausted
        } else {
            RequiresSearchStatus::BoundedComplete
        })
    }
}

/// Some candidate within the budget, added to the theory, fails
/// preparation.
pub open spec fn some_candidate_fails(th: Theory, goal: Literal, base: Seq<Conclusion>, max_raw: usize) -> bool {
    let cl = budget_candidates(th, goal, base, max_raw);
    exists|i: int, mods: Seq<Rule>|
        0 <= i < cl.len() && #[trigger] with_facts(th.spec_rules(), cl[i].1, i as nat, mods) && rules_fail(
            mods,
            PrepareOptions::spec_default(),
        )
}

/// The theory is small enough for its candidates to be verified.
pub open spec fn verifiable(th: Theory) -> bool {
    &&& reasonable(th)
    &&& 2 * (2 * lits_in(th.spec_rules()) + 1) + 1 < usize::MAX
}

/// Adding facts that carry the same data gives the same theories.
proof fn lemma_with_facts_same(rules: Seq<Rule>, a: Seq<Literal>, b: Seq<Literal>, ci: nat, mods: Seq<Rule>)
    requires
        with_facts(rules, a, ci, mods),
        same_lits(a, b),
    ensures
        with_facts(rules, b, ci, mods),
{
    assert forall|j: int| 0 <= j < b.len() implies #[trigger] fact_at(mods, rules.len() as int, b, ci, j) by {
        assert(fact_at(mods, rules.len() as int, a, ci, j));
        assert(same_lit(a[j], b[j]));
    }
}

/// With one verdict more, the count of true verdicts and the accepted candidates follow.
proof fn lemma_verdict_push(c: Seq<Entry>, vs: Seq<bool>, v: bool)
    requires
        vs.len() < c.len(),
    ensures
        count_true(vs.push(v)) == count_true(vs) + (if v {
            1nat
        } else {
            0nat
        }),
        accepted_of(c, vs.push(v)) == accepted_of(c, vs) + (if v {
            seq![c[vs.len() as int]]
        } else {
            Seq::empty()
        }),
        vs.push(v).take(vs.len() as int) == vs,
{
    assert(vs.push(v).drop_last() =~= vs);
    assert(vs.push(v).take(vs.len() as int) =~= vs);
}

/// The count of true verdicts is at most their number.
proof fn lemma_count_le(vs: Seq<bool>)
    ensures
        count_true(vs) <= vs.len(),
    decreases vs.len(),
{
    if vs.len() > 0 {
        lemma_count_le(vs.drop_last());
    }
}

/// Verified search: abduce raw candidates (one more than the budget, to
/// tell whether the budget ran out), then, fewest facts first, add each
/// candidate's facts to a copy of the theory and reason again; keep the
/// candidates that make some positive conclusion be about the goal's
/// literal, until `max_solutions` are kept or the budget is spent.
pub fn requires_with_options(theory: &Theory, goal: &Literal, options: RequiresOptions) -> (r: Result<RequiresResult, SpindleError>)
    requires
        options.max_solutions > 0 && options.max_raw_candidates > 0 ==> verifiable(*theory),
    ensures
        options.max_solutions == 0 ==> (r matches Err(e) && crate::error::validation_message(e) == Some(
            "requires options: max_solutions must be >= 1"@,
        )),
        options.max_solutions > 0 && options.max_raw_candidates == 0 ==> (r matches Err(e) && crate::error::validation_message(e)
            == Some("requires options: max_raw_candidates must be >= 1"@)),
        r matches Ok(res) ==> options.max_solutions > 0 && options.max_raw_candidates > 0 && exists|base: Seq<Conclusion>, vs: Seq<bool>|
            #[trigger] reasoned_with(*theory, PrepareOptions::spec_default(), base) && #[trigger] requires_outcome(
                *theory,
                *goal,
                base,
                options,
                vs,
                res,
            ),
        options.max_solutions > 0 && options.max_raw_candidates > 0 && prepare_fails(*theory, PrepareOptions::spec_default())
            ==> r is Err,
        options.max_solutions > 0 && options.max_raw_candidates > 0 && r is Err ==> prepare_fails(
            *theory,
            PrepareOptions::spec_default(),
        ) || exists|base: Seq<Conclusion>|
            #[trigger] reasoned_with(*theory, PrepareOptions::spec_default(), base) && some_candidate_fails(
                *theory,
                *goal,
                base,
                options.max_raw_candidates,
            ),
{
    if options.max_solutions == 0 {
        return Err(SpindleError::Validation { message: String::from_str("requires options: max_solutions must be >= 1") });
    }
    if options.max_raw_candidates == 0 {
        return Err(
            SpindleError::Validation { message: String::from_str("requires options: max_raw_candidates must be >= 1") },
        );
    }
    let raw_request_limit = if options.max_raw_candidates == usize::MAX {
        options.max_raw_candidates
    } else {
        options.max_raw_candidates + 1
    };
    let raw_result = match abduce(theory, goal, raw_request_limit) {
        Ok(res) => res,
        Err(e) => {
            return Err(e);
        },
    };
    let ghost base = choose|cs: Seq<Conclusion>|
        reasoned_with(*theory, PrepareOptions::spec_default(), cs) && #[trigger] abduced(
            theory.spec_rules(),
            *goal,
            cs,
            raw_request_limit as nat,
            raw_result,
        );
    let ghost t = sorted_entries(raw_candidates(theory.spec_rules(), *goal, base));
    proof {
        lemma_raw_candidates_facts(theory.spec_rules(), *goal, base);
        if !some_proof(base, *goal) {
            assert(sorted_entries_of(t, raw_candidates(theory.spec_rules(), *goal, base)));
        }
    }
    if raw_result.is_already_provable() {
        let res = RequiresResult {
            already_provable: true,
            solutions: Vec::new(),
            search_status: RequiresSearchStatus::BoundedComplete,
            verification: RequiresVerificationStats::default(),
        };
        proof {
            if !some_proof(base, *goal) {
                let raw = raw_candidates(theory.spec_rules(), *goal, base);
                let i = choose|i: int| 0 <= i < raw_result.solutions@.len() && (#[trigger] raw_result.solutions@[i]).facts@.len() == 0;
                assert(sol_is(raw_result.solutions@[i], t[i]));
                assert(t.contains(t[i]));
                assert(raw.contains(t[i]));
                let k = choose|k: int| 0 <= k < raw.len() && raw[k] == t[i];
                assert(raw[k].1.len() > 0);
            }
            assert(requires_outcome(*theory, *goal, base, options, Seq::<bool>::empty(), res));
        }
        return Ok(res);
    }
    proof {
        if some_proof(base, *goal) {
            assert(raw_result.solutions@[0].facts@.len() == 0);
        }
        assert(!some_proof(base, *goal));
    }
    let total = raw_result.solutions.len();
    let raw_budget_exceeded = total > options.max_raw_candidates;
    let n = if total < options.max_raw_candidates {
        total
    } else {
        options.max_raw_candidates
    };
    let ghost cl = budget_candidates(*theory, *goal, base, options.max_raw_candidates);
    let mut sols = raw_result.solutions;
    let mut accepted: Vec<AbductionSolution> = Vec::new();
    let mut examined: usize = 0;
    let mut n_accepted: usize = 0;
    let mut n_rejected: usize = 0;
    let ghost mut vs: Seq<bool> = Seq::empty();
    let ghost all = sols@;
    proof {
        assert(cl.len() == n);
        assert(all.skip(0) =~= all);
        let raw = raw_candidates(theory.spec_rules(), *goal, base);
        assert forall|i: int| 0 <= i < n implies 0 < (#[trigger] cl[i]).1.len() <= lits_in(theory.spec_rules()) + 1 by {
            assert(cl[i] == t[i]);
            assert(t.contains(t[i]));
            assert(raw.contains(t[i]));
            let k = choose|k: int| 0 <= k < raw.len() && raw[k] == t[i];
            assert(0 < raw[k].1.len() <= lits_in(theory.spec_rules()) + 1);
        }
        assert forall|i: int| 0 <= i < n implies #[trigger] sol_is(all[i], cl[i]) by {
            assert(cl[i] == t[i]);
            assert(sol_is(raw_result.solutions@[i], t[i]));
        }
    }
    while examined < n
        invariant
            reasoned_with(*theory, PrepareOptions::spec_default(), base),
            verifiable(*theory),
            n <= all.len(),
            cl == budget_candidates(*theory, *goal, base, options.max_raw_candidates),
            cl.len() == n,
            forall|i: int| 0 <= i < n ==> #[trigger] sol_is(all[i], cl[i]),
            forall|i: int| 0 <= i < n ==> 0 < (#[trigger] cl[i]).1.len() <= lits_in(theory.spec_rules()) + 1,
            0 <= examined <= n,
            sols@ == all.skip(examined as int),
            vs.len() == examined,
            n_accepted == count_true(vs),
            n_rejected == examined - count_true(vs),
            forall|e: int| 0 <= e < vs.len() ==> count_true(#[trigger] vs.take(e)) < options.max_solutions,
            forall|i: int| 0 <= i < vs.len() ==> #[trigger] verdict(*theory, *goal, cl[i].1, i as nat, vs[i]),
            accepted@.len() == accepted_of(cl, vs).len(),
            forall|i: int| 0 <= i < accepted@.len() ==> #[trigger] sol_is(accepted@[i], accepted_of(cl, vs)[i]),
        ensures
            examined == n || n_accepted >= options.max_solutions,
        decreases n - examined,
    {
        if n_accepted >= options.max_solutions {
            break;
        }
        let cand = sols.remove(0);
        proof {
            assert(cand == all[examined as int]);
            assert(sols@ =~= all.skip(examined + 1));
            assert(sol_is(cand, cl[examined as int]));
            assert(cand.facts@.len() == cl[examined as int].1.len());
            lemma_count_le(vs);
        }
        let ghost e0 = examined as int;
        match verify_candidate(theory, goal, &cand.facts, examined) {
            Ok(b) => {
                proof {
                    let (mods, mc) = choose|mods: Seq<Rule>, mc: Seq<Conclusion>|
                        #[trigger] with_facts(theory.spec_rules(), cand.facts@, examined as nat, mods) && !rules_fail(
                            mods,
                            PrepareOptions::spec_default(),
                        ) && #[trigger] reasoned_over(mods, theory.spec_sups(), mc) && b == goal_proven(mc, *goal);
                    lemma_with_facts_same(theory.spec_rules(), cand.facts@, cl[e0].1, examined as nat, mods);
                    assert(verdict(*theory, *goal, cl[e0].1, examined as nat, b));
                    lemma_verdict_push(cl, vs, b);
                    let vs2 = vs.push(b);
                    assert forall|e: int| 0 <= e < vs2.len() implies count_true(#[trigger] vs2.take(e)) < options.max_solutions by {
                        if e < vs.len() {
                            assert(vs2.take(e) =~= vs.take(e));
                        }
                    }
                    assert forall|i: int| 0 <= i < vs2.len() implies #[trigger] verdict(*theory, *goal, cl[i].1, i as nat, vs2[i]) by {
                        if i < vs.len() {
                            assert(vs2[i] == vs[i]);
                        }
                    }
                    vs = vs2;
                }
                if b {
                    accepted.push(cand);
                    n_accepted = n_accepted + 1;
                } else {
                    n_rejected = n_rejected + 1;
                }
            },
            Err(e) => {
                proof {
                    let mods = choose|mods: Seq<Rule>|
                        #[trigger] with_facts(theory.spec_rules(), cand.facts@, examined as nat, mods) && rules_fail(
                            mods,
                            PrepareOptions::spec_default(),
                        );
                    lemma_with_facts_same(theory.spec_rules(), cand.facts@, cl[e0].1, examined as nat, mods);
                    assert((e0 as nat) == (examined as nat));
                    assert(with_facts(theory.spec_rules(), cl[e0].1, e0 as nat, mods));
                    assert(some_candidate_fails(*theory, *goal, base, options.max_raw_candidates));
                }
                return Err(e);
            },
        }
        examined = examined + 1;
    }
    let search_status = if n_accepted >= options.max_solutions {
        RequiresSearchStatus::BoundedComplete
    } else if raw_budget_exceeded {
        RequiresSearchStatus::BudgetExhausted
    } else {
        RequiresSearchStatus::BoundedComplete
    };
    let res = RequiresResult {
        already_provable: false,
        solutions: accepted,
        search_status,
        verification: RequiresVerificationStats { raw_examined: examined, accepted: n_accepted, rejected: n_rejected },
    };
    proof {
        assert(requires_outcome(*theory, *goal, base, options, vs, res));
    }
    Ok(res)
}


/// The facts of the first verified solution with the default options, or
/// none when there is no verified solution (or the goal is already
/// provable).
pub fn requires_facts(theory: &Theory, goal: &Literal) -> (r: Result<Vec<Literal>, SpindleError>)
    requires
        verifiable(*theory),
    ensures
        r matches Ok(v) ==> exists|base: Seq<Conclusion>, vs: Seq<bool>, res: RequiresResult|
            #[trigger] reasoned_with(*theory, PrepareOptions::spec_default(), base) && #[trigger] requires_outcome(
                *theory,
                *goal,
                base,
                RequiresOptions { max_solutions: 1, max_raw_candidates: DEFAULT_MAX_RAW_CANDIDATES },
                vs,
                res,
            ) && (if res.solutions@.len() > 0 {
                same_lits(v@, res.solutions@[0].facts@)
            } else {
                v@.len() == 0
            }),
        prepare_fails(*theory, PrepareOptions::spec_default()) ==> r is Err,
        r is Err ==> prepare_fails(*theory, PrepareOptions::spec_default()) || exists|base: Seq<Conclusion>|
            #[trigger] reasoned_with(*theory, PrepareOptions::spec_default(), base) && some_candidate_fails(
                *theory,
                *goal,
                base,
                DEFAULT_MAX_RAW_CANDIDATES,
            ),
{
    let opts = RequiresOptions { max_solutions: 1, max_raw_candidates: DEFAULT_MAX_RAW_CANDIDATES };
    match requires_with_options(theory, goal, opts) {
        Ok(res) => {
            if res.solutions.len() > 0 {
                let v = crate::rule::clone_literals(&res.solutions[0].facts);
                proof {
                    assert forall|i: int| 0 <= i < v@.len() implies #[trigger] same_lit(v@[i], res.solutions@[0].facts@[i]) by {
                        assert(same_lit(v@[i], res.solutions[0].facts@[i]));
                    }
                }
                Ok(v)
            } else {
                Ok(Vec::new())
            }
        },
        Err(e) => Err(e),
    }
}

} // verus!
