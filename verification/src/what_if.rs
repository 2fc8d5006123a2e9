//! What-if: hypothetical reasoning. The hypotheses are added to a copy of
//! the theory as facts, the copy is reasoned over, and the result reports the
//! goal's status, the literals newly proven, and the literals whose strongest
//! conclusion changed.

use vstd::prelude::*;
use crate::conclusion::{Conclusion, ConclusionType};
use crate::error::SpindleError;
use crate::index::lits_in;
use crate::literal::Literal;
use crate::pipeline::{PrepareOptions, prepare_fails, rules_fail, lemma_rules_fail_same_data};
use crate::query::{QueryResult, evaluate_query, query_outcome};
use crate::reason::{lemma_reasoned_plain, reason, reasonable, reasoned_with, reasoned_over};
use crate::rule::{Rule, RuleType, same_lit, same_lits, same_rule, same_rule_data, same_rules_data};
use crate::temporal::Temporal;
use crate::text::{decimal, push_decimal};
use crate::theory::{Theory, has_label};

verus! {

/// A hypothesis: a literal, possibly with the source that claims it.
#[derive(Debug, Clone)]
pub struct HypotheticalClaim {
    /// Who claims it, if known.
    pub source: Option<String>,
    /// The claimed literal.
    pub literal: Literal,
}

impl HypotheticalClaim {
    /// An anonymous claim.
    pub fn new(literal: Literal) -> (r: Self)
        ensures
            r.source.is_none(),
            r.literal == literal,
    {
        HypotheticalClaim { source: None, literal }
    }

    /// A claim made by `source`.
    pub fn with_source(literal: Literal, source: &str) -> (r: Self)
        ensures
            r.source.is_some() && r.source.unwrap()@ == source@,
            r.literal == literal,
    {
        HypotheticalClaim { source: Some(source.to_owned()), literal }
    }
}

/// The result of a what-if query.
#[derive(Debug)]
pub struct WhatIfResult {
    /// The hypotheses assumed.
    pub hypotheticals: Vec<HypotheticalClaim>,
    /// The goal's status under the hypotheses.
    pub result: QueryResult,
    /// The literals proven under the hypotheses and not before.
    pub new_conclusions: Vec<Literal>,
    /// The literals whose strongest conclusion changed: the literal, the
    /// strongest kind before, and the strongest kind after.
    pub changed_conclusions: Vec<(Literal, ConclusionType, ConclusionType)>,
}

impl WhatIfResult {
    /// Whether the goal is provable under the hypotheses.
    pub fn is_provable(&self) -> (r: bool)
        ensures
            r == (self.result.status == crate::query::QueryStatus::Provable),
    {
        self.result.is_provable()
    }

    /// The literals newly proven.
    pub fn newly_provable(&self) -> (r: &[Literal])
        ensures
            r@ == self.new_conclusions@,
    {
        self.new_conclusions.as_slice()
    }
}

/// The label `__hyp_<id>_<k>`.
pub open spec fn hyp_label(id: u64, k: int) -> Seq<char> {
    "__hyp_"@ + decimal(id as nat) + "_"@ + decimal(k as nat)
}

/// `label` is the first of `__hyp_0_<k>` for `k` from `s` up that no rule
/// carries.
pub open spec fn first_hyp(rules: Seq<Rule>, s: int, label: Seq<char>) -> bool {
    exists|k: int|
        #![trigger hyp_label(0, k)]
        s <= k && label == hyp_label(0, k) && !has_label(rules, label) && forall|j: int|
            s <= j < k ==> has_label(rules, #[trigger] hyp_label(0, j))
}

/// Hypothesis labels with different numbers differ.
proof fn lemma_hyp_label_injective(a: int, b: int)
    requires
        0 <= a,
        0 <= b,
        hyp_label(0, a) == hyp_label(0, b),
    ensures
        a == b,
{
    let pref = "__hyp_"@ + decimal(0) + "_"@;
    assert(hyp_label(0, a) =~= pref + decimal(a as nat));
    assert(hyp_label(0, b) =~= pref + decimal(b as nat));
    crate::requirement::lemma_numbered_injective(pref, a as nat, b as nat);
}

/// When the labels `__hyp_0_<k>` for `k` in `s..s + m` are all taken, there
/// are at least `m` rules.
proof fn lemma_hyp_fit(rules: Seq<Rule>, s: int, m: nat)
    requires
        0 <= s,
        forall|j: int| s <= j < s + m ==> has_label(rules, #[trigger] hyp_label(0, j)),
    ensures
        m <= rules.len(),
{
    let cands = Seq::new(m, |j: int| hyp_label(0, s + j));
    let taken = crate::bridge::labels_of(rules);
    assert(cands.no_duplicates()) by {
        assert forall|i: int, j: int| 0 <= i < cands.len() && 0 <= j < cands.len() && i != j implies cands[i] != cands[j] by {
            if cands[i] == cands[j] {
                lemma_hyp_label_injective(s + i, s + j);
            }
        }
    }
    cands.unique_seq_to_set();
    taken.lemma_cardinality_of_set();
    vstd::seq_lib::seq_to_set_is_finite(taken);
    assert(cands.to_set().subset_of(taken.to_set())) by {
        assert forall|x: Seq<char>| cands.to_set().contains(x) implies taken.to_set().contains(x) by {
            let i = choose|i: int| 0 <= i < cands.len() && cands[i] == x;
            assert(has_label(rules, hyp_label(0, s + i)));
            let r = choose|r: int| 0 <= r < rules.len() && (#[trigger] rules[r]).label@ == x;
            assert(taken[r] == x);
        }
    }
    vstd::set_lib::lemma_len_subset(cands.to_set(), taken.to_set());
}

/// Some label among `__hyp_0_<k>`, `k` in `s..=s + rules.len()`, is free.
proof fn lemma_hyp_free(rules: Seq<Rule>, s: int)
    requires
        0 <= s,
    ensures
        exists|k: int| s <= k <= s + rules.len() && !has_label(rules, #[trigger] hyp_label(0, k)),
{
    if !exists|k: int| s <= k <= s + rules.len() && !has_label(rules, #[trigger] hyp_label(0, k)) {
        assert forall|j: int| s <= j < s + (rules.len() + 1) implies has_label(rules, #[trigger] hyp_label(0, j)) by {}
        lemma_hyp_fit(rules, s, (rules.len() + 1) as nat);
    }
}

/// A label for a hypothesis that no rule of `theory` carries: the first of
/// `__hyp_<id>_<k>` for `k` from `start_index` (at least 1) up.
pub fn next_hyp_label(theory: &Theory, unique_id: u64, start_index: usize) -> (r: String)
    ensures
        !has_label(theory.spec_rules(), r@),
        ({
            let s = if start_index < 1 {
                1int
            } else {
                start_index as int
            };
            let n = theory.spec_rules().len() as int;
            (s + n <= usize::MAX && exists|k: int| s <= k <= s + n && !has_label(theory.spec_rules(), #[trigger] hyp_label(unique_id, k)))
                ==> exists|k: int|
                s <= k <= s + n && r@ == hyp_label(unique_id, k) && forall|j: int| s <= j < k ==> has_label(
                    theory.spec_rules(),
                    #[trigger] hyp_label(unique_id, j),
                )
        }),
{
    let s: usize = if start_index < 1 {
        1
    } else {
        start_index
    };
    let n = theory.rule_count();
    let mut offset: usize = 0;
    while offset <= n && s <= usize::MAX - offset
        invariant
            n == theory.spec_rules().len(),
            s as int == (if start_index < 1 {
                1int
            } else {
                start_index as int
            }),
            0 <= offset <= n + 1,
            forall|j: int| s <= j < s + offset ==> has_label(theory.spec_rules(), #[trigger] hyp_label(unique_id, j)),
        decreases n + 1 - offset,
    {
        let k = s + offset;
        let mut candidate = String::from_str("__hyp_");
        push_decimal(&mut candidate, unique_id);
        candidate.append("_");
        push_decimal(&mut candidate, k as u64);
        proof {
            assert(candidate@ =~= hyp_label(unique_id, k as int));
        }
        if !theory.has_rule(candidate.as_str()) {
            proof {
                let ss: int = if start_index < 1 {
                    1int
                } else {
                    start_index as int
                };
                assert(ss == s as int);
                let nn = theory.spec_rules().len() as int;
                assert(ss <= k <= ss + nn && candidate@ == hyp_label(unique_id, k as int) && forall|j: int| ss <= j < k ==> has_label(
                    theory.spec_rules(),
                    #[trigger] hyp_label(unique_id, j),
                ));
            }
            return candidate;
        }
        if offset == usize::MAX {
            return theory.fresh_label("__hyp_");
        }
        offset = offset + 1;
    }
    proof {
        if s + n <= usize::MAX && exists|k: int| s <= k <= s + n && !has_label(theory.spec_rules(), #[trigger] hyp_label(unique_id, k)) {
            let k = choose|k: int| s <= k <= s + n && !has_label(theory.spec_rules(), #[trigger] hyp_label(unique_id, k));
            assert(offset > n);
            assert(has_label(theory.spec_rules(), hyp_label(unique_id, k)));
        }
    }
    theory.fresh_label("__hyp_")
}

/// Two literals are the same, bounds included.
pub open spec fn exact_same(a: Literal, b: Literal) -> bool {
    a.same_as(&b) && a.temporal == b.temporal
}

/// Some positive conclusion of `cs` is about `l`, bounds included.
#[verifier::opaque]
pub open spec fn positive_exact(cs: Seq<Conclusion>, l: Literal) -> bool {
    exists|i: int| 0 <= i < cs.len() && (#[trigger] cs[i]).conclusion_type.spec_is_positive() && exact_same(cs[i].literal, l)
}

/// The strongest kind of conclusion about `l` (bounds included) in `cs`.
pub open spec fn strongest(cs: Seq<Conclusion>, l: Literal) -> Option<ConclusionType>
    decreases cs.len(),
{
    if cs.len() == 0 {
        None
    } else {
        let prev = strongest(cs.drop_last(), l);
        let c = cs.last();
        if exact_same(c.literal, l) {
            match prev {
                None => Some(c.conclusion_type),
                Some(p) => if c.conclusion_type.spec_strength() > p.spec_strength() {
                    Some(c.conclusion_type)
                } else {
                    Some(p)
                },
            }
        } else {
            prev
        }
    }
}

/// Each literal of `new` is proven by `mc` and not by `base`.
pub open spec fn new_sound(base: Seq<Conclusion>, mc: Seq<Conclusion>, new: Seq<Literal>) -> bool {
    forall|k: int| #![trigger new[k]] 0 <= k < new.len() ==> exists|j: int|
        0 <= j < mc.len() && (#[trigger] mc[j]).conclusion_type.spec_is_positive() && same_lit(new[k], mc[j].literal)
            && !positive_exact(base, mc[j].literal)
}

/// Each literal proven by one of the first `n` conclusions of `mc` and not by
/// `base` is listed in `new`.
pub open spec fn new_covers(base: Seq<Conclusion>, mc: Seq<Conclusion>, new: Seq<Literal>, n: int) -> bool {
    forall|j: int|
        0 <= j < n && (#[trigger] mc[j]).conclusion_type.spec_is_positive() && !positive_exact(base, mc[j].literal)
            ==> exists|k: int| 0 <= k < new.len() && exact_same(#[trigger] new[k], mc[j].literal)
}

/// No literal is listed twice.
pub open spec fn lits_distinct(new: Seq<Literal>) -> bool {
    forall|k1: int, k2: int| 0 <= k1 < k2 < new.len() ==> !exact_same(#[trigger] new[k1], #[trigger] new[k2])
}

/// `new` lists, once each, the literals that the first `n` conclusions of
/// `mc` prove and `base` does not.
pub open spec fn new_ok_upto(base: Seq<Conclusion>, mc: Seq<Conclusion>, new: Seq<Literal>, n: int) -> bool {
    &&& new_sound(base, mc, new)
    &&& new_covers(base, mc, new, n)
    &&& lits_distinct(new)
}

/// `new` lists, once each, the literals that `mc` proves and `base` does not.
pub open spec fn new_conclusions_ok(base: Seq<Conclusion>, mc: Seq<Conclusion>, new: Seq<Literal>) -> bool {
    new_ok_upto(base, mc, new, mc.len() as int)
}

/// `ch` lists, once each, the literals of the first `n` conclusions of `mc`
/// whose strongest conclusion differs between `base` and `mc`, with both kinds.
pub open spec fn changed_ok_upto(
    base: Seq<Conclusion>,
    mc: Seq<Conclusion>,
    ch: Seq<(Literal, ConclusionType, ConclusionType)>,
    n: int,
) -> bool {
    &&& forall|k: int| #![trigger ch[k]] 0 <= k < ch.len() ==> {
        &&& strongest(base, ch[k].0) == Some(ch[k].1)
        &&& strongest(mc, ch[k].0) == Some(ch[k].2)
        &&& ch[k].1 != ch[k].2
        &&& exists|i: int| 0 <= i < n && same_lit(ch[k].0, #[trigger] mc[i].literal)
    }
    &&& forall|i: int|
        0 <= i < n && strongest(base, (#[trigger] mc[i]).literal) is Some && strongest(base, mc[i].literal)
            != strongest(mc, mc[i].literal) ==> exists|k: int| 0 <= k < ch.len() && exact_same(#[trigger] ch[k].0, mc[i].literal)
    &&& forall|k1: int, k2: int| 0 <= k1 < k2 < ch.len() ==> !exact_same(#[trigger] ch[k1].0, #[trigger] ch[k2].0)
}

/// `ch` lists, once each, the literals of `mc` whose strongest conclusion
/// differs between `base` and `mc`, with both kinds.
pub open spec fn changed_ok(base: Seq<Conclusion>, mc: Seq<Conclusion>, ch: Seq<(Literal, ConclusionType, ConclusionType)>) -> bool {
    changed_ok_upto(base, mc, ch, mc.len() as int)
}

/// Whether two literals are the same, bounds included.
fn exact_same_exec(a: &Literal, b: &Literal) -> (r: bool)
    ensures
        r == exact_same(*a, *b),
{
    *a == *b && a.temporal == b.temporal
}

/// Whether some positive conclusion is about `l`, bounds included.
fn positive_exact_exec(cs: &Vec<Conclusion>, l: &Literal) -> (r: bool)
    ensures
        r == positive_exact(cs@, *l),
{
    reveal(positive_exact);
    let mut i: usize = 0;
    while i < cs.len()
        invariant
            0 <= i <= cs@.len(),
            forall|j: int| 0 <= j < i ==> !((#[trigger] cs@[j]).conclusion_type.spec_is_positive() && exact_same(cs@[j].literal, *l)),
        decreases cs@.len() - i,
    {
        if cs[i].conclusion_type.is_positive() && exact_same_exec(&cs[i].literal, l) {
            proof {
                reveal(positive_exact);
                assert(cs@[i as int].conclusion_type.spec_is_positive() && exact_same(cs@[i as int].literal, *l));
            }
            return true;
        }
        i = i + 1;
    }
    false
}

/// The strongest kind of conclusion about `l` in `cs`.
fn strongest_exec(cs: &Vec<Conclusion>, l: &Literal) -> (r: Option<ConclusionType>)
    ensures
        r == strongest(cs@, *l),
{
    let mut best: Option<ConclusionType> = None;
    let mut i: usize = 0;
    while i < cs.len()
        invariant
            0 <= i <= cs@.len(),
            best == strongest(cs@.take(i as int), *l),
        decreases cs@.len() - i,
    {
        proof {
            assert(cs@.take(i + 1).drop_last() =~= cs@.take(i as int));
            assert(cs@.take(i + 1).last() == cs@[i as int]);
        }
        if exact_same_exec(&cs[i].literal, l) {
            let t = cs[i].conclusion_type;
            best = match best {
                None => Some(t),
                Some(p) => if t.strength() > p.strength() {
                    Some(t)
                } else {
                    Some(p)
                },
            };
        }
        i = i + 1;
    }
    proof {
        assert(cs@.take(cs@.len() as int) =~= cs@);
    }
    best
}

/// Exact sameness does not see the difference between literals carrying the same data.
proof fn lemma_exact_same_lit(a: Literal, b: Literal, x: Literal)
    requires
        same_lit(a, b),
    ensures
        exact_same(a, x) == exact_same(b, x),
        exact_same(x, a) == exact_same(x, b),
{
}

/// The strongest kind depends only on the data the literal carries.
proof fn lemma_strongest_same_lit(cs: Seq<Conclusion>, a: Literal, b: Literal)
    requires
        same_lit(a, b),
    ensures
        strongest(cs, a) == strongest(cs, b),
    decreases cs.len(),
{
    if cs.len() > 0 {
        lemma_strongest_same_lit(cs.drop_last(), a, b);
        lemma_exact_same_lit(a, b, cs.last().literal);
    }
}

/// The strongest kind is the same for literals that are exactly the same.
proof fn lemma_strongest_exact(cs: Seq<Conclusion>, a: Literal, b: Literal)
    requires
        exact_same(a, b),
    ensures
        strongest(cs, a) == strongest(cs, b),
    decreases cs.len(),
{
    if cs.len() > 0 {
        lemma_strongest_exact(cs.drop_last(), a, b);
    }
}

/// A literal that some conclusion is about has a strongest kind.
proof fn lemma_strongest_some(cs: Seq<Conclusion>, i: int, l: Literal)
    requires
        0 <= i < cs.len(),
        exact_same(cs[i].literal, l),
    ensures
        strongest(cs, l) is Some,
    decreases cs.len(),
{
    if i < cs.len() - 1 {
        assert(cs.drop_last()[i] == cs[i]);
        lemma_strongest_some(cs.drop_last(), i, l);
    }
}

/// The literals that `mc` proves and `base` does not, once each, in order
/// of first appearance in `mc`.
pub fn new_literals(base: &Vec<Conclusion>, mc: &Vec<Conclusion>) -> (new: Vec<Literal>)
    ensures
        new_conclusions_ok(base@, mc@, new@),
{
    let mut new: Vec<Literal> = Vec::new();
    let mut i: usize = 0;
    while i < mc.len()
        invariant
            0 <= i <= mc@.len(),
            new_ok_upto(base@, mc@, new@, i as int),
        decreases mc@.len() - i,
    {
        consider_new(base, mc, i, &mut new);
        i = i + 1;
    }
    new
}

/// Whether some entry of `new` is exactly `lit`.
fn listed(new: &Vec<Literal>, lit: &Literal) -> (r: bool)
    ensures
        r == exists|q: int| 0 <= q < new@.len() && exact_same(#[trigger] new@[q], *lit),
{
    let mut k: usize = 0;
    while k < new.len()
        invariant
            0 <= k <= new@.len(),
            forall|q: int| 0 <= q < k ==> !exact_same(#[trigger] new@[q], *lit),
        decreases new@.len() - k,
    {
        if exact_same_exec(&new[k], lit) {
            return true;
        }
        k = k + 1;
    }
    false
}

/// One step of [`new_literals`]: take conclusion `i` of `mc` into account.
fn consider_new(base: &Vec<Conclusion>, mc: &Vec<Conclusion>, i: usize, new: &mut Vec<Literal>)
    requires
        i < mc@.len(),
        new_ok_upto(base@, mc@, old(new)@, i as int),
    ensures
        new_ok_upto(base@, mc@, final(new)@, i + 1),
{
    let lit = &mc[i].literal;
    let seen_new = listed(new, lit);
    if mc[i].conclusion_type.is_positive() && !positive_exact_exec(base, lit) && !seen_new {
        let ghost before = new@;
        new.push(lit.duplicate());
        proof {
            let x = new@[before.len() as int];
            assert(same_lit(x, *lit));
            assert forall|k1: int, k2: int| 0 <= k1 < k2 < new@.len() implies !exact_same(#[trigger] new@[k1], #[trigger] new@[k2]) by {
                if k2 < before.len() {
                    assert(new@[k1] == before[k1]);
                    assert(new@[k2] == before[k2]);
                } else {
                    assert(new@[k1] == before[k1]);
                    lemma_exact_same_lit(x, *lit, before[k1]);
                }
            }
            assert forall|k2: int| #![trigger new@[k2]] 0 <= k2 < new@.len() implies exists|j: int|
                0 <= j < mc@.len() && (#[trigger] mc@[j]).conclusion_type.spec_is_positive() && same_lit(new@[k2], mc@[j].literal)
                    && !positive_exact(base@, mc@[j].literal) by {
                if k2 < before.len() {
                    assert(new@[k2] == before[k2]);
                } else {
                    assert(same_lit(new@[k2], mc@[i as int].literal));
                }
            }
            assert forall|j: int|
                0 <= j < i + 1 && (#[trigger] mc@[j]).conclusion_type.spec_is_positive() && !positive_exact(base@, mc@[j].literal)
                    implies exists|q: int| 0 <= q < new@.len() && exact_same(#[trigger] new@[q], mc@[j].literal) by {
                if j < i {
                    let q = choose|q: int| 0 <= q < before.len() && exact_same(#[trigger] before[q], mc@[j].literal);
                    assert(new@[q] == before[q]);
                } else {
                    lemma_exact_same_lit(x, *lit, mc@[j].literal);
                }
            }
        }
    } else {
        proof {
            assert forall|j: int|
                0 <= j < i + 1 && (#[trigger] mc@[j]).conclusion_type.spec_is_positive() && !positive_exact(base@, mc@[j].literal)
                    implies exists|q: int| 0 <= q < new@.len() && exact_same(#[trigger] new@[q], mc@[j].literal) by {
                if j == i {
                    let q = choose|q: int| 0 <= q < new@.len() && exact_same(#[trigger] new@[q], *lit);
                    assert(exact_same(new@[q], mc@[j].literal));
                }
            }
        }
    }
}

/// The literals of `mc` whose strongest conclusion differs between `base`
/// and `mc`, once each, in order of first appearance in `mc`.
pub fn changed_literals(base: &Vec<Conclusion>, mc: &Vec<Conclusion>) -> (changed: Vec<(Literal, ConclusionType, ConclusionType)>)
    ensures
        changed_ok(base@, mc@, changed@),
{
    let mut changed: Vec<(Literal, ConclusionType, ConclusionType)> = Vec::new();
    let mut i: usize = 0;
    while i < mc.len()
        invariant
            0 <= i <= mc@.len(),
            changed_ok_upto(base@, mc@, changed@, i as int),
        decreases mc@.len() - i,
    {
        let lit = &mc[i].literal;
        let mut seen_changed = false;
        let mut c: usize = 0;
        while c < changed.len()
            invariant
                0 <= c <= changed@.len(),
                seen_changed == exists|q: int| 0 <= q < c && exact_same(#[trigger] changed@[q].0, *lit),
            decreases changed@.len() - c,
        {
            if exact_same_exec(&changed[c].0, lit) {
                seen_changed = true;
            }
            c = c + 1;
        }
        let old_type = strongest_exec(base, lit);
        let new_type = strongest_exec(mc, lit);
        proof {
            lemma_strongest_some(mc@, i as int, *lit);
        }
        let ghost before = changed@;
        if !seen_changed {
            match (old_type, new_type) {
                (Some(o), Some(n)) => {
                    if o != n {
                        changed.push((lit.duplicate(), o, n));
                        proof {
                            let x = changed@[before.len() as int].0;
                            assert(same_lit(x, *lit));
                            lemma_strongest_same_lit(base@, x, *lit);
                            lemma_strongest_same_lit(mc@, x, *lit);
                            assert forall|k1: int, k2: int| 0 <= k1 < k2 < changed@.len() implies !exact_same(#[trigger] changed@[k1].0, #[trigger] changed@[k2].0) by {
                                if k2 < before.len() {
                                    assert(changed@[k1] == before[k1]);
                                    assert(changed@[k2] == before[k2]);
                                } else {
                                    assert(changed@[k1] == before[k1]);
                                    lemma_exact_same_lit(x, *lit, before[k1].0);
                                }
                            }
                            assert forall|k2: int| #![trigger changed@[k2]] 0 <= k2 < changed@.len() implies {
                                &&& strongest(base@, changed@[k2].0) == Some(changed@[k2].1)
                                &&& strongest(mc@, changed@[k2].0) == Some(changed@[k2].2)
                                &&& changed@[k2].1 != changed@[k2].2
                                &&& exists|j: int| 0 <= j < i + 1 && same_lit(changed@[k2].0, #[trigger] mc@[j].literal)
                            } by {
                                if k2 < before.len() {
                                    assert(changed@[k2] == before[k2]);
                                } else {
                                    assert(same_lit(changed@[k2].0, mc@[i as int].literal));
                                }
                            }
                            assert forall|j: int|
                                0 <= j < i + 1 && strongest(base@, (#[trigger] mc@[j]).literal) is Some && strongest(base@, mc@[j].literal)
                                    != strongest(mc@, mc@[j].literal) implies exists|q: int| 0 <= q < changed@.len() && exact_same(#[trigger] changed@[q].0, mc@[j].literal) by {
                                if j < i {
                                    let q = choose|q: int| 0 <= q < before.len() && exact_same(#[trigger] before[q].0, mc@[j].literal);
                                    assert(changed@[q] == before[q]);
                                } else {
                                    lemma_exact_same_lit(x, *lit, mc@[j].literal);
                                }
                            }
                        }
                    }
                },
                _ => {},
            }
        } else {
            proof {
                assert forall|j: int|
                    0 <= j < i + 1 && strongest(base@, (#[trigger] mc@[j]).literal) is Some && strongest(base@, mc@[j].literal)
                        != strongest(mc@, mc@[j].literal) implies exists|q: int| 0 <= q < changed@.len() && exact_same(#[trigger] changed@[q].0, mc@[j].literal) by {
                    if j == i {
                        let q = choose|q: int| 0 <= q < changed@.len() && exact_same(#[trigger] changed@[q].0, *lit);
                        assert(exact_same(changed@[q].0, mc@[j].literal));
                    }
                }
            }
        }
        i = i + 1;
    }
    changed
}

/// `mods` is `rules` (carrying the same data) followed by one fact per
/// hypothesis, each with a label that no earlier rule carries.
pub open spec fn hyp_facts(rules: Seq<Rule>, hyps: Seq<HypotheticalClaim>, mods: Seq<Rule>) -> bool {
    &&& mods.len() == rules.len() + hyps.len()
    &&& forall|i: int| 0 <= i < rules.len() ==> #[trigger] same_rule(mods[i], rules[i])
    &&& forall|j: int|
        #![trigger hyps[j]]
        0 <= j < hyps.len() ==> {
            let f = mods[rules.len() + j];
            &&& f.rule_type == RuleType::Fact
            &&& f.body@.len() == 0
            &&& f.head@.len() == 1
            &&& same_lit(f.head@[0], hyps[j].literal)
            &&& f.template_label.is_none()
            &&& f.temporal == Temporal::spec_empty()
            &&& !has_label(mods.take(rules.len() + j), f.label@)
            &&& first_hyp(mods.take(rules.len() + j), j + 1, f.label@)
        }
}

/// There are no more rules than literal occurrences.
proof fn lemma_rules_within_lits(rules: Seq<Rule>)
    ensures
        rules.len() <= lits_in(rules),
    decreases rules.len(),
{
    if rules.len() > 0 {
        lemma_rules_within_lits(rules.drop_last());
    }
}

/// The literal occurrences grow by one with each fact.
proof fn lemma_lits_in_push_fact(rules: Seq<Rule>, f: Rule)
    requires
        f.body@.len() == 0,
    ensures
        lits_in(rules.push(f)) == lits_in(rules) + 1,
{
    assert(rules.push(f).drop_last() =~= rules);
}

/// The result of what-if over the conclusions before (`base`) and after
/// (`mc`) the hypotheses were added.
pub open spec fn what_if_outcome(
    base: Seq<Conclusion>,
    mc: Seq<Conclusion>,
    hyps: Seq<HypotheticalClaim>,
    goal: Literal,
    w: WhatIfResult,
) -> bool {
    &&& w.hypotheticals@ == hyps
    &&& query_outcome(mc, goal, w.result)
    &&& new_conclusions_ok(base, mc, w.new_conclusions@)
    &&& changed_ok(base, mc, w.changed_conclusions@)
}

/// The rules of the theory followed by one fact per hypothesis fail a check
/// of preparation.
pub open spec fn hyp_rules_fail(rules: Seq<Rule>, hyps: Seq<HypotheticalClaim>) -> bool {
    exists|mods: Seq<Rule>| hyp_facts(rules, hyps, mods) && #[trigger] rules_fail(mods, PrepareOptions::spec_default())
}

/// What `what_if` answers: it fails exactly when preparing the theory, or
/// the theory with the hypotheses as facts, fails; otherwise it compares a
/// report of reasoning over the theory with one over the theory and the
/// hypotheses.
pub open spec fn what_if_answer(
    th: Theory,
    hyps: Seq<HypotheticalClaim>,
    goal: Literal,
    r: Result<WhatIfResult, SpindleError>,
) -> bool {
    &&& (r is Ok <==> !prepare_fails(th, PrepareOptions::spec_default()) && !hyp_rules_fail(th.spec_rules(), hyps))
    &&& r matches Ok(w) ==> exists|base: Seq<Conclusion>, mods: Seq<Rule>, mc: Seq<Conclusion>|
        #[trigger] reasoned_with(th, PrepareOptions::spec_default(), base) && hyp_facts(th.spec_rules(), hyps, mods)
            && #[trigger] reasoned_over(mods, th.spec_sups(), mc) && what_if_outcome(base, mc, hyps, goal, w)
}

/// What `what_if_provable` answers: it fails exactly when `what_if` does;
/// otherwise whether some report of reasoning over the theory with the
/// hypotheses as facts proves the goal.
pub open spec fn what_if_provable_answer(
    th: Theory,
    hyps: Seq<HypotheticalClaim>,
    goal: Literal,
    r: Result<bool, SpindleError>,
) -> bool {
    &&& (r is Ok <==> !prepare_fails(th, PrepareOptions::spec_default()) && !hyp_rules_fail(th.spec_rules(), hyps))
    &&& r matches Ok(b) ==> exists|mods: Seq<Rule>, mc: Seq<Conclusion>|
        hyp_facts(th.spec_rules(), hyps, mods) && #[trigger] reasoned_over(mods, th.spec_sups(), mc)
            && (b <==> crate::query::some_proof(mc, goal))
}

/// Rules with the same data as a third carry the same data as each other.
proof fn lemma_same_data_through(a: Rule, b: Rule, c: Rule)
    requires
        same_rule(a, c),
        same_rule(b, c),
    ensures
        same_rule_data(a, b),
{
    assert forall|k: int| 0 <= k < a.body@.len() implies #[trigger] same_lit(a.body@[k], b.body@[k]) by {
        assert(same_lit(a.body@[k], c.body@[k]));
        assert(same_lit(b.body@[k], c.body@[k]));
    }
    assert forall|k: int| 0 <= k < a.head@.len() implies #[trigger] same_lit(a.head@[k], b.head@[k]) by {
        assert(same_lit(a.head@[k], c.head@[k]));
        assert(same_lit(b.head@[k], c.head@[k]));
    }
}

/// Rules with the same data hold the same labels.
proof fn lemma_same_data_labels(a: Seq<Rule>, b: Seq<Rule>, l: Seq<char>)
    requires
        same_rules_data(a, b),
    ensures
        has_label(a, l) == has_label(b, l),
{
    if has_label(a, l) {
        let i = choose|i: int| 0 <= i < a.len() && (#[trigger] a[i]).label@ == l;
        assert(same_rule_data(a[i], b[i]));
    }
    if has_label(b, l) {
        let i = choose|i: int| 0 <= i < b.len() && (#[trigger] b[i]).label@ == l;
        assert(same_rule_data(a[i], b[i]));
    }
}

/// The first free hypothesis label depends only on the labels taken.
proof fn lemma_first_hyp_same(a: Seq<Rule>, b: Seq<Rule>, s: int, x: Seq<char>, y: Seq<char>)
    requires
        0 <= s,
        same_rules_data(a, b),
        first_hyp(a, s, x),
        first_hyp(b, s, y),
    ensures
        x == y,
{
    let kx = choose|k: int|
        #![trigger hyp_label(0, k)]
        s <= k && x == hyp_label(0, k) && !has_label(a, x) && forall|j: int|
            s <= j < k ==> has_label(a, #[trigger] hyp_label(0, j));
    let ky = choose|k: int|
        #![trigger hyp_label(0, k)]
        s <= k && y == hyp_label(0, k) && !has_label(b, y) && forall|j: int|
            s <= j < k ==> has_label(b, #[trigger] hyp_label(0, j));
    lemma_same_data_labels(a, b, x);
    lemma_same_data_labels(a, b, y);
    if kx < ky {
        assert(has_label(b, hyp_label(0, kx)));
    } else if ky < kx {
        assert(has_label(a, hyp_label(0, ky)));
    }
}

/// Two extensions of the same rules by facts for the same hypotheses agree
/// on their first `rules.len() + j` rules.
proof fn lemma_hyp_prefix_agree(rules: Seq<Rule>, hyps: Seq<HypotheticalClaim>, m1: Seq<Rule>, m2: Seq<Rule>, j: int)
    requires
        hyp_facts(rules, hyps, m1),
        hyp_facts(rules, hyps, m2),
        0 <= j <= hyps.len(),
    ensures
        same_rules_data(m1.take(rules.len() + j), m2.take(rules.len() + j)),
    decreases j,
{
    let n = rules.len() as int;
    if j == 0 {
        assert forall|i: int| 0 <= i < n implies #[trigger] same_rule_data(m1.take(n)[i], m2.take(n)[i]) by {
            assert(same_rule(m1[i], rules[i]));
            assert(same_rule(m2[i], rules[i]));
            lemma_same_data_through(m1[i], m2[i], rules[i]);
        }
    } else {
        let q = j - 1;
        lemma_hyp_prefix_agree(rules, hyps, m1, m2, q);
        let a = m1.take(n + q);
        let b = m2.take(n + q);
        let h = hyps[q];
        let f1 = m1[n + q];
        let f2 = m2[n + q];
        lemma_first_hyp_same(a, b, q + 1, f1.label@, f2.label@);
        assert(same_lits(f1.head@, f2.head@)) by {
            assert(same_lit(f1.head@[0], h.literal));
            assert(same_lit(f2.head@[0], h.literal));
        }
        assert(same_rule_data(f1, f2));
        assert forall|i: int| 0 <= i < n + j implies #[trigger] same_rule_data(m1.take(n + j)[i], m2.take(n + j)[i]) by {
            if i < n + q {
                assert(m1.take(n + j)[i] == a[i]);
                assert(m2.take(n + j)[i] == b[i]);
                assert(same_rule_data(a[i], b[i]));
            }
        }
    }
}

/// The theory's rules followed by one fact per hypothesis are determined by
/// the theory and the hypotheses, up to the data they carry.
pub proof fn lemma_hyp_facts_agree(rules: Seq<Rule>, hyps: Seq<HypotheticalClaim>, m1: Seq<Rule>, m2: Seq<Rule>)
    requires
        hyp_facts(rules, hyps, m1),
        hyp_facts(rules, hyps, m2),
    ensures
        same_rules_data(m1, m2),
{
    lemma_hyp_prefix_agree(rules, hyps, m1, m2, hyps.len() as int);
    assert(m1.take(rules.len() + hyps.len() as int) =~= m1);
    assert(m2.take(rules.len() + hyps.len() as int) =~= m2);
}

/// When one extension by the hypotheses passes the checks of preparation,
/// none fails them.
proof fn lemma_no_hyp_fail(rules: Seq<Rule>, hyps: Seq<HypotheticalClaim>, m: Seq<Rule>)
    requires
        hyp_facts(rules, hyps, m),
        !rules_fail(m, PrepareOptions::spec_default()),
    ensures
        !hyp_rules_fail(rules, hyps),
{
    if hyp_rules_fail(rules, hyps) {
        let m2 = choose|m2: Seq<Rule>| hyp_facts(rules, hyps, m2) && #[trigger] rules_fail(m2, PrepareOptions::spec_default());
        lemma_hyp_facts_agree(rules, hyps, m, m2);
        lemma_rules_fail_same_data(m, m2, PrepareOptions::spec_default());
    }
}

/// One way of [`lemma_some_proof_agree`].
proof fn lemma_some_proof_one_way(
    r1: Seq<Rule>,
    r2: Seq<Rule>,
    sups: Seq<(Seq<char>, Seq<char>)>,
    c1: Seq<Conclusion>,
    c2: Seq<Conclusion>,
    g: Literal,
)
    requires
        same_rules_data(r1, r2),
        reasoned_over(r1, sups, c1),
        reasoned_over(r2, sups, c2),
        crate::query::some_proof(c1, g),
    ensures
        crate::query::some_proof(c2, g),
{
    let i = choose|i: int| 0 <= i < c1.len() && crate::query::proves(#[trigger] c1[i], g);
    let t = c1[i].conclusion_type;
    let l = c1[i].literal;
    assert(crate::agree::reports(c1, t, l));
    crate::agree::law_runs_agree(r1, r2, sups, c1, c2, t, l);
    let k = choose|k: int|
        0 <= k < c2.len() && (#[trigger] c2[k]).conclusion_type == t && c2[k].literal.atom() == l.atom()
            && c2[k].literal.negation == l.negation;
    assert(crate::query::proves(c2[k], g));
}

/// Reports of reasoning over rules with the same data prove the same goals.
proof fn lemma_some_proof_agree(
    r1: Seq<Rule>,
    r2: Seq<Rule>,
    sups: Seq<(Seq<char>, Seq<char>)>,
    c1: Seq<Conclusion>,
    c2: Seq<Conclusion>,
    g: Literal,
)
    requires
        same_rules_data(r1, r2),
        reasoned_over(r1, sups, c1),
        reasoned_over(r2, sups, c2),
    ensures
        crate::query::some_proof(c1, g) == crate::query::some_proof(c2, g),
{
    if crate::query::some_proof(c1, g) {
        lemma_some_proof_one_way(r1, r2, sups, c1, c2, g);
    }
    if crate::query::some_proof(c2, g) {
        crate::agree::lemma_same_data_symmetric(r1, r2);
        lemma_some_proof_one_way(r2, r1, sups, c2, c1, g);
    }
}

/// Asking only whether the goal is provable under the hypotheses answers
/// what the full what-if answer says of it: the two fail on the same
/// inputs, and otherwise the first is whether the second's status for the
/// goal is provable.
pub proof fn law_what_if_provable(
    th: Theory,
    hyps: Seq<HypotheticalClaim>,
    goal: Literal,
    w: Result<WhatIfResult, SpindleError>,
    b: Result<bool, SpindleError>,
)
    requires
        what_if_answer(th, hyps, goal, w),
        what_if_provable_answer(th, hyps, goal, b),
    ensures
        w is Ok <==> b is Ok,
        w is Ok && b is Ok ==> (b->Ok_0 <==> w->Ok_0.result.status == crate::query::QueryStatus::Provable),
{
    if w is Ok && b is Ok {
        let x = w->Ok_0;
        let y = b->Ok_0;
        let (base, m1, c1) = choose|base: Seq<Conclusion>, mods: Seq<Rule>, mc: Seq<Conclusion>|
            #[trigger] reasoned_with(th, PrepareOptions::spec_default(), base) && hyp_facts(th.spec_rules(), hyps, mods)
                && #[trigger] reasoned_over(mods, th.spec_sups(), mc) && what_if_outcome(base, mc, hyps, goal, x);
        let (m2, c2) = choose|mods: Seq<Rule>, mc: Seq<Conclusion>|
            hyp_facts(th.spec_rules(), hyps, mods) && #[trigger] reasoned_over(mods, th.spec_sups(), mc)
                && (y <==> crate::query::some_proof(mc, goal));
        lemma_hyp_facts_agree(th.spec_rules(), hyps, m1, m2);
        lemma_some_proof_agree(m1, m2, th.spec_sups(), c1, c2, goal);
    }
}

/// What would hold if the hypotheses were facts: reason over the theory,
/// then over a copy with one fact per hypothesis, and compare.
pub fn what_if(theory: &Theory, hypotheticals: Vec<HypotheticalClaim>, goal: &Literal) -> (r: Result<WhatIfResult, SpindleError>)
    requires
        reasonable(*theory),
        2 * (lits_in(theory.spec_rules()) + hypotheticals@.len()) + 1 < usize::MAX,
    ensures
        what_if_answer(*theory, hypotheticals@, *goal, r),
{
    let baseline = match reason(theory) {
        Ok(cs) => cs,
        Err(e) => {
            return Err(e);
        },
    };
    let mut modified = theory.duplicate();
    proof {
        crate::reason::lemma_lits_in_same_rules(modified.spec_rules(), theory.spec_rules());
    }
    let n = theory.rule_count();
    proof {
        lemma_rules_within_lits(theory.spec_rules());
    }
    let mut j: usize = 0;
    while j < hypotheticals.len()
        invariant
            0 <= j <= hypotheticals@.len(),
            n == theory.spec_rules().len(),
            modified.spec_sups() == theory.spec_sups(),
            modified.spec_rules().len() == n + j,
            forall|i: int| 0 <= i < n ==> #[trigger] same_rule(modified.spec_rules()[i], theory.spec_rules()[i]),
            forall|q: int|
                #![trigger hypotheticals@[q]]
                0 <= q < j ==> {
                    let f = modified.spec_rules()[n + q];
                    &&& f.rule_type == RuleType::Fact
                    &&& f.body@.len() == 0
                    &&& f.head@.len() == 1
                    &&& same_lit(f.head@[0], hypotheticals@[q].literal)
                    &&& f.template_label.is_none()
                    &&& f.temporal == Temporal::spec_empty()
                    &&& !has_label(modified.spec_rules().take(n + q), f.label@)
                    &&& first_hyp(modified.spec_rules().take(n + q), q + 1, f.label@)
                },
            lits_in(modified.spec_rules()) == lits_in(theory.spec_rules()) + j,
            n <= lits_in(theory.spec_rules()),
            crate::index::rules_have_heads(modified.spec_rules()),
            2 * (lits_in(theory.spec_rules()) + hypotheticals@.len()) + 1 < usize::MAX,
        decreases hypotheticals@.len() - j,
    {
        proof {
            lemma_hyp_free(modified.spec_rules(), j + 1);
        }
        let label = next_hyp_label(&modified, 0, j + 1);
        let ghost before = modified.spec_rules();
        proof {
            let k = choose|k: int|
                j + 1 <= k <= j + 1 + before.len() && label@ == hyp_label(0, k) && forall|i: int|
                    j + 1 <= i < k ==> has_label(before, #[trigger] hyp_label(0, i));
            assert(first_hyp(before, j + 1, label@));
        }
        let fact = Rule::fact(label.as_str(), hypotheticals[j].literal.duplicate());
        proof {
            lemma_lits_in_push_fact(before, fact);
        }
        modified.add_rule(fact);
        proof {
            assert(modified.spec_rules().take(n + j) =~= before);
            assert forall|q: int| #![trigger hypotheticals@[q]] 0 <= q < j + 1 implies {
                let f = modified.spec_rules()[n + q];
                &&& f.rule_type == RuleType::Fact
                &&& f.body@.len() == 0
                &&& f.head@.len() == 1
                &&& same_lit(f.head@[0], hypotheticals@[q].literal)
                &&& f.template_label.is_none()
                &&& f.temporal == Temporal::spec_empty()
                &&& !has_label(modified.spec_rules().take(n + q), f.label@)
                &&& first_hyp(modified.spec_rules().take(n + q), q + 1, f.label@)
            } by {
                if q < j {
                    assert(modified.spec_rules()[n + q] == before[n + q]);
                    assert(modified.spec_rules().take(n + q) =~= before.take(n + q));
                }
            }
            assert forall|i: int| 0 <= i < n implies #[trigger] same_rule(modified.spec_rules()[i], theory.spec_rules()[i]) by {
                assert(modified.spec_rules()[i] == before[i]);
            }
            assert forall|r: int| 0 <= r < modified.spec_rules().len() implies (#[trigger] modified.spec_rules()[r]).head@.len() > 0 by {
                if r < before.len() {
                    assert(modified.spec_rules()[r] == before[r]);
                }
            }
        }
        j = j + 1;
    }
    proof {
        assert(hyp_facts(theory.spec_rules(), hypotheticals@, modified.spec_rules()));
    }
    let modified_conclusions = match reason(&modified) {
        Ok(cs) => cs,
        Err(e) => {
            proof {
                assert(rules_fail(modified.spec_rules(), PrepareOptions::spec_default()));
                assert(hyp_rules_fail(theory.spec_rules(), hypotheticals@));
            }
            return Err(e);
        },
    };
    let result = evaluate_query(&modified_conclusions, goal);
    let new_conclusions = new_literals(&baseline, &modified_conclusions);
    let changed_conclusions = changed_literals(&baseline, &modified_conclusions);
    let w = WhatIfResult { hypotheticals, result, new_conclusions, changed_conclusions };
    proof {
        lemma_reasoned_plain(modified, PrepareOptions::spec_default(), modified_conclusions@);
        assert(reasoned_over(modified.spec_rules(), theory.spec_sups(), modified_conclusions@));
        lemma_no_hyp_fail(theory.spec_rules(), hypotheticals@, modified.spec_rules());
    }
    Ok(w)
}

/// Whether the goal would be provable if the hypotheses were facts.
pub fn what_if_provable(theory: &Theory, hypotheticals: Vec<HypotheticalClaim>, goal: &Literal) -> (r: Result<bool, SpindleError>)
    requires
        reasonable(*theory),
        2 * (lits_in(theory.spec_rules()) + hypotheticals@.len()) + 1 < usize::MAX,
    ensures
        what_if_provable_answer(*theory, hypotheticals@, *goal, r),
{
    match what_if(theory, hypotheticals, goal) {
        Ok(w) => Ok(w.is_provable()),
        Err(e) => Err(e),
    }
}

} // verus!
