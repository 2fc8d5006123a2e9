//! Reasoning: a theory's conclusions under defeasible logic DL(d).
//!
//! The theory is indexed (each proposition an atom, each literal a number),
//! the engine computes the definitely provable set (+D) and the defeasibly
//! provable set (+d), and the conclusions are reported: every +D literal with
//! the rule that proved it, every +d literal, in the order the engine
//! decided it, with the rule behind it when there is one, then for each literal in index order -D when it is not +D
//! and -d when it is not +d.

use vstd::prelude::*;
use crate::conclusion::{Conclusion, ConclusionType};
use crate::engine::{Compiled, comp, holds, definite_phase, defeasible_phase, history_ok, plus_order, decided_set};
use crate::error::SpindleError;
use crate::index::{atom_keys, rules_keys, lemma_rules_keys_same, collect_atoms, compile, denotes, faithful, lits_in, rules_have_heads, theory_has_atom, lit_num, from_body, atom_present, ft_cover, ft_heads, ft_bodies, ft_sups};
use crate::literal::Literal;
use crate::rule::{Rule, RuleType, same_rule, same_rules, same_lit, lemma_same_rule_symmetric};
use crate::theory::Theory;
use crate::temporal::TimePoint;
use crate::wildcard::{rules_rewritten, lemma_rewrite_plain, lemma_rewrite_shape};
use crate::pipeline::{PrepareOptions, active_rules, rule_active, filtered_rules, filtered_sups, prepare, prepare_fails, wildcard_fails, range_fails, grounding_fails};

verus! {

/// Everything a run of the engine establishes about a theory: its atoms,
/// its indexed form, the +D, +d and -d sets, the history of +d and -d
/// decisions, and the orders in which the +D and +d members were found with
/// the rules that found them.
pub struct Derivation {
    /// The atoms, by number.
    pub atoms: Seq<Literal>,
    /// The indexed theory.
    pub ct: Compiled,
    /// The +D literal numbers.
    pub d: Set<int>,
    /// The +d literal numbers.
    pub p: Set<int>,
    /// The literal numbers decided -d.
    pub n: Set<int>,
    /// Every +d and -d decision, in the order the engine made it.
    pub hist: Seq<(usize, bool)>,
    /// The +D literal numbers in the order found.
    pub dlog: Seq<usize>,
    /// The rule behind each entry of `dlog`.
    pub drule: Seq<usize>,
    /// The +d literal numbers in the order found.
    pub plog: Seq<usize>,
    /// The rule behind each entry of `plog`, when there is one.
    pub prule: Seq<Option<usize>>,
    /// Per entry of `plog`: how many decisions of `hist` had been
    /// propagated when it was decided.
    pub marks: Seq<int>,
}

/// The negative conclusions over literal numbers `0..n`, in order: `-D l`
/// when `l` is not in `d`, then `-d l` when `l` is not in `p`.
pub open spec fn neg_entries(d: Set<int>, p: Set<int>, n: nat) -> Seq<(ConclusionType, int)>
    decreases n,
{
    if n == 0 {
        Seq::empty()
    } else {
        let l = n - 1;
        neg_entries(d, p, (n - 1) as nat) + (if !d.contains(l) {
            seq![(ConclusionType::DefinitelyNotProvable, l)]
        } else {
            Seq::empty()
        }) + (if !p.contains(l) {
            seq![(ConclusionType::DefeasiblyNotProvable, l)]
        } else {
            Seq::empty()
        })
    }
}

/// The label of an optional rule position.
pub open spec fn label_of(rules: Seq<Rule>, r: Option<usize>) -> Option<String> {
    match r {
        Some(i) => Some(rules[i as int].label),
        None => None,
    }
}

/// `c` is the conclusion of kind `t` about literal number `n`, with rule label `label`.
pub open spec fn shows(atoms: Seq<Literal>, c: Conclusion, t: ConclusionType, n: int, label: Option<String>) -> bool {
    &&& c.conclusion_type == t
    &&& denotes(atoms, c.literal, n)
    &&& c.rule_label == label
}

/// What the engine computed, as the engine's contracts state it: +D is the
/// least set closed under facts and strict rules; the +d and -d sets are
/// the least pair closed under the +d check and the -d condition, and they
/// are exactly the decisions of a history in which each decision is
/// justified by those before it; the +d log lists the +d decisions in that
/// order, each with no rule when it came from +D and otherwise with the
/// first rule listed for its literal that was live on the decisions
/// propagated before it was decided.
pub open spec fn engine_result(w: Derivation) -> bool {
    let n = w.ct.n_lits as int;
    &&& w.ct.wf()
    &&& w.ct.least_def_closed(w.d)
    &&& forall|q: int| #[trigger] w.p.contains(q) ==> w.ct.plus_ok(w.d, w.p, q)
    &&& forall|q: int| 0 <= q < n && w.d.contains(q) && !w.d.contains(comp(q)) ==> #[trigger] w.p.contains(q)
    &&& forall|q: int| #[trigger] w.d.contains(q) ==> 0 <= q < n
    &&& forall|q: int| #[trigger] w.p.contains(q) ==> 0 <= q < n
    &&& w.p.disjoint(w.n)
    &&& forall|q: int| #[trigger] w.n.contains(q) ==> w.ct.minus_ok(w.d, w.p, w.n, q)
    &&& forall|q: int|
        0 <= q < n && !w.p.contains(q) && !w.n.contains(q) ==> !#[trigger] w.ct.prove_ready(w.d, w.p, w.n, q)
            && !w.ct.disprove_ready(w.d, w.p, w.n, q)
    &&& w.ct.closed(w.d, w.p, w.n)
    &&& history_ok(&w.ct, w.d, w.hist)
    &&& w.plog == plus_order(w.hist)
    &&& forall|i: int|
        0 <= i < w.prule.len() ==> ((#[trigger] w.prule[i]) is None <==> (w.d.contains(w.plog[i] as int)
            && !w.d.contains(comp(w.plog[i] as int))))
    &&& w.p == decided_set(w.hist, w.hist.len() as int, true)
    &&& w.n == decided_set(w.hist, w.hist.len() as int, false)
    &&& forall|pp: Set<int>, pn: Set<int>| #[trigger] w.ct.closed(w.d, pp, pn) ==> w.p.subset_of(pp) && w.n.subset_of(pn)
    &&& w.dlog.no_duplicates()
    &&& w.dlog.len() == w.drule.len()
    &&& forall|i: int| 0 <= i < w.dlog.len() ==> w.d.contains(#[trigger] w.dlog[i] as int)
    &&& forall|l: int| w.d.contains(l) ==> holds(w.dlog, l)
    &&& forall|i: int|
        0 <= i < w.drule.len() ==> {
            let r = #[trigger] w.drule[i] as int;
            &&& 0 <= r < w.ct.nr()
            &&& w.ct.head(r) == w.dlog[i]
            &&& (w.ct.kind(r) == RuleType::Fact || w.ct.kind(r) == RuleType::Strict)
        }
    &&& w.plog.no_duplicates()
    &&& w.plog.len() == w.prule.len()
    &&& forall|i: int| 0 <= i < w.plog.len() ==> w.p.contains(#[trigger] w.plog[i] as int)
    &&& forall|l: int| w.p.contains(l) ==> holds(w.plog, l)
    &&& forall|i: int|
        0 <= i < w.prule.len() ==> match #[trigger] w.prule[i] {
            Some(r) => {
                &&& 0 <= r < w.ct.nr()
                &&& w.ct.head(r as int) == w.plog[i]
                &&& w.ct.supports(r as int)
                &&& w.ct.applicable(r as int, w.p)
            },
            None => true,
        }
    &&& w.marks.len() == w.prule.len()
    &&& forall|i: int| 0 <= i < w.marks.len() ==> 0 <= #[trigger] w.marks[i] <= w.hist.len()
    &&& forall|i: int, j: int|
        0 <= i < w.marks.len() && 0 <= j < w.marks[i] ==> (#[trigger] w.hist[j]).0 != #[trigger] w.plog[i]
    &&& forall|i: int|
        0 <= i < w.prule.len() ==> (#[trigger] w.prule[i] matches Some(r) ==> w.ct.first_live(
            decided_set(w.hist, w.marks[i], true),
            decided_set(w.hist, w.marks[i], false),
            w.plog[i] as int,
            r as int,
        ))
}

/// The engine's sets are determined by the indexed theory: two runs over
/// the same indexed theory find the same +D set, the same +d set and the
/// same -d set (each run's pair is the least pair closed under the +d check
/// and the -d condition).
pub proof fn law_engine_sets_unique(w1: Derivation, w2: Derivation)
    requires
        engine_result(w1),
        engine_result(w2),
        w1.ct == w2.ct,
    ensures
        w1.d == w2.d,
        w1.p == w2.p,
        w1.n == w2.n,
{
    assert(w1.ct.def_closed(w2.d) && w2.ct.def_closed(w1.d));
    assert(w1.d.subset_of(w2.d) && w2.d.subset_of(w1.d));
    assert(w1.d =~= w2.d);
    assert(w2.ct.closed(w2.d, w1.p, w1.n));
    assert(w1.ct.closed(w1.d, w2.p, w2.n));
    assert(w1.p =~= w2.p);
    assert(w1.n =~= w2.n);
}

/// The conclusions list reports the derivation: +D entries in `dlog`
/// order, then +d entries in `plog` order, then the negative entries.
pub open spec fn renders(rules: Seq<Rule>, w: Derivation, cs: Seq<Conclusion>) -> bool {
    let nd = w.dlog.len() as int;
    let np = w.plog.len() as int;
    let neg = neg_entries(w.d, w.p, w.ct.n_lits as nat);
    &&& cs.len() == nd + np + neg.len()
    &&& forall|i: int|
        0 <= i < nd ==> shows(
            w.atoms,
            #[trigger] cs[i],
            ConclusionType::DefinitelyProvable,
            w.dlog[i] as int,
            Some(rules[w.drule[i] as int].label),
        )
    &&& forall|i: int|
        0 <= i < np ==> shows(
            w.atoms,
            #[trigger] cs[nd + i],
            ConclusionType::DefeasiblyProvable,
            w.plog[i] as int,
            label_of(rules, w.prule[i]),
        )
    &&& forall|k: int|
        0 <= k < neg.len() ==> shows(w.atoms, #[trigger] cs[nd + np + k], neg[k].0, neg[k].1, None)
}

/// `w` is a derivation from the rules and superiority pairs whose report is `cs`.
pub open spec fn derivation_of(
    rules: Seq<Rule>,
    sups: Seq<(Seq<char>, Seq<char>)>,
    w: Derivation,
    cs: Seq<Conclusion>,
) -> bool {
    &&& faithful(rules, sups, w.atoms, w.ct)
    &&& atom_keys(w.atoms) == rules_keys(rules)
    &&& engine_result(w)
    &&& renders(rules, w, cs)
}

/// `cs` is the report of reasoning over the rules and superiority pairs.
pub open spec fn reasoned_over(rules: Seq<Rule>, sups: Seq<(Seq<char>, Seq<char>)>, cs: Seq<Conclusion>) -> bool {
    exists|w: Derivation| derivation_of(rules, sups, w, cs)
}

/// `cs` is the report of reasoning over the theory.
pub open spec fn reasoned(th: Theory, cs: Seq<Conclusion>) -> bool {
    reasoned_over(th.spec_rules(), th.spec_sups(), cs)
}

/// The theory can be reasoned over: every rule has a head literal, and the
/// literal numbers fit in a machine word.
pub open spec fn reasonable(th: Theory) -> bool {
    &&& rules_have_heads(th.spec_rules())
    &&& 2 * lits_in(th.spec_rules()) + 1 < usize::MAX
}

/// The literal with number `n`.
fn make_literal(atoms: &Vec<Literal>, n: usize) -> (r: Literal)
    requires
        n < 2 * atoms@.len(),
    ensures
        denotes(atoms@, r, n as int),
{
    let mut r = atoms[n / 2].duplicate();
    r.negation = n % 2 == 1;
    r
}

/// Reason over a theory that has already been prepared.
#[verifier::rlimit(40)]
pub fn reason_prepared(theory: &Theory) -> (r: Result<Vec<Conclusion>, SpindleError>)
    requires
        reasonable(*theory),
    ensures
        r is Ok,
        reasoned(*theory, r->Ok_0@),
{
    let atoms = collect_atoms(theory);
    let ct = compile(theory, &atoms);
    let dres = definite_phase(&ct);
    let pres = defeasible_phase(&ct, &dres.set);
    let rules = theory.rules();
    let ghost d = dres.set.members();
    let ghost p = pres.set.members();
    proof {
        dres.set.lemma_members_in_range();
        pres.set.lemma_members_in_range();
    }
    let mut out: Vec<Conclusion> = Vec::new();
    let mut i: usize = 0;
    while i < dres.log.len()
        invariant
            0 <= i <= dres.log@.len(),
            dres.log@.len() == dres.rule_of@.len(),
            rules@ == theory.spec_rules(),
            ct.nr() == rules@.len(),
            ct.n_lits == 2 * atoms@.len(),
            forall|j: int|
                0 <= j < dres.rule_of@.len() ==> {
                    let r = #[trigger] dres.rule_of@[j] as int;
                    &&& 0 <= r < ct.nr()
                    &&& ct.head(r) == dres.log@[j]
                },
            forall|j: int| 0 <= j < ct.nr() ==> #[trigger] ct.head(j) < ct.n_lits,
            out@.len() == i,
            forall|j: int|
                0 <= j < i ==> shows(
                    atoms@,
                    #[trigger] out@[j],
                    ConclusionType::DefinitelyProvable,
                    dres.log@[j] as int,
                    Some(rules@[dres.rule_of@[j] as int].label),
                ),
        decreases dres.log@.len() - i,
    {
        let n = dres.log[i];
        let ri = dres.rule_of[i];
        assert(ct.head(ri as int) < ct.n_lits);
        let lit = make_literal(&atoms, n);
        out.push(Conclusion {
            conclusion_type: ConclusionType::DefinitelyProvable,
            literal: lit,
            rule_label: Some(rules[ri].label.clone()),
        });
        i = i + 1;
    }
    let nd = dres.log.len();
    let mut j: usize = 0;
    while j < pres.log.len()
        invariant
            0 <= j <= pres.log@.len(),
            pres.log@.len() == pres.rule_of@.len(),
            nd == dres.log@.len(),
            rules@ == theory.spec_rules(),
            ct.nr() == rules@.len(),
            ct.n_lits == 2 * atoms@.len(),
            pres.set.members() == p,
            forall|q: int| #[trigger] p.contains(q) ==> 0 <= q < ct.n_lits,
            forall|k: int| 0 <= k < pres.log@.len() ==> p.contains(#[trigger] pres.log@[k] as int),
            forall|k: int|
                0 <= k < pres.rule_of@.len() ==> match #[trigger] pres.rule_of@[k] {
                    Some(r) => 0 <= r < ct.nr(),
                    None => true,
                },
            out@.len() == nd + j,
            forall|k: int|
                0 <= k < nd ==> shows(
                    atoms@,
                    #[trigger] out@[k],
                    ConclusionType::DefinitelyProvable,
                    dres.log@[k] as int,
                    Some(rules@[dres.rule_of@[k] as int].label),
                ),
            forall|k: int|
                0 <= k < j ==> shows(
                    atoms@,
                    #[trigger] out@[nd + k],
                    ConclusionType::DefeasiblyProvable,
                    pres.log@[k] as int,
                    label_of(rules@, pres.rule_of@[k]),
                ),
        decreases pres.log@.len() - j,
    {
        let n = pres.log[j];
        assert(p.contains(pres.log@[j as int] as int));
        let lit = make_literal(&atoms, n);
        let label = match pres.rule_of[j] {
            Some(ri) => Some(rules[ri].label.clone()),
            None => None,
        };
        out.push(Conclusion { conclusion_type: ConclusionType::DefeasiblyProvable, literal: lit, rule_label: label });
        proof {
            assert(out@[nd + j as int] == out@[out@.len() - 1]);
        }
        j = j + 1;
    }
    let np = pres.log.len();
    let mut l: usize = 0;
    while l < ct.n_lits
        invariant
            0 <= l <= ct.n_lits,
            nd == dres.log@.len(),
            np == pres.log@.len(),
            rules@ == theory.spec_rules(),
            ct.n_lits == 2 * atoms@.len(),
            dres.set.members() == d,
            pres.set.members() == p,
            out@.len() == nd + np + neg_entries(d, p, l as nat).len(),
            forall|k: int|
                0 <= k < nd ==> shows(
                    atoms@,
                    #[trigger] out@[k],
                    ConclusionType::DefinitelyProvable,
                    dres.log@[k] as int,
                    Some(rules@[dres.rule_of@[k] as int].label),
                ),
            forall|k: int|
                0 <= k < np ==> shows(
                    atoms@,
                    #[trigger] out@[nd + k],
                    ConclusionType::DefeasiblyProvable,
                    pres.log@[k] as int,
                    label_of(rules@, pres.rule_of@[k]),
                ),
            forall|k: int|
                0 <= k < neg_entries(d, p, l as nat).len() ==> shows(
                    atoms@,
                    #[trigger] out@[nd + np + k],
                    neg_entries(d, p, l as nat)[k].0,
                    neg_entries(d, p, l as nat)[k].1,
                    None,
                ),
        decreases ct.n_lits - l,
    {
        let ghost before = out@;
        let ghost prev = neg_entries(d, p, l as nat);
        let ghost next = neg_entries(d, p, (l + 1) as nat);
        if !dres.set.contains(l) {
            out.push(Conclusion::new(ConclusionType::DefinitelyNotProvable, make_literal(&atoms, l)));
        }
        let ghost mid = out@;
        if !pres.set.contains(l) {
            out.push(Conclusion::new(ConclusionType::DefeasiblyNotProvable, make_literal(&atoms, l)));
        }
        proof {
            assert(next == prev + (if !d.contains(l as int) {
                seq![(ConclusionType::DefinitelyNotProvable, l as int)]
            } else {
                Seq::empty()
            }) + (if !p.contains(l as int) {
                seq![(ConclusionType::DefeasiblyNotProvable, l as int)]
            } else {
                Seq::empty()
            }));
            assert forall|k: int| 0 <= k < nd implies shows(
                atoms@,
                #[trigger] out@[k],
                ConclusionType::DefinitelyProvable,
                dres.log@[k] as int,
                Some(rules@[dres.rule_of@[k] as int].label),
            ) by {
                assert(out@[k] == before[k]);
            }
            assert forall|k: int| 0 <= k < np implies shows(
                atoms@,
                #[trigger] out@[nd + k],
                ConclusionType::DefeasiblyProvable,
                pres.log@[k] as int,
                label_of(rules@, pres.rule_of@[k]),
            ) by {
                assert(out@[nd + k] == before[nd + k]);
            }
            assert forall|k: int| 0 <= k < next.len() implies shows(
                atoms@,
                #[trigger] out@[nd + np + k],
                next[k].0,
                next[k].1,
                None,
            ) by {
                if k < prev.len() {
                    assert(out@[nd + np + k] == before[nd + np + k]);
                    assert(next[k] == prev[k]);
                } else if k == prev.len() && !d.contains(l as int) {
                    assert(next[k] == (ConclusionType::DefinitelyNotProvable, l as int));
                    assert(out@[nd + np + k] == mid[nd + np + k]);
                } else {
                    assert(next[k] == (ConclusionType::DefeasiblyNotProvable, l as int));
                }
            }
        }
        l = l + 1;
    }
    let ghost w = Derivation {
        atoms: atoms@,
        ct,
        d,
        p,
        n: pres.neg.members(),
        hist: pres.history@,
        dlog: dres.log@,
        drule: dres.rule_of@,
        plog: pres.log@,
        prule: pres.rule_of@,
        marks: pres.marks@,
    };
    proof {
        assert(derivation_of(theory.spec_rules(), theory.spec_sups(), w, out@));
    }
    Ok(out)
}

/// The parts of a rule that indexing reads are the same in two rules that
/// carry the same data.
pub proof fn lemma_same_rule_parts(ra: Rule, rb: Rule, atoms: Seq<Literal>)
    requires
        same_rule(ra, rb),
        ra.head@.len() > 0,
    ensures
        rb.head@.len() > 0,
        rb.rule_type == ra.rule_type,
        rb.label == ra.label,
        rb.head@[0].atom() == ra.head@[0].atom(),
        lit_num(atoms, rb.head@[0]) == lit_num(atoms, ra.head@[0]),
        rb.spec_template_label() == ra.spec_template_label(),
        rb.body@.len() == ra.body@.len(),
        forall|i: int| 0 <= i < ra.body@.len() ==> (#[trigger] rb.body@[i]).atom() == ra.body@[i].atom()
            && lit_num(atoms, rb.body@[i]) == lit_num(atoms, ra.body@[i]),
{
    assert(same_lit(ra.head@[0], rb.head@[0]));
    assert forall|i: int| 0 <= i < ra.body@.len() implies (#[trigger] rb.body@[i]).atom() == ra.body@[i].atom()
        && lit_num(atoms, rb.body@[i]) == lit_num(atoms, ra.body@[i]) by {
        assert(same_lit(ra.body@[i], rb.body@[i]));
    }
}

/// Head clauses of the indexed form carry over between rules with the same data.
proof fn lemma_ft_heads(a: Seq<Rule>, b: Seq<Rule>, atoms: Seq<Literal>, ct: Compiled)
    requires
        same_rules(a, b),
        rules_have_heads(a),
        ft_heads(a, atoms, ct),
    ensures
        rules_have_heads(b),
        ft_heads(b, atoms, ct),
{
    reveal(ft_heads);
    assert forall|r: int| 0 <= r < b.len() implies {
        &&& (#[trigger] b[r]).head@.len() > 0
        &&& ct.kind(r) == b[r].rule_type
        &&& atom_present(atoms, b[r].head@[0])
        &&& ct.head(r) == lit_num(atoms, b[r].head@[0])
    } by {
        assert(same_rule(a[r], b[r]));
        assert(a[r].head@.len() > 0);
        lemma_same_rule_parts(a[r], b[r], atoms);
        let x = choose|x: int| 0 <= x < atoms.len() && (#[trigger] atoms[x]).atom() == a[r].head@[0].atom();
        assert(atoms[x].atom() == b[r].head@[0].atom());
    }
}

/// The atoms cover rules with the same data.
proof fn lemma_ft_cover(a: Seq<Rule>, b: Seq<Rule>, atoms: Seq<Literal>)
    requires
        same_rules(a, b),
        rules_have_heads(a),
        ft_cover(a, atoms),
    ensures
        ft_cover(b, atoms),
{
    reveal(ft_cover);
    assert forall|x: int| 0 <= x < atoms.len() implies theory_has_atom(b, (#[trigger] atoms[x]).atom()) by {
        assert(theory_has_atom(a, atoms[x].atom()));
        let r = choose|r: int|
            0 <= r < a.len() && ((#[trigger] a[r]).head@[0].atom() == atoms[x].atom() || exists|i: int|
                0 <= i < a[r].body@.len() && (#[trigger] a[r].body@[i]).atom() == atoms[x].atom());
        assert(same_rule(a[r], b[r]));
        lemma_same_rule_parts(a[r], b[r], atoms);
        if a[r].head@[0].atom() != atoms[x].atom() {
            let i = choose|i: int| 0 <= i < a[r].body@.len() && (#[trigger] a[r].body@[i]).atom() == atoms[x].atom();
            assert(b[r].body@[i].atom() == atoms[x].atom());
        }
        assert(b[r] == b[r]);
    }
}

/// Body clauses of the indexed form carry over between rules with the same data.
proof fn lemma_ft_bodies(a: Seq<Rule>, b: Seq<Rule>, atoms: Seq<Literal>, ct: Compiled)
    requires
        same_rules(a, b),
        rules_have_heads(a),
        ft_bodies(a, atoms, ct),
    ensures
        ft_bodies(b, atoms, ct),
{
    reveal(ft_bodies);
    assert forall|r: int, i: int| 0 <= r < b.len() && 0 <= i < b[r].body@.len() implies atom_present(
        atoms,
        #[trigger] b[r].body@[i],
    ) && holds(ct.body(r), lit_num(atoms, b[r].body@[i])) by {
        assert(same_rule(a[r], b[r]));
        lemma_same_rule_parts(a[r], b[r], atoms);
        assert(atom_present(atoms, a[r].body@[i]));
        let x = choose|x: int| 0 <= x < atoms.len() && (#[trigger] atoms[x]).atom() == a[r].body@[i].atom();
        assert(atoms[x].atom() == b[r].body@[i].atom());
    }
    assert forall|r: int, k: int|
        0 <= r < b.len() && 0 <= k < ct.body(r).len() implies from_body(
            atoms,
            b[r].body@,
            #[trigger] ct.body(r)[k] as int,
            b[r].body@.len() as int,
        ) by {
        assert(same_rule(a[r], b[r]));
        lemma_same_rule_parts(a[r], b[r], atoms);
        assert(from_body(atoms, a[r].body@, ct.body(r)[k] as int, a[r].body@.len() as int));
        let j = choose|j: int|
            0 <= j < a[r].body@.len() && j < a[r].body@.len() && ct.body(r)[k] as int == lit_num(
                atoms,
                #[trigger] a[r].body@[j],
            );
        assert(lit_num(atoms, b[r].body@[j]) == lit_num(atoms, a[r].body@[j]));
    }
}

/// Superiority clauses carry over between rules with the same data.
proof fn lemma_ft_sups(a: Seq<Rule>, b: Seq<Rule>, sups: Seq<(Seq<char>, Seq<char>)>, atoms: Seq<Literal>, ct: Compiled)
    requires
        same_rules(a, b),
        rules_have_heads(a),
        ft_sups(a, sups, ct),
    ensures
        ft_sups(b, sups, ct),
{
    reveal(ft_sups);
    assert forall|t: int, s: int| 0 <= t < b.len() && 0 <= s < b.len() implies (#[trigger] ct.superior(t, s)
        <==> sups.contains((b[t].spec_template_label(), b[s].spec_template_label()))) by {
        assert(same_rule(a[t], b[t]));
        assert(same_rule(a[s], b[s]));
    }
}

/// The indexed form depends only on the data rules carry.
pub proof fn lemma_faithful_same_rules(
    a: Seq<Rule>,
    b: Seq<Rule>,
    sups: Seq<(Seq<char>, Seq<char>)>,
    atoms: Seq<Literal>,
    ct: Compiled,
)
    requires
        same_rules(a, b),
        faithful(a, sups, atoms, ct),
    ensures
        faithful(b, sups, atoms, ct),
{
    lemma_ft_heads(a, b, atoms, ct);
    lemma_ft_cover(a, b, atoms);
    lemma_ft_bodies(a, b, atoms, ct);
    lemma_ft_sups(a, b, sups, atoms, ct);
}

/// Reasoning looks only at the data rules carry: rules that carry the same
/// data, with the same superiority pairs, have the same reports.
pub proof fn lemma_reasoned_same_rules(
    a: Seq<Rule>,
    b: Seq<Rule>,
    sups: Seq<(Seq<char>, Seq<char>)>,
    cs: Seq<Conclusion>,
)
    requires
        same_rules(a, b),
        reasoned_over(a, sups, cs),
    ensures
        reasoned_over(b, sups, cs),
{
    let w = choose|w: Derivation| derivation_of(a, sups, w, cs);
    lemma_faithful_same_rules(a, b, sups, w.atoms, w.ct);
    lemma_rules_keys_same(a, b);
    assert forall|r: int| 0 <= r < a.len() implies (#[trigger] b[r]).label == a[r].label by {
        assert(same_rule(a[r], b[r]));
    }
    assert(renders(b, w, cs));
    assert(derivation_of(b, sups, w, cs));
}

/// Filtering by time keeps heads and does not add literal occurrences.
pub proof fn lemma_active_rules_reasonable(rules: Seq<Rule>, t: TimePoint)
    requires
        rules_have_heads(rules),
    ensures
        rules_have_heads(active_rules(rules, t)),
        lits_in(active_rules(rules, t)) <= lits_in(rules),
    decreases rules.len(),
{
    if rules.len() > 0 {
        let init = rules.drop_last();
        assert forall|r: int| 0 <= r < init.len() implies (#[trigger] init[r]).head@.len() > 0 by {
            assert(init[r] == rules[r]);
        }
        lemma_active_rules_reasonable(init, t);
        let a = active_rules(init, t);
        if rule_active(rules.last(), t) {
            let b = a + seq![rules.last()];
            assert(b.drop_last() =~= a);
            assert(b.last() == rules.last());
            assert forall|r: int| 0 <= r < b.len() implies (#[trigger] b[r]).head@.len() > 0 by {
                if r < a.len() {
                    assert(b[r] == a[r]);
                }
            }
        } else {
            assert(a + Seq::<Rule>::empty() =~= a);
        }
    }
}

/// Rules with the same data have as many literal occurrences, and heads.
pub proof fn lemma_lits_in_same_rules(a: Seq<Rule>, b: Seq<Rule>)
    requires
        same_rules(a, b),
    ensures
        lits_in(a) == lits_in(b),
        rules_have_heads(a) == rules_have_heads(b),
    decreases a.len(),
{
    if a.len() > 0 {
        assert(same_rules(a.drop_last(), b.drop_last())) by {
            assert forall|i: int| 0 <= i < a.drop_last().len() implies #[trigger] same_rule(a.drop_last()[i], b.drop_last()[i]) by {
                assert(same_rule(a[i], b[i]));
            }
        }
        lemma_lits_in_same_rules(a.drop_last(), b.drop_last());
        assert(same_rule(a.last(), b.last()));
    }
    assert forall|r: int| 0 <= r < a.len() implies #[trigger] same_rule(a[r], b[r]) by {}
    if rules_have_heads(a) {
        assert forall|r: int| 0 <= r < b.len() implies (#[trigger] b[r]).head@.len() > 0 by {
            assert(same_rule(a[r], b[r]));
            assert(a[r].head@.len() > 0);
        }
    }
    if rules_have_heads(b) {
        assert forall|r: int| 0 <= r < a.len() implies (#[trigger] a[r]).head@.len() > 0 by {
            assert(same_rule(a[r], b[r]));
            assert(b[r].head@.len() > 0);
        }
    }
}

/// `cs` is the report of reasoning over the theory prepared with `opts`:
/// the rules kept at the reference time, with their wildcards rewritten.
pub open spec fn reasoned_with(th: Theory, opts: PrepareOptions, cs: Seq<Conclusion>) -> bool {
    exists|b: Seq<Rule>|
        rules_rewritten(filtered_rules(th, opts.reference_time), b) && #[trigger] reasoned_over(
            b,
            filtered_sups(th, opts.reference_time),
            cs,
        )
}

/// Where preparation refuses variables (grounding on, as by default) and
/// succeeds, the prepared rules are the kept rules themselves.
pub proof fn lemma_reasoned_plain(th: Theory, opts: PrepareOptions, cs: Seq<Conclusion>)
    requires
        reasoned_with(th, opts, cs),
        !prepare_fails(th, opts),
        opts.grounding.enabled,
    ensures
        reasoned_over(filtered_rules(th, opts.reference_time), filtered_sups(th, opts.reference_time), cs),
{
    let f = filtered_rules(th, opts.reference_time);
    let b = choose|b: Seq<Rule>|
        rules_rewritten(f, b) && #[trigger] reasoned_over(b, filtered_sups(th, opts.reference_time), cs);
    lemma_rewrite_plain(f, b);
    lemma_reasoned_same_rules(b, f, filtered_sups(th, opts.reference_time), cs);
}

/// Prepare the theory with `opts` and reason over it.
pub fn reason_with_options(theory: &Theory, opts: PrepareOptions) -> (r: Result<Vec<Conclusion>, SpindleError>)
    requires
        reasonable(*theory),
    ensures
        r is Ok <==> !prepare_fails(*theory, opts),
        r matches Ok(cs) ==> reasoned_with(*theory, opts, cs@),
        r matches Err(e) ==> {
            let f = filtered_rules(*theory, opts.reference_time);
            &&& (wildcard_fails(f, opts) || range_fails(f, opts)) ==> e is Validation
            &&& (!wildcard_fails(f, opts) && !range_fails(f, opts) && grounding_fails(f, opts)) ==> e is Grounding
            &&& (!wildcard_fails(f, opts) && !range_fails(f, opts) && !grounding_fails(f, opts)) ==> e is Validation
        },
{
    let ghost f = filtered_rules(*theory, opts.reference_time);
    proof {
        match opts.reference_time {
            Some(t) => {
                lemma_active_rules_reasonable(theory.spec_rules(), t);
            },
            None => {},
        }
    }
    match prepare(theory, opts) {
        Ok(res) => {
            proof {
                lemma_rewrite_shape(f, res.theory.spec_rules());
            }
            let out = reason_prepared(&res.theory);
            proof {
                match &out {
                    Ok(cs) => {
                        assert(reasoned_over(res.theory.spec_rules(), res.theory.spec_sups(), cs@));
                    },
                    Err(_) => {},
                }
            }
            out
        },
        Err(e) => Err(e),
    }
}

/// Reason over a theory with the default options.
pub fn reason(theory: &Theory) -> (r: Result<Vec<Conclusion>, SpindleError>)
    requires
        reasonable(*theory),
    ensures
        r is Ok <==> !prepare_fails(*theory, PrepareOptions::spec_default()),
        r matches Ok(cs) ==> reasoned_with(*theory, PrepareOptions::spec_default(), cs@),
{
    reason_with_options(theory, PrepareOptions::default())
}

} // verus!
