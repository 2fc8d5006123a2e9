//! What holds of every report of reasoning: each literal of the theory gets
//! exactly one of +D / -D and exactly one of +d / -d, a definite conclusion
//! is also defeasible unless its complement is definite too, a literal that
//! only defeaters conclude is never proved, and under an acyclic superiority
//! relation no literal is defeasibly proved together with its complement.

use vstd::prelude::*;
use crate::conclusion::{Conclusion, ConclusionType};
use crate::engine::{Compiled, comp, holds};
use crate::index::{denotes, atoms_distinct, atom_present, lit_num, lemma_lit_num, theory_has_atom, faithful, ft_heads, ft_bodies, ft_sups};
use crate::literal::Literal;
use crate::rule::{Rule, RuleType};
use crate::theory::Theory;
use crate::reason::{Derivation, reasoned, derivation_of, neg_entries, shows, label_of};
use crate::why_not::{comp_lit, proven_in, why_not_outcome, WhyNotResult};
use crate::query::{QueryResult, QueryStatus, query_outcome, proves};

verus! {

/// The two literals are the same: the same proposition, bounds included,
/// with the same sign.
pub open spec fn identical(a: Literal, b: Literal) -> bool {
    a.atom() == b.atom() && a.negation == b.negation
}

/// `cs` holds a conclusion of kind `t` about `l`.
pub open spec fn reports(cs: Seq<Conclusion>, t: ConclusionType, l: Literal) -> bool {
    exists|i: int| 0 <= i < cs.len() && (#[trigger] cs[i]).conclusion_type == t && identical(cs[i].literal, l)
}

/// With distinct atoms, two literals denote the same number exactly when
/// they are identical.
proof fn lemma_denotes_unique(atoms: Seq<Literal>, a: Literal, n: int, b: Literal, m: int)
    requires
        atoms_distinct(atoms),
        denotes(atoms, a, n),
        denotes(atoms, b, m),
    ensures
        identical(a, b) <==> n == m,
{
    if identical(a, b) {
        assert(atoms[n / 2].atom() == atoms[m / 2].atom());
        if n / 2 != m / 2 {
            assert(atoms[n / 2].atom() != atoms[m / 2].atom());
        }
    }
}

/// The complement of a literal denotes the complement of its number.
proof fn lemma_denotes_comp(atoms: Seq<Literal>, a: Literal, n: int)
    requires
        denotes(atoms, a, n),
    ensures
        denotes(atoms, comp_lit(a), comp(n)),
        comp(comp(n)) == n,
{
    assert(comp_lit(a).atom() == a.atom());
}

/// Each negative entry over `0..n` is `-D l` for an `l` outside `d`, or
/// `-d l` for an `l` outside `p`.
proof fn lemma_neg_entry(d: Set<int>, p: Set<int>, n: nat, k: int)
    requires
        0 <= k < neg_entries(d, p, n).len(),
    ensures
        0 <= neg_entries(d, p, n)[k].1 < n,
        (neg_entries(d, p, n)[k].0 == ConclusionType::DefinitelyNotProvable && !d.contains(neg_entries(d, p, n)[k].1))
            || (neg_entries(d, p, n)[k].0 == ConclusionType::DefeasiblyNotProvable && !p.contains(neg_entries(d, p, n)[k].1)),
    decreases n,
{
    if n > 0 {
        let prev = neg_entries(d, p, (n - 1) as nat);
        if k < prev.len() {
            lemma_neg_entry(d, p, (n - 1) as nat, k);
            assert(neg_entries(d, p, n)[k] == prev[k]);
        }
    }
}

/// Every `l` below `n` outside `d` has a `-D` entry, and every one outside
/// `p` a `-d` entry.
proof fn lemma_neg_has(d: Set<int>, p: Set<int>, n: nat, l: int)
    requires
        0 <= l < n,
    ensures
        !d.contains(l) ==> exists|k: int|
            0 <= k < neg_entries(d, p, n).len() && #[trigger] neg_entries(d, p, n)[k] == (ConclusionType::DefinitelyNotProvable, l),
        !p.contains(l) ==> exists|k: int|
            0 <= k < neg_entries(d, p, n).len() && #[trigger] neg_entries(d, p, n)[k] == (ConclusionType::DefeasiblyNotProvable, l),
    decreases n,
{
    let prev = neg_entries(d, p, (n - 1) as nat);
    let cur = neg_entries(d, p, n);
    if l < n - 1 {
        lemma_neg_has(d, p, (n - 1) as nat, l);
        if !d.contains(l) {
            let k = choose|k: int| 0 <= k < prev.len() && #[trigger] prev[k] == (ConclusionType::DefinitelyNotProvable, l);
            assert(cur[k] == prev[k]);
        }
        if !p.contains(l) {
            let k = choose|k: int| 0 <= k < prev.len() && #[trigger] prev[k] == (ConclusionType::DefeasiblyNotProvable, l);
            assert(cur[k] == prev[k]);
        }
    } else {
        if !d.contains(l) {
            assert(cur[prev.len() as int] == (ConclusionType::DefinitelyNotProvable, l));
        }
        if !p.contains(l) {
            let k: int = if !d.contains(l) { prev.len() as int + 1 } else { prev.len() as int };
            assert(cur[k] == (ConclusionType::DefeasiblyNotProvable, l));
        }
    }
}

/// What a conclusion of kind `t` about literal number `n` says of the
/// derivation's +D and +d sets.
pub open spec fn entry_fact(w: Derivation, t: ConclusionType, n: int) -> bool {
    match t {
        ConclusionType::DefinitelyProvable => w.d.contains(n),
        ConclusionType::DefinitelyNotProvable => !w.d.contains(n),
        ConclusionType::DefeasiblyProvable => w.p.contains(n),
        ConclusionType::DefeasiblyNotProvable => !w.p.contains(n),
    }
}

/// Each conclusion of a report is about a literal number, and says the
/// truth about it.
proof fn lemma_entry(rules: Seq<Rule>, sups: Seq<(Seq<char>, Seq<char>)>, w: Derivation, cs: Seq<Conclusion>, i: int) -> (n: int)
    requires
        derivation_of(rules, sups, w, cs),
        0 <= i < cs.len(),
    ensures
        denotes(w.atoms, cs[i].literal, n),
        entry_fact(w, cs[i].conclusion_type, n),
{
    let nd = w.dlog.len() as int;
    let np = w.plog.len() as int;
    if i < nd {
        assert(shows(w.atoms, cs[i], ConclusionType::DefinitelyProvable, w.dlog[i] as int, Some(rules[w.drule[i] as int].label)));
        assert(w.d.contains(w.dlog[i] as int));
        w.dlog[i] as int
    } else if i < nd + np {
        let k = i - nd;
        assert(shows(w.atoms, cs[nd + k], ConclusionType::DefeasiblyProvable, w.plog[k] as int, label_of(rules, w.prule[k])));
        assert(w.p.contains(w.plog[k] as int));
        w.plog[k] as int
    } else {
        let neg = neg_entries(w.d, w.p, w.ct.n_lits as nat);
        let k = i - nd - np;
        assert(shows(w.atoms, cs[nd + np + k], neg[k].0, neg[k].1, None));
        lemma_neg_entry(w.d, w.p, w.ct.n_lits as nat, k);
        neg[k].1
    }
}

/// Every literal number gets its +D or -D entry and its +d or -d entry.
proof fn lemma_present(rules: Seq<Rule>, sups: Seq<(Seq<char>, Seq<char>)>, w: Derivation, cs: Seq<Conclusion>, l: Literal, n: int)
    requires
        derivation_of(rules, sups, w, cs),
        denotes(w.atoms, l, n),
    ensures
        w.d.contains(n) ==> reports(cs, ConclusionType::DefinitelyProvable, l),
        !w.d.contains(n) ==> reports(cs, ConclusionType::DefinitelyNotProvable, l),
        w.p.contains(n) ==> reports(cs, ConclusionType::DefeasiblyProvable, l),
        !w.p.contains(n) ==> reports(cs, ConclusionType::DefeasiblyNotProvable, l),
{
    let nd = w.dlog.len() as int;
    let np = w.plog.len() as int;
    let neg = neg_entries(w.d, w.p, w.ct.n_lits as nat);
    lemma_neg_has(w.d, w.p, w.ct.n_lits as nat, n);
    if w.d.contains(n) {
        let k = choose|k: int| 0 <= k < w.dlog.len() && #[trigger] w.dlog[k] == n;
        assert(shows(w.atoms, cs[k], ConclusionType::DefinitelyProvable, w.dlog[k] as int, Some(rules[w.drule[k] as int].label)));
        lemma_denotes_unique(w.atoms, cs[k].literal, n, l, n);
    } else {
        let k = choose|k: int| 0 <= k < neg.len() && #[trigger] neg[k] == (ConclusionType::DefinitelyNotProvable, n);
        assert(shows(w.atoms, cs[nd + np + k], neg[k].0, neg[k].1, None));
        lemma_denotes_unique(w.atoms, cs[nd + np + k].literal, n, l, n);
    }
    if w.p.contains(n) {
        let k = choose|k: int| 0 <= k < w.plog.len() && #[trigger] w.plog[k] == n;
        assert(shows(w.atoms, cs[nd + k], ConclusionType::DefeasiblyProvable, w.plog[k] as int, label_of(rules, w.prule[k])));
        lemma_denotes_unique(w.atoms, cs[nd + k].literal, n, l, n);
    } else {
        let k = choose|k: int| 0 <= k < neg.len() && #[trigger] neg[k] == (ConclusionType::DefeasiblyNotProvable, n);
        assert(shows(w.atoms, cs[nd + np + k], neg[k].0, neg[k].1, None));
        lemma_denotes_unique(w.atoms, cs[nd + np + k].literal, n, l, n);
    }
}

/// A reported literal denotes a number, and what is reported of it is true
/// of that number.
proof fn lemma_reported(rules: Seq<Rule>, sups: Seq<(Seq<char>, Seq<char>)>, w: Derivation, cs: Seq<Conclusion>, t: ConclusionType, l: Literal) -> (n: int)
    requires
        derivation_of(rules, sups, w, cs),
        reports(cs, t, l),
    ensures
        denotes(w.atoms, l, n),
        entry_fact(w, t, n),
{
    let i = choose|i: int| 0 <= i < cs.len() && (#[trigger] cs[i]).conclusion_type == t && identical(cs[i].literal, l);
    let n = lemma_entry(rules, sups, w, cs, i);
    assert(l.atom() == cs[i].literal.atom());
    n
}

/// Rule `r` of the index is rule `r` of the theory: same kind, and its head
/// number is the number of the theory rule's head literal.
proof fn lemma_head_rule(rules: Seq<Rule>, sups: Seq<(Seq<char>, Seq<char>)>, w: Derivation, cs: Seq<Conclusion>, r: int, l: Literal, n: int)
    requires
        derivation_of(rules, sups, w, cs),
        0 <= r < w.ct.nr(),
        w.ct.head(r) == n,
        denotes(w.atoms, l, n),
    ensures
        identical(rules[r].head@[0], l),
        w.ct.kind(r) == rules[r].rule_type,
{
    reveal(ft_heads);
    let head = rules[r].head@[0];
    assert(atom_present(w.atoms, head));
    let a = choose|a: int| 0 <= a < w.atoms.len() && (#[trigger] w.atoms[a]).atom() == head.atom();
    lemma_lit_num(w.atoms, head, a);
    lemma_denotes_unique(w.atoms, head, n, l, n);
}

/// No literal is reported both definitely provable and definitely not
/// provable, nor both defeasibly provable and defeasibly not provable.
pub proof fn law_no_literal_both_ways(th: Theory, cs: Seq<Conclusion>, l: Literal)
    requires
        reasoned(th, cs),
    ensures
        !(reports(cs, ConclusionType::DefinitelyProvable, l) && reports(cs, ConclusionType::DefinitelyNotProvable, l)),
        !(reports(cs, ConclusionType::DefeasiblyProvable, l) && reports(cs, ConclusionType::DefeasiblyNotProvable, l)),
{
    let rules = th.spec_rules();
    let sups = th.spec_sups();
    let w = choose|w: Derivation| derivation_of(rules, sups, w, cs);
    if reports(cs, ConclusionType::DefinitelyProvable, l) && reports(cs, ConclusionType::DefinitelyNotProvable, l) {
        let a = lemma_reported(rules, sups, w, cs, ConclusionType::DefinitelyProvable, l);
        let b = lemma_reported(rules, sups, w, cs, ConclusionType::DefinitelyNotProvable, l);
        lemma_denotes_unique(w.atoms, l, a, l, b);
    }
    if reports(cs, ConclusionType::DefeasiblyProvable, l) && reports(cs, ConclusionType::DefeasiblyNotProvable, l) {
        let a = lemma_reported(rules, sups, w, cs, ConclusionType::DefeasiblyProvable, l);
        let b = lemma_reported(rules, sups, w, cs, ConclusionType::DefeasiblyNotProvable, l);
        lemma_denotes_unique(w.atoms, l, a, l, b);
    }
}

/// Every literal about a proposition of the theory (in a rule's head or
/// body, either sign) is reported definitely provable or definitely not
/// provable, and defeasibly provable or defeasibly not provable.
pub proof fn law_every_literal_decided(th: Theory, cs: Seq<Conclusion>, l: Literal)
    requires
        reasoned(th, cs),
        theory_has_atom(th.spec_rules(), l.atom()),
    ensures
        reports(cs, ConclusionType::DefinitelyProvable, l) || reports(cs, ConclusionType::DefinitelyNotProvable, l),
        reports(cs, ConclusionType::DefeasiblyProvable, l) || reports(cs, ConclusionType::DefeasiblyNotProvable, l),
{
    let rules = th.spec_rules();
    let sups = th.spec_sups();
    let w = choose|w: Derivation| derivation_of(rules, sups, w, cs);
    lemma_occurs_indexed(rules, w.atoms, w.ct, l);
    let a = choose|a: int| 0 <= a < w.atoms.len() && (#[trigger] w.atoms[a]).atom() == l.atom();
    let n = 2 * a + (if l.negation { 1int } else { 0int });
    assert(denotes(w.atoms, l, n));
    lemma_present(rules, sups, w, cs, l, n);
}

/// A proposition of the rules is one of the atoms.
proof fn lemma_occurs_indexed(rules: Seq<Rule>, atoms: Seq<Literal>, ct: Compiled, l: Literal)
    requires
        ft_heads(rules, atoms, ct),
        ft_bodies(rules, atoms, ct),
        theory_has_atom(rules, l.atom()),
    ensures
        atom_present(atoms, l),
{
    reveal(ft_heads);
    reveal(ft_bodies);
    let r = choose|r: int|
        0 <= r < rules.len() && ((#[trigger] rules[r]).head@[0].atom() == l.atom() || exists|i: int|
            0 <= i < rules[r].body@.len() && (#[trigger] rules[r].body@[i]).atom() == l.atom());
    if rules[r].head@[0].atom() == l.atom() {
        assert(atom_present(atoms, rules[r].head@[0]));
    } else {
        let i = choose|i: int| 0 <= i < rules[r].body@.len() && (#[trigger] rules[r].body@[i]).atom() == l.atom();
        assert(atom_present(atoms, rules[r].body@[i]));
    }
}

/// A literal reported definitely provable is also reported defeasibly
/// provable, unless its complement is definitely provable too.
pub proof fn law_definite_is_defeasible(th: Theory, cs: Seq<Conclusion>, l: Literal)
    requires
        reasoned(th, cs),
        reports(cs, ConclusionType::DefinitelyProvable, l),
        !reports(cs, ConclusionType::DefinitelyProvable, comp_lit(l)),
    ensures
        reports(cs, ConclusionType::DefeasiblyProvable, l),
{
    let rules = th.spec_rules();
    let sups = th.spec_sups();
    let w = choose|w: Derivation| derivation_of(rules, sups, w, cs);
    let n = lemma_reported(rules, sups, w, cs, ConclusionType::DefinitelyProvable, l);
    lemma_denotes_comp(w.atoms, l, n);
    lemma_present(rules, sups, w, cs, comp_lit(l), comp(n));
    lemma_present(rules, sups, w, cs, l, n);
}

/// A literal whose every rule is a defeater is never reported provable,
/// definitely or defeasibly: defeaters only block.
pub proof fn law_defeaters_prove_nothing(th: Theory, cs: Seq<Conclusion>, l: Literal)
    requires
        reasoned(th, cs),
        forall|r: int|
            0 <= r < th.spec_rules().len() && identical((#[trigger] th.spec_rules()[r]).head@[0], l)
                ==> th.spec_rules()[r].rule_type == RuleType::Defeater,
    ensures
        !reports(cs, ConclusionType::DefinitelyProvable, l),
        !reports(cs, ConclusionType::DefeasiblyProvable, l),
{
    let rules = th.spec_rules();
    let sups = th.spec_sups();
    let w = choose|w: Derivation| derivation_of(rules, sups, w, cs);
    if reports(cs, ConclusionType::DefinitelyProvable, l) {
        let n = lemma_reported(rules, sups, w, cs, ConclusionType::DefinitelyProvable, l);
        lemma_definite_has_rule(rules, sups, w, cs, l, n);
    }
    if reports(cs, ConclusionType::DefeasiblyProvable, l) {
        let n = lemma_reported(rules, sups, w, cs, ConclusionType::DefeasiblyProvable, l);
        assert(w.ct.plus_ok(w.d, w.p, n));
        if w.d.contains(n) {
            lemma_definite_has_rule(rules, sups, w, cs, l, n);
        } else {
            let r = choose|r: int|
                0 <= r < w.ct.nr() && #[trigger] w.ct.head(r) == n && w.ct.supports(r) && w.ct.applicable(r, w.p);
            lemma_head_rule(rules, sups, w, cs, r, l, n);
        }
    }
}

/// A definitely provable number was proved by a fact or strict rule of the
/// theory whose head is the literal.
proof fn lemma_definite_has_rule(rules: Seq<Rule>, sups: Seq<(Seq<char>, Seq<char>)>, w: Derivation, cs: Seq<Conclusion>, l: Literal, n: int)
    requires
        derivation_of(rules, sups, w, cs),
        w.d.contains(n),
        denotes(w.atoms, l, n),
    ensures
        exists|r: int|
            0 <= r < rules.len() && identical((#[trigger] rules[r]).head@[0], l) && (rules[r].rule_type == RuleType::Fact
                || rules[r].rule_type == RuleType::Strict),
{
    let k = choose|k: int| 0 <= k < w.dlog.len() && #[trigger] w.dlog[k] == n;
    let r = w.drule[k] as int;
    lemma_head_rule(rules, sups, w, cs, r, l, n);
}

/// The superiority relation has no cycle: its labels can be ranked, below
/// some bound, so that every superior label ranks above its inferior.
pub open spec fn sup_acyclic(sups: Seq<(Seq<char>, Seq<char>)>) -> bool {
    exists|rank: spec_fn(Seq<char>) -> nat, m: nat| #[trigger] ranked(sups, rank, m)
}

/// Every superiority pair's superior label ranks above its inferior one, and
/// at most `m`.
pub open spec fn ranked(sups: Seq<(Seq<char>, Seq<char>)>, rank: spec_fn(Seq<char>) -> nat, m: nat) -> bool {
    forall|k: int|
        #![trigger sups[k]]
        0 <= k < sups.len() ==> rank(sups[k].0) <= m && rank(sups[k].1) < rank(sups[k].0)
}

/// Every applicable rule for the complement of `q` is non-strict and beaten
/// by an applicable rule for `q` (the attack clause of the +d condition).
spec fn attackers_beaten(ct: Compiled, p: Set<int>, q: int) -> bool {
    forall|s: int|
        0 <= s < ct.nr() && #[trigger] ct.head(s) == comp(q) && ct.applicable(s, p) ==> ct.kind(s)
            != RuleType::Strict && exists|t: int|
            0 <= t < ct.nr() && #[trigger] ct.head(t) == q && ct.supports(t) && ct.applicable(t, p)
                && ct.superior(t, s)
}

/// When every applicable rule for `n` is beaten by an applicable rule for
/// its complement and the other way round, following the defeats upwards
/// through the ranks cannot go on forever: such rules do not exist.
proof fn lemma_no_endless_defeat(
    rules: Seq<Rule>,
    sups: Seq<(Seq<char>, Seq<char>)>,
    ct: Compiled,
    p: Set<int>,
    n: int,
    rank: spec_fn(Seq<char>) -> nat,
    m: nat,
    x: int,
)
    requires
        ct.nr() == rules.len(),
        comp(comp(n)) == n,
        attackers_beaten(ct, p, n),
        attackers_beaten(ct, p, comp(n)),
        forall|t: int, s: int|
            0 <= t < rules.len() && 0 <= s < rules.len() ==> (#[trigger] ct.superior(t, s)
                <==> sups.contains((rules[t].spec_template_label(), rules[s].spec_template_label()))),
        ranked(sups, rank, m),
        0 <= x < ct.nr(),
    ensures
        !((ct.head(x) == n || ct.head(x) == comp(n)) && ct.applicable(x, p)),
    decreases m - rank(rules[x].spec_template_label()),
{
    if (ct.head(x) == n || ct.head(x) == comp(n)) && ct.applicable(x, p) {
        let q = if ct.head(x) == n { comp(n) } else { n };
        assert(ct.head(x) == comp(q));
        let t = choose|t: int|
            0 <= t < ct.nr() && #[trigger] ct.head(t) == q && ct.supports(t) && ct.applicable(t, p) && ct.superior(t, x);
        let pair = (rules[t].spec_template_label(), rules[x].spec_template_label());
        assert(sups.contains(pair));
        let k = choose|k: int| 0 <= k < sups.len() && sups[k] == pair;
        assert(rank(sups[k].0) <= m && rank(sups[k].1) < rank(sups[k].0));
        lemma_no_endless_defeat(rules, sups, ct, p, n, rank, m, t);
    }
}

/// When the superiority relation is acyclic, no literal is reported
/// defeasibly provable together with its complement.
pub proof fn law_defeasibly_consistent(th: Theory, cs: Seq<Conclusion>, l: Literal)
    requires
        reasoned(th, cs),
        sup_acyclic(th.spec_sups()),
    ensures
        !(reports(cs, ConclusionType::DefeasiblyProvable, l) && reports(cs, ConclusionType::DefeasiblyProvable, comp_lit(l))),
{
    let rules = th.spec_rules();
    let sups = th.spec_sups();
    let w = choose|w: Derivation| derivation_of(rules, sups, w, cs);
    if reports(cs, ConclusionType::DefeasiblyProvable, l) && reports(cs, ConclusionType::DefeasiblyProvable, comp_lit(l)) {
        let n = lemma_reported(rules, sups, w, cs, ConclusionType::DefeasiblyProvable, l);
        let n2 = lemma_reported(rules, sups, w, cs, ConclusionType::DefeasiblyProvable, comp_lit(l));
        lemma_denotes_comp(w.atoms, l, n);
        lemma_denotes_unique(w.atoms, comp_lit(l), n2, comp_lit(l), comp(n));
        assert(w.ct.plus_ok(w.d, w.p, n));
        assert(w.ct.plus_ok(w.d, w.p, comp(n)));
        let x = lemma_plus_parts(w.ct, w.d, w.p, n);
        lemma_defeat_ends(rules, sups, w.ct, w.p, n, x);
    }
}

/// The superiority of the index is that of the theory's labels.
proof fn lemma_sups(rules: Seq<Rule>, sups: Seq<(Seq<char>, Seq<char>)>, ct: Compiled)
    requires
        ft_sups(rules, sups, ct),
    ensures
        forall|t: int, s: int|
            0 <= t < rules.len() && 0 <= s < rules.len() ==> (#[trigger] ct.superior(t, s)
                <==> sups.contains((rules[t].spec_template_label(), rules[s].spec_template_label()))),
{
    reveal(ft_sups);
}

/// Under an acyclic superiority relation, following defeats from an
/// applicable rule for `n` or its complement ends: no such rule exists when
/// each side beats every applicable rule of the other.
proof fn lemma_defeat_ends(rules: Seq<Rule>, sups: Seq<(Seq<char>, Seq<char>)>, ct: Compiled, p: Set<int>, n: int, x: int)
    requires
        ct.nr() == rules.len(),
        ft_sups(rules, sups, ct),
        sup_acyclic(sups),
        comp(comp(n)) == n,
        attackers_beaten(ct, p, n),
        attackers_beaten(ct, p, comp(n)),
        0 <= x < ct.nr(),
    ensures
        !((ct.head(x) == n || ct.head(x) == comp(n)) && ct.applicable(x, p)),
{
    let (rank, m) = choose|rank: spec_fn(Seq<char>) -> nat, m: nat| #[trigger] ranked(sups, rank, m);
    lemma_sups(rules, sups, ct);
    lemma_no_endless_defeat(rules, sups, ct, p, n, rank, m, x);
}

/// When the +d condition holds of `n` and of its complement, neither is
/// definitely provable, each side beats every applicable rule of the other,
/// and some applicable rule supports `n`.
proof fn lemma_plus_parts(ct: Compiled, d: Set<int>, p: Set<int>, n: int) -> (x: int)
    requires
        ct.plus_ok(d, p, n),
        ct.plus_ok(d, p, comp(n)),
        comp(comp(n)) == n,
    ensures
        attackers_beaten(ct, p, n),
        attackers_beaten(ct, p, comp(n)),
        0 <= x < ct.nr(),
        ct.head(x) == n,
        ct.applicable(x, p),
{
    assert(!d.contains(n));
    choose|r: int| 0 <= r < ct.nr() && #[trigger] ct.head(r) == n && ct.supports(r) && ct.applicable(r, p)
}

/// Over the same conclusions, a query without bounds is answered provable
/// exactly when why-not finds the literal proven, and then why-not lists no
/// blocker.
pub proof fn law_query_agrees_with_why_not(
    rules: Seq<Rule>,
    sups: Seq<(Seq<char>, Seq<char>)>,
    cs: Seq<Conclusion>,
    q: Literal,
    res: QueryResult,
    wn: WhyNotResult,
)
    requires
        query_outcome(cs, q, res),
        why_not_outcome(rules, sups, cs, q, wn),
        q.temporal.spec_is_empty(),
    ensures
        (res.status == QueryStatus::Provable) <==> proven_in(cs, q),
        res.status == QueryStatus::Provable ==> wn.blocked_by@.len() == 0,
{
    if proven_in(cs, q) {
        let i = choose|i: int| 0 <= i < cs.len() && (#[trigger] cs[i]).conclusion_type.spec_is_positive() && cs[i].literal.same_as(&q);
        assert(proves(cs[i], q));
    }
    if res.status == QueryStatus::Provable {
        let i = choose|i: int| 0 <= i < cs.len() && proves(#[trigger] cs[i], q);
        assert(cs[i].conclusion_type.spec_is_positive() && cs[i].literal.same_as(&q));
    }
}

} // verus!
