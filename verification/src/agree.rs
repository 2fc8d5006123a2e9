//! Separate runs of reasoning over the same rules agree: the indexings
//! they build mean the same, so the engine's sets are the same.

use vstd::prelude::*;
use crate::engine::{Compiled, comp, holds};
use crate::index::{
    atom_keys, atom_present, atoms_distinct, faithful, from_body, ft_bodies, ft_heads, ft_sups, lit_num,
    rules_keys, lemma_rules_keys_data,
};
use crate::literal::Literal;
use crate::rule::{Rule, RuleType, same_lit, same_rule_data, same_rules_data};
use crate::conclusion::{Conclusion, ConclusionType};
use crate::reason::{Derivation, derivation_of, reasoned_over, neg_entries, shows};
use crate::index::denotes;

verus! {

/// Two indexings of rules with the same data and of the same superiority
/// pairs, over atoms with the same propositions in the same order.
pub open spec fn twins(
    r1: Seq<Rule>,
    r2: Seq<Rule>,
    sups: Seq<(Seq<char>, Seq<char>)>,
    a1: Seq<Literal>,
    c1: Compiled,
    a2: Seq<Literal>,
    c2: Compiled,
) -> bool {
    &&& same_rules_data(r1, r2)
    &&& faithful(r1, sups, a1, c1)
    &&& faithful(r2, sups, a2, c2)
    &&& atom_keys(a1) == atom_keys(a2)
}

/// Atoms with the same propositions in the same order give a literal the
/// same number.
proof fn lemma_lit_num_keys(a1: Seq<Literal>, a2: Seq<Literal>, lit: Literal)
    requires
        atom_keys(a1) == atom_keys(a2),
        atoms_distinct(a1),
        atoms_distinct(a2),
        atom_present(a1, lit),
    ensures
        atom_present(a2, lit),
        lit_num(a1, lit) == lit_num(a2, lit),
{
    assert(a1.len() == atom_keys(a1).len());
    let i1 = choose|a: int| 0 <= a < a1.len() && (#[trigger] a1[a]).atom() == lit.atom();
    assert(atom_keys(a1)[i1] == a1[i1].atom());
    assert(atom_keys(a2)[i1] == a2[i1].atom());
    assert(a2[i1].atom() == lit.atom());
    let i2 = choose|a: int| 0 <= a < a2.len() && (#[trigger] a2[a]).atom() == lit.atom();
    assert(atom_keys(a2)[i2] == a2[i2].atom());
    assert(atom_keys(a1)[i2] == a1[i2].atom());
    assert(a1[i2].atom() == lit.atom());
}

/// Literals with the same data have the same number.
proof fn lemma_lit_num_same(a: Seq<Literal>, x: Literal, y: Literal)
    requires
        same_lit(x, y),
    ensures
        lit_num(a, x) == lit_num(a, y),
        atom_present(a, x) == atom_present(a, y),
{
    assert(x.atom() == y.atom());
}

/// Twin indexings have as many literals and rules.
proof fn lemma_twin_sizes(
    r1: Seq<Rule>,
    r2: Seq<Rule>,
    sups: Seq<(Seq<char>, Seq<char>)>,
    a1: Seq<Literal>,
    c1: Compiled,
    a2: Seq<Literal>,
    c2: Compiled,
)
    requires
        twins(r1, r2, sups, a1, c1, a2, c2),
    ensures
        c1.n_lits == c2.n_lits,
        c1.nr() == c2.nr(),
        c1.nr() == r1.len(),
{
    assert(a1.len() == atom_keys(a1).len() && a2.len() == atom_keys(a2).len());
}

/// Twin indexings give each rule the same head and kind, and body literals
/// with the same numbers.
proof fn lemma_twin_rule(
    r1: Seq<Rule>,
    r2: Seq<Rule>,
    sups: Seq<(Seq<char>, Seq<char>)>,
    a1: Seq<Literal>,
    c1: Compiled,
    a2: Seq<Literal>,
    c2: Compiled,
    r: int,
    l: int,
)
    requires
        twins(r1, r2, sups, a1, c1, a2, c2),
        0 <= r < r1.len(),
    ensures
        c1.head(r) == c2.head(r),
        c1.kind(r) == c2.kind(r),
        holds(c1.body(r), l) == holds(c2.body(r), l),
{
    reveal(ft_heads);
    reveal(ft_bodies);
    assert(same_rule_data(r1[r], r2[r]));
    assert(c1.kind(r) == r1[r].rule_type);
    assert(c2.kind(r) == r2[r].rule_type);
    assert(same_lit(r1[r].head@[0], r2[r].head@[0]));
    lemma_lit_num_keys(a1, a2, r1[r].head@[0]);
    lemma_lit_num_same(a2, r1[r].head@[0], r2[r].head@[0]);
    if holds(c1.body(r), l) {
        let k = choose|k: int| 0 <= k < c1.body(r).len() && #[trigger] c1.body(r)[k] == l;
        assert(from_body(a1, r1[r].body@, c1.body(r)[k] as int, r1[r].body@.len() as int));
        let j = choose|j: int|
            0 <= j < r1[r].body@.len() && j < r1[r].body@.len() && l == lit_num(a1, #[trigger] r1[r].body@[j]);
        assert(same_lit(r1[r].body@[j], r2[r].body@[j]));
        lemma_lit_num_keys(a1, a2, r1[r].body@[j]);
        lemma_lit_num_same(a2, r1[r].body@[j], r2[r].body@[j]);
        assert(holds(c2.body(r), lit_num(a2, r2[r].body@[j])));
    }
    if holds(c2.body(r), l) {
        let k = choose|k: int| 0 <= k < c2.body(r).len() && #[trigger] c2.body(r)[k] == l;
        assert(from_body(a2, r2[r].body@, c2.body(r)[k] as int, r2[r].body@.len() as int));
        let j = choose|j: int|
            0 <= j < r2[r].body@.len() && j < r2[r].body@.len() && l == lit_num(a2, #[trigger] r2[r].body@[j]);
        assert(same_lit(r1[r].body@[j], r2[r].body@[j]));
        assert(atom_present(a1, r1[r].body@[j]));
        lemma_lit_num_keys(a1, a2, r1[r].body@[j]);
        lemma_lit_num_same(a2, r1[r].body@[j], r2[r].body@[j]);
        assert(holds(c1.body(r), lit_num(a1, r1[r].body@[j])));
    }
}

/// Twin indexings agree on which rules apply and which are discarded.
proof fn lemma_twin_applies(
    r1: Seq<Rule>,
    r2: Seq<Rule>,
    sups: Seq<(Seq<char>, Seq<char>)>,
    a1: Seq<Literal>,
    c1: Compiled,
    a2: Seq<Literal>,
    c2: Compiled,
    r: int,
    s: Set<int>,
)
    requires
        twins(r1, r2, sups, a1, c1, a2, c2),
        0 <= r < r1.len(),
    ensures
        c1.applicable(r, s) == c2.applicable(r, s),
        c1.discarded(r, s) == c2.discarded(r, s),
{
    if c1.applicable(r, s) {
        assert forall|i: int| 0 <= i < c2.body(r).len() implies s.contains(#[trigger] c2.body(r)[i] as int) by {
            let x = c2.body(r)[i] as int;
            assert(holds(c2.body(r), x));
            lemma_twin_rule(r1, r2, sups, a1, c1, a2, c2, r, x);
            let k = choose|k: int| 0 <= k < c1.body(r).len() && #[trigger] c1.body(r)[k] == x;
        }
    }
    if c2.applicable(r, s) {
        assert forall|i: int| 0 <= i < c1.body(r).len() implies s.contains(#[trigger] c1.body(r)[i] as int) by {
            let x = c1.body(r)[i] as int;
            assert(holds(c1.body(r), x));
            lemma_twin_rule(r1, r2, sups, a1, c1, a2, c2, r, x);
            let k = choose|k: int| 0 <= k < c2.body(r).len() && #[trigger] c2.body(r)[k] == x;
        }
    }
    if c1.discarded(r, s) {
        let i = choose|i: int| 0 <= i < c1.body(r).len() && s.contains(#[trigger] c1.body(r)[i] as int);
        let x = c1.body(r)[i] as int;
        assert(holds(c1.body(r), x));
        lemma_twin_rule(r1, r2, sups, a1, c1, a2, c2, r, x);
        let k = choose|k: int| 0 <= k < c2.body(r).len() && #[trigger] c2.body(r)[k] == x;
    }
    if c2.discarded(r, s) {
        let i = choose|i: int| 0 <= i < c2.body(r).len() && s.contains(#[trigger] c2.body(r)[i] as int);
        let x = c2.body(r)[i] as int;
        assert(holds(c2.body(r), x));
        lemma_twin_rule(r1, r2, sups, a1, c1, a2, c2, r, x);
        let k = choose|k: int| 0 <= k < c1.body(r).len() && #[trigger] c1.body(r)[k] == x;
    }
}

/// Twin indexings agree on superiority.
proof fn lemma_twin_sup(
    r1: Seq<Rule>,
    r2: Seq<Rule>,
    sups: Seq<(Seq<char>, Seq<char>)>,
    a1: Seq<Literal>,
    c1: Compiled,
    a2: Seq<Literal>,
    c2: Compiled,
    t: int,
    u: int,
)
    requires
        twins(r1, r2, sups, a1, c1, a2, c2),
        0 <= t < r1.len(),
        0 <= u < r1.len(),
    ensures
        c1.superior(t, u) == c2.superior(t, u),
{
    reveal(ft_sups);
    assert(same_rule_data(r1[t], r2[t]) && same_rule_data(r1[u], r2[u]));
    assert(c1.superior(t, u) <==> sups.contains((r1[t].spec_template_label(), r1[u].spec_template_label())));
    assert(c2.superior(t, u) <==> sups.contains((r2[t].spec_template_label(), r2[u].spec_template_label())));
}

/// Twinship is symmetric.
proof fn lemma_twins_symmetric(
    r1: Seq<Rule>,
    r2: Seq<Rule>,
    sups: Seq<(Seq<char>, Seq<char>)>,
    a1: Seq<Literal>,
    c1: Compiled,
    a2: Seq<Literal>,
    c2: Compiled,
)
    requires
        twins(r1, r2, sups, a1, c1, a2, c2),
    ensures
        twins(r2, r1, sups, a2, c2, a1, c1),
{
    lemma_same_data_symmetric(r1, r2);
}

/// The engine's checks agree on twin indexings, one way.
proof fn lemma_twin_ready_one_way(
    r1: Seq<Rule>,
    r2: Seq<Rule>,
    sups: Seq<(Seq<char>, Seq<char>)>,
    a1: Seq<Literal>,
    c1: Compiled,
    a2: Seq<Literal>,
    c2: Compiled,
    d: Set<int>,
    pp: Set<int>,
    pn: Set<int>,
    q: int,
)
    requires
        twins(r1, r2, sups, a1, c1, a2, c2),
    ensures
        c1.prove_ready(d, pp, pn, q) ==> c2.prove_ready(d, pp, pn, q),
        c1.disprove_ready(d, pp, pn, q) ==> c2.disprove_ready(d, pp, pn, q),
{
    lemma_twin_sizes(r1, r2, sups, a1, c1, a2, c2);
    if c1.prove_ready(d, pp, pn, q) {
        assert forall|t: int| #[trigger] c1.live_for(t, pp, pn, q) implies c2.live_for(t, pp, pn, q) by {
            lemma_twin_rule(r1, r2, sups, a1, c1, a2, c2, t, 0);
            lemma_twin_applies(r1, r2, sups, a1, c1, a2, c2, t, pp);
            lemma_twin_applies(r1, r2, sups, a1, c1, a2, c2, t, pn);
        }
        let r = choose|r: int| #[trigger] c1.live_for(r, pp, pn, q);
        assert(c2.live_for(r, pp, pn, q));
        assert forall|s: int|
            0 <= s < c2.nr() && #[trigger] c2.head(s) == comp(q) implies c2.discarded(s, pn) || (
            c2.kind(s) != RuleType::Strict && c2.applicable(s, pp) && exists|t: int|
                #[trigger] c2.live_for(t, pp, pn, q) && c2.superior(t, s)) by {
            lemma_twin_rule(r1, r2, sups, a1, c1, a2, c2, s, 0);
            lemma_twin_applies(r1, r2, sups, a1, c1, a2, c2, s, pp);
            lemma_twin_applies(r1, r2, sups, a1, c1, a2, c2, s, pn);
            assert(c1.head(s) == comp(q));
            if !c1.discarded(s, pn) {
                let t = choose|t: int| #[trigger] c1.live_for(t, pp, pn, q) && c1.superior(t, s);
                assert(c2.live_for(t, pp, pn, q));
                lemma_twin_sup(r1, r2, sups, a1, c1, a2, c2, t, s);
            }
        }
    }
    if c1.disprove_ready(d, pp, pn, q) {
        if !d.contains(comp(q)) {
            if forall|r: int|
                0 <= r < c1.nr() && #[trigger] c1.head(r) == q && c1.supports(r) ==> c1.discarded(r, pn) {
                assert forall|r: int|
                    0 <= r < c2.nr() && #[trigger] c2.head(r) == q && c2.supports(r) implies c2.discarded(r, pn) by {
                    lemma_twin_rule(r1, r2, sups, a1, c1, a2, c2, r, 0);
                    lemma_twin_applies(r1, r2, sups, a1, c1, a2, c2, r, pn);
                    assert(c1.head(r) == q);
                }
            } else {
                let s = choose|s: int|
                    0 <= s < c1.nr() && #[trigger] c1.head(s) == comp(q) && c1.applicable(s, pp) && !c1.discarded(s, pn)
                        && forall|t: int|
                        0 <= t < c1.nr() && #[trigger] c1.head(t) == q && c1.supports(t) && !c1.discarded(t, pn)
                            ==> !c1.superior(t, s);
                lemma_twin_rule(r1, r2, sups, a1, c1, a2, c2, s, 0);
                lemma_twin_applies(r1, r2, sups, a1, c1, a2, c2, s, pp);
                lemma_twin_applies(r1, r2, sups, a1, c1, a2, c2, s, pn);
                assert forall|t: int|
                    0 <= t < c2.nr() && #[trigger] c2.head(t) == q && c2.supports(t) && !c2.discarded(t, pn)
                        implies !c2.superior(t, s) by {
                    lemma_twin_rule(r1, r2, sups, a1, c1, a2, c2, t, 0);
                    lemma_twin_applies(r1, r2, sups, a1, c1, a2, c2, t, pn);
                    lemma_twin_sup(r1, r2, sups, a1, c1, a2, c2, t, s);
                    assert(c1.head(t) == q);
                }
                assert(c2.head(s) == comp(q));
            }
        }
    }
}

/// The engine's checks, the -d condition and closedness agree on twin
/// indexings.
proof fn lemma_twin_ready(
    r1: Seq<Rule>,
    r2: Seq<Rule>,
    sups: Seq<(Seq<char>, Seq<char>)>,
    a1: Seq<Literal>,
    c1: Compiled,
    a2: Seq<Literal>,
    c2: Compiled,
    d: Set<int>,
    pp: Set<int>,
    pn: Set<int>,
    q: int,
)
    requires
        twins(r1, r2, sups, a1, c1, a2, c2),
    ensures
        c1.prove_ready(d, pp, pn, q) == c2.prove_ready(d, pp, pn, q),
        c1.disprove_ready(d, pp, pn, q) == c2.disprove_ready(d, pp, pn, q),
        c1.minus_ok(d, pp, pn, q) == c2.minus_ok(d, pp, pn, q),
{
    lemma_twin_ready_one_way(r1, r2, sups, a1, c1, a2, c2, d, pp, pn, q);
    lemma_twins_symmetric(r1, r2, sups, a1, c1, a2, c2);
    lemma_twin_ready_one_way(r2, r1, sups, a2, c2, a1, c1, d, pp, pn, q);
}

/// Twin indexings have the same closed sets and closed pairs.
proof fn lemma_twin_closed(
    r1: Seq<Rule>,
    r2: Seq<Rule>,
    sups: Seq<(Seq<char>, Seq<char>)>,
    a1: Seq<Literal>,
    c1: Compiled,
    a2: Seq<Literal>,
    c2: Compiled,
)
    requires
        twins(r1, r2, sups, a1, c1, a2, c2),
    ensures
        forall|s: Set<int>| #[trigger] c1.def_closed(s) == c2.def_closed(s),
        forall|d: Set<int>, pp: Set<int>, pn: Set<int>| #[trigger] c1.closed(d, pp, pn) == c2.closed(d, pp, pn),
{
    lemma_twin_sizes(r1, r2, sups, a1, c1, a2, c2);
    assert forall|s: Set<int>| #[trigger] c1.def_closed(s) == c2.def_closed(s) by {
        if c1.def_closed(s) {
            assert forall|r: int| 0 <= r < c2.nr() implies {
                &&& (c2.kind(r) == RuleType::Fact ==> s.contains(#[trigger] c2.head(r)))
                &&& (c2.kind(r) == RuleType::Strict && c2.applicable(r, s) ==> s.contains(c2.head(r)))
            } by {
                lemma_twin_rule(r1, r2, sups, a1, c1, a2, c2, r, 0);
                lemma_twin_applies(r1, r2, sups, a1, c1, a2, c2, r, s);
                assert(c1.head(r) == c2.head(r));
            }
        }
        if c2.def_closed(s) {
            assert forall|r: int| 0 <= r < c1.nr() implies {
                &&& (c1.kind(r) == RuleType::Fact ==> s.contains(#[trigger] c1.head(r)))
                &&& (c1.kind(r) == RuleType::Strict && c1.applicable(r, s) ==> s.contains(c1.head(r)))
            } by {
                lemma_twin_rule(r1, r2, sups, a1, c1, a2, c2, r, 0);
                lemma_twin_applies(r1, r2, sups, a1, c1, a2, c2, r, s);
                assert(c2.head(r) == c1.head(r));
            }
        }
    }
    assert forall|d: Set<int>, pp: Set<int>, pn: Set<int>| #[trigger] c1.closed(d, pp, pn) == c2.closed(d, pp, pn) by {
        assert forall|q: int|
            #![trigger c1.minus_ok(d, pp, pn, q)]
            #![trigger c2.minus_ok(d, pp, pn, q)]
            c1.minus_ok(d, pp, pn, q) == c2.minus_ok(d, pp, pn, q) by {
            lemma_twin_ready(r1, r2, sups, a1, c1, a2, c2, d, pp, pn, q);
        }
        assert forall|q: int|
            #![trigger c1.prove_ready(d, pp, pn, q)]
            #![trigger c2.prove_ready(d, pp, pn, q)]
            c1.prove_ready(d, pp, pn, q) == c2.prove_ready(d, pp, pn, q) by {
            lemma_twin_ready(r1, r2, sups, a1, c1, a2, c2, d, pp, pn, q);
        }
    }
}

/// Two runs of the engine over rules with the same data (labels compared by
/// characters) and the same superiority pairs find the same +D, +d and -d
/// literal numbers over atoms with the same propositions in the same order.
pub proof fn law_derivations_agree(
    r1: Seq<Rule>,
    r2: Seq<Rule>,
    sups: Seq<(Seq<char>, Seq<char>)>,
    w1: Derivation,
    cs1: Seq<Conclusion>,
    w2: Derivation,
    cs2: Seq<Conclusion>,
)
    requires
        same_rules_data(r1, r2),
        derivation_of(r1, sups, w1, cs1),
        derivation_of(r2, sups, w2, cs2),
    ensures
        atom_keys(w1.atoms) == atom_keys(w2.atoms),
        w1.ct.n_lits == w2.ct.n_lits,
        w1.d == w2.d,
        w1.p == w2.p,
        w1.n == w2.n,
{
    let c1 = w1.ct;
    let c2 = w2.ct;
    lemma_rules_keys_data(r1, r2);
    assert(twins(r1, r2, sups, w1.atoms, c1, w2.atoms, c2));
    lemma_twin_sizes(r1, r2, sups, w1.atoms, c1, w2.atoms, c2);
    lemma_twin_closed(r1, r2, sups, w1.atoms, c1, w2.atoms, c2);
    assert(c2.def_closed(w1.d) && c1.def_closed(w2.d));
    assert(w1.d.subset_of(w2.d) && w2.d.subset_of(w1.d));
    assert(w1.d =~= w2.d);
    assert(c2.closed(w2.d, w1.p, w1.n));
    assert(c1.closed(w1.d, w2.p, w2.n));
    assert(w1.p =~= w2.p);
    assert(w1.n =~= w2.n);
}

/// Some conclusion of kind `t` in `cs` is about the proposition and
/// polarity of `lit`.
pub open spec fn reports(cs: Seq<Conclusion>, t: ConclusionType, lit: Literal) -> bool {
    exists|k: int|
        0 <= k < cs.len() && (#[trigger] cs[k]).conclusion_type == t && cs[k].literal.atom() == lit.atom()
            && cs[k].literal.negation == lit.negation
}

/// Atoms with the same propositions give a number the same literals.
proof fn lemma_denotes_keys(a1: Seq<Literal>, a2: Seq<Literal>, lit: Literal, n: int)
    requires
        atom_keys(a1) == atom_keys(a2),
        denotes(a1, lit, n),
    ensures
        denotes(a2, lit, n),
{
    assert(a1.len() == atom_keys(a1).len() && a2.len() == atom_keys(a2).len());
    assert(atom_keys(a1)[n / 2] == a1[n / 2].atom());
    assert(atom_keys(a2)[n / 2] == a2[n / 2].atom());
}

/// One direction of [`law_runs_agree`].
proof fn lemma_reports_one_way(
    r1: Seq<Rule>,
    r2: Seq<Rule>,
    sups: Seq<(Seq<char>, Seq<char>)>,
    w1: Derivation,
    cs1: Seq<Conclusion>,
    w2: Derivation,
    cs2: Seq<Conclusion>,
    t: ConclusionType,
    lit: Literal,
)
    requires
        same_rules_data(r1, r2),
        derivation_of(r1, sups, w1, cs1),
        derivation_of(r2, sups, w2, cs2),
        reports(cs1, t, lit),
    ensures
        reports(cs2, t, lit),
{
    law_derivations_agree(r1, r2, sups, w1, cs1, w2, cs2);
    let k = choose|k: int|
        0 <= k < cs1.len() && (#[trigger] cs1[k]).conclusion_type == t && cs1[k].literal.atom() == lit.atom()
            && cs1[k].literal.negation == lit.negation;
    let nd1 = w1.dlog.len() as int;
    let np1 = w1.plog.len() as int;
    let nd2 = w2.dlog.len() as int;
    let np2 = w2.plog.len() as int;
    let neg = neg_entries(w1.d, w1.p, w1.ct.n_lits as nat);
    assert(neg == neg_entries(w2.d, w2.p, w2.ct.n_lits as nat));
    let (j, n) = if k < nd1 {
        let n = w1.dlog[k] as int;
        assert(shows(w1.atoms, cs1[k], ConclusionType::DefinitelyProvable, n, Some(r1[w1.drule[k] as int].label)));
        assert(w2.d.contains(n));
        let i = choose|i: int| 0 <= i < w2.dlog.len() && #[trigger] w2.dlog[i] == n;
        assert(shows(w2.atoms, cs2[i], ConclusionType::DefinitelyProvable, n, Some(r2[w2.drule[i] as int].label)));
        (i, n)
    } else if k < nd1 + np1 {
        let n = w1.plog[k - nd1] as int;
        assert(cs1[nd1 + (k - nd1)] == cs1[k]);
        assert(w2.p.contains(n));
        let i = choose|i: int| 0 <= i < w2.plog.len() && #[trigger] w2.plog[i] == n;
        (nd2 + i, n)
    } else {
        let m = k - nd1 - np1;
        assert(cs1[nd1 + np1 + m] == cs1[k]);
        (nd2 + np2 + m, neg[m].1)
    };
    assert(denotes(w1.atoms, cs1[k].literal, n));
    assert(denotes(w2.atoms, cs2[j].literal, n));
    lemma_denotes_keys(w2.atoms, w1.atoms, cs2[j].literal, n);
    assert(cs2[j].literal.atom() == lit.atom() && cs2[j].literal.negation == lit.negation);
    assert(0 <= j < cs2.len() && cs2[j].conclusion_type == t);
}

/// Two reports of reasoning over rules with the same data (labels compared
/// by characters) and the same superiority pairs hold the same conclusions: for each kind, the same propositions with the same
/// polarity.
pub proof fn law_runs_agree(
    r1: Seq<Rule>,
    r2: Seq<Rule>,
    sups: Seq<(Seq<char>, Seq<char>)>,
    cs1: Seq<Conclusion>,
    cs2: Seq<Conclusion>,
    t: ConclusionType,
    lit: Literal,
)
    requires
        same_rules_data(r1, r2),
        reasoned_over(r1, sups, cs1),
        reasoned_over(r2, sups, cs2),
    ensures
        reports(cs1, t, lit) <==> reports(cs2, t, lit),
{
    let w1 = choose|w: Derivation| derivation_of(r1, sups, w, cs1);
    let w2 = choose|w: Derivation| derivation_of(r2, sups, w, cs2);
    if reports(cs1, t, lit) {
        lemma_reports_one_way(r1, r2, sups, w1, cs1, w2, cs2, t, lit);
    }
    if reports(cs2, t, lit) {
        lemma_same_data_symmetric(r1, r2);
        lemma_reports_one_way(r2, r1, sups, w2, cs2, w1, cs1, t, lit);
    }
}

/// Carrying the same data is symmetric.
pub proof fn lemma_same_data_symmetric(r1: Seq<Rule>, r2: Seq<Rule>)
    requires
        same_rules_data(r1, r2),
    ensures
        same_rules_data(r2, r1),
{
    assert forall|i: int| 0 <= i < r2.len() implies #[trigger] same_rule_data(r2[i], r1[i]) by {
        assert(same_rule_data(r1[i], r2[i]));
        let (x, y) = (r1[i], r2[i]);
        assert forall|k: int| 0 <= k < y.body@.len() implies #[trigger] same_lit(y.body@[k], x.body@[k]) by {
            assert(same_lit(x.body@[k], y.body@[k]));
        }
        assert forall|k: int| 0 <= k < y.head@.len() implies #[trigger] same_lit(y.head@[k], x.head@[k]) by {
            assert(same_lit(x.head@[k], y.head@[k]));
        }
    }
}

} // verus!
