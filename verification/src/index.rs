//! Indexing a theory for the engine: each distinct proposition gets an atom
//! number, each literal the number `2 * atom + negation`, each rule its head
//! and body numbers, and superiority is expanded to rule positions.

use vstd::prelude::*;
use crate::engine::{CRule, Compiled, holds};
use crate::literal::{AtomKey, Literal};
use crate::rule::{Rule, same_lit, same_lits, same_rule, same_rules, same_rule_data, same_rules_data};
use crate::theory::Theory;

verus! {

/// Every rule has a head literal.
pub open spec fn rules_have_heads(rules: Seq<Rule>) -> bool {
    forall|r: int| 0 <= r < rules.len() ==> (#[trigger] rules[r]).head@.len() > 0
}

/// No two atoms are the same proposition.
pub open spec fn atoms_distinct(atoms: Seq<Literal>) -> bool {
    forall|i: int, j: int|
        0 <= i < atoms.len() && 0 <= j < atoms.len() && i != j ==> (#[trigger] atoms[i]).atom()
            != (#[trigger] atoms[j]).atom()
}

/// Some atom is the proposition of `lit`.
pub open spec fn atom_present(atoms: Seq<Literal>, lit: Literal) -> bool {
    exists|a: int| 0 <= a < atoms.len() && (#[trigger] atoms[a]).atom() == lit.atom()
}

/// The number of `lit`: twice its atom's position, plus one when negated.
pub open spec fn lit_num(atoms: Seq<Literal>, lit: Literal) -> int {
    2 * (choose|a: int| 0 <= a < atoms.len() && (#[trigger] atoms[a]).atom() == lit.atom()) + (
    if lit.negation {
        1int
    } else {
        0int
    })
}

/// `lit` is the literal with number `n`.
pub open spec fn denotes(atoms: Seq<Literal>, lit: Literal, n: int) -> bool {
    &&& 0 <= n < 2 * atoms.len()
    &&& atoms[n / 2].atom() == lit.atom()
    &&& (n % 2 == 1) == lit.negation
}

/// A proposition occurs in the rules, in a first head literal or a body.
pub open spec fn theory_has_atom(rules: Seq<Rule>, a: AtomKey) -> bool {
    exists|r: int|
        0 <= r < rules.len() && ((#[trigger] rules[r]).head@[0].atom() == a || exists|i: int|
            0 <= i < rules[r].body@.len() && (#[trigger] rules[r].body@[i]).atom() == a)
}

/// With distinct atoms, the number of a literal whose atom is at `a` is
/// `2a` plus its negation.
pub proof fn lemma_lit_num(atoms: Seq<Literal>, lit: Literal, a: int)
    requires
        atoms_distinct(atoms),
        0 <= a < atoms.len(),
        atoms[a].atom() == lit.atom(),
    ensures
        lit_num(atoms, lit) == 2 * a + (if lit.negation {
            1int
        } else {
            0int
        }),
        denotes(atoms, lit, lit_num(atoms, lit)),
{
    let c = choose|b: int| 0 <= b < atoms.len() && (#[trigger] atoms[b]).atom() == lit.atom();
    assert(0 <= c < atoms.len() && atoms[c].atom() == lit.atom());
    if c != a {
        assert(atoms[c].atom() != atoms[a].atom());
    }
    let n = 2 * a + (if lit.negation { 1int } else { 0int });
    assert(n / 2 == a);
}

/// The atoms are propositions of the rules.
#[verifier::opaque]
pub open spec fn ft_cover(rules: Seq<Rule>, atoms: Seq<Literal>) -> bool {
    forall|a: int| 0 <= a < atoms.len() ==> theory_has_atom(rules, (#[trigger] atoms[a]).atom())
}

/// Each indexed rule has the kind and the head literal number of its rule.
#[verifier::opaque]
pub open spec fn ft_heads(rules: Seq<Rule>, atoms: Seq<Literal>, ct: Compiled) -> bool {
    forall|r: int|
        0 <= r < rules.len() ==> {
            &&& ct.kind(r) == (#[trigger] rules[r]).rule_type
            &&& atom_present(atoms, rules[r].head@[0])
            &&& ct.head(r) == lit_num(atoms, rules[r].head@[0])
        }
}

/// Each indexed body holds exactly the numbers of its rule's body literals.
#[verifier::opaque]
pub open spec fn ft_bodies(rules: Seq<Rule>, atoms: Seq<Literal>, ct: Compiled) -> bool {
    &&& forall|r: int, i: int|
        0 <= r < rules.len() && 0 <= i < rules[r].body@.len() ==> atom_present(
            atoms,
            #[trigger] rules[r].body@[i],
        ) && holds(ct.body(r), lit_num(atoms, rules[r].body@[i]))
    &&& forall|r: int, k: int|
        0 <= r < rules.len() && 0 <= k < ct.body(r).len() ==> from_body(
            atoms,
            rules[r].body@,
            #[trigger] ct.body(r)[k] as int,
            rules[r].body@.len() as int,
        )
}

/// Rule `t` beats rule `s` in the index exactly when their template labels
/// are a superiority pair.
#[verifier::opaque]
pub open spec fn ft_sups(rules: Seq<Rule>, sups: Seq<(Seq<char>, Seq<char>)>, ct: Compiled) -> bool {
    forall|t: int, s: int|
        0 <= t < rules.len() && 0 <= s < rules.len() ==> (#[trigger] ct.superior(t, s)
            <==> sups.contains((rules[t].spec_template_label(), rules[s].spec_template_label())))
}

/// `ct` is the indexed form of the rules and superiority pairs over `atoms`.
pub open spec fn faithful(
    rules: Seq<Rule>,
    sups: Seq<(Seq<char>, Seq<char>)>,
    atoms: Seq<Literal>,
    ct: Compiled,
) -> bool {
    &&& rules_have_heads(rules)
    &&& atoms_distinct(atoms)
    &&& ft_cover(rules, atoms)
    &&& ct.n_lits == 2 * atoms.len()
    &&& ct.nr() == rules.len()
    &&& ft_heads(rules, atoms, ct)
    &&& ft_bodies(rules, atoms, ct)
    &&& ft_sups(rules, sups, ct)
}

/// Whether two literals are about the same proposition.
pub fn same_atom(a: &Literal, b: &Literal) -> (r: bool)
    ensures
        r == (a.atom() == b.atom()),
{
    let r = crate::text::str_eq(a.name.as_str(), b.name.as_str()) && a.mode.same(&b.mode)
        && crate::literal::strings_eq(&a.predicates, &b.predicates) && a.temporal == b.temporal;
    proof {
        if r {
            assert(a.atom() == b.atom());
        }
    }
    r
}

/// The position of the atom of `lit` in `atoms`, if present.
pub fn find_atom(atoms: &Vec<Literal>, lit: &Literal) -> (r: Option<usize>)
    ensures
        match r {
            Some(a) => a < atoms@.len() && atoms@[a as int].atom() == lit.atom(),
            None => !atom_present(atoms@, *lit),
        },
{
    let mut i: usize = 0;
    while i < atoms.len()
        invariant
            0 <= i <= atoms@.len(),
            forall|k: int| 0 <= k < i ==> (#[trigger] atoms@[k]).atom() != lit.atom(),
        decreases atoms@.len() - i,
    {
        if same_atom(&atoms[i], lit) {
            return Some(i);
        }
        i = i + 1;
    }
    None
}

/// The positive literal standing for the proposition of `lit`.
fn atom_of(lit: &Literal) -> (r: Literal)
    ensures
        r.atom() == lit.atom(),
        !r.negation,
{
    let mut r = lit.duplicate();
    r.negation = false;
    r
}

/// The propositions of the atoms, in order.
pub open spec fn atom_keys(atoms: Seq<Literal>) -> Seq<AtomKey> {
    atoms.map_values(|a: Literal| a.atom())
}

/// The propositions seen, with that of `l` added when it is new.
pub open spec fn note_key(seen: Seq<AtomKey>, l: Literal) -> Seq<AtomKey> {
    if seen.contains(l.atom()) {
        seen
    } else {
        seen.push(l.atom())
    }
}

/// The propositions seen, with those of `ls` added in order.
pub open spec fn lits_keys(seen: Seq<AtomKey>, ls: Seq<Literal>) -> Seq<AtomKey>
    decreases ls.len(),
{
    if ls.len() == 0 {
        seen
    } else {
        note_key(lits_keys(seen, ls.drop_last()), ls.last())
    }
}

/// The literals of a rule the index reads: its first head literal, then
/// its body.
pub open spec fn rule_lits(r: Rule) -> Seq<Literal> {
    seq![r.head@[0]] + r.body@
}

/// The distinct propositions of the rules, in order of first occurrence.
pub open spec fn rules_keys(rules: Seq<Rule>) -> Seq<AtomKey>
    decreases rules.len(),
{
    if rules.len() == 0 {
        Seq::empty()
    } else {
        lits_keys(rules_keys(rules.drop_last()), rule_lits(rules.last()))
    }
}

/// Literals with the same data add the same propositions.
proof fn lemma_lits_keys_same(seen: Seq<AtomKey>, a: Seq<Literal>, b: Seq<Literal>)
    requires
        same_lits(a, b),
    ensures
        lits_keys(seen, a) == lits_keys(seen, b),
    decreases a.len(),
{
    if a.len() > 0 {
        assert(same_lits(a.drop_last(), b.drop_last())) by {
            assert forall|i: int| 0 <= i < a.drop_last().len() implies #[trigger] same_lit(a.drop_last()[i], b.drop_last()[i]) by {
                assert(same_lit(a[i], b[i]));
            }
        }
        lemma_lits_keys_same(seen, a.drop_last(), b.drop_last());
        assert(same_lit(a[a.len() - 1], b[a.len() - 1]));
        assert(a.last().atom() == b.last().atom());
    }
}

/// Rules with the same data have the same propositions, in the same order.
pub proof fn lemma_rules_keys_same(a: Seq<Rule>, b: Seq<Rule>)
    requires
        same_rules(a, b),
        rules_have_heads(a),
    ensures
        rules_keys(a) == rules_keys(b),
    decreases a.len(),
{
    if a.len() > 0 {
        assert(same_rules(a.drop_last(), b.drop_last())) by {
            assert forall|i: int| 0 <= i < a.drop_last().len() implies #[trigger] same_rule(a.drop_last()[i], b.drop_last()[i]) by {
                assert(same_rule(a[i], b[i]));
            }
        }
        assert forall|r: int| 0 <= r < a.drop_last().len() implies (#[trigger] a.drop_last()[r]).head@.len() > 0 by {
            assert(a.drop_last()[r] == a[r]);
        }
        lemma_rules_keys_same(a.drop_last(), b.drop_last());
        let ra = a.last();
        let rb = b.last();
        assert(same_rule(a[a.len() - 1], b[a.len() - 1]));
        assert(ra.head@.len() > 0);
        assert(same_lit(ra.head@[0], rb.head@[0]));
        assert(same_lits(rule_lits(ra), rule_lits(rb))) by {
            assert forall|i: int| 0 <= i < rule_lits(ra).len() implies #[trigger] same_lit(rule_lits(ra)[i], rule_lits(rb)[i]) by {
                if i > 0 {
                    assert(same_lit(ra.body@[i - 1], rb.body@[i - 1]));
                }
            }
        }
        lemma_lits_keys_same(rules_keys(a.drop_last()), rule_lits(ra), rule_lits(rb));
    }
}

/// Rules with the same data (labels compared by characters) have the same propositions, in the same order.
pub proof fn lemma_rules_keys_data(a: Seq<Rule>, b: Seq<Rule>)
    requires
        same_rules_data(a, b),
        rules_have_heads(a),
    ensures
        rules_keys(a) == rules_keys(b),
    decreases a.len(),
{
    if a.len() > 0 {
        assert(same_rules_data(a.drop_last(), b.drop_last())) by {
            assert forall|i: int| 0 <= i < a.drop_last().len() implies #[trigger] same_rule_data(a.drop_last()[i], b.drop_last()[i]) by {
                assert(same_rule_data(a[i], b[i]));
            }
        }
        assert forall|r: int| 0 <= r < a.drop_last().len() implies (#[trigger] a.drop_last()[r]).head@.len() > 0 by {
            assert(a.drop_last()[r] == a[r]);
        }
        lemma_rules_keys_data(a.drop_last(), b.drop_last());
        let ra = a.last();
        let rb = b.last();
        assert(same_rule_data(a[a.len() - 1], b[a.len() - 1]));
        assert(ra.head@.len() > 0);
        assert(same_lit(ra.head@[0], rb.head@[0]));
        assert(same_lits(rule_lits(ra), rule_lits(rb))) by {
            assert forall|i: int| 0 <= i < rule_lits(ra).len() implies #[trigger] same_lit(rule_lits(ra)[i], rule_lits(rb)[i]) by {
                if i > 0 {
                    assert(same_lit(ra.body@[i - 1], rb.body@[i - 1]));
                }
            }
        }
        lemma_lits_keys_same(rules_keys(a.drop_last()), rule_lits(ra), rule_lits(rb));
    }
}

/// Add the proposition of `lit` to `atoms` when it is new.
fn note_atom(atoms: &mut Vec<Literal>, lit: &Literal)
    requires
        atoms_distinct(old(atoms)@),
    ensures
        atoms_distinct(final(atoms)@),
        atom_present(final(atoms)@, *lit),
        forall|a: int| 0 <= a < old(atoms)@.len() ==> #[trigger] final(atoms)@[a] == old(atoms)@[a],
        final(atoms)@.len() == old(atoms)@.len() || (final(atoms)@.len() == old(atoms)@.len() + 1
            && final(atoms)@.last().atom() == lit.atom()),
        atom_keys(final(atoms)@) == note_key(atom_keys(old(atoms)@), *lit),
{
    match find_atom(atoms, lit) {
        Some(a) => {
            assert(atoms@[a as int].atom() == lit.atom());
            assert(atom_keys(atoms@)[a as int] == lit.atom());
        },
        None => {
            let ghost before = atoms@;
            proof {
                if atom_keys(before).contains(lit.atom()) {
                    let k = choose|k: int| 0 <= k < atom_keys(before).len() && atom_keys(before)[k] == lit.atom();
                    assert(before[k].atom() == lit.atom());
                }
            }
            atoms.push(atom_of(lit));
            proof {
                assert(atom_keys(atoms@) =~= atom_keys(before).push(lit.atom()));
                assert(atoms@[before.len() as int].atom() == lit.atom());
                assert forall|i: int, j: int|
                    0 <= i < atoms@.len() && 0 <= j < atoms@.len() && i != j implies (#[trigger] atoms@[i]).atom()
                        != (#[trigger] atoms@[j]).atom() by {
                    if i < before.len() && j < before.len() {
                        assert(before[i] == atoms@[i]);
                        assert(before[j] == atoms@[j]);
                    } else if i == before.len() {
                        assert(before[j] == atoms@[j]);
                    } else {
                        assert(before[i] == atoms@[i]);
                    }
                }
            }
        },
    }
}

/// The distinct propositions of a theory's rules, in order of first
/// occurrence (each rule's first head literal, then its body).
pub fn collect_atoms(th: &Theory) -> (atoms: Vec<Literal>)
    requires
        rules_have_heads(th.spec_rules()),
    ensures
        atoms_distinct(atoms@),
        forall|a: int| 0 <= a < atoms@.len() ==> theory_has_atom(th.spec_rules(), (#[trigger] atoms@[a]).atom()),
        atom_keys(atoms@) == rules_keys(th.spec_rules()),
        forall|r: int| 0 <= r < th.spec_rules().len() ==> atom_present(atoms@, (#[trigger] th.spec_rules()[r]).head@[0]),
        forall|r: int, i: int|
            0 <= r < th.spec_rules().len() && 0 <= i < th.spec_rules()[r].body@.len() ==> atom_present(
                atoms@,
                #[trigger] th.spec_rules()[r].body@[i],
            ),
        atoms@.len() <= lits_in(th.spec_rules()),
{
    let rules = th.rules();
    let mut atoms: Vec<Literal> = Vec::new();
    let mut r: usize = 0;
    while r < rules.len()
        invariant
            0 <= r <= rules@.len(),
            rules@ == th.spec_rules(),
            rules_have_heads(rules@),
            atoms_distinct(atoms@),
            forall|a: int| 0 <= a < atoms@.len() ==> theory_has_atom(rules@, (#[trigger] atoms@[a]).atom()),
            forall|q: int| 0 <= q < r ==> atom_present(atoms@, (#[trigger] rules@[q]).head@[0]),
            forall|q: int, i: int|
                0 <= q < r && 0 <= i < rules@[q].body@.len() ==> atom_present(atoms@, #[trigger] rules@[q].body@[i]),
            atoms@.len() <= lits_in(rules@.take(r as int)),
            atom_keys(atoms@) == rules_keys(rules@.take(r as int)),
        decreases rules@.len() - r,
    {
        let rule = &rules[r];
        assert(rule.head@.len() > 0);
        let ghost a0 = atoms@;
        let ghost base = lits_in(rules@.take(r as int));
        let ghost kbase = rules_keys(rules@.take(r as int));
        note_atom(&mut atoms, &rule.head[0]);
        proof {
            let x = rule_lits(*rule).take(1);
            assert(x.drop_last() =~= Seq::<Literal>::empty());
            assert(x.last() == rule.head@[0]);
            assert(lits_keys(kbase, x.drop_last()) == kbase);
            assert(lits_keys(kbase, x) == note_key(kbase, rule.head@[0]));
            assert(atom_keys(atoms@) == lits_keys(kbase, rule_lits(*rule).take(1)));
            assert forall|q: int, i: int|
                0 <= q < r && 0 <= i < rules@[q].body@.len() implies atom_present(atoms@, #[trigger] rules@[q].body@[i]) by {
                let a = choose|a: int| 0 <= a < a0.len() && (#[trigger] a0[a]).atom() == rules@[q].body@[i].atom();
                assert(atoms@[a] == a0[a]);
            }
            assert forall|q: int| 0 <= q < r implies atom_present(atoms@, (#[trigger] rules@[q]).head@[0]) by {
                let a = choose|a: int| 0 <= a < a0.len() && (#[trigger] a0[a]).atom() == rules@[q].head@[0].atom();
                assert(atoms@[a] == a0[a]);
            }
            assert forall|a: int| 0 <= a < atoms@.len() implies theory_has_atom(rules@, (#[trigger] atoms@[a]).atom()) by {
                if a < a0.len() {
                    assert(atoms@[a] == a0[a]);
                } else {
                    assert(rules@[r as int].head@[0].atom() == atoms@[a].atom());
                }
            }
        }
        let mut i: usize = 0;
        while i < rule.body.len()
            invariant
                0 <= i <= rule.body@.len(),
                0 <= r < rules@.len(),
                *rule == rules@[r as int],
                atoms_distinct(atoms@),
                forall|a: int| 0 <= a < atoms@.len() ==> theory_has_atom(rules@, (#[trigger] atoms@[a]).atom()),
                forall|q: int| 0 <= q <= r ==> atom_present(atoms@, (#[trigger] rules@[q]).head@[0]),
                forall|q: int, j: int|
                    0 <= q < r && 0 <= j < rules@[q].body@.len() ==> atom_present(atoms@, #[trigger] rules@[q].body@[j]),
                forall|j: int| 0 <= j < i ==> atom_present(atoms@, #[trigger] rule.body@[j]),
                base == lits_in(rules@.take(r as int)),
                kbase == rules_keys(rules@.take(r as int)),
                atom_keys(atoms@) == lits_keys(kbase, rule_lits(*rule).take(i + 1)),
                atoms@.len() <= base + 1 + i,
            decreases rule.body@.len() - i,
        {
            let ghost a1 = atoms@;
            note_atom(&mut atoms, &rule.body[i]);
            proof {
                assert(rule_lits(*rule).take(i + 2).drop_last() =~= rule_lits(*rule).take(i + 1));
                assert(rule_lits(*rule).take(i + 2).last() == rule.body@[i as int]);
                assert(atom_keys(atoms@) == lits_keys(kbase, rule_lits(*rule).take(i + 2)));
                assert forall|q: int, j: int|
                    0 <= q < r && 0 <= j < rules@[q].body@.len() implies atom_present(atoms@, #[trigger] rules@[q].body@[j]) by {
                    let a = choose|a: int| 0 <= a < a1.len() && (#[trigger] a1[a]).atom() == rules@[q].body@[j].atom();
                    assert(atoms@[a] == a1[a]);
                }
                assert forall|q: int| 0 <= q <= r implies atom_present(atoms@, (#[trigger] rules@[q]).head@[0]) by {
                    let a = choose|a: int| 0 <= a < a1.len() && (#[trigger] a1[a]).atom() == rules@[q].head@[0].atom();
                    assert(atoms@[a] == a1[a]);
                }
                assert forall|j: int| 0 <= j <= i implies atom_present(atoms@, #[trigger] rule.body@[j]) by {
                    if j < i {
                        let a = choose|a: int| 0 <= a < a1.len() && (#[trigger] a1[a]).atom() == rule.body@[j].atom();
                        assert(atoms@[a] == a1[a]);
                    }
                }
                assert forall|a: int| 0 <= a < atoms@.len() implies theory_has_atom(rules@, (#[trigger] atoms@[a]).atom()) by {
                    if a < a1.len() {
                        assert(atoms@[a] == a1[a]);
                    } else {
                        assert(rules@[r as int].body@[i as int].atom() == atoms@[a].atom());
                    }
                }
            }
            i = i + 1;
        }
        proof {
            assert(rules@.take(r + 1).drop_last() =~= rules@.take(r as int));
            assert(rules@.take(r + 1).last() == rules@[r as int]);
            assert(rule_lits(*rule).take(rule.body@.len() + 1 as int) =~= rule_lits(*rule));
        }
        r = r + 1;
    }
    proof {
        assert(rules@.take(rules@.len() as int) =~= rules@);
    }
    atoms
}

/// The number of literal occurrences the engine looks at: each rule's first
/// head literal and its body literals.
pub open spec fn lits_in(rules: Seq<Rule>) -> nat
    decreases rules.len(),
{
    if rules.len() == 0 {
        0
    } else {
        lits_in(rules.drop_last()) + 1 + rules.last().body@.len()
    }
}

/// `x` is the number of one of the first `upto` literals of `body`.
pub open spec fn from_body(atoms: Seq<Literal>, body: Seq<Literal>, x: int, upto: int) -> bool {
    exists|j: int| 0 <= j < upto && j < body.len() && x == lit_num(atoms, #[trigger] body[j])
}

/// The number of the literal `lit`.
fn lit_number(atoms: &Vec<Literal>, lit: &Literal) -> (r: usize)
    requires
        atoms_distinct(atoms@),
        atom_present(atoms@, *lit),
        2 * atoms@.len() < usize::MAX,
    ensures
        r == lit_num(atoms@, *lit),
        denotes(atoms@, *lit, r as int),
        r < 2 * atoms@.len(),
{
    match find_atom(atoms, lit) {
        Some(a) => {
            proof {
                lemma_lit_num(atoms@, *lit, a as int);
            }
            if lit.negation {
                2 * a + 1
            } else {
                2 * a
            }
        },
        None => {
            proof {
                assert(false);
            }
            0
        },
    }
}

/// Whether `x` is an entry of `v`.
pub fn contains_usize(v: &Vec<usize>, x: usize) -> (r: bool)
    ensures
        r == holds(v@, x as int),
{
    let mut i: usize = 0;
    while i < v.len()
        invariant
            0 <= i <= v@.len(),
            forall|k: int| 0 <= k < i ==> v@[k] != x,
        decreases v@.len() - i,
    {
        if v[i] == x {
            proof {
                assert(v@[i as int] == x);
            }
            return true;
        }
        i = i + 1;
    }
    false
}

/// The distinct numbers of a body's literals.
fn compile_body(atoms: &Vec<Literal>, body: &Vec<Literal>) -> (v: Vec<usize>)
    requires
        atoms_distinct(atoms@),
        forall|i: int| 0 <= i < body@.len() ==> atom_present(atoms@, #[trigger] body@[i]),
        2 * atoms@.len() < usize::MAX,
    ensures
        v@.no_duplicates(),
        forall|i: int| 0 <= i < body@.len() ==> holds(v@, lit_num(atoms@, #[trigger] body@[i])),
        forall|k: int| 0 <= k < v@.len() ==> from_body(atoms@, body@, #[trigger] v@[k] as int, body@.len() as int),
        forall|k: int| 0 <= k < v@.len() ==> #[trigger] v@[k] < 2 * atoms@.len(),
{
    let mut v: Vec<usize> = Vec::new();
    let mut i: usize = 0;
    while i < body.len()
        invariant
            0 <= i <= body@.len(),
            atoms_distinct(atoms@),
            forall|j: int| 0 <= j < body@.len() ==> atom_present(atoms@, #[trigger] body@[j]),
            2 * atoms@.len() < usize::MAX,
            v@.no_duplicates(),
            forall|j: int| 0 <= j < i ==> holds(v@, lit_num(atoms@, #[trigger] body@[j])),
            forall|k: int| 0 <= k < v@.len() ==> from_body(atoms@, body@, #[trigger] v@[k] as int, i as int),
            forall|k: int| 0 <= k < v@.len() ==> #[trigger] v@[k] < 2 * atoms@.len(),
        decreases body@.len() - i,
    {
        let n = lit_number(atoms, &body[i]);
        if !contains_usize(&v, n) {
            let ghost before = v@;
            v.push(n);
            proof {
                assert(v@[before.len() as int] == n);
                assert forall|j: int| 0 <= j < i implies holds(v@, lit_num(atoms@, #[trigger] body@[j])) by {
                    let k = choose|k: int| 0 <= k < before.len() && #[trigger] before[k] == lit_num(atoms@, body@[j]);
                    assert(v@[k] == before[k]);
                }
                assert forall|k: int| 0 <= k < v@.len() implies from_body(atoms@, body@, #[trigger] v@[k] as int, i + 1) by {
                    if k < before.len() {
                        assert(v@[k] == before[k]);
                        assert(from_body(atoms@, body@, before[k] as int, i as int));
                    } else {
                        assert(v@[k] == lit_num(atoms@, body@[i as int]));
                    }
                }
            }
        } else {
            proof {
                assert forall|k: int| 0 <= k < v@.len() implies from_body(atoms@, body@, #[trigger] v@[k] as int, i + 1) by {
                    assert(from_body(atoms@, body@, v@[k] as int, i as int));
                }
            }
        }
        proof {
            assert(holds(v@, lit_num(atoms@, body@[i as int])));
        }
        i = i + 1;
    }
    v
}

/// Superiority expanded to rule positions: `(t, s)` for every pair of
/// rules whose template labels are in the superiority relation.
fn superiority_pairs(th: &Theory) -> (v: Vec<(usize, usize)>)
    ensures
        forall|k: int| 0 <= k < v@.len() ==> (#[trigger] v@[k]).0 < th.spec_rules().len() && v@[k].1 < th.spec_rules().len(),
        forall|t: int, s: int|
            0 <= t < th.spec_rules().len() && 0 <= s < th.spec_rules().len() ==> ((exists|k: int|
                0 <= k < v@.len() && #[trigger] v@[k] == (t as usize, s as usize)) <==> th.spec_superior(
                th.spec_rules()[t].spec_template_label(),
                th.spec_rules()[s].spec_template_label(),
            )),
{
    let rules = th.rules();
    let n = rules.len();
    let mut v: Vec<(usize, usize)> = Vec::new();
    let mut t: usize = 0;
    while t < n
        invariant
            n == rules@.len(),
            rules@ == th.spec_rules(),
            0 <= t <= n,
            forall|k: int| 0 <= k < v@.len() ==> (#[trigger] v@[k]).0 < t && v@[k].1 < n,
            forall|t2: int, s2: int|
                0 <= t2 < t && 0 <= s2 < n ==> ((exists|k: int|
                    0 <= k < v@.len() && #[trigger] v@[k] == (t2 as usize, s2 as usize)) <==> th.spec_superior(
                    rules@[t2].spec_template_label(),
                    rules@[s2].spec_template_label(),
                )),
        decreases n - t,
    {
        let mut s: usize = 0;
        let ghost v0 = v@;
        while s < n
            invariant
                n == rules@.len(),
                rules@ == th.spec_rules(),
                0 <= t < n,
                0 <= s <= n,
                v@.len() >= v0.len(),
                forall|k: int| 0 <= k < v0.len() ==> v@[k] == v0[k],
                forall|k: int| 0 <= k < v0.len() ==> (#[trigger] v0[k]).0 < t && v0[k].1 < n,
                forall|k: int| v0.len() <= k < v@.len() ==> (#[trigger] v@[k]).0 == t && v@[k].1 < s,
                forall|t2: int, s2: int|
                    0 <= t2 < t && 0 <= s2 < n ==> ((exists|k: int|
                        0 <= k < v0.len() && #[trigger] v0[k] == (t2 as usize, s2 as usize)) <==> th.spec_superior(
                        rules@[t2].spec_template_label(),
                        rules@[s2].spec_template_label(),
                    )),
                forall|s2: int|
                    0 <= s2 < s ==> ((exists|k: int|
                        0 <= k < v@.len() && #[trigger] v@[k] == (t as usize, s2 as usize)) <==> th.spec_superior(
                        rules@[t as int].spec_template_label(),
                        rules@[s2].spec_template_label(),
                    )),
            decreases n - s,
        {
            let ghost before = v@;
            if th.is_superior(rules[t].template_label(), rules[s].template_label()) {
                v.push((t, s));
                proof {
                    assert(v@[before.len() as int] == (t, s));
                }
            }
            proof {
                assert forall|s2: int|
                    0 <= s2 < s + 1 implies ((exists|k: int|
                        0 <= k < v@.len() && #[trigger] v@[k] == (t as usize, s2 as usize)) <==> th.spec_superior(
                        rules@[t as int].spec_template_label(),
                        rules@[s2].spec_template_label(),
                    )) by {
                    if exists|k: int| 0 <= k < v@.len() && #[trigger] v@[k] == (t as usize, s2 as usize) {
                        let k = choose|k: int| 0 <= k < v@.len() && #[trigger] v@[k] == (t as usize, s2 as usize);
                        if k < before.len() {
                            assert(before[k] == v@[k]);
                            if k < v0.len() {
                                assert(v0[k] == before[k]);
                                assert(v0[k].0 < t);
                            } else {
                                assert(before[k].1 < s);
                            }
                            assert(s2 < s);
                            assert(exists|k2: int| 0 <= k2 < before.len() && #[trigger] before[k2] == (t as usize, s2 as usize));
                        } else {
                            assert(v@[k] == (t, s));
                        }
                    }
                    if s2 < s && exists|k: int| 0 <= k < before.len() && #[trigger] before[k] == (t as usize, s2 as usize) {
                        let k = choose|k: int| 0 <= k < before.len() && #[trigger] before[k] == (t as usize, s2 as usize);
                        assert(v@[k] == before[k]);
                    }
                }
            }
            s = s + 1;
        }
        proof {
            assert forall|k: int| 0 <= k < v@.len() implies (#[trigger] v@[k]).0 < t + 1 && v@[k].1 < n by {
                if k < v0.len() {
                    assert(v@[k] == v0[k]);
                }
            }
            assert forall|t2: int, s2: int|
                0 <= t2 < t + 1 && 0 <= s2 < n implies ((exists|k: int|
                    0 <= k < v@.len() && #[trigger] v@[k] == (t2 as usize, s2 as usize)) <==> th.spec_superior(
                    rules@[t2].spec_template_label(),
                    rules@[s2].spec_template_label(),
                )) by {
                if t2 < t {
                    if exists|k: int| 0 <= k < v@.len() && #[trigger] v@[k] == (t2 as usize, s2 as usize) {
                        let k = choose|k: int| 0 <= k < v@.len() && #[trigger] v@[k] == (t2 as usize, s2 as usize);
                        assert(k < v0.len());
                        assert(v0[k] == v@[k]);
                    }
                    if exists|k: int| 0 <= k < v0.len() && #[trigger] v0[k] == (t2 as usize, s2 as usize) {
                        let k = choose|k: int| 0 <= k < v0.len() && #[trigger] v0[k] == (t2 as usize, s2 as usize);
                        assert(v@[k] == v0[k]);
                    }
                }
            }
        }
        t = t + 1;
    }
    v
}

/// The positions of the rules whose body holds literal `l`, in order.
fn rules_with_body(crules: &Vec<CRule>, l: usize) -> (v: Vec<usize>)
    ensures
        v@.no_duplicates(),
        forall|k: int| 0 <= k < v@.len() ==> (#[trigger] v@[k]) < crules@.len() && holds(crules@[v@[k] as int].body@, l as int),
        forall|r: int| 0 <= r < crules@.len() && holds((#[trigger] crules@[r]).body@, l as int) ==> holds(v@, r),
{
    let mut v: Vec<usize> = Vec::new();
    let mut r: usize = 0;
    while r < crules.len()
        invariant
            0 <= r <= crules@.len(),
            v@.no_duplicates(),
            forall|k: int| 0 <= k < v@.len() ==> (#[trigger] v@[k]) < r && holds(crules@[v@[k] as int].body@, l as int),
            forall|q: int| 0 <= q < r && holds((#[trigger] crules@[q]).body@, l as int) ==> holds(v@, q),
        decreases crules@.len() - r,
    {
        if contains_usize(&crules[r].body, l) {
            let ghost before = v@;
            v.push(r);
            proof {
                assert(v@[before.len() as int] == r);
                assert forall|q: int| 0 <= q < r + 1 && holds((#[trigger] crules@[q]).body@, l as int) implies holds(v@, q) by {
                    if q < r {
                        let k = choose|k: int| 0 <= k < before.len() && #[trigger] before[k] == q;
                        assert(v@[k] == before[k]);
                    }
                }
            }
        }
        r = r + 1;
    }
    v
}

/// The positions of the rules whose head is literal `l`, in order.
fn rules_with_head(crules: &Vec<CRule>, l: usize) -> (v: Vec<usize>)
    ensures
        forall|k: int| 0 <= k < v@.len() ==> (#[trigger] v@[k]) < crules@.len() && crules@[v@[k] as int].head == l,
        forall|r: int| 0 <= r < crules@.len() && (#[trigger] crules@[r]).head == l ==> holds(v@, r),
        forall|i: int, j: int| 0 <= i < j < v@.len() ==> (#[trigger] v@[i]) < (#[trigger] v@[j]),
{
    let mut v: Vec<usize> = Vec::new();
    let mut r: usize = 0;
    while r < crules.len()
        invariant
            0 <= r <= crules@.len(),
            forall|k: int| 0 <= k < v@.len() ==> (#[trigger] v@[k]) < r && crules@[v@[k] as int].head == l,
            forall|q: int| 0 <= q < r && (#[trigger] crules@[q]).head == l ==> holds(v@, q),
            forall|i: int, j: int| 0 <= i < j < v@.len() ==> (#[trigger] v@[i]) < (#[trigger] v@[j]),
        decreases crules@.len() - r,
    {
        if crules[r].head == l {
            let ghost before = v@;
            v.push(r);
            proof {
                assert(v@[before.len() as int] == r);
                assert forall|q: int| 0 <= q < r + 1 && (#[trigger] crules@[q]).head == l implies holds(v@, q) by {
                    if q < r {
                        let k = choose|k: int| 0 <= k < before.len() && #[trigger] before[k] == q;
                        assert(v@[k] == before[k]);
                    }
                }
            }
        }
        r = r + 1;
    }
    v
}

/// Index a theory over its atoms for the engine.
pub fn compile(th: &Theory, atoms: &Vec<Literal>) -> (ct: Compiled)
    requires
        rules_have_heads(th.spec_rules()),
        atoms_distinct(atoms@),
        forall|a: int| 0 <= a < atoms@.len() ==> theory_has_atom(th.spec_rules(), (#[trigger] atoms@[a]).atom()),
        forall|r: int| 0 <= r < th.spec_rules().len() ==> atom_present(atoms@, (#[trigger] th.spec_rules()[r]).head@[0]),
        forall|r: int, i: int|
            0 <= r < th.spec_rules().len() && 0 <= i < th.spec_rules()[r].body@.len() ==> atom_present(
                atoms@,
                #[trigger] th.spec_rules()[r].body@[i],
            ),
        2 * atoms@.len() + 1 < usize::MAX,
    ensures
        ct.wf(),
        faithful(th.spec_rules(), th.spec_sups(), atoms@, ct),
{
    let rules = th.rules();
    let n_lits = 2 * atoms.len();
    let mut crules: Vec<CRule> = Vec::new();
    let mut r: usize = 0;
    while r < rules.len()
        invariant
            0 <= r <= rules@.len(),
            rules@ == th.spec_rules(),
            rules_have_heads(rules@),
            atoms_distinct(atoms@),
            n_lits == 2 * atoms@.len(),
            2 * atoms@.len() + 1 < usize::MAX,
            forall|q: int| 0 <= q < rules@.len() ==> atom_present(atoms@, (#[trigger] rules@[q]).head@[0]),
            forall|q: int, i: int|
                0 <= q < rules@.len() && 0 <= i < rules@[q].body@.len() ==> atom_present(atoms@, #[trigger] rules@[q].body@[i]),
            crules@.len() == r,
            forall|q: int| 0 <= q < r ==> {
                &&& (#[trigger] crules@[q]).kind == rules@[q].rule_type
                &&& crules@[q].head == lit_num(atoms@, rules@[q].head@[0])
                &&& crules@[q].head < n_lits
                &&& crules@[q].body@.no_duplicates()
                &&& forall|i: int| 0 <= i < rules@[q].body@.len() ==> holds(crules@[q].body@, lit_num(atoms@, #[trigger] rules@[q].body@[i]))
                &&& forall|k: int| 0 <= k < crules@[q].body@.len() ==> from_body(atoms@, rules@[q].body@, #[trigger] crules@[q].body@[k] as int, rules@[q].body@.len() as int)
                &&& forall|k: int| 0 <= k < crules@[q].body@.len() ==> #[trigger] crules@[q].body@[k] < n_lits
            },
        decreases rules@.len() - r,
    {
        let rule = &rules[r];
        assert(rule.head@.len() > 0);
        assert(atom_present(atoms@, rules@[r as int].head@[0]));
        let head = lit_number(atoms, &rule.head[0]);
        proof {
            assert forall|i: int| 0 <= i < rule.body@.len() implies atom_present(atoms@, #[trigger] rule.body@[i]) by {
                assert(rule.body@[i] == rules@[r as int].body@[i]);
            }
        }
        let body = compile_body(atoms, &rule.body);
        crules.push(CRule { kind: rule.rule_type, head, body });
        r = r + 1;
    }
    let sup = superiority_pairs(th);
    let ghost sv = sup@;
    let mut body_index: Vec<Vec<usize>> = Vec::new();
    let mut head_index: Vec<Vec<usize>> = Vec::new();
    let mut l: usize = 0;
    while l < n_lits
        invariant
            0 <= l <= n_lits,
            body_index@.len() == l,
            head_index@.len() == l,
            forall|m: int, k: int| 0 <= m < l && 0 <= k < body_index@[m]@.len() ==> {
                let q = #[trigger] body_index@[m]@[k] as int;
                &&& 0 <= q < crules@.len()
                &&& holds(crules@[q].body@, m)
            },
            forall|m: int| 0 <= m < l ==> (#[trigger] body_index@[m])@.no_duplicates(),
            forall|m: int, q: int| 0 <= m < l && 0 <= q < crules@.len() && #[trigger] holds(crules@[q].body@, m) ==> holds(body_index@[m]@, q),
            forall|m: int, k: int| 0 <= m < l && 0 <= k < head_index@[m]@.len() ==> {
                let q = #[trigger] head_index@[m]@[k] as int;
                &&& 0 <= q < crules@.len()
                &&& crules@[q].head == m
            },
            forall|q: int| 0 <= q < crules@.len() && (#[trigger] crules@[q]).head < l ==> holds(head_index@[crules@[q].head as int]@, q),
            forall|m: int, i: int, j: int|
                0 <= m < l && 0 <= i < j < head_index@[m]@.len() ==> (#[trigger] head_index@[m]@[i]) < (#[trigger] head_index@[m]@[j]),
        decreases n_lits - l,
    {
        body_index.push(rules_with_body(&crules, l));
        head_index.push(rules_with_head(&crules, l));
        l = l + 1;
    }
    let ct = Compiled { n_lits, rules: crules, sup, body_index, head_index };
    proof {
        reveal(ft_cover);
        reveal(ft_heads);
        reveal(ft_bodies);
        reveal(ft_sups);
        assert forall|q: int, i: int|
            0 <= q < ct.nr() && 0 <= i < ct.body(q).len() implies holds(ct.body_index@[#[trigger] ct.body(q)[i] as int]@, q) by {
            let m = ct.body(q)[i] as int;
            assert(m < n_lits);
            assert(holds(ct.rules@[q].body@, m));
        }
        assert forall|q: int| 0 <= q < ct.nr() implies holds(ct.head_index@[#[trigger] ct.head(q)]@, q) by {
            let m = ct.head(q);
            assert(m < n_lits);
        }
        assert forall|q: int, i: int|
            0 <= q < ct.nr() && 0 <= i < ct.body(q).len() implies #[trigger] ct.body(q)[i] < ct.n_lits by {
            assert(ct.rules@[q].body@[i] < n_lits);
        }
        assert forall|q: int| 0 <= q < rules@.len() implies {
            &&& ct.kind(q) == (#[trigger] rules@[q]).rule_type
            &&& atom_present(atoms@, rules@[q].head@[0])
            &&& ct.head(q) == lit_num(atoms@, rules@[q].head@[0])
        } by {
            assert(ct.rules@[q] == crules@[q]);
        }
        assert forall|t: int, s2: int|
            0 <= t < rules@.len() && 0 <= s2 < rules@.len() implies (#[trigger] ct.superior(t, s2)
                <==> th.spec_superior(rules@[t].spec_template_label(), rules@[s2].spec_template_label())) by {
            assert(ct.sup@ == sv);
            assert((exists|k: int| 0 <= k < sv.len() && #[trigger] sv[k] == (t as usize, s2 as usize)) <==> th.spec_superior(
                th.spec_rules()[t].spec_template_label(),
                th.spec_rules()[s2].spec_template_label(),
            ));
        }
    }
    ct
}

} // verus!
