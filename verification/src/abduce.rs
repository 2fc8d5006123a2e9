//! Abduction: which facts, added to a theory, would let a goal be proven.
//!
//! [`abduce`] chains back one step from the goal: for each rule that could
//! derive it, the body literals not yet proven form a candidate fact-set.
//! Atemporal literals are matched by family (any bounds), bounded ones
//! exactly. The candidates are raw: defeaters and conflicts are not taken
//! into account (see `requires` for verified candidates).

use vstd::prelude::*;
use rustc_hash::FxHashSet;
use crate::conclusion::Conclusion;
use crate::literal::{Literal, spl_text};
use crate::mining::{distinct_texts, sorted_of, sort_texts, text_lt, text_less, views, lemma_text_lt_total, lemma_text_lt_irrefl, lemma_text_lt_trans};
use crate::query::{lit_matches, some_proof, is_proven_temporal, matches_literal_temporal};
use crate::rule::{Rule, RuleType, same_lit, same_lits, clone_literals};
use crate::theory::Theory;
use crate::index::{rules_have_heads, lits_in};
use crate::error::SpindleError;
use crate::text::{joined, join, string_views, decimal, push_decimal};
use crate::reason::{reason, reasonable, reasoned_with};
use crate::pipeline::{PrepareOptions, prepare_fails};
use crate::bridge::find_key;
use crate::literal::clone_strings;

verus! {

/// The SPL texts of literals.
pub open spec fn spl_keys(ls: Seq<Literal>) -> Seq<Seq<char>> {
    ls.map_values(|l: Literal| spl_text(l))
}

/// The body literals that the conclusions do not prove, in order, the first
/// of each SPL text only.
pub open spec fn missing_of(body: Seq<Literal>, cs: Seq<Conclusion>) -> Seq<Literal>
    decreases body.len(),
{
    if body.len() == 0 {
        Seq::empty()
    } else {
        let m = missing_of(body.drop_last(), cs);
        let l = body.last();
        if !some_proof(cs, l) && !spl_keys(m).contains(spl_text(l)) {
            m.push(l)
        } else {
            m
        }
    }
}

/// The SPL texts of the facts in increasing order.
pub open spec fn sorted_keys(facts: Seq<Literal>) -> Seq<Seq<char>> {
    choose|t: Seq<Seq<char>>| sorted_of(t, spl_keys(facts))
}

/// The key of a fact-set: the SPL texts of its facts in increasing order,
/// joined by the unit separator U+001F.
pub open spec fn fact_key(facts: Seq<Literal>) -> Seq<char> {
    joined(sorted_keys(facts), seq!['\u{1f}'])
}

/// A candidate: its key, its facts, and the labels of the rules it serves.
pub type Entry = (Seq<char>, Seq<Literal>, Set<Seq<char>>);

/// The candidates that the rules give for the goal, in order of first
/// appearance; rules giving the same key share one candidate.
pub open spec fn cands(rules: Seq<Rule>, goal: Literal, cs: Seq<Conclusion>) -> Seq<Entry>
    decreases rules.len(),
{
    if rules.len() == 0 {
        Seq::empty()
    } else {
        let prev = cands(rules.drop_last(), goal, cs);
        let r = rules.last();
        let m = missing_of(r.body@, cs);
        if r.head@.len() > 0 && lit_matches(goal, r.head@[0]) && r.rule_type != RuleType::Defeater && m.len() > 0 {
            let k = fact_key(m);
            if exists|i: int| 0 <= i < prev.len() && (#[trigger] prev[i]).0 == k {
                let i = choose|i: int| 0 <= i < prev.len() && (#[trigger] prev[i]).0 == k;
                prev.update(i, (k, prev[i].1, prev[i].2.insert(r.label@)))
            } else {
                prev.push((k, m, set![r.label@]))
            }
        } else {
            prev
        }
    }
}

/// The candidates, or the goal itself when no rule gives one.
pub open spec fn raw_candidates(rules: Seq<Rule>, goal: Literal, cs: Seq<Conclusion>) -> Seq<Entry> {
    let c = cands(rules, goal, cs);
    if c.len() == 0 {
        seq![(fact_key(seq![goal]), seq![goal], Set::<Seq<char>>::empty())]
    } else {
        c
    }
}

/// The keys of entries.
pub open spec fn entry_keys(c: Seq<Entry>) -> Seq<Seq<char>> {
    c.map_values(|e: Entry| e.0)
}

/// The order of candidates: fewer facts first, then by key.
pub open spec fn entry_lt(a: Entry, b: Entry) -> bool {
    a.1.len() < b.1.len() || (a.1.len() == b.1.len() && text_lt(a.0, b.0))
}

/// The SPL texts of the missing literals are distinct.
proof fn lemma_missing_distinct(body: Seq<Literal>, cs: Seq<Conclusion>)
    ensures
        distinct_texts(spl_keys(missing_of(body, cs))),
        missing_of(body, cs).len() <= body.len(),
    decreases body.len(),
{
    if body.len() > 0 {
        lemma_missing_distinct(body.drop_last(), cs);
        let m = missing_of(body.drop_last(), cs);
        let l = body.last();
        if !some_proof(cs, l) && !spl_keys(m).contains(spl_text(l)) {
            assert(spl_keys(m.push(l)) =~= spl_keys(m).push(spl_text(l)));
        }
    }
}

/// Whether the literal's SPL text is among the texts.
fn has_text(v: &Vec<String>, s: &str) -> (r: bool)
    ensures
        r == string_views(v@).contains(s@),
{
    let mut k: usize = 0;
    while k < v.len()
        invariant
            0 <= k <= v@.len(),
            forall|j: int| 0 <= j < k ==> (#[trigger] v@[j])@ != s@,
        decreases v@.len() - k,
    {
        if crate::text::str_eq(v[k].as_str(), s) {
            proof {
                assert(string_views(v@)[k as int] == s@);
            }
            return true;
        }
        k = k + 1;
    }
    proof {
        if string_views(v@).contains(s@) {
            let j = choose|j: int| 0 <= j < string_views(v@).len() && string_views(v@)[j] == s@;
            assert(v@[j]@ == s@);
        }
    }
    false
}

/// The body literals that the conclusions do not prove (see [`missing_of`]),
/// with their SPL texts.
fn missing_premises(body: &Vec<Literal>, cs: &Vec<Conclusion>) -> (r: (Vec<Literal>, Vec<String>))
    ensures
        same_lits(r.0@, missing_of(body@, cs@)),
        string_views(r.1@) == spl_keys(missing_of(body@, cs@)),
{
    let mut out: Vec<Literal> = Vec::new();
    let mut keys: Vec<String> = Vec::new();
    let mut i: usize = 0;
    while i < body.len()
        invariant
            0 <= i <= body@.len(),
            same_lits(out@, missing_of(body@.take(i as int), cs@)),
            string_views(keys@) == spl_keys(missing_of(body@.take(i as int), cs@)),
        decreases body@.len() - i,
    {
        let ghost m = missing_of(body@.take(i as int), cs@);
        proof {
            assert(body@.take(i + 1).drop_last() =~= body@.take(i as int));
            assert(body@.take(i + 1).last() == body@[i as int]);
        }
        let l = &body[i];
        let k = l.to_spl();
        if !is_proven_temporal(cs, l) && !has_text(&keys, k.as_str()) {
            let ghost kb = keys@;
            out.push(l.duplicate());
            keys.push(k);
            proof {
                assert(string_views(keys@) =~= string_views(kb).push(spl_text(body@[i as int])));
                assert(spl_keys(m.push(body@[i as int])) =~= spl_keys(m).push(spl_text(body@[i as int])));
                assert forall|j: int| 0 <= j < out@.len() implies #[trigger] same_lit(out@[j], m.push(body@[i as int])[j]) by {
                    if j < m.len() {
                        assert(same_lit(out@[j], m[j]));
                    }
                }
            }
        }
        i = i + 1;
    }
    proof {
        assert(body@.take(i as int) =~= body@);
    }
    (out, keys)
}


/// Two increasing orders of the same texts are the same.
proof fn lemma_sorted_unique(t1: Seq<Seq<char>>, t2: Seq<Seq<char>>, s: Seq<Seq<char>>)
    requires
        sorted_of(t1, s),
        sorted_of(t2, s),
    ensures
        t1 == t2,
{
    assert forall|i: int| 0 <= i < t1.len() implies t1[i] == t2[i] by {
        lemma_sorted_agree(t1, t2, s, i);
    }
    assert(t1 =~= t2);
}

/// The two orders agree at every position up to `i`.
proof fn lemma_sorted_agree(t1: Seq<Seq<char>>, t2: Seq<Seq<char>>, s: Seq<Seq<char>>, i: int)
    requires
        sorted_of(t1, s),
        sorted_of(t2, s),
        0 <= i < t1.len(),
    ensures
        forall|k: int| 0 <= k <= i ==> t1[k] == t2[k],
    decreases i,
{
    if i > 0 {
        lemma_sorted_agree(t1, t2, s, i - 1);
    }
    if t1[i] != t2[i] {
        lemma_text_lt_total(t1[i], t2[i]);
        if text_lt(t1[i], t2[i]) {
            lemma_sorted_misplaced(t1, t2, s, i);
        } else {
            lemma_sorted_misplaced(t2, t1, s, i);
        }
    }
}

/// If the orders agree before `i`, `t1[i]` does not come before `t2[i]`.
proof fn lemma_sorted_misplaced(t1: Seq<Seq<char>>, t2: Seq<Seq<char>>, s: Seq<Seq<char>>, i: int)
    requires
        sorted_of(t1, s),
        sorted_of(t2, s),
        0 <= i < t1.len(),
        forall|k: int| 0 <= k < i ==> t1[k] == t2[k],
    ensures
        !text_lt(t1[i], t2[i]),
{
    if text_lt(t1[i], t2[i]) {
        let x = t1[i];
        assert(t1.contains(x));
        assert(s.contains(x));
        assert(t2.contains(x));
        let j = choose|j: int| 0 <= j < t2.len() && t2[j] == x;
        if j < i {
            assert(t1[j] == x);
            assert(text_lt(t1[j], t1[i]));
            lemma_text_lt_irrefl(x);
        } else if j == i {
            lemma_text_lt_irrefl(x);
        } else {
            assert(text_lt(t2[i], t2[j]));
            lemma_text_lt_total(x, t2[i]);
        }
    }
}

/// The key of a fact-set, from the SPL texts of its facts.
fn fact_key_exec(facts: Ghost<Seq<Literal>>, keys: &Vec<String>) -> (r: String)
    requires
        string_views(keys@) == spl_keys(facts@),
        distinct_texts(spl_keys(facts@)),
    ensures
        r@ == fact_key(facts@),
{
    proof {
        assert(views(keys@) == string_views(keys@));
    }
    let sorted = sort_texts(keys);
    proof {
        assert(views(sorted@) == string_views(sorted@));
        lemma_sorted_unique(views(sorted@), sorted_keys(facts@), spl_keys(facts@));
        reveal_strlit("\u{1f}");
        assert("\u{1f}"@ =~= seq!['\u{1f}']);
    }
    join(&sorted, "\u{1f}")
}


/// What holds of every candidate: its key is the key of its facts, it has
/// facts, and their SPL texts are distinct; and the keys are distinct.
pub open spec fn cands_wf(c: Seq<Entry>) -> bool {
    &&& distinct_texts(entry_keys(c))
    &&& forall|k: int|
        0 <= k < c.len() ==> (#[trigger] c[k]).0 == fact_key(c[k].1) && c[k].1.len() > 0 && distinct_texts(
            spl_keys(c[k].1),
        )
}

/// The candidates are well formed (see [`cands_wf`]).
proof fn lemma_cands_wf(rules: Seq<Rule>, goal: Literal, cs: Seq<Conclusion>)
    ensures
        cands_wf(cands(rules, goal, cs)),
    decreases rules.len(),
{
    if rules.len() > 0 {
        let prev = cands(rules.drop_last(), goal, cs);
        lemma_cands_wf(rules.drop_last(), goal, cs);
        let r = rules.last();
        let m = missing_of(r.body@, cs);
        lemma_missing_distinct(r.body@, cs);
        if r.head@.len() > 0 && lit_matches(goal, r.head@[0]) && r.rule_type != RuleType::Defeater && m.len() > 0 {
            let k = fact_key(m);
            if exists|i: int| 0 <= i < prev.len() && (#[trigger] prev[i]).0 == k {
                let i = choose|i: int| 0 <= i < prev.len() && (#[trigger] prev[i]).0 == k;
                let c = prev.update(i, (k, prev[i].1, prev[i].2.insert(r.label@)));
                assert(entry_keys(c) =~= entry_keys(prev));
            } else {
                let c = prev.push((k, m, set![r.label@]));
                assert(entry_keys(c) =~= entry_keys(prev).push(k));
                assert forall|a: int, b: int| 0 <= a < c.len() && 0 <= b < c.len() && a != b implies #[trigger] entry_keys(c)[a]
                    != #[trigger] entry_keys(c)[b] by {
                    if a < prev.len() && b < prev.len() {
                        assert(entry_keys(prev)[a] != entry_keys(prev)[b]);
                    } else if a < prev.len() {
                        assert(prev[a].0 != k);
                    } else {
                        assert(prev[b].0 != k);
                    }
                }
            }
        }
    }
}

/// The key and fact vectors hold the keys and facts of the candidates `c`.
pub open spec fn keyed(c: Seq<Entry>, keys: Seq<String>, facts: Seq<Vec<Literal>>) -> bool {
    &&& keys.len() == c.len()
    &&& facts.len() == c.len()
    &&& forall|k: int| 0 <= k < c.len() ==> (#[trigger] keys[k])@ == c[k].0 && same_lits(facts[k]@, c[k].1)
}

/// The candidate vectors hold the candidates `c`.
pub open spec fn cands_hold(c: Seq<Entry>, keys: Seq<String>, facts: Seq<Vec<Literal>>, labels: Seq<Vec<String>>) -> bool {
    &&& keyed(c, keys, facts)
    &&& labels.len() == c.len()
    &&& forall|k: int| 0 <= k < c.len() ==> string_views((#[trigger] labels[k])@).to_set() == c[k].2
}

/// The candidates that the rules give for the goal (see [`cands`]).
fn collect_candidates(rules: &[Rule], goal: &Literal, cs: &Vec<Conclusion>) -> (r: (Vec<String>, Vec<Vec<Literal>>, Vec<Vec<String>>))
    ensures
        cands_hold(cands(rules@, *goal, cs@), r.0@, r.1@, r.2@),
{
    let mut keys: Vec<String> = Vec::new();
    let mut facts: Vec<Vec<Literal>> = Vec::new();
    let mut labels: Vec<Vec<String>> = Vec::new();
    proof {
        assert(rules@.take(0) =~= Seq::<Rule>::empty());
    }
    let mut i: usize = 0;
    while i < rules.len()
        invariant
            0 <= i <= rules@.len(),
            cands_hold(cands(rules@.take(i as int), *goal, cs@), keys@, facts@, labels@),
        decreases rules@.len() - i,
    {
        let ghost pre = rules@.take(i as int);
        let ghost prev = cands(pre, *goal, cs@);
        proof {
            assert(rules@.take(i + 1).drop_last() =~= pre);
            assert(rules@.take(i + 1).last() == rules@[i as int]);
            lemma_cands_wf(pre, *goal, cs@);
        }
        let r = &rules[i];
        if r.head.len() > 0 && matches_literal_temporal(goal, &r.head[0]) && r.rule_type != RuleType::Defeater {
            let (m, mk) = missing_premises(&r.body, cs);
            if m.len() > 0 {
                let ghost gm = missing_of(r.body@, cs@);
                proof {
                    lemma_missing_distinct(r.body@, cs@);
                }
                let k = fact_key_exec(Ghost(gm), &mk);
                match find_key(&keys, k.as_str()) {
                    Some(j) => {
                        proof {
                            assert(prev[j as int].0 == k@);
                            assert forall|q: int| 0 <= q < prev.len() && (#[trigger] prev[q]).0 == k@ implies q == j by {
                                if q != j {
                                    assert(entry_keys(prev)[q] != entry_keys(prev)[j as int]);
                                }
                            }
                        }
                        let mut l = clone_strings(&labels[j]);
                        l.push(r.label.clone());
                        let ghost lb = labels@[j as int];
                        let ghost labels0 = labels@;
                        labels.set(j, l);
                        proof {
                            let c = cands(rules@.take(i + 1), *goal, cs@);
                            assert(c == prev.update(j as int, (k@, prev[j as int].1, prev[j as int].2.insert(r.label@))));
                            assert(string_views(labels@[j as int]@) =~= string_views(lb@).push(r.label@));
                            string_views(lb@).lemma_push_to_set_commute(r.label@);
                            assert forall|q: int| 0 <= q < c.len() implies string_views((#[trigger] labels@[q])@).to_set() == c[q].2 by {
                                if q != j {
                                    assert(labels@[q] == labels0[q]);
                                }
                            }
                        }
                    },
                    None => {
                        proof {
                            assert(!(exists|q: int| 0 <= q < prev.len() && (#[trigger] prev[q]).0 == k@)) by {
                                if exists|q: int| 0 <= q < prev.len() && (#[trigger] prev[q]).0 == k@ {
                                    let q = choose|q: int| 0 <= q < prev.len() && (#[trigger] prev[q]).0 == k@;
                                    assert(keys@[q]@ == k@);
                                }
                            }
                        }
                        let mut l: Vec<String> = Vec::new();
                        l.push(r.label.clone());
                        proof {
                            assert(string_views(l@) =~= Seq::<Seq<char>>::empty().push(r.label@));
                            Seq::<Seq<char>>::empty().lemma_push_to_set_commute(r.label@);
                            assert(Seq::<Seq<char>>::empty().to_set() =~= Set::<Seq<char>>::empty());
                            assert(string_views(l@).to_set() =~= set![r.label@]);
                        }
                        keys.push(k);
                        facts.push(m);
                        labels.push(l);
                    },
                }
            }
        }
        i = i + 1;
    }
    proof {
        assert(rules@.take(i as int) =~= rules@);
    }
    (keys, facts, labels)
}


/// The order of candidates is strict and total on different keys.
proof fn lemma_entry_order(a: Entry, b: Entry, c: Entry)
    ensures
        !entry_lt(a, a),
        !(entry_lt(a, b) && entry_lt(b, a)),
        a.0 != b.0 ==> entry_lt(a, b) || entry_lt(b, a),
        entry_lt(a, b) && entry_lt(b, c) ==> entry_lt(a, c),
{
    lemma_text_lt_irrefl(a.0);
    lemma_text_lt_total(a.0, b.0);
    if text_lt(a.0, b.0) && text_lt(b.0, c.0) {
        lemma_text_lt_trans(a.0, b.0, c.0);
    }
}

/// `t` is the entries of `c` in increasing order.
pub open spec fn sorted_entries_of(t: Seq<Entry>, c: Seq<Entry>) -> bool {
    &&& t.len() == c.len()
    &&& forall|x: Entry| #[trigger] t.contains(x) <==> c.contains(x)
    &&& forall|i: int, j: int| 0 <= i < j < t.len() ==> entry_lt(#[trigger] t[i], #[trigger] t[j])
}

/// The candidates in increasing order: fewer facts first, then by key.
pub open spec fn sorted_entries(c: Seq<Entry>) -> Seq<Entry> {
    choose|t: Seq<Entry>| sorted_entries_of(t, c)
}

/// Two increasing orders of the same candidates with distinct keys are the
/// same.
proof fn lemma_entries_unique(t1: Seq<Entry>, t2: Seq<Entry>, c: Seq<Entry>)
    requires
        sorted_entries_of(t1, c),
        sorted_entries_of(t2, c),
        distinct_texts(entry_keys(c)),
    ensures
        t1 == t2,
{
    assert forall|i: int| 0 <= i < t1.len() implies t1[i] == t2[i] by {
        lemma_entries_agree(t1, t2, c, i);
    }
    assert(t1 =~= t2);
}

/// Different entries of the candidates have different keys.
proof fn lemma_entry_keys_differ(c: Seq<Entry>, x: Entry, y: Entry)
    requires
        distinct_texts(entry_keys(c)),
        c.contains(x),
        c.contains(y),
        x != y,
    ensures
        x.0 != y.0,
{
    let i = choose|i: int| 0 <= i < c.len() && c[i] == x;
    let j = choose|j: int| 0 <= j < c.len() && c[j] == y;
    assert(entry_keys(c)[i] != entry_keys(c)[j]);
}

/// The two orders agree at every position up to `i`.
proof fn lemma_entries_agree(t1: Seq<Entry>, t2: Seq<Entry>, c: Seq<Entry>, i: int)
    requires
        sorted_entries_of(t1, c),
        sorted_entries_of(t2, c),
        distinct_texts(entry_keys(c)),
        0 <= i < t1.len(),
    ensures
        forall|k: int| 0 <= k <= i ==> t1[k] == t2[k],
    decreases i,
{
    if i > 0 {
        lemma_entries_agree(t1, t2, c, i - 1);
    }
    if t1[i] != t2[i] {
        assert(t1.contains(t1[i]));
        assert(t2.contains(t2[i]));
        lemma_entry_keys_differ(c, t1[i], t2[i]);
        lemma_entry_order(t1[i], t2[i], t2[i]);
        lemma_entries_misplaced(t1, t2, c, i);
        lemma_entries_misplaced(t2, t1, c, i);
    }
}

/// If the orders agree before `i`, `t1[i]` does not come before `t2[i]`.
proof fn lemma_entries_misplaced(t1: Seq<Entry>, t2: Seq<Entry>, c: Seq<Entry>, i: int)
    requires
        sorted_entries_of(t1, c),
        sorted_entries_of(t2, c),
        0 <= i < t1.len(),
        forall|k: int| 0 <= k < i ==> t1[k] == t2[k],
    ensures
        !entry_lt(t1[i], t2[i]),
{
    if entry_lt(t1[i], t2[i]) {
        let x = t1[i];
        assert(t1.contains(x));
        assert(t2.contains(x));
        let j = choose|j: int| 0 <= j < t2.len() && t2[j] == x;
        if j < i {
            assert(t1[j] == x);
            assert(entry_lt(t1[j], t1[i]));
            lemma_entry_order(x, x, x);
        } else if j == i {
            lemma_entry_order(x, x, x);
        } else {
            assert(entry_lt(t2[i], t2[j]));
            lemma_entry_order(x, t2[i], x);
        }
    }
}

/// The entries at the positions of `order`.
pub open spec fn at_positions(c: Seq<Entry>, order: Seq<usize>) -> Seq<Entry> {
    order.map_values(|k: usize| c[k as int])
}

/// Whether candidate `a` comes before candidate `b`.
fn entry_less(keys: &Vec<String>, facts: &Vec<Vec<Literal>>, a: usize, b: usize, c: Ghost<Seq<Entry>>) -> (r: bool)
    requires
        keyed(c@, keys@, facts@),
        a < c@.len(),
        b < c@.len(),
    ensures
        r == entry_lt(c@[a as int], c@[b as int]),
{
    proof {
        assert(keys@[a as int]@ == c@[a as int].0 && same_lits(facts@[a as int]@, c@[a as int].1));
        assert(keys@[b as int]@ == c@[b as int].0 && same_lits(facts@[b as int]@, c@[b as int].1));
    }
    let la = facts[a].len();
    let lb = facts[b].len();
    la < lb || (la == lb && text_less(keys[a].as_str(), keys[b].as_str()))
}


/// `order` holds distinct positions below `n`, in increasing order of
/// their candidates.
pub open spec fn order_ok(c: Seq<Entry>, order: Seq<usize>, n: nat) -> bool {
    &&& forall|a: int| 0 <= a < order.len() ==> (#[trigger] order[a]) < n
    &&& forall|a: int, b: int| 0 <= a < order.len() && 0 <= b < order.len() && a != b ==> #[trigger] order[a] != #[trigger] order[b]
    &&& forall|a: int, b: int| 0 <= a < b < order.len() ==> entry_lt(c[#[trigger] order[a] as int], c[#[trigger] order[b] as int])
}

/// Inserting position `x` where it belongs keeps the order.
proof fn lemma_order_insert(c: Seq<Entry>, order: Seq<usize>, n: nat, q: int, x: usize)
    requires
        n < c.len(),
        x == n,
        order_ok(c, order, n),
        0 <= q <= order.len(),
        forall|a: int| 0 <= a < q ==> entry_lt(c[#[trigger] order[a] as int], c[x as int]),
        q < order.len() ==> entry_lt(c[x as int], c[order[q] as int]),
    ensures
        order_ok(c, order.insert(q, x), n + 1),
{
    let o2 = order.insert(q, x);
    assert forall|a: int, b: int| 0 <= a < b < o2.len() implies entry_lt(c[#[trigger] o2[a] as int], c[#[trigger] o2[b] as int]) by {
        if b < q {
            assert(o2[a] == order[a] && o2[b] == order[b]);
        } else if b == q {
            assert(o2[a] == order[a]);
        } else if a < q {
            assert(o2[a] == order[a] && o2[b] == order[b - 1]);
        } else if a == q {
            assert(o2[b] == order[b - 1]);
            if b - 1 > q {
                assert(entry_lt(c[order[q] as int], c[order[b - 1] as int]));
                lemma_entry_order(c[x as int], c[order[q] as int], c[order[b - 1] as int]);
            }
        } else {
            assert(o2[a] == order[a - 1] && o2[b] == order[b - 1]);
        }
    }
    assert forall|a: int, b: int| 0 <= a < o2.len() && 0 <= b < o2.len() && a != b implies #[trigger] o2[a] != #[trigger] o2[b] by {
        if a != q && b != q {
            let a1 = if a < q { a } else { a - 1 };
            let b1 = if b < q { b } else { b - 1 };
            assert(o2[a] == order[a1] && o2[b] == order[b1]);
        } else if a == q {
            let b1 = if b < q { b } else { b - 1 };
            assert(o2[b] == order[b1]);
        } else {
            let a1 = if a < q { a } else { a - 1 };
            assert(o2[a] == order[a1]);
        }
    }
    assert forall|a: int| 0 <= a < o2.len() implies (#[trigger] o2[a]) < n + 1 by {
        if a < q {
            assert(o2[a] == order[a]);
        } else if a > q {
            assert(o2[a] == order[a - 1]);
        }
    }
}

/// The positions of the candidates in increasing order of candidates.
fn sort_order(keys: &Vec<String>, facts: &Vec<Vec<Literal>>, c: Ghost<Seq<Entry>>) -> (order: Vec<usize>)
    requires
        keyed(c@, keys@, facts@),
        distinct_texts(entry_keys(c@)),
    ensures
        sorted_entries_of(at_positions(c@, order@), c@),
        order@.len() == c@.len(),
        order_ok(c@, order@, c@.len()),
{
    let n = keys.len();
    let mut order: Vec<usize> = Vec::new();
    let mut i: usize = 0;
    while i < n
        invariant
            n == c@.len(),
            keyed(c@, keys@, facts@),
            distinct_texts(entry_keys(c@)),
            0 <= i <= n,
            order@.len() == i,
            order_ok(c@, order@, i as nat),
        decreases n - i,
    {
        let mut q: usize = 0;
        while q < order.len() && !entry_less(keys, facts, i, order[q], c)
            invariant
                n == c@.len(),
                keyed(c@, keys@, facts@),
                distinct_texts(entry_keys(c@)),
                i < n,
                order@.len() == i,
                order_ok(c@, order@, i as nat),
                0 <= q <= order@.len(),
                forall|a: int| 0 <= a < q ==> entry_lt(c@[#[trigger] order@[a] as int], c@[i as int]),
            decreases order@.len() - q,
        {
            proof {
                let o = order@[q as int];
                assert(o < i);
                assert(entry_keys(c@)[o as int] != entry_keys(c@)[i as int]);
                lemma_entry_order(c@[o as int], c@[i as int], c@[i as int]);
            }
            q = q + 1;
        }
        proof {
            lemma_order_insert(c@, order@, i as nat, q as int, i);
        }
        order.insert(q, i);
        i = i + 1;
    }
    proof {
        let t = at_positions(c@, order@);
        assert forall|x: Entry| #[trigger] t.contains(x) <==> c@.contains(x) by {
            if t.contains(x) {
                let a = choose|a: int| 0 <= a < t.len() && t[a] == x;
                assert(c@[order@[a] as int] == x);
            }
            if c@.contains(x) {
                let k = choose|k: int| 0 <= k < c@.len() && c@[k] == x;
                lemma_order_covers(order@, n as nat, k);
                let a = choose|a: int| 0 <= a < order@.len() && order@[a] == k;
                assert(t[a] == x);
            }
        }
        assert forall|a: int, b: int| 0 <= a < b < t.len() implies entry_lt(#[trigger] t[a], #[trigger] t[b]) by {
            assert(entry_lt(c@[order@[a] as int], c@[order@[b] as int]));
        }
    }
    order
}

/// `n` distinct positions below `n` take in every position below `n`.
proof fn lemma_order_covers(order: Seq<usize>, n: nat, k: int)
    requires
        order.len() == n,
        forall|a: int| 0 <= a < order.len() ==> (#[trigger] order[a]) < n,
        forall|a: int, b: int| 0 <= a < order.len() && 0 <= b < order.len() && a != b ==> #[trigger] order[a] != #[trigger] order[b],
        0 <= k < n,
    ensures
        exists|a: int| 0 <= a < order.len() && order[a] == k,
{
    let s = order.map_values(|x: usize| x as int);
    assert(s.no_duplicates()) by {
        assert forall|a: int, b: int| 0 <= a < s.len() && 0 <= b < s.len() && a != b implies s[a] != s[b] by {
            assert(order[a] != order[b]);
        }
    }
    s.unique_seq_to_set();
    let full = Set::new(|x: int| 0 <= x < n);
    assert(s.to_set().subset_of(full)) by {
        assert forall|x: int| s.to_set().contains(x) implies full.contains(x) by {
            let a = choose|a: int| 0 <= a < s.len() && s[a] == x;
            assert(order[a] < n);
        }
    }
    vstd::set_lib::lemma_int_range(0, n as int);
    assert(full =~= vstd::set_lib::set_int_range(0, n as int));
    if !s.to_set().contains(k) {
        vstd::set_lib::lemma_len_subset(s.to_set(), full.remove(k));
        assert(s.to_set().subset_of(full.remove(k)));
    }
    let a = choose|a: int| 0 <= a < s.len() && s[a] == k;
    assert(order[a] == k);
}


/// What an `FxHashSet` of strings holds, by the strings' characters.
pub uninterp spec fn fx_set_contents(s: FxHashSet<String>) -> Set<Seq<char>>;

/// `FxHashSet::default`: an empty set.
#[verifier::external_body]
fn fx_set_new() -> (r: FxHashSet<String>)
    ensures
        fx_set_contents(r) == Set::<Seq<char>>::empty(),
{
    FxHashSet::default()
}

/// `HashSet::insert` on an `FxHashSet`: adds the string.
#[verifier::external_body]
fn fx_set_insert(s: &mut FxHashSet<String>, k: String)
    ensures
        fx_set_contents(*final(s)) == fx_set_contents(*old(s)).insert(k@),
{
    s.insert(k);
}

/// The set of the strings of `v`.
fn label_set(v: &Vec<String>) -> (r: FxHashSet<String>)
    ensures
        fx_set_contents(r) == string_views(v@).to_set(),
{
    let mut out = fx_set_new();
    let mut i: usize = 0;
    proof {
        assert(string_views(v@.take(0)) =~= Seq::<Seq<char>>::empty());
        assert(Seq::<Seq<char>>::empty().to_set() =~= Set::<Seq<char>>::empty());
    }
    while i < v.len()
        invariant
            0 <= i <= v@.len(),
            fx_set_contents(out) == string_views(v@.take(i as int)).to_set(),
        decreases v@.len() - i,
    {
        fx_set_insert(&mut out, v[i].clone());
        proof {
            assert(string_views(v@.take(i + 1)) =~= string_views(v@.take(i as int)).push(v@[i as int]@));
            string_views(v@.take(i as int)).lemma_push_to_set_commute(v@[i as int]@);
        }
        i = i + 1;
    }
    proof {
        assert(v@.take(i as int) =~= v@);
    }
    out
}

/// A set of facts that, added to the theory, would let a rule derive the
/// goal, with the labels of the rules it serves.
#[derive(Debug)]
pub struct AbductionSolution {
    /// The facts to assume, in order, none twice (by SPL text).
    pub facts: Vec<Literal>,
    /// The labels of the rules that the facts would let fire.
    pub rules_used: FxHashSet<String>,
}

impl AbductionSolution {
    /// A solution with the facts and no rules.
    pub fn new(facts: Vec<Literal>) -> (r: Self)
        ensures
            r.facts == facts,
            fx_set_contents(r.rules_used) == Set::<Seq<char>>::empty(),
    {
        AbductionSolution { facts, rules_used: fx_set_new() }
    }

    /// Whether the goal needs no fact: the solution is empty.
    pub fn is_already_provable(&self) -> (r: bool)
        ensures
            r == (self.facts@.len() == 0),
    {
        self.facts.len() == 0
    }

    /// The number of facts needed.
    pub fn size(&self) -> (r: usize)
        ensures
            r == self.facts@.len(),
    {
        self.facts.len()
    }
}

/// The result of abduction: the goal and the candidate solutions.
#[derive(Debug)]
pub struct AbductionResult {
    /// The goal literal.
    pub goal: Literal,
    /// The candidate fact-sets, fewest facts first.
    pub solutions: Vec<AbductionSolution>,
}

/// Some solution needs no fact.
pub open spec fn some_empty(sols: Seq<AbductionSolution>) -> bool {
    exists|i: int| 0 <= i < sols.len() && (#[trigger] sols[i]).facts@.len() == 0
}

impl AbductionResult {
    /// A result for the goal with no solutions.
    pub fn new(goal: Literal) -> (r: Self)
        ensures
            r.goal == goal,
            r.solutions@.len() == 0,
    {
        AbductionResult { goal, solutions: Vec::new() }
    }

    /// Whether there is some solution.
    pub fn has_solutions(&self) -> (r: bool)
        ensures
            r == (self.solutions@.len() > 0),
    {
        self.solutions.len() > 0
    }

    /// Whether the goal is already provable: some solution is empty.
    pub fn is_already_provable(&self) -> (r: bool)
        ensures
            r == some_empty(self.solutions@),
    {
        let mut i: usize = 0;
        while i < self.solutions.len()
            invariant
                0 <= i <= self.solutions@.len(),
                forall|j: int| 0 <= j < i ==> (#[trigger] self.solutions@[j]).facts@.len() != 0,
            decreases self.solutions@.len() - i,
        {
            if self.solutions[i].is_already_provable() {
                return true;
            }
            i = i + 1;
        }
        false
    }

    /// The first of the solutions with the fewest facts, if any.
    pub fn smallest_solution(&self) -> (r: Option<&AbductionSolution>)
        ensures
            r is None <==> self.solutions@.len() == 0,
            r matches Some(s) ==> exists|i: int|
                0 <= i < self.solutions@.len() && *s == self.solutions@[i] && (forall|j: int|
                    0 <= j < self.solutions@.len() ==> (#[trigger] self.solutions@[j]).facts@.len() >= s.facts@.len()) && (forall|j: int|
                    0 <= j < i ==> (#[trigger] self.solutions@[j]).facts@.len() > s.facts@.len()),
    {
        if self.solutions.len() == 0 {
            return None;
        }
        let mut best: usize = 0;
        let mut i: usize = 1;
        while i < self.solutions.len()
            invariant
                1 <= i <= self.solutions@.len(),
                best < i,
                forall|j: int| 0 <= j < i ==> (#[trigger] self.solutions@[j]).facts@.len() >= self.solutions@[best as int].facts@.len(),
                forall|j: int| 0 <= j < best ==> (#[trigger] self.solutions@[j]).facts@.len() > self.solutions@[best as int].facts@.len(),
            decreases self.solutions@.len() - i,
        {
            if self.solutions[i].size() < self.solutions[best].size() {
                best = i;
            }
            i = i + 1;
        }
        Some(&self.solutions[best])
    }
}

/// The solution holds the facts and rule labels of the candidate.
pub open spec fn sol_is(sol: AbductionSolution, e: Entry) -> bool {
    same_lits(sol.facts@, e.1) && fx_set_contents(sol.rules_used) == e.2
}

/// `res` is the result of abduction for the goal over the rules, given the
/// conclusions `cs`: at most `max` solutions; when `cs` already prove the
/// goal, the empty solution alone (none when `max` is zero); else the first
/// `max` candidates in increasing order.
pub open spec fn abduced(rules: Seq<Rule>, goal: Literal, cs: Seq<Conclusion>, max: nat, res: AbductionResult) -> bool {
    &&& same_lit(res.goal, goal)
    &&& res.solutions@.len() <= max
    &&& some_proof(cs, goal) ==> res.solutions@.len() == (if max > 0 { 1nat } else { 0nat }) && forall|i: int|
        0 <= i < res.solutions@.len() ==> (#[trigger] res.solutions@[i]).facts@.len() == 0 && fx_set_contents(
            res.solutions@[i].rules_used,
        ) == Set::<Seq<char>>::empty()
    &&& !some_proof(cs, goal) ==> {
        let t = sorted_entries(raw_candidates(rules, goal, cs));
        let m = if max < t.len() {
            max
        } else {
            t.len()
        };
        &&& sorted_entries_of(t, raw_candidates(rules, goal, cs))
        &&& res.solutions@.len() == m
        &&& forall|i: int| 0 <= i < m ==> #[trigger] sol_is(res.solutions@[i], t[i])
    }
}

/// The candidates, with the goal itself when no rule gives one.
fn raw_candidates_exec(theory: &Theory, goal: &Literal, cs: &Vec<Conclusion>) -> (r: (Vec<String>, Vec<Vec<Literal>>, Vec<Vec<String>>))
    ensures
        cands_hold(raw_candidates(theory.spec_rules(), *goal, cs@), r.0@, r.1@, r.2@),
        cands_wf(raw_candidates(theory.spec_rules(), *goal, cs@)),
{
    proof {
        lemma_cands_wf(theory.spec_rules(), *goal, cs@);
    }
    let (mut keys, mut facts, mut labels) = collect_candidates(theory.rules(), goal, cs);
    if keys.len() == 0 {
        let ghost g = seq![*goal];
        let mut ks: Vec<String> = Vec::new();
        ks.push(goal.to_spl());
        proof {
            assert(string_views(ks@) =~= spl_keys(g));
        }
        let k = fact_key_exec(Ghost(g), &ks);
        let mut fs: Vec<Literal> = Vec::new();
        fs.push(goal.duplicate());
        keys.push(k);
        facts.push(fs);
        labels.push(Vec::new());
        proof {
            let raw = raw_candidates(theory.spec_rules(), *goal, cs@);
            assert(raw[0] == (fact_key(g), g, Set::<Seq<char>>::empty()));
            assert(string_views(labels@[0]@) =~= Seq::<Seq<char>>::empty());
            assert(Seq::<Seq<char>>::empty().to_set() =~= Set::<Seq<char>>::empty());
            assert(same_lits(facts@[0]@, g));
            assert(entry_keys(raw) =~= seq![fact_key(g)]);
            assert(spl_keys(g) =~= seq![spl_text(*goal)]);
        }
    }
    (keys, facts, labels)
}

/// Abduction over given conclusions: which facts would let a rule derive
/// the goal (see [`abduced`]). A rule is a candidate when its head matches
/// the goal (by family when the goal has no bounds, exactly otherwise) and
/// it is not a defeater; its facts are its body literals that no positive
/// conclusion matches. Rules with the same fact-set share one solution;
/// with no candidate, the goal itself is the solution.
pub fn abduce_with_conclusions(
    theory: &Theory,
    goal: &Literal,
    conclusions: &Vec<Conclusion>,
    max_solutions: usize,
) -> (r: Result<AbductionResult, SpindleError>)
    requires
        rules_have_heads(theory.spec_rules()),
    ensures
        r matches Ok(res) && abduced(theory.spec_rules(), *goal, conclusions@, max_solutions as nat, res),
{
    let mut result = AbductionResult::new(goal.duplicate());
    if is_proven_temporal(conclusions, goal) {
        if max_solutions > 0 {
            result.solutions.push(AbductionSolution::new(Vec::new()));
        }
        return Ok(result);
    }
    let ghost raw = raw_candidates(theory.spec_rules(), *goal, conclusions@);
    let (keys, facts, labels) = raw_candidates_exec(theory, goal, conclusions);
    let order = sort_order(&keys, &facts, Ghost(raw));
    let ghost t = at_positions(raw, order@);
    proof {
        assert(sorted_entries_of(sorted_entries(raw), raw));
        lemma_entries_unique(t, sorted_entries(raw), raw);
    }
    let n = order.len();
    let m = if max_solutions < n {
        max_solutions
    } else {
        n
    };
    let mut a: usize = 0;
    while a < m
        invariant
            m <= n,
            n == order@.len(),
            n == raw.len(),
            t == at_positions(raw, order@),
            cands_hold(raw, keys@, facts@, labels@),
            forall|q: int| 0 <= q < order@.len() ==> (#[trigger] order@[q]) < raw.len(),
            0 <= a <= m,
            same_lit(result.goal, *goal),
            result.solutions@.len() == a,
            forall|i: int| 0 <= i < a ==> #[trigger] sol_is(result.solutions@[i], t[i]),
        decreases m - a,
    {
        let idx = order[a];
        proof {
            assert(t[a as int] == raw[idx as int]);
            assert(keys@[idx as int]@ == raw[idx as int].0);
            assert(same_lits(facts@[idx as int]@, raw[idx as int].1));
        }
        let fs = clone_literals(&facts[idx]);
        let rules_used = label_set(&labels[idx]);
        proof {
            assert forall|q: int| 0 <= q < fs@.len() implies #[trigger] same_lit(fs@[q], raw[idx as int].1[q]) by {
                assert(same_lit(fs@[q], facts@[idx as int]@[q]));
                assert(same_lit(facts@[idx as int]@[q], raw[idx as int].1[q]));
            }
        }
        result.solutions.push(AbductionSolution { facts: fs, rules_used });
        a = a + 1;
    }
    Ok(result)
}


/// Reason over the theory, then abduce over its conclusions (see
/// [`abduce_with_conclusions`]); at most `max_solutions` solutions.
pub fn abduce(theory: &Theory, goal: &Literal, max_solutions: usize) -> (r: Result<AbductionResult, SpindleError>)
    requires
        reasonable(*theory),
    ensures
        r is Ok <==> !prepare_fails(*theory, PrepareOptions::spec_default()),
        r matches Ok(res) ==> exists|cs: Seq<Conclusion>|
            reasoned_with(*theory, PrepareOptions::spec_default(), cs) && #[trigger] abduced(
                theory.spec_rules(),
                *goal,
                cs,
                max_solutions as nat,
                res,
            ),
{
    let conclusions = match reason(theory) {
        Ok(cs) => cs,
        Err(e) => {
            return Err(e);
        },
    };
    abduce_with_conclusions(theory, goal, &conclusions, max_solutions)
}

/// The display texts of literals.
pub open spec fn lit_texts(ls: Seq<Literal>) -> Seq<Seq<char>> {
    ls.map_values(|l: Literal| l.spec_text())
}

/// The line of solution number `i` (from one).
pub open spec fn solution_line(i: nat, sol: AbductionSolution) -> Seq<char> {
    "  "@ + decimal(i) + (if sol.facts@.len() == 0 {
        ". Already provable\n"@
    } else {
        ". Add facts: {"@ + joined(lit_texts(sol.facts@), ", "@) + "}\n"@
    })
}

/// The lines of the first `n` solutions.
pub open spec fn solution_lines(sols: Seq<AbductionSolution>, n: nat) -> Seq<char>
    decreases n,
{
    if n == 0 || n > sols.len() {
        Seq::empty()
    } else {
        solution_lines(sols, (n - 1) as nat) + solution_line(n, sols[n - 1])
    }
}

/// The display text of an abduction result.
pub open spec fn abduction_text(res: AbductionResult) -> Seq<char> {
    if res.solutions@.len() == 0 {
        "No hypotheses found for "@ + res.goal.spec_text()
    } else {
        "Abduction solutions for "@ + res.goal.spec_text() + ":\n"@ + solution_lines(res.solutions@, res.solutions@.len())
    }
}

/// The display texts of the literals, joined by `, `.
fn join_lits(ls: &Vec<Literal>) -> (r: String)
    ensures
        r@ == joined(lit_texts(ls@), ", "@),
{
    let mut parts: Vec<String> = Vec::new();
    let mut i: usize = 0;
    while i < ls.len()
        invariant
            0 <= i <= ls@.len(),
            string_views(parts@) == lit_texts(ls@.take(i as int)),
        decreases ls@.len() - i,
    {
        let ghost p0 = parts@;
        parts.push(ls[i].to_text());
        proof {
            assert(ls@.take(i + 1) =~= ls@.take(i as int).push(ls@[i as int]));
            assert(lit_texts(ls@.take(i + 1)) =~= lit_texts(ls@.take(i as int)).push(ls@[i as int].spec_text()));
            assert(string_views(parts@) =~= string_views(p0).push(ls@[i as int].spec_text()));
        }
        i = i + 1;
    }
    proof {
        assert(ls@.take(i as int) =~= ls@);
    }
    join(&parts, ", ")
}

impl AbductionResult {
    /// The display text: `No hypotheses found for <goal>` without
    /// solutions; else a heading and one numbered line per solution.
    pub fn to_text(&self) -> (r: String)
        ensures
            r@ == abduction_text(*self),
    {
        let n = self.solutions.len();
        if n == 0 {
            let mut out = String::from_str("No hypotheses found for ");
            out.append(self.goal.to_text().as_str());
            return out;
        }
        let mut out = String::from_str("Abduction solutions for ");
        out.append(self.goal.to_text().as_str());
        out.append(":\n");
        let ghost head = out@;
        let mut i: usize = 0;
        while i < n
            invariant
                n == self.solutions@.len(),
                0 <= i <= n,
                out@ == head + solution_lines(self.solutions@, i as nat),
            decreases n - i,
        {
            let sol = &self.solutions[i];
            let ghost before = out@;
            out.append("  ");
            push_decimal(&mut out, (i + 1) as u64);
            if sol.facts.len() == 0 {
                out.append(". Already provable\n");
            } else {
                out.append(". Add facts: {");
                out.append(join_lits(&sol.facts).as_str());
                out.append("}\n");
            }
            proof {
                assert(out@ =~= before + solution_line((i + 1) as nat, *sol));
                assert(solution_lines(self.solutions@, (i + 1) as nat) == solution_lines(self.solutions@, i as nat)
                    + solution_line((i + 1) as nat, self.solutions@[i as int]));
            }
            i = i + 1;
        }
        out
    }
}


/// Every candidate has facts, no more than the rules have literal
/// occurrences, plus one.
pub proof fn lemma_raw_candidates_facts(rules: Seq<Rule>, goal: Literal, cs: Seq<Conclusion>)
    ensures
        forall|k: int|
            0 <= k < raw_candidates(rules, goal, cs).len() ==> 0 < (#[trigger] raw_candidates(rules, goal, cs)[k]).1.len() <= lits_in(
                rules,
            ) + 1,
{
    lemma_cands_small(rules, goal, cs);
    lemma_cands_wf(rules, goal, cs);
}

/// The facts of every candidate are no more than the rules' literal
/// occurrences.
proof fn lemma_cands_small(rules: Seq<Rule>, goal: Literal, cs: Seq<Conclusion>)
    ensures
        forall|k: int| 0 <= k < cands(rules, goal, cs).len() ==> (#[trigger] cands(rules, goal, cs)[k]).1.len() <= lits_in(rules),
    decreases rules.len(),
{
    if rules.len() > 0 {
        let init = rules.drop_last();
        lemma_cands_small(init, goal, cs);
        let r = rules.last();
        lemma_missing_distinct(r.body@, cs);
        let prev = cands(init, goal, cs);
        let c = cands(rules, goal, cs);
        assert(lits_in(rules) == lits_in(init) + 1 + r.body@.len());
        let m = missing_of(r.body@, cs);
        if r.head@.len() > 0 && lit_matches(goal, r.head@[0]) && r.rule_type != RuleType::Defeater && m.len() > 0 {
            let k = fact_key(m);
            if exists|i: int| 0 <= i < prev.len() && (#[trigger] prev[i]).0 == k {
                let i = choose|i: int| 0 <= i < prev.len() && (#[trigger] prev[i]).0 == k;
                assert forall|q: int| 0 <= q < c.len() implies (#[trigger] c[q]).1.len() <= lits_in(rules) by {
                    assert(prev[q].1.len() <= lits_in(init));
                }
            } else {
                assert forall|q: int| 0 <= q < c.len() implies (#[trigger] c[q]).1.len() <= lits_in(rules) by {
                    if q < prev.len() {
                        assert(prev[q].1.len() <= lits_in(init));
                    }
                }
            }
        } else {
            assert forall|q: int| 0 <= q < c.len() implies (#[trigger] c[q]).1.len() <= lits_in(rules) by {
                assert(prev[q].1.len() <= lits_in(init));
            }
        }
    }
}

} // verus!
