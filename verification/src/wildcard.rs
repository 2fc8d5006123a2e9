//! Wildcard rewriting: each anonymous wildcard `_` in a rule becomes a
//! fresh variable `?_w1`, `?_w2`, ... numbered in order over the theory
//! (rule by rule; in each rule the body, then the head; in each literal the
//! name, then the arguments), so that no two wildcard positions are bound
//! together.

use vstd::prelude::*;
use crate::literal::Literal;
use crate::pipeline::{is_wild, lit_has_var, lits_have_var, rules_have_vars};
use crate::rule::{Rule, same_lit, same_lits, same_rule, same_rules, same_rule_data, same_rules_data};
use crate::index::{lits_in, rules_have_heads};
use crate::text::{decimal, push_decimal, string_views};
use crate::theory::Theory;

verus! {

/// The fresh variable numbered `k`.
pub open spec fn fresh_var(k: nat) -> Seq<char> {
    "?_w"@ + decimal(k)
}

/// The text with the wildcard replaced by the fresh variable numbered `c + 1`.
pub open spec fn rewrite_text(s: Seq<char>, c: nat) -> Seq<char> {
    if is_wild(s) {
        fresh_var(c + 1)
    } else {
        s
    }
}

/// One for the wildcard, zero for any other text.
pub open spec fn wild_num(s: Seq<char>) -> nat {
    if is_wild(s) {
        1
    } else {
        0
    }
}

/// The number of wildcards among the texts.
pub open spec fn wilds_in(ts: Seq<Seq<char>>) -> nat
    decreases ts.len(),
{
    if ts.len() == 0 {
        0
    } else {
        wilds_in(ts.drop_last()) + wild_num(ts.last())
    }
}

/// The number of wildcards in a literal: its name and its arguments.
pub open spec fn lit_wilds(l: Literal) -> nat {
    wild_num(l.spec_name()) + wilds_in(l.spec_preds())
}

/// The number of wildcards in the literals.
pub open spec fn lits_wilds(ls: Seq<Literal>) -> nat
    decreases ls.len(),
{
    if ls.len() == 0 {
        0
    } else {
        lits_wilds(ls.drop_last()) + lit_wilds(ls.last())
    }
}

/// The number of wildcards in a rule: its body and its head.
pub open spec fn rule_wilds(r: Rule) -> nat {
    lits_wilds(r.body@) + lits_wilds(r.head@)
}

/// The number of wildcards in the rules.
pub open spec fn rules_wilds(rs: Seq<Rule>) -> nat
    decreases rs.len(),
{
    if rs.len() == 0 {
        0
    } else {
        rules_wilds(rs.drop_last()) + rule_wilds(rs.last())
    }
}

/// `b` is `a` with its wildcards replaced by fresh variables numbered from
/// `c + 1`: the name first, then the arguments in order.
pub open spec fn lit_rewritten(a: Literal, b: Literal, c: nat) -> bool {
    &&& b.spec_name() == rewrite_text(a.spec_name(), c)
    &&& b.negation == a.negation
    &&& b.mode == a.mode
    &&& b.temporal == a.temporal
    &&& b.temporal_expr == a.temporal_expr
    &&& b.spec_preds().len() == a.spec_preds().len()
    &&& forall|j: int|
        0 <= j < a.spec_preds().len() ==> #[trigger] b.spec_preds()[j] == rewrite_text(
            a.spec_preds()[j],
            c + wild_num(a.spec_name()) + wilds_in(a.spec_preds().take(j)),
        )
}

/// `b` is `a` with the wildcards of each literal replaced, numbered on from `c`.
pub open spec fn lits_rewritten(a: Seq<Literal>, b: Seq<Literal>, c: nat) -> bool {
    &&& b.len() == a.len()
    &&& forall|i: int| 0 <= i < a.len() ==> #[trigger] lit_rewritten(a[i], b[i], c + lits_wilds(a.take(i)))
}

/// `b` is rule `a` with its wildcards replaced, numbered on from `c`: the
/// body first, then the head.
pub open spec fn rule_rewritten(a: Rule, b: Rule, c: nat) -> bool {
    &&& b.label == a.label
    &&& b.rule_type == a.rule_type
    &&& b.template_label == a.template_label
    &&& b.temporal == a.temporal
    &&& lits_rewritten(a.body@, b.body@, c)
    &&& lits_rewritten(a.head@, b.head@, c + lits_wilds(a.body@))
}

/// `b` is the rules `a` with their wildcards replaced, numbered from one
/// over all the rules.
pub open spec fn rules_rewritten(a: Seq<Rule>, b: Seq<Rule>) -> bool {
    &&& b.len() == a.len()
    &&& forall|i: int| 0 <= i < a.len() ==> #[trigger] rule_rewritten(a[i], b[i], rules_wilds(a.take(i)))
}

/// Literals with the same data have as many wildcards.
proof fn lemma_same_lits_wilds(a: Seq<Literal>, b: Seq<Literal>)
    requires
        same_lits(a, b),
    ensures
        lits_wilds(a) == lits_wilds(b),
    decreases a.len(),
{
    if a.len() > 0 {
        assert(same_lits(a.drop_last(), b.drop_last())) by {
            assert forall|i: int| 0 <= i < a.drop_last().len() implies #[trigger] same_lit(a.drop_last()[i], b.drop_last()[i]) by {
                assert(same_lit(a[i], b[i]));
            }
        }
        lemma_same_lits_wilds(a.drop_last(), b.drop_last());
        assert(same_lit(a[a.len() - 1], b[a.len() - 1]));
    }
}

/// Rules with the same data have as many wildcards.
pub proof fn lemma_same_rules_wilds(a: Seq<Rule>, b: Seq<Rule>)
    requires
        same_rules(a, b),
    ensures
        rules_wilds(a) == rules_wilds(b),
    decreases a.len(),
{
    if a.len() > 0 {
        assert(same_rules(a.drop_last(), b.drop_last())) by {
            assert forall|i: int| 0 <= i < a.drop_last().len() implies #[trigger] same_rule(a.drop_last()[i], b.drop_last()[i]) by {
                assert(same_rule(a[i], b[i]));
            }
        }
        lemma_same_rules_wilds(a.drop_last(), b.drop_last());
        assert(same_rule(a[a.len() - 1], b[a.len() - 1]));
        lemma_same_lits_wilds(a.last().body@, b.last().body@);
        lemma_same_lits_wilds(a.last().head@, b.last().head@);
    }
}

/// Rules with the same data (labels compared by characters) have as many
/// wildcards.
pub proof fn lemma_same_data_wilds(a: Seq<Rule>, b: Seq<Rule>)
    requires
        same_rules_data(a, b),
    ensures
        rules_wilds(a) == rules_wilds(b),
    decreases a.len(),
{
    if a.len() > 0 {
        assert(same_rules_data(a.drop_last(), b.drop_last())) by {
            assert forall|i: int| 0 <= i < a.drop_last().len() implies #[trigger] same_rule_data(a.drop_last()[i], b.drop_last()[i]) by {
                assert(same_rule_data(a[i], b[i]));
            }
        }
        lemma_same_data_wilds(a.drop_last(), b.drop_last());
        assert(same_rule_data(a[a.len() - 1], b[a.len() - 1]));
        lemma_same_lits_wilds(a.last().body@, b.last().body@);
        lemma_same_lits_wilds(a.last().head@, b.last().head@);
    }
}

/// A rewriting of literals is one of any literals with the same data.
proof fn lemma_lits_rewritten_same(x: Seq<Literal>, f: Seq<Literal>, b: Seq<Literal>, c: nat)
    requires
        same_lits(x, f),
        lits_rewritten(x, b, c),
    ensures
        lits_rewritten(f, b, c),
{
    assert forall|i: int| 0 <= i < f.len() implies #[trigger] lit_rewritten(f[i], b[i], c + lits_wilds(f.take(i))) by {
        assert(same_lits(x.take(i), f.take(i))) by {
            assert forall|k: int| 0 <= k < x.take(i).len() implies #[trigger] same_lit(x.take(i)[k], f.take(i)[k]) by {
                assert(same_lit(x[k], f[k]));
            }
        }
        lemma_same_lits_wilds(x.take(i), f.take(i));
        assert(lit_rewritten(x[i], b[i], c + lits_wilds(x.take(i))));
        assert(same_lit(x[i], f[i]));
    }
}

/// A rewriting of rules is one of any rules with the same data.
pub proof fn lemma_rewritten_same(x: Seq<Rule>, f: Seq<Rule>, b: Seq<Rule>)
    requires
        same_rules(x, f),
        rules_rewritten(x, b),
    ensures
        rules_rewritten(f, b),
{
    assert forall|i: int| 0 <= i < f.len() implies #[trigger] rule_rewritten(f[i], b[i], rules_wilds(f.take(i))) by {
        assert(same_rules(x.take(i), f.take(i))) by {
            assert forall|k: int| 0 <= k < x.take(i).len() implies #[trigger] same_rule(x.take(i)[k], f.take(i)[k]) by {
                assert(same_rule(x[k], f[k]));
            }
        }
        lemma_same_rules_wilds(x.take(i), f.take(i));
        let c = rules_wilds(x.take(i));
        assert(rule_rewritten(x[i], b[i], c));
        assert(same_rule(x[i], f[i]));
        lemma_lits_rewritten_same(x[i].body@, f[i].body@, b[i].body@, c);
        lemma_same_lits_wilds(x[i].body@, f[i].body@);
        lemma_lits_rewritten_same(x[i].head@, f[i].head@, b[i].head@, c + lits_wilds(x[i].body@));
    }
}

/// Rewriting leaves a literal without variables or wildcards as it is.
proof fn lemma_lit_rewritten_plain(a: Literal, b: Literal, c: nat)
    requires
        lit_rewritten(a, b, c),
        !lit_has_var(a),
    ensures
        same_lit(b, a),
{
    assert(!is_wild(a.spec_name()));
    assert forall|j: int| 0 <= j < a.spec_preds().len() implies #[trigger] b.spec_preds()[j] == a.spec_preds()[j] by {
        assert(!is_wild(a.spec_preds()[j]));
    }
    assert(b.spec_preds() =~= a.spec_preds());
}

/// Rewriting leaves literals without variables or wildcards as they are.
proof fn lemma_lits_rewritten_plain(a: Seq<Literal>, b: Seq<Literal>, c: nat)
    requires
        lits_rewritten(a, b, c),
        !lits_have_var(a),
    ensures
        same_lits(b, a),
{
    assert forall|i: int| 0 <= i < a.len() implies #[trigger] same_lit(b[i], a[i]) by {
        assert(lit_rewritten(a[i], b[i], c + lits_wilds(a.take(i))));
        assert(!lit_has_var(a[i]));
        lemma_lit_rewritten_plain(a[i], b[i], c + lits_wilds(a.take(i)));
    }
}

/// Rules without variables or wildcards are left as they are by rewriting.
pub proof fn lemma_rewrite_plain(a: Seq<Rule>, b: Seq<Rule>)
    requires
        rules_rewritten(a, b),
        !rules_have_vars(a),
    ensures
        same_rules(b, a),
{
    assert forall|i: int| 0 <= i < a.len() implies #[trigger] same_rule(b[i], a[i]) by {
        let c = rules_wilds(a.take(i));
        assert(rule_rewritten(a[i], b[i], c));
        assert(!lits_have_var(a[i].head@) && !lits_have_var(a[i].body@));
        lemma_lits_rewritten_plain(a[i].body@, b[i].body@, c);
        lemma_lits_rewritten_plain(a[i].head@, b[i].head@, c + lits_wilds(a[i].body@));
    }
}

/// Rewriting keeps the shape of the rules: as many literals, and heads
/// where there were heads.
pub proof fn lemma_rewrite_shape(a: Seq<Rule>, b: Seq<Rule>)
    requires
        rules_rewritten(a, b),
    ensures
        lits_in(a) == lits_in(b),
        rules_have_heads(a) == rules_have_heads(b),
    decreases a.len(),
{
    assert forall|i: int| 0 <= i < a.len() implies (#[trigger] b[i]).body@.len() == a[i].body@.len()
        && b[i].head@.len() == a[i].head@.len() by {
        assert(rule_rewritten(a[i], b[i], rules_wilds(a.take(i))));
    }
    lemma_shape_lits_in(a, b);
}

/// Rules with bodies and heads of the same lengths, position by position,
/// have as many literals and heads.
proof fn lemma_shape_lits_in(a: Seq<Rule>, b: Seq<Rule>)
    requires
        a.len() == b.len(),
        forall|i: int| 0 <= i < a.len() ==> (#[trigger] b[i]).body@.len() == a[i].body@.len()
            && b[i].head@.len() == a[i].head@.len(),
    ensures
        lits_in(a) == lits_in(b),
        rules_have_heads(a) == rules_have_heads(b),
    decreases a.len(),
{
    if a.len() > 0 {
        assert forall|i: int| 0 <= i < a.drop_last().len() implies (#[trigger] b.drop_last()[i]).body@.len()
            == a.drop_last()[i].body@.len() && b.drop_last()[i].head@.len() == a.drop_last()[i].head@.len() by {
            assert(b.drop_last()[i] == b[i] && a.drop_last()[i] == a[i]);
        }
        lemma_shape_lits_in(a.drop_last(), b.drop_last());
        assert(b[a.len() - 1] == b.last());
    }
    if rules_have_heads(a) {
        assert forall|r: int| 0 <= r < b.len() implies (#[trigger] b[r]).head@.len() > 0 by {
            assert(a[r].head@.len() > 0);
        }
    }
    if rules_have_heads(b) {
        assert forall|r: int| 0 <= r < a.len() implies (#[trigger] a[r]).head@.len() > 0 by {
            assert(b[r].head@.len() > 0);
        }
    }
}

/// A prefix has no more wildcards than the whole.
proof fn lemma_wilds_in_prefix(ts: Seq<Seq<char>>, j: int)
    requires
        0 <= j <= ts.len(),
    ensures
        wilds_in(ts.take(j)) <= wilds_in(ts),
        j < ts.len() ==> wilds_in(ts.take(j + 1)) == wilds_in(ts.take(j)) + wild_num(ts[j]),
    decreases ts.len() - j,
{
    if j < ts.len() {
        assert(ts.take(j + 1).drop_last() =~= ts.take(j));
        lemma_wilds_in_prefix(ts, j + 1);
    } else {
        assert(ts.take(j) =~= ts);
    }
}

/// A prefix of literals has no more wildcards than the whole.
proof fn lemma_lits_wilds_prefix(ls: Seq<Literal>, j: int)
    requires
        0 <= j <= ls.len(),
    ensures
        lits_wilds(ls.take(j)) <= lits_wilds(ls),
        j < ls.len() ==> lits_wilds(ls.take(j + 1)) == lits_wilds(ls.take(j)) + lit_wilds(ls[j]),
    decreases ls.len() - j,
{
    if j < ls.len() {
        assert(ls.take(j + 1).drop_last() =~= ls.take(j));
        lemma_lits_wilds_prefix(ls, j + 1);
    } else {
        assert(ls.take(j) =~= ls);
    }
}

/// A prefix of rules has no more wildcards than the whole.
proof fn lemma_rules_wilds_prefix(rs: Seq<Rule>, j: int)
    requires
        0 <= j <= rs.len(),
    ensures
        rules_wilds(rs.take(j)) <= rules_wilds(rs),
        j < rs.len() ==> rules_wilds(rs.take(j + 1)) == rules_wilds(rs.take(j)) + rule_wilds(rs[j]),
    decreases rs.len() - j,
{
    if j < rs.len() {
        assert(rs.take(j + 1).drop_last() =~= rs.take(j));
        lemma_rules_wilds_prefix(rs, j + 1);
    } else {
        assert(rs.take(j) =~= rs);
    }
}

/// Whether the text is the wildcard.
fn text_is_wild(s: &str) -> (r: bool)
    ensures
        r == is_wild(s@),
{
    let r = s.unicode_len() == 1 && s.get_char(0) == '_';
    proof {
        if r {
            assert(s@ =~= seq!['_']);
        }
    }
    r
}

/// The fresh variable numbered `k`.
fn fresh_text(k: usize) -> (r: String)
    ensures
        r@ == fresh_var(k as nat),
{
    let mut r = String::from_str("?_w");
    push_decimal(&mut r, k as u64);
    r
}

/// The literal with its wildcards replaced, numbered on from `c`.
fn rewrite_literal(l: &Literal, c: usize) -> (r: Literal)
    requires
        c + lit_wilds(*l) < usize::MAX,
    ensures
        lit_rewritten(*l, r, c as nat),
{
    let mut out = l.duplicate();
    let mut n = c;
    if text_is_wild(l.name.as_str()) {
        n = n + 1;
        out.name = fresh_text(n);
    }
    let mut preds: Vec<String> = Vec::new();
    let mut j: usize = 0;
    while j < l.predicates.len()
        invariant
            0 <= j <= l.spec_preds().len(),
            l.spec_preds().len() == l.predicates@.len(),
            c + lit_wilds(*l) < usize::MAX,
            n == c + wild_num(l.spec_name()) + wilds_in(l.spec_preds().take(j as int)),
            preds@.len() == j,
            forall|k: int|
                0 <= k < j ==> #[trigger] string_views(preds@)[k] == rewrite_text(
                    l.spec_preds()[k],
                    c as nat + wild_num(l.spec_name()) + wilds_in(l.spec_preds().take(k)),
                ),
        decreases l.spec_preds().len() - j,
    {
        proof {
            lemma_wilds_in_prefix(l.spec_preds(), j as int);
            lemma_wilds_in_prefix(l.spec_preds(), j as int + 1);
        }
        let p = l.predicates[j].as_str();
        assert(p@ == l.spec_preds()[j as int]);
        let ghost before = preds@;
        let ghost c0 = n as nat;
        let t = if text_is_wild(p) {
            n = n + 1;
            fresh_text(n)
        } else {
            String::from_str(p)
        };
        assert(t@ == rewrite_text(l.spec_preds()[j as int], c0));
        preds.push(t);
        proof {
            assert(string_views(preds@) =~= string_views(before).push(t@));
        }
        j = j + 1;
    }
    proof {
        assert(l.spec_preds().take(l.spec_preds().len() as int) =~= l.spec_preds());
    }
    out.predicates = preds;
    out
}

/// The literals with their wildcards replaced, numbered on from `c`.
fn rewrite_literals(ls: &Vec<Literal>, c: usize) -> (r: Vec<Literal>)
    requires
        c + lits_wilds(ls@) < usize::MAX,
    ensures
        lits_rewritten(ls@, r@, c as nat),
{
    let mut out: Vec<Literal> = Vec::new();
    let mut n = c;
    let mut i: usize = 0;
    while i < ls.len()
        invariant
            0 <= i <= ls@.len(),
            c + lits_wilds(ls@) < usize::MAX,
            n == c + lits_wilds(ls@.take(i as int)),
            out@.len() == i,
            forall|k: int| 0 <= k < i ==> #[trigger] lit_rewritten(ls@[k], out@[k], c as nat + lits_wilds(ls@.take(k))),
        decreases ls@.len() - i,
    {
        proof {
            lemma_lits_wilds_prefix(ls@, i as int);
            lemma_lits_wilds_prefix(ls@, i as int + 1);
        }
        let l = rewrite_literal(&ls[i], n);
        out.push(l);
        n = n + lit_wilds_exec(&ls[i]);
        i = i + 1;
    }
    out
}

/// The number of wildcards in a literal.
fn lit_wilds_exec(l: &Literal) -> (r: usize)
    requires
        lit_wilds(*l) < usize::MAX,
    ensures
        r == lit_wilds(*l),
{
    let mut n: usize = if text_is_wild(l.name.as_str()) { 1 } else { 0 };
    let mut j: usize = 0;
    while j < l.predicates.len()
        invariant
            0 <= j <= l.spec_preds().len(),
            l.spec_preds().len() == l.predicates@.len(),
            lit_wilds(*l) < usize::MAX,
            n == wild_num(l.spec_name()) + wilds_in(l.spec_preds().take(j as int)),
        decreases l.spec_preds().len() - j,
    {
        proof {
            lemma_wilds_in_prefix(l.spec_preds(), j as int);
            lemma_wilds_in_prefix(l.spec_preds(), j as int + 1);
        }
        let p = l.predicates[j].as_str();
        assert(p@ == l.spec_preds()[j as int]);
        if text_is_wild(p) {
            n = n + 1;
        }
        j = j + 1;
    }
    proof {
        assert(l.spec_preds().take(l.spec_preds().len() as int) =~= l.spec_preds());
    }
    n
}

/// `acc` plus the wildcards of the literal, when below `usize::MAX`.
fn add_lit_wilds(l: &Literal, acc: usize) -> (r: Option<usize>)
    ensures
        r matches Some(n) ==> n == acc + lit_wilds(*l) && n < usize::MAX,
        r is None ==> acc + lit_wilds(*l) >= usize::MAX,
{
    let mut n = acc;
    if text_is_wild(l.name.as_str()) {
        if n >= usize::MAX - 1 {
            proof {
                lemma_wilds_in_prefix(l.spec_preds(), 0);
            }
            return None;
        }
        n = n + 1;
    }
    if n == usize::MAX {
        proof {
            lemma_wilds_in_prefix(l.spec_preds(), 0);
        }
        return None;
    }
    let mut j: usize = 0;
    while j < l.predicates.len()
        invariant
            0 <= j <= l.spec_preds().len(),
            l.spec_preds().len() == l.predicates@.len(),
            n == acc + wild_num(l.spec_name()) + wilds_in(l.spec_preds().take(j as int)),
            n < usize::MAX,
        decreases l.spec_preds().len() - j,
    {
        proof {
            lemma_wilds_in_prefix(l.spec_preds(), j as int);
            lemma_wilds_in_prefix(l.spec_preds(), j as int + 1);
        }
        let p = l.predicates[j].as_str();
        assert(p@ == l.spec_preds()[j as int]);
        if text_is_wild(p) {
            if n >= usize::MAX - 1 {
                proof {
                    lemma_wilds_in_prefix(l.spec_preds(), j as int + 1);
                }
                return None;
            }
            n = n + 1;
        }
        j = j + 1;
    }
    proof {
        assert(l.spec_preds().take(l.spec_preds().len() as int) =~= l.spec_preds());
    }
    Some(n)
}

/// `acc` plus the wildcards of the literals, when below `usize::MAX`.
fn add_lits_wilds(ls: &Vec<Literal>, acc: usize) -> (r: Option<usize>)
    ensures
        r matches Some(n) ==> n == acc + lits_wilds(ls@) && n < usize::MAX,
        r is None ==> acc + lits_wilds(ls@) >= usize::MAX,
{
    let mut n = acc;
    if n == usize::MAX {
        proof {
            lemma_lits_wilds_prefix(ls@, 0);
        }
        return None;
    }
    let mut i: usize = 0;
    while i < ls.len()
        invariant
            0 <= i <= ls@.len(),
            n == acc + lits_wilds(ls@.take(i as int)),
            n < usize::MAX,
        decreases ls@.len() - i,
    {
        proof {
            lemma_lits_wilds_prefix(ls@, i as int);
            lemma_lits_wilds_prefix(ls@, i as int + 1);
        }
        match add_lit_wilds(&ls[i], n) {
            Some(m) => {
                n = m;
            },
            None => {
                return None;
            },
        }
        i = i + 1;
    }
    proof {
        assert(ls@.take(ls@.len() as int) =~= ls@);
    }
    Some(n)
}

/// The wildcards of the rules, when below `usize::MAX`.
fn count_wilds(rules: &[Rule]) -> (r: Option<usize>)
    ensures
        r matches Some(n) ==> n == rules_wilds(rules@) && n < usize::MAX,
        r is None ==> rules_wilds(rules@) >= usize::MAX,
{
    let mut n: usize = 0;
    let mut i: usize = 0;
    while i < rules.len()
        invariant
            0 <= i <= rules@.len(),
            n == rules_wilds(rules@.take(i as int)),
            n < usize::MAX,
        decreases rules@.len() - i,
    {
        proof {
            lemma_rules_wilds_prefix(rules@, i as int);
            lemma_rules_wilds_prefix(rules@, i as int + 1);
        }
        match add_lits_wilds(&rules[i].body, n) {
            Some(m) => match add_lits_wilds(&rules[i].head, m) {
                Some(k) => {
                    n = k;
                },
                None => {
                    return None;
                },
            },
            None => {
                return None;
            },
        }
        i = i + 1;
    }
    proof {
        assert(rules@.take(rules@.len() as int) =~= rules@);
    }
    Some(n)
}

/// The theory with every wildcard replaced by a fresh variable; the
/// superiority pairs are kept. `None` when the wildcards are too many to
/// number in a machine word.
pub fn rewrite_wildcards(theory: &Theory) -> (r: Option<Theory>)
    ensures
        r is Some <==> rules_wilds(theory.spec_rules()) < usize::MAX,
        r matches Some(t) ==> rules_rewritten(theory.spec_rules(), t.spec_rules()) && t.spec_sups()
            == theory.spec_sups(),
{
    let rules = theory.rules();
    match count_wilds(rules) {
        None => {
            return None;
        },
        Some(_) => {},
    }
    let mut out = Theory::new();
    let sups = theory.superiorities();
    let mut s: usize = 0;
    while s < sups.len()
        invariant
            0 <= s <= sups@.len(),
            sups@.map_values(|x: crate::theory::Superiority| (x.superior@, x.inferior@)) == theory.spec_sups(),
            out.spec_rules().len() == 0,
            out.spec_sups() == theory.spec_sups().take(s as int),
        decreases sups@.len() - s,
    {
        out.add_superiority(sups[s].superior.as_str(), sups[s].inferior.as_str());
        proof {
            assert(out.spec_sups() =~= theory.spec_sups().take(s + 1));
        }
        s = s + 1;
    }
    proof {
        assert(theory.spec_sups().take(sups@.len() as int) =~= theory.spec_sups());
    }
    let mut n: usize = 0;
    let mut i: usize = 0;
    while i < rules.len()
        invariant
            0 <= i <= rules@.len(),
            rules@ == theory.spec_rules(),
            rules_wilds(rules@) < usize::MAX,
            n == rules_wilds(rules@.take(i as int)),
            out.spec_sups() == theory.spec_sups(),
            out.spec_rules().len() == i,
            forall|k: int| 0 <= k < i ==> #[trigger] rule_rewritten(rules@[k], out.spec_rules()[k], rules_wilds(rules@.take(k))),
        decreases rules@.len() - i,
    {
        proof {
            lemma_rules_wilds_prefix(rules@, i as int);
            lemma_rules_wilds_prefix(rules@, i as int + 1);
        }
        let rule = &rules[i];
        let mut nr = rule.duplicate();
        nr.body = rewrite_literals(&rule.body, n);
        let m = match add_lits_wilds(&rule.body, n) {
            Some(m) => m,
            None => {
                return None;
            },
        };
        nr.head = rewrite_literals(&rule.head, m);
        out.add_rule(nr);
        proof {
            assert(out.spec_rules()[i as int] == nr);
        }
        n = m + lit_count(&rule.head, m);
        i = i + 1;
    }
    Some(out)
}

/// The wildcards of the literals, given that `acc` plus them is below
/// `usize::MAX`.
fn lit_count(ls: &Vec<Literal>, acc: usize) -> (r: usize)
    requires
        acc + lits_wilds(ls@) < usize::MAX,
    ensures
        r == lits_wilds(ls@),
{
    match add_lits_wilds(ls, 0) {
        Some(k) => k,
        None => 0,
    }
}

} // verus!
