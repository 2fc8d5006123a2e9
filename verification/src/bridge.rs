//! Temporal bridging: for each distinct head literal with temporal bounds
//! `q[s,e]`, strict rules `q[s,e] -> q` and `~q[s,e] -> ~q` link the timed
//! literal to its timeless base, unless the theory already has them.

use vstd::prelude::*;
use crate::literal::{Literal, spl_text};
use crate::rule::{Rule, RuleType};
use crate::temporal::Temporal;
use crate::text::{decimal, push_decimal, str_eq, lemma_decimal_injective, string_views};
use crate::theory::Theory;
use crate::stages::{PipelineContext, PipelineStage, Severity, diag_pushed, push_diag};
use crate::error::SpindleError;
use crate::mode::{clone_opt_string, opt_view};
use crate::literal::clone_strings;

verus! {

/// The literal with the negation dropped.
pub open spec fn positive_of(l: Literal) -> Literal {
    Literal { negation: false, ..l }
}

/// The key of a timed literal: the SPL text of its positive form.
pub open spec fn bridge_key(l: Literal) -> Seq<char> {
    spl_text(positive_of(l))
}

/// The rule is a bridge: strict, one body literal with bounds, one head
/// literal without bounds, both with the same name, sign, mode and arguments.
pub open spec fn is_bridge(r: Rule) -> bool {
    &&& r.rule_type == RuleType::Strict
    &&& r.body@.len() == 1
    &&& r.head@.len() == 1
    &&& !r.body@[0].temporal.spec_is_empty()
    &&& r.head@[0].temporal.spec_is_empty()
    &&& r.head@[0].spec_name() == r.body@[0].spec_name()
    &&& r.head@[0].negation == r.body@[0].negation
    &&& r.head@[0].mode@ == r.body@[0].mode@
    &&& r.head@[0].spec_preds() == r.body@[0].spec_preds()
}

/// The rules have a bridge with key `key` and sign `neg`.
pub open spec fn bridge_present(rules: Seq<Rule>, key: Seq<char>, neg: bool) -> bool {
    exists|i: int|
        0 <= i < rules.len() && is_bridge(#[trigger] rules[i]) && bridge_key(rules[i].body@[0]) == key && rules[i].body@[0].negation
            == neg
}

/// The head literals with bounds of `ls`, each with the template label `tl`.
pub open spec fn timed_lits(ls: Seq<Literal>, tl: Seq<char>) -> Seq<(Literal, Seq<char>)>
    decreases ls.len(),
{
    if ls.len() == 0 {
        Seq::empty()
    } else {
        timed_lits(ls.drop_last(), tl) + (if !ls.last().temporal.spec_is_empty() {
            seq![(ls.last(), tl)]
        } else {
            Seq::empty()
        })
    }
}

/// The head literals with bounds of the rules, rule by rule, each with its
/// rule's template label.
pub open spec fn timed_heads(rules: Seq<Rule>) -> Seq<(Literal, Seq<char>)>
    decreases rules.len(),
{
    if rules.len() == 0 {
        Seq::empty()
    } else {
        timed_heads(rules.drop_last()) + timed_lits(rules.last().head@, rules.last().spec_template_label())
    }
}

/// The distinct keys of the timed heads in order of first appearance, each
/// with the positive form of its first literal.
pub open spec fn seed_list(hs: Seq<(Literal, Seq<char>)>) -> Seq<(Seq<char>, Literal)>
    decreases hs.len(),
{
    if hs.len() == 0 {
        Seq::empty()
    } else {
        let s = seed_list(hs.drop_last());
        let k = bridge_key(hs.last().0);
        if s.map_values(|e: (Seq<char>, Literal)| e.0).contains(k) {
            s
        } else {
            s.push((k, positive_of(hs.last().0)))
        }
    }
}

/// The least (in text order) template label of the timed heads with key
/// `key` and sign `neg`.
pub open spec fn min_label(hs: Seq<(Literal, Seq<char>)>, key: Seq<char>, neg: bool) -> Option<Seq<char>>
    decreases hs.len(),
{
    if hs.len() == 0 {
        None
    } else {
        let m = min_label(hs.drop_last(), key, neg);
        let (l, tl) = hs.last();
        if bridge_key(l) == key && l.negation == neg {
            match m {
                None => Some(tl),
                Some(c) => if crate::mining::text_lt(tl, c) {
                    Some(tl)
                } else {
                    Some(c)
                },
            }
        } else {
            m
        }
    }
}

/// `a` if it has a value, else `b`.
pub open spec fn or_else(a: Option<Seq<char>>, b: Option<Seq<char>>) -> Option<Seq<char>> {
    if a is Some {
        a
    } else {
        b
    }
}

/// The bridges to add, in order: for each seed, the positive bridge unless
/// present, then the negative one unless present; each with its preferred
/// label, positive literal, sign and template label.
pub open spec fn bridge_plan(rules: Seq<Rule>, n: nat) -> Seq<(Seq<char>, Literal, bool, Option<Seq<char>>)>
    decreases n,
{
    let hs = timed_heads(rules);
    let seeds = seed_list(hs);
    if n == 0 || n > seeds.len() {
        Seq::empty()
    } else {
        let (key, p) = seeds[n - 1];
        let pos = min_label(hs, key, false);
        let negl = min_label(hs, key, true);
        bridge_plan(rules, (n - 1) as nat) + (if !bridge_present(rules, key, false) {
            seq![("__bridge::"@ + key, p, false, or_else(pos, negl))]
        } else {
            Seq::empty()
        }) + (if !bridge_present(rules, key, true) {
            seq![("__bridge::neg::"@ + key, p, true, or_else(negl, pos))]
        } else {
            Seq::empty()
        })
    }
}

/// The alternative label numbered `k`.
pub open spec fn auto_label(pref: Seq<char>, k: nat) -> Seq<char> {
    pref + "::auto::"@ + decimal(k)
}

/// `label` is what reserving `pref` among the labels `taken` gives: `pref`
/// when free, else the first free `pref::auto::k` for `k = 1, 2, ...`.
pub open spec fn reserved_as(taken: Seq<Seq<char>>, pref: Seq<char>, label: Seq<char>) -> bool {
    ||| !taken.contains(pref) && label == pref
    ||| taken.contains(pref) && exists|k: nat|
        k >= 1 && #[trigger] auto_label(pref, k) == label && !taken.contains(label) && forall|j: nat|
            1 <= j < k ==> taken.contains(#[trigger] auto_label(pref, j))
}

/// `l` is `p` with sign `neg` and bounds `t`, without a temporal expression.
pub open spec fn lit_is(l: Literal, p: Literal, neg: bool, t: Temporal) -> bool {
    &&& l.spec_name() == p.spec_name()
    &&& l.negation == neg
    &&& l.mode == p.mode
    &&& l.spec_preds() == p.spec_preds()
    &&& l.temporal == t
    &&& l.temporal_expr is None
}

/// `r` is the bridge of the plan entry `e` with label `label`.
pub open spec fn bridge_rule(r: Rule, label: Seq<char>, e: (Seq<char>, Literal, bool, Option<Seq<char>>)) -> bool {
    &&& r.label@ == label
    &&& r.rule_type == RuleType::Strict
    &&& r.body@.len() == 1
    &&& r.head@.len() == 1
    &&& lit_is(r.body@[0], e.1, e.2, e.1.temporal)
    &&& lit_is(r.head@[0], e.1, e.2, Temporal::spec_empty())
    &&& opt_view(r.template_label) == e.3
    &&& r.temporal == Temporal::spec_empty()
}

/// The labels of the rules.
pub open spec fn labels_of(rules: Seq<Rule>) -> Seq<Seq<char>> {
    rules.map_values(|r: Rule| r.label@)
}

/// Bridge `i` of `bs` is the bridge of entry `i` of the plan, labelled
/// among the labels of `rules` and of the bridges before it.
pub open spec fn built_at(
    rules: Seq<Rule>,
    bs: Seq<Rule>,
    plan: Seq<(Seq<char>, Literal, bool, Option<Seq<char>>)>,
    i: int,
) -> bool {
    &&& bridge_rule(bs[i], bs[i].label@, plan[i])
    &&& reserved_as(labels_of(rules) + labels_of(bs.take(i)), plan[i].0, bs[i].label@)
}

/// `bs` are the bridges of the plan, labelled in order.
pub open spec fn built_all(rules: Seq<Rule>, bs: Seq<Rule>, plan: Seq<(Seq<char>, Literal, bool, Option<Seq<char>>)>) -> bool {
    &&& bs.len() == plan.len()
    &&& forall|i: int| 0 <= i < bs.len() ==> #[trigger] built_at(rules, bs, plan, i)
}

/// `bs` are the bridges that the rules call for, labelled in order among
/// the labels of `rules` and of the bridges before them.
pub open spec fn bridges_ok(rules: Seq<Rule>, bs: Seq<Rule>) -> bool {
    built_all(rules, bs, bridge_plan(rules, seed_list(timed_heads(rules)).len()))
}

/// `a` has the views of `b`: name, sign, mode, bounds, temporal expression
/// and arguments.
pub open spec fn lit_same(a: Literal, b: Literal) -> bool {
    &&& a.spec_name() == b.spec_name()
    &&& a.negation == b.negation
    &&& a.mode == b.mode
    &&& a.temporal == b.temporal
    &&& a.temporal_expr == b.temporal_expr
    &&& a.spec_preds() == b.spec_preds()
}

/// The positive form of a literal.
fn positive_copy(l: &Literal) -> (r: Literal)
    ensures
        lit_same(r, positive_of(*l)),
        spl_text(r) == bridge_key(*l),
{
    let mut p = l.duplicate();
    p.negation = false;
    proof {
        let q = positive_of(*l);
        assert(p.spec_name() == q.spec_name());
        assert(p.spec_preds() == q.spec_preds());
        assert(spl_text(p) == spl_text(q));
    }
    p
}

/// The key of a timed literal.
fn key_of(l: &Literal) -> (r: String)
    ensures
        r@ == bridge_key(*l),
{
    let p = positive_copy(l);
    p.to_spl()
}

/// Whether the rule is a bridge.
fn is_bridge_rule(r: &Rule) -> (b: bool)
    ensures
        b == is_bridge(*r),
{
    if r.rule_type != RuleType::Strict || r.body.len() != 1 || r.head.len() != 1 {
        return false;
    }
    let body = &r.body[0];
    let head = &r.head[0];
    !body.temporal.is_empty() && head.temporal.is_empty() && str_eq(head.name.as_str(), body.name.as_str())
        && head.negation == body.negation && head.mode.same(&body.mode) && crate::literal::strings_eq(
        &head.predicates,
        &body.predicates,
    )
}

/// Whether the rules have a bridge with the key and sign.
fn has_bridge(rules: &[Rule], key: &str, neg: bool) -> (b: bool)
    ensures
        b == bridge_present(rules@, key@, neg),
{
    let mut i: usize = 0;
    while i < rules.len()
        invariant
            0 <= i <= rules@.len(),
            forall|k: int|
                0 <= k < i ==> !(is_bridge(#[trigger] rules@[k]) && bridge_key(rules@[k].body@[0]) == key@ && rules@[k].body@[0].negation
                    == neg),
        decreases rules@.len() - i,
    {
        if is_bridge_rule(&rules[i]) {
            let k = key_of(&rules[i].body[0]);
            if str_eq(k.as_str(), key) && rules[i].body[0].negation == neg {
                return true;
            }
        }
        i = i + 1;
    }
    false
}

/// The keys of the seeds.
pub open spec fn seed_keys(s: Seq<(Seq<char>, Literal)>) -> Seq<Seq<char>> {
    s.map_values(|e: (Seq<char>, Literal)| e.0)
}

/// The seeds' keys are distinct, and a key has a least label only if it is
/// a seed's.
proof fn lemma_seed_list(hs: Seq<(Literal, Seq<char>)>, key: Seq<char>, neg: bool)
    ensures
        crate::mining::distinct_texts(seed_keys(seed_list(hs))),
        min_label(hs, key, neg) is Some ==> seed_keys(seed_list(hs)).contains(key),
    decreases hs.len(),
{
    if hs.len() > 0 {
        let init = hs.drop_last();
        lemma_seed_list(init, key, neg);
        let s = seed_list(init);
        let k = bridge_key(hs.last().0);
        assert(seed_keys(s) == s.map_values(|e: (Seq<char>, Literal)| e.0));
        if !seed_keys(s).contains(k) {
            let s2 = s.push((k, positive_of(hs.last().0)));
            assert(seed_keys(s2) =~= seed_keys(s).push(k));
            if min_label(hs, key, neg) is Some && key == k {
                assert(seed_keys(s2)[s.len() as int] == k);
            }
            if min_label(init, key, neg) is Some {
                let j = choose|j: int| 0 <= j < seed_keys(s).len() && seed_keys(s)[j] == key;
                assert(seed_keys(s2)[j] == key);
            }
        }
    }
}

/// Taking one more timed head changes only the least label of its key and
/// sign.
proof fn lemma_min_label_push(done: Seq<(Literal, Seq<char>)>, l: Literal, tl: Seq<char>, key: Seq<char>, neg: bool)
    ensures
        min_label(done.push((l, tl)), key, neg) == (if bridge_key(l) == key && l.negation == neg {
            match min_label(done, key, neg) {
                None => Some(tl),
                Some(c) => if crate::mining::text_lt(tl, c) {
                    Some(tl)
                } else {
                    Some(c)
                },
            }
        } else {
            min_label(done, key, neg)
        }),
{
    let d2 = done.push((l, tl));
    assert(d2.drop_last() =~= done);
    assert(d2.last() == (l, tl));
}

/// The least of an optional label and a new one.
fn min_with(cur: &Option<String>, tl: &str) -> (r: Option<String>)
    ensures
        opt_view(r) == (match opt_view(*cur) {
            None => Some(tl@),
            Some(c) => if crate::mining::text_lt(tl@, c) {
                Some(tl@)
            } else {
                Some(c)
            },
        }),
{
    match cur {
        None => Some(String::from_str(tl)),
        Some(c) => if crate::mining::text_less(tl, c.as_str()) {
            Some(String::from_str(tl))
        } else {
            Some(String::from_str(c.as_str()))
        },
    }
}

/// The position of `key` among the keys, when present.
pub(crate) fn find_key(keys: &Vec<String>, key: &str) -> (r: Option<usize>)
    ensures
        r matches Some(i) ==> i < keys@.len() && keys@[i as int]@ == key@,
        r is None ==> forall|i: int| 0 <= i < keys@.len() ==> (#[trigger] keys@[i])@ != key@,
{
    let mut i: usize = 0;
    while i < keys.len()
        invariant
            0 <= i <= keys@.len(),
            forall|k: int| 0 <= k < i ==> (#[trigger] keys@[k])@ != key@,
        decreases keys@.len() - i,
    {
        if str_eq(keys[i].as_str(), key) {
            return Some(i);
        }
        i = i + 1;
    }
    None
}

/// What the seed vectors hold for the timed heads `done`.
pub open spec fn seeds_hold(
    done: Seq<(Literal, Seq<char>)>,
    keys: Seq<String>,
    firsts: Seq<Literal>,
    pmin: Seq<Option<String>>,
    nmin: Seq<Option<String>>,
) -> bool {
    let s = seed_list(done);
    &&& keys.len() == s.len()
    &&& firsts.len() == s.len()
    &&& pmin.len() == s.len()
    &&& nmin.len() == s.len()
    &&& forall|k: int| 0 <= k < s.len() ==> #[trigger] seed_ok(done, keys, firsts, pmin, nmin, k)
}

/// Seed `k` of the vectors is seed `k` of the timed heads `done`.
pub open spec fn seed_ok(
    done: Seq<(Literal, Seq<char>)>,
    keys: Seq<String>,
    firsts: Seq<Literal>,
    pmin: Seq<Option<String>>,
    nmin: Seq<Option<String>>,
    k: int,
) -> bool {
    let s = seed_list(done);
    &&& keys[k]@ == s[k].0
    &&& lit_same(firsts[k], s[k].1)
    &&& opt_view(pmin[k]) == min_label(done, s[k].0, false)
    &&& opt_view(nmin[k]) == min_label(done, s[k].0, true)
}

/// Take one more timed head into the seeds.
fn add_seed(
    l: &Literal,
    tl: &str,
    keys: &mut Vec<String>,
    firsts: &mut Vec<Literal>,
    pmin: &mut Vec<Option<String>>,
    nmin: &mut Vec<Option<String>>,
    done: Ghost<Seq<(Literal, Seq<char>)>>,
)
    requires
        seeds_hold(done@, old(keys)@, old(firsts)@, old(pmin)@, old(nmin)@),
    ensures
        seeds_hold(done@.push((*l, tl@)), final(keys)@, final(firsts)@, final(pmin)@, final(nmin)@),
{
    let ghost d2 = done@.push((*l, tl@));
    let ghost s = seed_list(done@);
    proof {
        assert(d2.drop_last() =~= done@);
        lemma_seed_list(done@, bridge_key(*l), false);
        lemma_seed_list(done@, bridge_key(*l), true);
        assert(seed_keys(s) == s.map_values(|e: (Seq<char>, Literal)| e.0));
    }
    let key = key_of(l);
    match find_key(keys, key.as_str()) {
        Some(i) => {
            proof {
                assert(seed_ok(done@, keys@, firsts@, pmin@, nmin@, i as int));
                assert(seed_keys(s)[i as int] == key@);
                assert(seed_list(d2) == s);
            }
            if l.negation {
                let m = min_with(&nmin[i], tl);
                nmin.set(i, m);
            } else {
                let m = min_with(&pmin[i], tl);
                pmin.set(i, m);
            }
            proof {
                assert forall|k: int| 0 <= k < s.len() implies #[trigger] seed_ok(d2, keys@, firsts@, pmin@, nmin@, k) by {
                    assert(seed_ok(done@, old(keys)@, old(firsts)@, old(pmin)@, old(nmin)@, k));
                    lemma_min_label_push(done@, *l, tl@, s[k].0, false);
                    lemma_min_label_push(done@, *l, tl@, s[k].0, true);
                    assert(old(keys)@[k]@ == s[k].0);
                    if k != i {
                        assert(seed_keys(s)[k] != seed_keys(s)[i as int]);
                        assert(seed_keys(s)[k] == s[k].0);
                        assert(opt_view(pmin@[k]) == opt_view(old(pmin)@[k]));
                        assert(opt_view(nmin@[k]) == opt_view(old(nmin)@[k]));
                        assert(opt_view(old(pmin)@[k]) == min_label(done@, s[k].0, false));
                        assert(bridge_key(*l) != s[k].0);
                    } else {
                        assert(s[k].0 == key@);
                        assert(bridge_key(*l) == s[k].0);
                    }
                }
                assert(seed_list(d2) == s);
                assert(seeds_hold(d2, keys@, firsts@, pmin@, nmin@));
            }
        },
        None => {
            proof {
                if seed_keys(s).contains(key@) {
                    let j = choose|j: int| 0 <= j < seed_keys(s).len() && seed_keys(s)[j] == key@;
                    assert(seed_ok(done@, keys@, firsts@, pmin@, nmin@, j));
                    assert(keys@[j]@ == key@);
                }
                assert(seed_list(d2) == s.push((key@, positive_of(*l))));
            }
            let p = positive_copy(l);
            firsts.push(p);
            if l.negation {
                pmin.push(None);
                nmin.push(Some(String::from_str(tl)));
            } else {
                pmin.push(Some(String::from_str(tl)));
                nmin.push(None);
            }
            keys.push(key);
            proof {
                let s2 = seed_list(d2);
                assert forall|k: int| 0 <= k < s2.len() implies #[trigger] seed_ok(d2, keys@, firsts@, pmin@, nmin@, k) by {
                    lemma_min_label_push(done@, *l, tl@, s2[k].0, false);
                    lemma_min_label_push(done@, *l, tl@, s2[k].0, true);
                    if k < s.len() {
                        assert(seed_ok(done@, old(keys)@, old(firsts)@, old(pmin)@, old(nmin)@, k));
                        assert(old(keys)@[k]@ == s[k].0);
                        assert(s2[k] == s[k]);
                        assert(seed_keys(s)[k] == s[k].0);
                        assert(s[k].0 != key@);
                    } else {
                        assert(s2[k] == (key@, positive_of(*l)));
                        assert(min_label(done@, key@, false) is None);
                        assert(min_label(done@, key@, true) is None);
                    }
                }
                assert(keys@.len() == s2.len());
                assert(firsts@.len() == s2.len());
                assert(pmin@.len() == s2.len());
                assert(nmin@.len() == s2.len());
                assert(seeds_hold(d2, keys@, firsts@, pmin@, nmin@));
            }
        },
    }
}


/// The timed heads of one more rule follow those of the rules before it.
proof fn lemma_timed_heads_step(rules: Seq<Rule>, i: int)
    requires
        0 <= i < rules.len(),
    ensures
        timed_heads(rules.take(i + 1)) == timed_heads(rules.take(i)) + timed_lits(
            rules[i].head@,
            rules[i].spec_template_label(),
        ),
{
    assert(rules.take(i + 1).drop_last() =~= rules.take(i));
    assert(rules.take(i + 1).last() == rules[i]);
}

/// The timed literals of one more literal follow those before it.
proof fn lemma_timed_lits_step(ls: Seq<Literal>, tl: Seq<char>, h: int)
    requires
        0 <= h < ls.len(),
    ensures
        timed_lits(ls.take(h + 1), tl) == timed_lits(ls.take(h), tl) + (if !ls[h].temporal.spec_is_empty() {
            seq![(ls[h], tl)]
        } else {
            Seq::empty()
        }),
{
    assert(ls.take(h + 1).drop_last() =~= ls.take(h));
    assert(ls.take(h + 1).last() == ls[h]);
}

/// The seeds of the rules' timed heads: keys, positive literals, and least
/// positive and negative template labels.
fn collect_seeds(rules: &[Rule]) -> (r: (Vec<String>, Vec<Literal>, Vec<Option<String>>, Vec<Option<String>>))
    ensures
        seeds_hold(timed_heads(rules@), r.0@, r.1@, r.2@, r.3@),
{
    let mut keys: Vec<String> = Vec::new();
    let mut firsts: Vec<Literal> = Vec::new();
    let mut pmin: Vec<Option<String>> = Vec::new();
    let mut nmin: Vec<Option<String>> = Vec::new();
    proof {
        assert(rules@.take(0) =~= Seq::<Rule>::empty());
        assert(seed_list(timed_heads(rules@.take(0))) =~= Seq::<(Seq<char>, Literal)>::empty());
    }
    let mut i: usize = 0;
    while i < rules.len()
        invariant
            0 <= i <= rules@.len(),
            seeds_hold(timed_heads(rules@.take(i as int)), keys@, firsts@, pmin@, nmin@),
        decreases rules@.len() - i,
    {
        let rule = &rules[i];
        let tl = rule.template_label();
        let ghost before = timed_heads(rules@.take(i as int));
        proof {
            assert(rule.head@.take(0) =~= Seq::<Literal>::empty());
            assert(before + timed_lits(rule.head@.take(0), tl@) =~= before);
        }
        let mut h: usize = 0;
        while h < rule.head.len()
            invariant
                0 <= h <= rule.head@.len(),
                *rule == rules@[i as int],
                tl@ == rule.spec_template_label(),
                seeds_hold(before + timed_lits(rule.head@.take(h as int), tl@), keys@, firsts@, pmin@, nmin@),
            decreases rule.head@.len() - h,
        {
            let ghost done = before + timed_lits(rule.head@.take(h as int), tl@);
            proof {
                lemma_timed_lits_step(rule.head@, tl@, h as int);
            }
            let l = &rule.head[h];
            if !l.temporal.is_empty() {
                add_seed(l, tl, &mut keys, &mut firsts, &mut pmin, &mut nmin, Ghost(done));
                proof {
                    assert(before + timed_lits(rule.head@.take(h + 1), tl@) =~= done.push((*l, tl@)));
                }
            } else {
                proof {
                    assert(before + timed_lits(rule.head@.take(h + 1), tl@) =~= done);
                }
            }
            h = h + 1;
        }
        proof {
            assert(rule.head@.take(h as int) =~= rule.head@);
            lemma_timed_heads_step(rules@, i as int);
        }
        i = i + 1;
    }
    proof {
        assert(rules@.take(i as int) =~= rules@);
    }
    (keys, firsts, pmin, nmin)
}


/// Different numbers give different alternative labels, and none of them is
/// the preferred label itself.
proof fn lemma_auto_label(pref: Seq<char>, a: nat, b: nat)
    ensures
        auto_label(pref, a) == auto_label(pref, b) ==> a == b,
        auto_label(pref, a) != pref,
{
    reveal_strlit("::auto::");
    let n = pref.len() + 8;
    assert(auto_label(pref, a).len() > pref.len());
    if auto_label(pref, a) == auto_label(pref, b) {
        assert(auto_label(pref, a).subrange(n as int, auto_label(pref, a).len() as int) =~= decimal(a));
        assert(auto_label(pref, b).subrange(n as int, auto_label(pref, b).len() as int) =~= decimal(b));
        lemma_decimal_injective(a, b);
    }
}

/// When `pref` and its first `k - 1` alternatives are all taken, there are
/// at least `k` labels.
proof fn lemma_labels_fit(taken: Seq<Seq<char>>, pref: Seq<char>, k: nat)
    requires
        k >= 1,
        taken.contains(pref),
        forall|j: nat| 1 <= j < k ==> taken.contains(#[trigger] auto_label(pref, j)),
    ensures
        k <= taken.len(),
{
    let cands = Seq::new((k - 1) as nat, |j: int| auto_label(pref, (j + 1) as nat)).push(pref);
    assert(cands.no_duplicates()) by {
        assert forall|i: int, j: int| 0 <= i < cands.len() && 0 <= j < cands.len() && i != j implies cands[i] != cands[j] by {
            if i < k - 1 && j < k - 1 {
                lemma_auto_label(pref, (i + 1) as nat, (j + 1) as nat);
            } else if i < k - 1 {
                lemma_auto_label(pref, (i + 1) as nat, 0);
            } else {
                lemma_auto_label(pref, (j + 1) as nat, 0);
            }
        }
    }
    cands.unique_seq_to_set();
    taken.lemma_cardinality_of_set();
    vstd::seq_lib::seq_to_set_is_finite(taken);
    assert(cands.to_set().subset_of(taken.to_set())) by {
        assert forall|x: Seq<char>| cands.to_set().contains(x) implies taken.to_set().contains(x) by {
            let i = choose|i: int| 0 <= i < cands.len() && cands[i] == x;
            if i < k - 1 {
                assert(taken.contains(auto_label(pref, (i + 1) as nat)));
            }
        }
    }
    vstd::set_lib::lemma_len_subset(cands.to_set(), taken.to_set());
}

/// Reserve a label among `taken`: `pref` when free, else the first free
/// `pref::auto::k`; the label is added to `taken`.
fn reserve_label(taken: &mut Vec<String>, pref: &str) -> (r: String)
    ensures
        reserved_as(string_views(old(taken)@), pref@, r@),
        string_views(final(taken)@) == string_views(old(taken)@).push(r@),
{
    let ghost t = string_views(taken@);
    let found = find_key(taken, pref);
    if found.is_none() {
        proof {
            assert(!t.contains(pref@)) by {
                if t.contains(pref@) {
                    let i = choose|i: int| 0 <= i < t.len() && t[i] == pref@;
                    assert(taken@[i]@ == pref@);
                }
            }
        }
        let out = String::from_str(pref);
        taken.push(String::from_str(pref));
        proof {
            assert(string_views(taken@) =~= t.push(out@));
        }
        return out;
    }
    proof {
        let i = found.unwrap() as int;
        assert(t[i] == pref@);
    }
    let n = taken.len();
    let mut k: usize = 1;
    loop
        invariant
            n == taken@.len(),
            t == string_views(taken@),
            t == string_views(old(taken)@),
            t.contains(pref@),
            k >= 1,
            forall|j: nat| 1 <= j < k ==> t.contains(#[trigger] auto_label(pref@, j)),
        decreases t.len() - k,
    {
        proof {
            lemma_labels_fit(t, pref@, k as nat);
        }
        let mut cand = String::from_str(pref);
        cand.append("::auto::");
        push_decimal(&mut cand, k as u64);
        proof {
            assert(cand@ == auto_label(pref@, k as nat));
        }
        match find_key(taken, cand.as_str()) {
            None => {
                proof {
                    assert(!t.contains(cand@)) by {
                        if t.contains(cand@) {
                            let i = choose|i: int| 0 <= i < t.len() && t[i] == cand@;
                            assert(taken@[i]@ == cand@);
                        }
                    }
                    assert(reserved_as(t, pref@, cand@)) by {
                        assert(auto_label(pref@, k as nat) == cand@);
                    }
                }
                taken.push(cand.clone());
                proof {
                    assert(string_views(taken@) =~= t.push(cand@));
                }
                return cand;
            },
            Some(i) => {
                proof {
                    assert(t[i as int] == cand@);
                    assert(t.contains(auto_label(pref@, k as nat)));
                    lemma_labels_fit(t, pref@, (k + 1) as nat);
                    assert(t.len() == taken@.len());
                }
                k = k + 1;
            },
        }
    }
}


/// `p` with sign `neg` and bounds `t`, without a temporal expression.
fn bridge_lit(p: &Literal, neg: bool, t: Temporal) -> (r: Literal)
    ensures
        lit_is(r, *p, neg, t),
{
    Literal {
        name: p.name.clone(),
        negation: neg,
        mode: p.mode.clone(),
        temporal: t,
        temporal_expr: None,
        predicates: clone_strings(&p.predicates),
    }
}

/// The strict rule `p[s,e] -> p` with sign `neg`, label and template label.
fn make_bridge(p: &Literal, neg: bool, label: String, tl: Option<String>) -> (r: Rule)
    ensures
        r.label@ == label@,
        r.rule_type == RuleType::Strict,
        r.body@.len() == 1,
        r.head@.len() == 1,
        lit_is(r.body@[0], *p, neg, p.temporal),
        lit_is(r.head@[0], *p, neg, Temporal::spec_empty()),
        r.template_label == tl,
        r.temporal == Temporal::spec_empty(),
{
    let mut body: Vec<Literal> = Vec::new();
    body.push(bridge_lit(p, neg, p.temporal));
    let head = bridge_lit(p, neg, Temporal::empty());
    let mut r = Rule::strict(label.as_str(), body, head);
    r.template_label = tl;
    r
}

/// `a` if it has a value, else `b`.
fn first_label(a: &Option<String>, b: &Option<String>) -> (r: Option<String>)
    ensures
        opt_view(r) == or_else(opt_view(*a), opt_view(*b)),
{
    if a.is_some() {
        clone_opt_string(a)
    } else {
        clone_opt_string(b)
    }
}

/// The labels of one more rule follow those before it.
proof fn lemma_labels_push(rules: Seq<Rule>, r: Rule)
    ensures
        labels_of(rules.push(r)) == labels_of(rules).push(r.label@),
{
    assert(labels_of(rules.push(r)) =~= labels_of(rules).push(r.label@));
}

/// One more bridge for one more plan entry.
proof fn lemma_built_push(
    rules: Seq<Rule>,
    bs: Seq<Rule>,
    plan: Seq<(Seq<char>, Literal, bool, Option<Seq<char>>)>,
    r: Rule,
    e: (Seq<char>, Literal, bool, Option<Seq<char>>),
)
    requires
        built_all(rules, bs, plan),
        bridge_rule(r, r.label@, e),
        reserved_as(labels_of(rules) + labels_of(bs), e.0, r.label@),
    ensures
        built_all(rules, bs.push(r), plan.push(e)),
{
    let bs2 = bs.push(r);
    let plan2 = plan.push(e);
    assert forall|i: int| 0 <= i < bs2.len() implies #[trigger] built_at(rules, bs2, plan2, i) by {
        if i < bs.len() {
            assert(built_at(rules, bs, plan, i));
            assert(bs2.take(i) =~= bs.take(i));
        } else {
            assert(bs2.take(i) =~= bs);
        }
    }
}

/// Append the bridge of the plan entry `e`, reserving its label.
fn push_bridge(
    rules: Ghost<Seq<Rule>>,
    bs: &mut Vec<Rule>,
    taken: &mut Vec<String>,
    pref: &str,
    p: &Literal,
    neg: bool,
    tl: Option<String>,
    e: Ghost<(Seq<char>, Literal, bool, Option<Seq<char>>)>,
)
    requires
        string_views(old(taken)@) == labels_of(rules@) + labels_of(old(bs)@),
        e@.0 == pref@,
        e@.2 == neg,
        e@.3 == opt_view(tl),
        lit_same(*p, e@.1),
    ensures
        final(bs)@ == old(bs)@.push(final(bs)@.last()),
        string_views(final(taken)@) == labels_of(rules@) + labels_of(final(bs)@),
        bridge_rule(final(bs)@.last(), final(bs)@.last().label@, e@),
        reserved_as(labels_of(rules@) + labels_of(old(bs)@), pref@, final(bs)@.last().label@),
{
    let label = reserve_label(taken, pref);
    let ghost lv = label@;
    let r = make_bridge(p, neg, label, tl);
    proof {
        lemma_labels_push(old(bs)@, r);
        assert(labels_of(rules@) + labels_of(old(bs)@).push(lv) =~= (labels_of(rules@) + labels_of(old(bs)@)).push(lv));
    }
    bs.push(r);
}


/// The labels of the rules, in order.
fn rule_labels(rules: &[Rule]) -> (r: Vec<String>)
    ensures
        string_views(r@) == labels_of(rules@),
{
    let mut out: Vec<String> = Vec::new();
    let mut i: usize = 0;
    while i < rules.len()
        invariant
            0 <= i <= rules@.len(),
            string_views(out@) == labels_of(rules@.take(i as int)),
        decreases rules@.len() - i,
    {
        proof {
            assert(rules@.take(i + 1) =~= rules@.take(i as int).push(rules@[i as int]));
            lemma_labels_push(rules@.take(i as int), rules@[i as int]);
        }
        out.push(rules[i].label.clone());
        proof {
            assert(string_views(out@) =~= labels_of(rules@.take(i as int)).push(rules@[i as int].label@));
        }
        i = i + 1;
    }
    proof {
        assert(rules@.take(i as int) =~= rules@);
    }
    out
}

/// The bridges the theory's rules call for (see [`bridges_ok`]).
fn make_bridges(rules: &[Rule]) -> (bs: Vec<Rule>)
    ensures
        bridges_ok(rules@, bs@),
{
    let ghost hs = timed_heads(rules@);
    let ghost seeds = seed_list(hs);
    let (keys, firsts, pmin, nmin) = collect_seeds(rules);
    let mut taken = rule_labels(rules);
    let mut bs: Vec<Rule> = Vec::new();
    proof {
        assert(labels_of(bs@) =~= Seq::<Seq<char>>::empty());
        assert(labels_of(rules@) + labels_of(bs@) =~= labels_of(rules@));
        assert(bridge_plan(rules@, 0) =~= Seq::<(Seq<char>, Literal, bool, Option<Seq<char>>)>::empty());
    }
    let n = keys.len();
    let mut k: usize = 0;
    while k < n
        invariant
            n == keys@.len(),
            n == seeds.len(),
            hs == timed_heads(rules@),
            seeds == seed_list(hs),
            seeds_hold(hs, keys@, firsts@, pmin@, nmin@),
            0 <= k <= n,
            built_all(rules@, bs@, bridge_plan(rules@, k as nat)),
            string_views(taken@) == labels_of(rules@) + labels_of(bs@),
        decreases n - k,
    {
        proof {
            assert(seed_ok(hs, keys@, firsts@, pmin@, nmin@, k as int));
        }
        let ghost plan0 = bridge_plan(rules@, k as nat);
        let ghost (gkey, gp) = seeds[k as int];
        let ghost pos = min_label(hs, gkey, false);
        let ghost negl = min_label(hs, gkey, true);
        let ghost e_pos = ("__bridge::"@ + gkey, gp, false, or_else(pos, negl));
        let ghost e_neg = ("__bridge::neg::"@ + gkey, gp, true, or_else(negl, pos));
        let key = keys[k].as_str();
        let p = &firsts[k];
        let ghost plan1 = plan0 + (if !bridge_present(rules@, gkey, false) {
            seq![e_pos]
        } else {
            Seq::empty()
        });
        if !has_bridge(rules, key, false) {
            let mut pref = String::from_str("__bridge::");
            pref.append(key);
            let tl = first_label(&pmin[k], &nmin[k]);
            let ghost bs0 = bs@;
            push_bridge(Ghost(rules@), &mut bs, &mut taken, pref.as_str(), p, false, tl, Ghost(e_pos));
            proof {
                lemma_built_push(rules@, bs0, plan0, bs@.last(), e_pos);
                assert(plan1 =~= plan0.push(e_pos));
            }
        } else {
            proof {
                assert(plan1 =~= plan0);
            }
        }
        let ghost plan2 = plan1 + (if !bridge_present(rules@, gkey, true) {
            seq![e_neg]
        } else {
            Seq::empty()
        });
        if !has_bridge(rules, key, true) {
            let mut pref = String::from_str("__bridge::neg::");
            pref.append(key);
            let tl = first_label(&nmin[k], &pmin[k]);
            let ghost bs1 = bs@;
            push_bridge(Ghost(rules@), &mut bs, &mut taken, pref.as_str(), p, true, tl, Ghost(e_neg));
            proof {
                lemma_built_push(rules@, bs1, plan1, bs@.last(), e_neg);
                assert(plan2 =~= plan1.push(e_neg));
            }
        } else {
            proof {
                assert(plan2 =~= plan1);
            }
        }
        proof {
            assert(bridge_plan(rules@, (k + 1) as nat) == plan2);
        }
        k = k + 1;
    }
    bs
}

/// The message of the diagnostic for `n` bridges.
pub open spec fn bridge_message(n: nat) -> Seq<char> {
    "generated "@ + decimal(n) + " bridging rules ("@ + decimal(n / 2) + " pairs)"@
}

/// `t` is the theory `th` with its bridges appended (see [`bridges_ok`]),
/// with the same superiority relation.
pub open spec fn bridged(th: Theory, t: Theory) -> bool {
    let n = th.spec_rules().len();
    &&& n <= t.spec_rules().len()
    &&& t.spec_rules().take(n as int) == th.spec_rules()
    &&& bridges_ok(th.spec_rules(), t.spec_rules().skip(n as int))
    &&& t.spec_sups() == th.spec_sups()
}

/// Generates strict bridging rules from temporal head literals to their
/// timeless base forms: for each distinct head literal `q[s,e]` (keyed by
/// the SPL text of its positive form), `q[s,e] -> q` labelled
/// `__bridge::<key>` and `~q[s,e] -> ~q` labelled `__bridge::neg::<key>`,
/// each unless the theory already has such a rule. A label already in use
/// gets the first free suffix `::auto::1`, `::auto::2`, ...; a bridge takes
/// the least template label among the rules whose heads of its sign gave
/// rise to it, else the least of the other sign.
#[derive(Debug, Clone, Copy)]
pub struct TemporalBridge;

impl Default for TemporalBridge {
    fn default() -> (r: Self) {
        TemporalBridge
    }
}

impl PipelineStage for TemporalBridge {
    fn name(&self) -> (r: &'static str)
        ensures
            r@ == "temporal_bridge"@,
    {
        "temporal_bridge"
    }

    fn apply(&self, theory: Theory, ctx: &mut PipelineContext) -> (r: Result<Theory, SpindleError>)
        ensures
            r matches Ok(t) && bridged(theory, t) && {
                let count = t.spec_rules().len() - theory.spec_rules().len();
                &&& count > 0 ==> diag_pushed(
                    old(ctx).diagnostics@,
                    final(ctx).diagnostics@,
                    Severity::Info,
                    "temporal_bridge"@,
                    bridge_message(count as nat),
                )
                &&& count == 0 ==> final(ctx).diagnostics@ == old(ctx).diagnostics@
            },
            final(ctx).metadata@ == old(ctx).metadata@,
    {
        let ghost th = theory;
        let bs = make_bridges(theory.rules());
        let count = bs.len();
        let mut t = theory;
        let mut i: usize = 0;
        let ghost n = th.spec_rules().len();
        let mut bs = bs;
        let ghost all = bs@;
        while i < count
            invariant
                count == all.len(),
                0 <= i <= count,
                bs@ == all.skip(i as int),
                t.spec_rules() == th.spec_rules() + all.take(i as int),
                t.spec_sups() == th.spec_sups(),
            decreases count - i,
        {
            let r = bs.remove(0);
            proof {
                assert(r == all[i as int]);
                assert(bs@ =~= all.skip(i + 1));
            }
            t.add_rule(r);
            proof {
                assert(all.take(i + 1) =~= all.take(i as int).push(all[i as int]));
                assert(th.spec_rules() + all.take(i + 1) =~= (th.spec_rules() + all.take(i as int)).push(all[i as int]));
            }
            i = i + 1;
        }
        proof {
            assert(all.take(count as int) =~= all);
            assert(t.spec_rules().take(n as int) =~= th.spec_rules());
            assert(t.spec_rules().skip(n as int) =~= all);
        }
        if count > 0 {
            let mut message = String::from_str("generated ");
            push_decimal(&mut message, count as u64);
            message.append(" bridging rules (");
            push_decimal(&mut message, (count / 2) as u64);
            message.append(" pairs)");
            push_diag(ctx, Severity::Info, "temporal_bridge", message);
        }
        Ok(t)
    }
}


/// The timed heads of rules appended follow those of the rules before.
proof fn lemma_timed_heads_append(a: Seq<Rule>, b: Seq<Rule>)
    ensures
        timed_heads(a + b) == timed_heads(a) + timed_heads(b),
    decreases b.len(),
{
    if b.len() == 0 {
        assert(a + b =~= a);
        assert(timed_heads(a) + timed_heads(b) =~= timed_heads(a));
    } else {
        lemma_timed_heads_append(a, b.drop_last());
        assert((a + b).drop_last() =~= a + b.drop_last());
        assert((a + b).last() == b.last());
        assert(timed_heads(a + b) =~= timed_heads(a) + timed_heads(b));
    }
}

/// Rules whose only head literal has no bounds have no timed heads.
proof fn lemma_timed_heads_untimed(bs: Seq<Rule>)
    requires
        forall|i: int| 0 <= i < bs.len() ==> (#[trigger] bs[i]).head@.len() == 1 && bs[i].head@[0].temporal.spec_is_empty(),
    ensures
        timed_heads(bs) == Seq::<(Literal, Seq<char>)>::empty(),
    decreases bs.len(),
{
    if bs.len() > 0 {
        let init = bs.drop_last();
        assert forall|i: int| 0 <= i < init.len() implies (#[trigger] init[i]).head@.len() == 1 && init[i].head@[0].temporal.spec_is_empty() by {
            assert(init[i] == bs[i]);
        }
        lemma_timed_heads_untimed(init);
        let r = bs.last();
        assert(r == bs[bs.len() - 1]);
        let hd = r.head@;
        assert(hd.drop_last() =~= Seq::<Literal>::empty());
        assert(timed_lits(hd.drop_last(), r.spec_template_label()) =~= Seq::<(Literal, Seq<char>)>::empty());
        assert(timed_lits(hd, r.spec_template_label()) =~= Seq::<(Literal, Seq<char>)>::empty());
    }
}

/// Every timed head literal has bounds and is a head literal of some rule.
proof fn lemma_timed_lits_member(ls: Seq<Literal>, tl: Seq<char>, j: int)
    requires
        0 <= j < timed_lits(ls, tl).len(),
    ensures
        exists|h: int| 0 <= h < ls.len() && timed_lits(ls, tl)[j].0 == ls[h] && !ls[h].temporal.spec_is_empty(),
    decreases ls.len(),
{
    let prev = timed_lits(ls.drop_last(), tl);
    if j < prev.len() {
        lemma_timed_lits_member(ls.drop_last(), tl, j);
        let h = choose|h: int| 0 <= h < ls.drop_last().len() && prev[j].0 == ls.drop_last()[h] && !ls.drop_last()[h].temporal.spec_is_empty();
        assert(ls.drop_last()[h] == ls[h]);
    } else {
        assert(timed_lits(ls, tl)[j].0 == ls.last());
        assert(ls.last() == ls[ls.len() - 1]);
    }
}

/// Every timed head literal of the rules is a head literal with bounds of
/// one of them.
proof fn lemma_timed_heads_member(rules: Seq<Rule>, j: int)
    requires
        0 <= j < timed_heads(rules).len(),
    ensures
        exists|r: int, h: int|
            0 <= r < rules.len() && 0 <= h < rules[r].head@.len() && timed_heads(rules)[j].0 == rules[r].head@[h]
                && !rules[r].head@[h].temporal.spec_is_empty(),
    decreases rules.len(),
{
    let init = rules.drop_last();
    let prev = timed_heads(init);
    if j < prev.len() {
        lemma_timed_heads_member(init, j);
        let (r, h) = choose|r: int, h: int|
            0 <= r < init.len() && 0 <= h < init[r].head@.len() && prev[j].0 == init[r].head@[h] && !init[r].head@[h].temporal.spec_is_empty();
        assert(init[r] == rules[r]);
    } else {
        let last = rules.last();
        lemma_timed_lits_member(last.head@, last.spec_template_label(), j - prev.len());
        let h = choose|h: int|
            0 <= h < last.head@.len() && timed_lits(last.head@, last.spec_template_label())[j - prev.len()].0 == last.head@[h]
                && !last.head@[h].temporal.spec_is_empty();
        assert(rules[rules.len() - 1] == last);
    }
}

/// Every seed is the key and positive form of some timed head.
proof fn lemma_seed_member(hs: Seq<(Literal, Seq<char>)>, k: int)
    requires
        0 <= k < seed_list(hs).len(),
    ensures
        exists|j: int| 0 <= j < hs.len() && seed_list(hs)[k] == (bridge_key(hs[j].0), positive_of(hs[j].0)),
    decreases hs.len(),
{
    let prev = seed_list(hs.drop_last());
    if k < prev.len() {
        lemma_seed_member(hs.drop_last(), k);
        let j = choose|j: int| 0 <= j < hs.drop_last().len() && prev[k] == (bridge_key(hs.drop_last()[j].0), positive_of(hs.drop_last()[j].0));
        assert(hs.drop_last()[j] == hs[j]);
    } else {
        assert(hs.last() == hs[hs.len() - 1]);
    }
}

/// A key and sign without a bridge among the rules get a plan entry.
proof fn lemma_plan_has(rules: Seq<Rule>, n: nat, k: int, neg: bool)
    requires
        n <= seed_list(timed_heads(rules)).len(),
        0 <= k < n,
        !bridge_present(rules, seed_list(timed_heads(rules))[k].0, neg),
    ensures
        exists|i: int|
            0 <= i < bridge_plan(rules, n).len() && (#[trigger] bridge_plan(rules, n)[i]).1 == seed_list(timed_heads(rules))[k].1
                && bridge_plan(rules, n)[i].2 == neg,
    decreases n,
{
    let seeds = seed_list(timed_heads(rules));
    let prev = bridge_plan(rules, (n - 1) as nat);
    let cur = bridge_plan(rules, n);
    let (key, p) = seeds[n - 1];
    let pos_part = if !bridge_present(rules, key, false) {
        seq![("__bridge::"@ + key, p, false, or_else(min_label(timed_heads(rules), key, false), min_label(timed_heads(rules), key, true)))]
    } else {
        Seq::empty()
    };
    assert(cur == prev + pos_part + (if !bridge_present(rules, key, true) {
        seq![("__bridge::neg::"@ + key, p, true, or_else(min_label(timed_heads(rules), key, true), min_label(timed_heads(rules), key, false)))]
    } else {
        Seq::empty()
    }));
    if k < n - 1 {
        lemma_plan_has(rules, (n - 1) as nat, k, neg);
        let i = choose|i: int| 0 <= i < prev.len() && (#[trigger] prev[i]).1 == seeds[k].1 && prev[i].2 == neg;
        assert(cur[i] == prev[i]);
    } else {
        if !neg {
            assert(cur[prev.len() as int].1 == p && cur[prev.len() as int].2 == false);
        } else {
            let i = (prev.len() + pos_part.len()) as int;
            assert(cur[i].1 == p && cur[i].2 == true);
        }
    }
}

/// When every seed has both its bridges, the plan is empty.
proof fn lemma_plan_empty(rules: Seq<Rule>, n: nat)
    requires
        n <= seed_list(timed_heads(rules)).len(),
        forall|k: int, neg: bool| 0 <= k < n ==> #[trigger] bridge_present(rules, seed_list(timed_heads(rules))[k].0, neg),
    ensures
        bridge_plan(rules, n).len() == 0,
    decreases n,
{
    if n > 0 {
        lemma_plan_empty(rules, (n - 1) as nat);
        let key = seed_list(timed_heads(rules))[n - 1].0;
        assert(bridge_present(rules, key, false));
        assert(bridge_present(rules, key, true));
    }
}

/// Every timed head literal is resolved: it has no temporal expression.
pub open spec fn timed_heads_resolved(rules: Seq<Rule>) -> bool {
    forall|r: int, h: int|
        0 <= r < rules.len() && 0 <= h < rules[r].head@.len() && !rules[r].head@[h].temporal.spec_is_empty()
            ==> (#[trigger] rules[r].head@[h]).temporal_expr is None
}

/// Bridging twice adds nothing the second time: once the bridges of a
/// theory are in, every timed head literal has both its bridges. This
/// holds when the timed head literals have no unresolved temporal
/// expression (their keys would then render the expression, and the
/// bridges' bodies the bounds).
pub proof fn law_bridging_idempotent(th: Theory, t: Theory, t2: Theory)
    requires
        timed_heads_resolved(th.spec_rules()),
        bridged(th, t),
        bridged(t, t2),
    ensures
        t2.spec_rules() == t.spec_rules(),
{
    let rules = th.spec_rules();
    let n = rules.len();
    let bs = t.spec_rules().skip(n as int);
    let rules2 = t.spec_rules();
    assert(rules2 =~= rules + bs);
    let plan = bridge_plan(rules, seed_list(timed_heads(rules)).len());
    assert forall|i: int| 0 <= i < bs.len() implies (#[trigger] bs[i]).head@.len() == 1 && bs[i].head@[0].temporal.spec_is_empty() by {
        assert(built_at(rules, bs, plan, i));
    }
    lemma_timed_heads_untimed(bs);
    lemma_timed_heads_append(rules, bs);
    assert(timed_heads(rules2) =~= timed_heads(rules));
    let hs = timed_heads(rules);
    let seeds = seed_list(hs);
    assert forall|k: int, neg: bool| 0 <= k < seeds.len() implies #[trigger] bridge_present(rules2, seeds[k].0, neg) by {
        lemma_seed_member(hs, k);
        let j = choose|j: int| 0 <= j < hs.len() && seeds[k] == (bridge_key(hs[j].0), positive_of(hs[j].0));
        lemma_timed_heads_member(rules, j);
        let (r, h) = choose|r: int, h: int|
            0 <= r < rules.len() && 0 <= h < rules[r].head@.len() && hs[j].0 == rules[r].head@[h] && !rules[r].head@[h].temporal.spec_is_empty();
        assert(hs[j].0.temporal_expr is None);
        if bridge_present(rules, seeds[k].0, neg) {
            let q = choose|q: int|
                0 <= q < rules.len() && is_bridge(#[trigger] rules[q]) && bridge_key(rules[q].body@[0]) == seeds[k].0 && rules[q].body@[0].negation == neg;
            assert(rules2[q] == rules[q]);
        } else {
            lemma_plan_has(rules, seeds.len(), k, neg);
            let i = choose|i: int| 0 <= i < plan.len() && (#[trigger] plan[i]).1 == seeds[k].1 && plan[i].2 == neg;
            assert(built_at(rules, bs, plan, i));
            let b = bs[i];
            assert(rules2[n + i] == b);
            let p = seeds[k].1;
            assert(lit_is(b.body@[0], p, neg, p.temporal));
            assert(lit_is(b.head@[0], p, neg, Temporal::spec_empty()));
            assert(spl_text(positive_of(b.body@[0])) == spl_text(p));
            assert(is_bridge(b));
            assert(is_bridge(rules2[n + i]) && bridge_key(rules2[n + i].body@[0]) == seeds[k].0 && rules2[n + i].body@[0].negation == neg);
        }
    }
    let bs2 = t2.spec_rules().skip(rules2.len() as int);
    lemma_plan_empty(rules2, seed_list(timed_heads(rules2)).len());
    assert(bs2.len() == 0);
    assert(t2.spec_rules() =~= rules2);
}

} // verus!
