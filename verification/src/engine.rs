//! The DL(d) reasoning engine over an indexed theory.
//!
//! Literals are numbered `0..n_lits`; literal `2a` is atom `a` and `2a + 1`
//! its negation, so the complement of `l` is `comp(l)`. Rules refer to
//! literal numbers. The engine computes the definitely provable set (+D)
//! as the least set closed under facts and strict rules, and then the
//! defeasibly provable set (+d) by forward chaining with the attack and
//! superiority conditions of defeasible logic.

use vstd::prelude::*;
use crate::counts::{RuleCounts, RuleFlags};
use std::collections::VecDeque;
use crate::bitset::BitSet;
use crate::rule::RuleType;
use vstd::set_lib::*;

verus! {

/// An indexed rule: its kind, head literal number and distinct body literal numbers.
pub struct CRule {
    /// The kind of the rule.
    pub kind: RuleType,
    /// The head literal number.
    pub head: usize,
    /// The body literal numbers, without repetitions.
    pub body: Vec<usize>,
}

/// An indexed theory.
pub struct Compiled {
    /// The number of literal numbers (twice the number of atoms).
    pub n_lits: usize,
    /// The rules, in theory order.
    pub rules: Vec<CRule>,
    /// Superiority pairs `(t, s)` of rule positions: `t` beats `s`.
    pub sup: Vec<(usize, usize)>,
    /// For each literal number, the rules whose body holds it.
    pub body_index: Vec<Vec<usize>>,
    /// For each literal number, the rules whose head it is.
    pub head_index: Vec<Vec<usize>>,
}

/// The complement of a literal number.
pub open spec fn comp(l: int) -> int {
    if l % 2 == 0 {
        l + 1
    } else {
        l - 1
    }
}

/// `s` has an entry equal to `l`.
pub open spec fn holds(s: Seq<usize>, l: int) -> bool {
    exists|k: int| 0 <= k < s.len() && #[trigger] s[k] == l
}

/// The number of entries of `body` that are not in `s`.
pub open spec fn count_missing(body: Seq<usize>, s: Set<int>) -> nat
    decreases body.len(),
{
    if body.len() == 0 {
        0
    } else {
        count_missing(body.drop_last(), s) + (if s.contains(body.last() as int) {
            0nat
        } else {
            1nat
        })
    }
}

/// No entry is missing iff all entries are in the set.
pub proof fn lemma_count_missing_zero(body: Seq<usize>, s: Set<int>)
    ensures
        (count_missing(body, s) == 0) <==> (forall|i: int|
            0 <= i < body.len() ==> s.contains(#[trigger] body[i] as int)),
    decreases body.len(),
{
    if body.len() > 0 {
        lemma_count_missing_zero(body.drop_last(), s);
        if count_missing(body, s) == 0 {
            assert forall|i: int| 0 <= i < body.len() implies s.contains(
                #[trigger] body[i] as int,
            ) by {
                if i < body.len() - 1 {
                    assert(body.drop_last()[i] == body[i]);
                }
            }
        }
        if forall|i: int| 0 <= i < body.len() ==> s.contains(#[trigger] body[i] as int) {
            assert forall|i: int| 0 <= i < body.drop_last().len() implies s.contains(
                #[trigger] body.drop_last()[i] as int,
            ) by {
                assert(body.drop_last()[i] == body[i]);
            }
        }
    }
}

/// Nothing is missing from a set that holds nothing... all entries are missing.
pub proof fn lemma_count_missing_empty(body: Seq<usize>)
    ensures
        count_missing(body, Set::empty()) == body.len(),
    decreases body.len(),
{
    if body.len() > 0 {
        lemma_count_missing_empty(body.drop_last());
    }
}

/// Adding a new element to the set lowers the count by one if the body
/// holds it (once), and leaves it otherwise.
pub proof fn lemma_count_missing_insert(body: Seq<usize>, s: Set<int>, l: int)
    requires
        body.no_duplicates(),
        !s.contains(l),
    ensures
        count_missing(body, s.insert(l)) + (if holds(body, l) {
            1nat
        } else {
            0nat
        }) == count_missing(body, s),
    decreases body.len(),
{
    if body.len() > 0 {
        let init = body.drop_last();
        assert(init.no_duplicates());
        lemma_count_missing_insert(init, s, l);
        if body.last() as int == l {
            assert(!holds(init, l)) by {
                if holds(init, l) {
                    let i = choose|i: int| 0 <= i < init.len() && #[trigger] init[i] == l;
                    assert(body[i] == body[body.len() - 1]);
                }
            }
            assert(holds(body, l)) by {
                assert(body[body.len() - 1] == l);
            }
        } else {
            assert(holds(body, l) <==> holds(init, l)) by {
                if holds(body, l) {
                    let i = choose|i: int| 0 <= i < body.len() && #[trigger] body[i] == l;
                    assert(i != body.len() - 1);
                    assert(init[i] == body[i]);
                }
                if holds(init, l) {
                    let i = choose|i: int| 0 <= i < init.len() && #[trigger] init[i] == l;
                    assert(body[i] == init[i]);
                }
            }
        }
    }
}

/// The count is monotone: a bigger set misses fewer.
pub proof fn lemma_count_missing_le(body: Seq<usize>, s: Set<int>)
    ensures
        count_missing(body, s) <= body.len(),
    decreases body.len(),
{
    if body.len() > 0 {
        lemma_count_missing_le(body.drop_last(), s);
    }
}

/// A sequence without repetitions of numbers below `n` is at most `n` long.
pub proof fn lemma_distinct_bounded(s: Seq<usize>, n: int)
    requires
        s.no_duplicates(),
        0 <= n,
        forall|i: int| 0 <= i < s.len() ==> (#[trigger] s[i] as int) < n,
    ensures
        s.len() <= n,
{
    let t = s.map_values(|x: usize| x as int);
    assert(t.no_duplicates()) by {
        assert forall|i: int, j: int| 0 <= i < t.len() && 0 <= j < t.len() && i != j implies t[i] != t[j] by {
            assert(s[i] != s[j]);
        }
    }
    t.unique_seq_to_set();
    lemma_int_range(0, n);
    assert(t.to_set().subset_of(set_int_range(0, n))) by {
        assert forall|x: int| t.to_set().contains(x) implies set_int_range(0, n).contains(x) by {
            let i = choose|i: int| 0 <= i < t.len() && t[i] == x;
            assert(s[i] < n);
        }
    }
    lemma_len_subset(t.to_set(), set_int_range(0, n));
}

impl Compiled {
    /// The number of rules.
    pub open spec fn nr(&self) -> int {
        self.rules@.len() as int
    }

    /// The head of rule `r`.
    pub open spec fn head(&self, r: int) -> int {
        self.rules@[r].head as int
    }

    /// The body of rule `r`.
    pub open spec fn body(&self, r: int) -> Seq<usize> {
        self.rules@[r].body@
    }

    /// The kind of rule `r`.
    pub open spec fn kind(&self, r: int) -> RuleType {
        self.rules@[r].kind
    }

    /// Rule `r` can support its head (it is not a defeater).
    pub open spec fn supports(&self, r: int) -> bool {
        self.kind(r) != RuleType::Defeater
    }

    /// Every body literal of rule `r` is in `s`.
    pub open spec fn applicable(&self, r: int, s: Set<int>) -> bool {
        forall|i: int| 0 <= i < self.body(r).len() ==> s.contains(#[trigger] self.body(r)[i] as int)
    }

    /// Some body literal of rule `r` is in `s`.
    pub open spec fn discarded(&self, r: int, s: Set<int>) -> bool {
        exists|i: int| 0 <= i < self.body(r).len() && s.contains(#[trigger] self.body(r)[i] as int)
    }

    /// Rule `t` is superior to rule `s`.
    pub open spec fn superior(&self, t: int, s: int) -> bool {
        exists|k: int| 0 <= k < self.sup@.len() && #[trigger] self.sup@[k] == (t as usize, s as usize)
    }

    /// The indexed theory is well formed.
    pub open spec fn wf(&self) -> bool {
        &&& self.n_lits % 2 == 0
        &&& self.n_lits < usize::MAX
        &&& forall|r: int| 0 <= r < self.nr() ==> #[trigger] self.head(r) < self.n_lits
        &&& forall|r: int, i: int|
            0 <= r < self.nr() && 0 <= i < self.body(r).len() ==> #[trigger] self.body(r)[i]
                < self.n_lits
        &&& forall|r: int| 0 <= r < self.nr() ==> #[trigger] self.body(r).no_duplicates()
        &&& self.body_index@.len() == self.n_lits
        &&& self.head_index@.len() == self.n_lits
        &&& forall|l: int, k: int|
            0 <= l < self.n_lits && 0 <= k < self.body_index@[l]@.len() ==> {
                let r = #[trigger] self.body_index@[l]@[k] as int;
                &&& 0 <= r < self.nr()
                &&& holds(self.body(r), l)
            }
        &&& forall|l: int| 0 <= l < self.n_lits ==> #[trigger] self.body_index@[l]@.no_duplicates()
        &&& forall|r: int, i: int|
            0 <= r < self.nr() && 0 <= i < self.body(r).len() ==> holds(self.body_index@[#[trigger] self.body(
                r,
            )[i] as int]@, r)
        &&& forall|l: int, k: int|
            0 <= l < self.n_lits && 0 <= k < self.head_index@[l]@.len() ==> {
                let r = #[trigger] self.head_index@[l]@[k] as int;
                &&& 0 <= r < self.nr()
                &&& self.head(r) == l
            }
        &&& forall|r: int|
            0 <= r < self.nr() ==> holds(self.head_index@[#[trigger] self.head(r)]@, r)
        &&& forall|l: int, i: int, j: int|
            0 <= l < self.n_lits && 0 <= i < j < self.head_index@[l]@.len() ==> (#[trigger] self.head_index@[l]@[i])
                < (#[trigger] self.head_index@[l]@[j])
        &&& forall|k: int|
            0 <= k < self.sup@.len() ==> (#[trigger] self.sup@[k]).0 < self.nr() && self.sup@[k].1
                < self.nr()
    }

    /// `s` is closed under facts and strict rules.
    pub open spec fn def_closed(&self, s: Set<int>) -> bool {
        forall|r: int|
            0 <= r < self.nr() ==> {
                &&& (self.kind(r) == RuleType::Fact ==> s.contains(#[trigger] self.head(r)))
                &&& (self.kind(r) == RuleType::Strict && self.applicable(r, s) ==> s.contains(
                    self.head(r),
                ))
            }
    }

    /// `d` is the least set closed under facts and strict rules.
    pub open spec fn least_def_closed(&self, d: Set<int>) -> bool {
        &&& self.def_closed(d)
        &&& forall|s: Set<int>| #[trigger] self.def_closed(s) ==> d.subset_of(s)
    }

    /// The defeasible proof condition for `q`, against the final sets:
    /// `~q` is not definitely provable, and either `q` is, or some rule for
    /// `q` applies and every applicable rule for `~q` is non-strict and beaten
    /// by an applicable rule for `q`.
    pub open spec fn plus_ok(&self, d: Set<int>, p: Set<int>, q: int) -> bool {
        &&& !d.contains(comp(q))
        &&& (d.contains(q) || {
            &&& exists|r: int|
                0 <= r < self.nr() && #[trigger] self.head(r) == q && self.supports(r)
                    && self.applicable(r, p)
            &&& forall|s: int|
                0 <= s < self.nr() && #[trigger] self.head(s) == comp(q) && self.applicable(s, p)
                    ==> self.kind(s) != RuleType::Strict && exists|t: int|
                    0 <= t < self.nr() && #[trigger] self.head(t) == q && self.supports(t)
                        && self.applicable(t, p) && self.superior(t, s)
        })
    }
}

/// The result of the definite phase.
pub struct DefiniteResult {
    /// The definitely provable literal numbers.
    pub set: BitSet,
    /// The literal numbers in the order they were proved.
    pub log: Vec<usize>,
    /// The rule that proved each entry of `log`.
    pub rule_of: Vec<usize>,
}

/// Phase one: the least set closed under facts and strict rules.
pub fn definite_phase(ct: &Compiled) -> (res: DefiniteResult)
    requires
        ct.wf(),
    ensures
        res.set.capacity() == ct.n_lits,
        ct.least_def_closed(res.set.members()),
        res.log@.no_duplicates(),
        res.log@.len() == res.rule_of@.len(),
        forall|i: int| 0 <= i < res.log@.len() ==> res.set.members().contains(#[trigger] res.log@[i] as int),
        forall|l: int| res.set.members().contains(l) ==> holds(res.log@, l),
        forall|i: int|
            0 <= i < res.rule_of@.len() ==> {
                let r = #[trigger] res.rule_of@[i] as int;
                &&& 0 <= r < ct.nr()
                &&& ct.head(r) == res.log@[i]
                &&& (ct.kind(r) == RuleType::Fact || ct.kind(r) == RuleType::Strict)
            },
{
    let n = ct.n_lits;
    let nr = ct.rules.len();
    let mut d = BitSet::new(n);
    let mut log: Vec<usize> = Vec::new();
    let mut rule_of: Vec<usize> = Vec::new();
    let mut work: VecDeque<usize> = VecDeque::new();
    let ghost popped: Set<int> = Set::empty();
    let mut rem = RuleCounts::new();
    let mut i: usize = 0;
    while i < nr
        invariant
            0 <= i <= nr,
            nr == ct.nr(),
            ct.wf(),
            rem@.len() == i,
            forall|r: int| 0 <= r < i ==> #[trigger] rem@[r] == ct.body(r).len(),
        decreases nr - i,
    {
        rem.push(ct.rules[i].body.len());
        i = i + 1;
    }
    proof {
        assert forall|r: int| 0 <= r < nr implies #[trigger] rem@[r] == count_missing(
            ct.body(r),
            popped,
        ) by {
            lemma_count_missing_empty(ct.body(r));
        }
    }
    // Seed facts and strict rules with an empty body.
    let mut i: usize = 0;
    while i < nr
        invariant
            0 <= i <= nr,
            nr == ct.nr(),
            ct.wf(),
            n == ct.n_lits,
            d.capacity() == n,
            popped == Set::<int>::empty(),
            rem@.len() == nr,
            forall|r: int| 0 <= r < nr ==> #[trigger] rem@[r] == count_missing(ct.body(r), popped),
            forall|r: int|
                0 <= r < i && (ct.kind(r) == RuleType::Fact || (ct.kind(r) == RuleType::Strict
                    && ct.body(r).len() == 0)) ==> d.members().contains(#[trigger] ct.head(r)),
            forall|r: int|
                0 <= r < nr && ct.kind(r) == RuleType::Strict && #[trigger] rem@[r] == 0
                    ==> r < i ==> d.members().contains(ct.head(r)),
            forall|s: Set<int>| #[trigger] ct.def_closed(s) ==> d.members().subset_of(s),
            log@.no_duplicates(),
            log@.len() == rule_of@.len(),
            work@ == log@,
            forall|k: int| 0 <= k < log@.len() ==> d.members().contains(#[trigger] log@[k] as int),
            forall|l: int| d.members().contains(l) ==> holds(log@, l),
            forall|k: int|
                0 <= k < rule_of@.len() ==> {
                    let r = #[trigger] rule_of@[k] as int;
                    &&& 0 <= r < ct.nr()
                    &&& ct.head(r) == log@[k]
                    &&& (ct.kind(r) == RuleType::Fact || ct.kind(r) == RuleType::Strict)
                },
        decreases nr - i,
    {
        let kind = ct.rules[i].kind;
        let h = ct.rules[i].head;
        proof {
            assert(ct.head(i as int) < n);
        }
        if kind == RuleType::Fact || (kind == RuleType::Strict && ct.rules[i].body.len() == 0) {
            if !d.contains(h) {
                let ghost seed_d = d.members();
                let ghost seed_log = log@;
                proof {
                    assert forall|s: Set<int>| #[trigger] ct.def_closed(s) implies d.members().insert(
                        h as int,
                    ).subset_of(s) by {
                        assert(s.contains(ct.head(i as int)));
                    }
                    if log@.contains(h) {
                        let k = choose|k: int| 0 <= k < log@.len() && log@[k] == h;
                        assert(d.members().contains(log@[k] as int));
                    }
                }
                d.insert(h);
                log.push(h);
                rule_of.push(i);
                work.push_back(h);
                proof {
                    assert forall|l: int| d.members().contains(l) implies holds(log@, l) by {
                        if l != h as int {
                            assert(seed_d.contains(l));
                            let k = choose|k: int| 0 <= k < seed_log.len() && seed_log[k] == l;
                            assert(log@[k] == l);
                        } else {
                            assert(log@[log@.len() - 1] == h);
                        }
                    }
                }
            }
        }
        proof {
            if ct.kind(i as int) == RuleType::Strict && rem@[i as int] == 0 {
                lemma_count_missing_empty(ct.body(i as int));
            }
        }
        i = i + 1;
    }
    // Forward chaining over strict rules.
    let ghost mut n_popped: int = 0;
    proof {
        d.lemma_members_in_range();
        assert forall|i: int| 0 <= i < log@.len() implies (#[trigger] log@[i] as int) < n by {
            assert(d.members().contains(log@[i] as int));
        }
        lemma_distinct_bounded(log@, n as int);
    }
    loop
        invariant_except_break
            nr == ct.nr(),
            ct.wf(),
            n == ct.n_lits,
            d.capacity() == n,
            rem@.len() == nr,
            forall|r: int| 0 <= r < nr ==> #[trigger] rem@[r] == count_missing(ct.body(r), popped),
            forall|r: int|
                0 <= r < nr && ct.kind(r) == RuleType::Fact ==> d.members().contains(
                    #[trigger] ct.head(r),
                ),
            forall|r: int|
                0 <= r < nr && ct.kind(r) == RuleType::Strict && #[trigger] rem@[r] == 0
                    ==> d.members().contains(ct.head(r)),
            forall|s: Set<int>| #[trigger] ct.def_closed(s) ==> d.members().subset_of(s),
            log@.no_duplicates(),
            log@.len() == rule_of@.len(),
            0 <= n_popped <= log@.len() <= n,
            work@ == log@.subrange(n_popped, log@.len() as int),
            forall|l: int| popped.contains(l) <==> exists|k: int| 0 <= k < n_popped && #[trigger] log@[k] == l,
            forall|k: int| 0 <= k < log@.len() ==> d.members().contains(#[trigger] log@[k] as int),
            forall|l: int| d.members().contains(l) ==> holds(log@, l),
            forall|k: int|
                0 <= k < rule_of@.len() ==> {
                    let r = #[trigger] rule_of@[k] as int;
                    &&& 0 <= r < ct.nr()
                    &&& ct.head(r) == log@[k]
                    &&& (ct.kind(r) == RuleType::Fact || ct.kind(r) == RuleType::Strict)
                },
        ensures
            work@.len() == 0,
            nr == ct.nr(),
            ct.wf(),
            n == ct.n_lits,
            d.capacity() == n,
            rem@.len() == nr,
            forall|r: int| 0 <= r < nr ==> #[trigger] rem@[r] == count_missing(ct.body(r), popped),
            forall|r: int|
                0 <= r < nr && ct.kind(r) == RuleType::Fact ==> d.members().contains(
                    #[trigger] ct.head(r),
                ),
            forall|r: int|
                0 <= r < nr && ct.kind(r) == RuleType::Strict && #[trigger] rem@[r] == 0
                    ==> d.members().contains(ct.head(r)),
            forall|s: Set<int>| #[trigger] ct.def_closed(s) ==> d.members().subset_of(s),
            log@.no_duplicates(),
            log@.len() == rule_of@.len(),
            forall|l: int| popped.contains(l) <==> d.members().contains(l),
            forall|k: int| 0 <= k < log@.len() ==> d.members().contains(#[trigger] log@[k] as int),
            forall|l: int| d.members().contains(l) ==> holds(log@, l),
            forall|k: int|
                0 <= k < rule_of@.len() ==> {
                    let r = #[trigger] rule_of@[k] as int;
                    &&& 0 <= r < ct.nr()
                    &&& ct.head(r) == log@[k]
                    &&& (ct.kind(r) == RuleType::Fact || ct.kind(r) == RuleType::Strict)
                },
        decreases n - n_popped,
    {
        let next = work.pop_front();
        match next {
            None => {
                proof {
                    assert forall|l: int| popped.contains(l) <==> d.members().contains(l) by {
                        if d.members().contains(l) {
                            let k = choose|k: int| 0 <= k < log@.len() && #[trigger] log@[k] == l;
                            assert(log@[k] == l);
                        }
                        if popped.contains(l) {
                            let k = choose|k: int| 0 <= k < n_popped && #[trigger] log@[k] == l;
                        }
                    }
                }
                break;
            },
            Some(lit) => {
                proof {
                    assert(lit == log@[n_popped]);
                    assert(!popped.contains(lit as int)) by {
                        if popped.contains(lit as int) {
                            let k = choose|k: int| 0 <= k < n_popped && #[trigger] log@[k] == lit;
                            assert(log@[k] == log@[n_popped]);
                        }
                    }
                    assert(d.members().contains(lit as int));
                    d.lemma_members_in_range();
                }
                let ghost old_popped = popped;
                proof {
                    popped = popped.insert(lit as int);
                    n_popped = n_popped + 1;
                }
                let users = &ct.body_index[lit];
                proof {
                    assert forall|r: int| 0 <= r < nr implies #[trigger] rem@[r] == count_missing(
                        ct.body(r),
                        popped,
                    ) + (if holds(ct.body(r), lit as int) && !holds(users@.subrange(0, 0), r) {
                        1nat
                    } else {
                        0nat
                    }) by {
                        lemma_count_missing_insert(ct.body(r), old_popped, lit as int);
                    }
                }
                let mut k: usize = 0;
                while k < users.len()
                    invariant
                        0 <= k <= users@.len(),
                        lit < n,
                        users@ == ct.body_index@[lit as int]@,
                        nr == ct.nr(),
                        ct.wf(),
                        n == ct.n_lits,
                        d.capacity() == n,
                        rem@.len() == nr,
                        !old_popped.contains(lit as int),
                        popped == old_popped.insert(lit as int),
                        forall|r: int|
                            0 <= r < nr ==> #[trigger] rem@[r] == count_missing(
                                ct.body(r),
                                popped,
                            ) + (if holds(ct.body(r), lit as int) && !holds(users@.subrange(
                                0,
                                k as int,
                            ), r) {
                                1nat
                            } else {
                                0nat
                            }),
                        forall|r: int|
                            0 <= r < nr && ct.kind(r) == RuleType::Fact ==> d.members().contains(
                                #[trigger] ct.head(r),
                            ),
                        forall|r: int|
                            0 <= r < nr && ct.kind(r) == RuleType::Strict && #[trigger] rem@[r] == 0
                                ==> d.members().contains(ct.head(r)),
                        forall|s: Set<int>| #[trigger] ct.def_closed(s) ==> d.members().subset_of(s),
                        log@.no_duplicates(),
                        log@.len() == rule_of@.len(),
                        0 <= n_popped <= log@.len() <= n,
                        work@ == log@.subrange(n_popped, log@.len() as int),
                        forall|l: int|
                            popped.contains(l) <==> exists|j: int| 0 <= j < n_popped && #[trigger] log@[j] == l,
                        forall|j: int| 0 <= j < log@.len() ==> d.members().contains(#[trigger] log@[j] as int),
                        forall|l: int| d.members().contains(l) ==> holds(log@, l),
                        forall|j: int|
                            0 <= j < rule_of@.len() ==> {
                                let r = #[trigger] rule_of@[j] as int;
                                &&& 0 <= r < ct.nr()
                                &&& ct.head(r) == log@[j]
                                &&& (ct.kind(r) == RuleType::Fact || ct.kind(r) == RuleType::Strict)
                            },
                    decreases users@.len() - k,
                {
                    let r = users[k];
                    proof {
                        assert(users@[k as int] == r);
                        assert(0 <= r < nr);
                        lemma_count_missing_insert(ct.body(r as int), old_popped, lit as int);
                        assert(holds(ct.body(r as int), lit as int));
                        assert(!holds(users@.subrange(0, k as int), r as int)) by {
                            if holds(users@.subrange(0, k as int), r as int) {
                                let j = choose|j: int| 0 <= j < k && #[trigger] users@.subrange(0, k as int)[j] == r;
                                assert(users@[j] == users@[k as int]);
                                assert(ct.body_index@[lit as int]@.no_duplicates());
                            }
                        }
                    }
                    let ghost rem_before = rem@;
                    let cur = rem.get(r);
                    proof {
                        assert(cur > 0);
                    }
                    rem.set(r, cur - 1);
                    if ct.rules[r].kind == RuleType::Strict {
                        if cur == 1 {
                            let h = ct.rules[r].head;
                            proof {
                                assert(ct.head(r as int) < n);
                            }
                            if !d.contains(h) {
                                proof {
                                    lemma_count_missing_zero(ct.body(r as int), popped);
                                    assert(ct.applicable(r as int, popped));
                                    assert forall|s: Set<int>| #[trigger] ct.def_closed(s) implies d.members().insert(
                                        h as int,
                                    ).subset_of(s) by {
                                        assert(popped.subset_of(d.members())) by {
                                            assert forall|l: int| popped.contains(l) implies d.members().contains(l) by {
                                                let j = choose|j: int| 0 <= j < n_popped && #[trigger] log@[j] == l;
                                            }
                                        }
                                        assert(ct.applicable(r as int, s)) by {
                                            assert forall|x: int| 0 <= x < ct.body(r as int).len() implies s.contains(
                                                #[trigger] ct.body(r as int)[x] as int,
                                            ) by {
                                                assert(popped.contains(ct.body(r as int)[x] as int));
                                            }
                                        }
                                    }
                                    if log@.contains(h) {
                                        let j = choose|j: int| 0 <= j < log@.len() && log@[j] == h;
                                        assert(d.members().contains(log@[j] as int));
                                    }
                                    d.lemma_members_in_range();
                                }
                                let ghost old_d = d.members();
                                let ghost old_log = log@;
                                d.insert(h);
                                log.push(h);
                                rule_of.push(r);
                                work.push_back(h);
                                proof {
                                    assert(work@ =~= log@.subrange(n_popped, log@.len() as int));
                                    assert forall|l: int| d.members().contains(l) implies holds(log@, l) by {
                                        if l != h as int {
                                            assert(old_d.contains(l));
                                            let j = choose|j: int| 0 <= j < old_log.len() && old_log[j] == l;
                                            assert(log@[j] == l);
                                        } else {
                                            assert(log@[log@.len() - 1] == h);
                                        }
                                    }
                                    assert(log@.no_duplicates());
                                    assert forall|l: int|
                                        popped.contains(l) <==> exists|j: int| 0 <= j < n_popped && #[trigger] log@[j] == l by {
                                        if popped.contains(l) {
                                            let j = choose|j: int| 0 <= j < n_popped && #[trigger] old_log[j] == l;
                                            assert(log@[j] == old_log[j]);
                                        }
                                        if exists|j: int| 0 <= j < n_popped && #[trigger] log@[j] == l {
                                            let j = choose|j: int| 0 <= j < n_popped && #[trigger] log@[j] == l;
                                            assert(old_log[j] == log@[j]);
                                        }
                                    }
                                    d.lemma_members_in_range();
                                    assert forall|x: int| 0 <= x < log@.len() implies (#[trigger] log@[x] as int) < n by {
                                        assert(d.members().contains(log@[x] as int));
                                    }
                                    lemma_distinct_bounded(log@, n as int);
                                }
                            }
                        }
                    }
                    proof {
                        assert(users@.subrange(0, k + 1) =~= users@.subrange(0, k as int).push(r));
                        assert forall|r2: int| 0 <= r2 < nr implies #[trigger] rem@[r2] == count_missing(
                            ct.body(r2),
                            popped,
                        ) + (if holds(ct.body(r2), lit as int) && !holds(users@.subrange(0, k + 1), r2) {
                            1nat
                        } else {
                            0nat
                        }) by {
                            if r2 != r as int {
                                assert(holds(users@.subrange(0, k + 1), r2) == holds(users@.subrange(
                                    0,
                                    k as int,
                                ), r2)) by {
                                    if holds(users@.subrange(0, k + 1), r2) {
                                        let j = choose|j: int| 0 <= j < k + 1 && #[trigger] users@.subrange(0, k + 1)[j] == r2;
                                        assert(users@.subrange(0, k as int)[j] == r2);
                                    }
                                    if holds(users@.subrange(0, k as int), r2) {
                                        let j = choose|j: int| 0 <= j < k && #[trigger] users@.subrange(0, k as int)[j] == r2;
                                        assert(users@.subrange(0, k + 1)[j] == r2);
                                    }
                                }
                            } else {
                                assert(holds(users@.subrange(0, k + 1), r as int)) by {
                                    assert(users@.subrange(0, k + 1)[k as int] == r);
                                }
                                if ct.kind(r as int) != RuleType::Strict {
                                    // Non-strict rules keep their counter; it is only read for strict rules.
                                }
                            }
                        }
                    }
                    k = k + 1;
                }
                proof {
                    assert forall|r: int| 0 <= r < nr implies #[trigger] rem@[r] == count_missing(
                        ct.body(r),
                        popped,
                    ) by {
                        if holds(ct.body(r), lit as int) {
                            assert(users@.subrange(0, users@.len() as int) =~= users@);
                            let x = choose|x: int| 0 <= x < ct.body(r).len() && #[trigger] ct.body(r)[x] == lit;
                            assert(holds(ct.body_index@[ct.body(r)[x] as int]@, r));
                        }
                    }
                    assert(work@ =~= log@.subrange(n_popped, log@.len() as int));
                }
            },
        }
    }
    proof {
        assert(ct.def_closed(d.members())) by {
            assert forall|r: int| 0 <= r < nr implies {
                &&& (ct.kind(r) == RuleType::Fact ==> d.members().contains(#[trigger] ct.head(r)))
                &&& (ct.kind(r) == RuleType::Strict && ct.applicable(r, d.members()) ==> d.members().contains(
                    ct.head(r),
                ))
            } by {
                if ct.kind(r) == RuleType::Strict && ct.applicable(r, d.members()) {
                    lemma_count_missing_zero(ct.body(r), popped);
                    assert forall|x: int| 0 <= x < ct.body(r).len() implies popped.contains(
                        #[trigger] ct.body(r)[x] as int,
                    ) by {
                        assert(d.members().contains(ct.body(r)[x] as int));
                    }
                    assert(rem@[r] == 0);
                }
            }
        }
    }
    DefiniteResult { set: d, log, rule_of }
}


/// The complement of a literal number, in exec code.
pub fn complement_of(l: usize) -> (r: usize)
    requires
        l < usize::MAX,
    ensures
        r == comp(l as int),
{
    if l % 2 == 0 {
        l + 1
    } else {
        l - 1
    }
}

/// A literal number below an even bound has its complement below it too.
pub proof fn lemma_comp_in_range(l: int, n: int)
    requires
        0 <= l < n,
        n % 2 == 0,
    ensures
        0 <= comp(l) < n,
        comp(comp(l)) == l,
        comp(l) != l,
{
}

impl Compiled {
    /// Rule `t` is superior to rule `s` (a scan of the superiority pairs).
    pub fn is_superior(&self, t: usize, s: usize) -> (r: bool)
        ensures
            r == self.superior(t as int, s as int),
    {
        let mut k: usize = 0;
        while k < self.sup.len()
            invariant
                0 <= k <= self.sup@.len(),
                forall|j: int| 0 <= j < k ==> #[trigger] self.sup@[j] != (t, s),
            decreases self.sup@.len() - k,
        {
            let pair = self.sup[k];
            if pair.0 == t && pair.1 == s {
                proof {
                    assert(self.sup@[k as int] == (t as usize, s as usize));
                }
                return true;
            }
            k = k + 1;
        }
        false
    }

    /// The defeasible proof condition for `q` while the engine runs:
    /// applicability is judged by the literals already propagated as +d
    /// (`pp`), discarding by those already propagated as -d (`pn`).
    pub open spec fn plus_ok_state(&self, d: Set<int>, pp: Set<int>, pn: Set<int>, q: int) -> bool {
        &&& !d.contains(comp(q))
        &&& (d.contains(q) || {
            &&& exists|r: int|
                0 <= r < self.nr() && #[trigger] self.head(r) == q && self.supports(r)
                    && self.applicable(r, pp)
            &&& forall|s: int|
                0 <= s < self.nr() && #[trigger] self.head(s) == comp(q) ==> self.discarded(s, pn) || (
                self.kind(s) != RuleType::Strict && self.applicable(s, pp) && exists|t: int|
                    0 <= t < self.nr() && #[trigger] self.head(t) == q && self.supports(t)
                        && self.applicable(t, pp) && self.superior(t, s))
        })
    }

    /// Rule `r` is a live rule for `q` while the engine runs: it supports
    /// `q`, its body is propagated as +d, and no body literal is -d.
    pub open spec fn live_for(&self, r: int, pp: Set<int>, pn: Set<int>, q: int) -> bool {
        &&& 0 <= r < self.nr()
        &&& self.head(r) == q
        &&& self.supports(r)
        &&& self.applicable(r, pp)
        &&& !self.discarded(r, pn)
    }

    /// Rule `r` is the first rule listed for head `q` (the list is in rule
    /// order) that is live for `q` on the propagated decisions `pp` and `pn`.
    pub open spec fn first_live(&self, pp: Set<int>, pn: Set<int>, q: int, r: int) -> bool {
        let rs = self.head_index@[q]@;
        exists|j: int|
            0 <= j < rs.len() && #[trigger] rs[j] as int == r && self.live_for(r, pp, pn, q) && forall|i: int|
                0 <= i < j ==> !self.live_for(#[trigger] rs[i] as int, pp, pn, q)
    }

    /// What the engine checks before it decides `q` as +d: `~q` is not +D,
    /// some live rule supports `q`, and every rule for `~q` is discarded or
    /// is a non-strict applicable rule that a live rule for `q` beats.
    pub open spec fn prove_ready(&self, d: Set<int>, pp: Set<int>, pn: Set<int>, q: int) -> bool {
        &&& !d.contains(comp(q))
        &&& exists|r: int| #[trigger] self.live_for(r, pp, pn, q)
        &&& forall|s: int|
            0 <= s < self.nr() && #[trigger] self.head(s) == comp(q) ==> self.discarded(s, pn) || (
            self.kind(s) != RuleType::Strict && self.applicable(s, pp) && exists|t: int|
                #[trigger] self.live_for(t, pp, pn, q) && self.superior(t, s))
    }

    /// What the engine checks before it decides `q` as -d: `q` is not +D,
    /// and either `~q` is +D, every supporting rule for `q` is discarded, or
    /// some applicable, undiscarded rule for `~q` is beaten by no supporting,
    /// undiscarded rule for `q`.
    pub open spec fn disprove_ready(&self, d: Set<int>, pp: Set<int>, pn: Set<int>, q: int) -> bool {
        &&& !d.contains(q)
        &&& (d.contains(comp(q)) || (forall|r: int|
            0 <= r < self.nr() && #[trigger] self.head(r) == q && self.supports(r) ==> self.discarded(r, pn))
            || exists|s: int|
            0 <= s < self.nr() && #[trigger] self.head(s) == comp(q) && self.applicable(s, pp) && !self.discarded(s, pn)
                && forall|t: int|
                0 <= t < self.nr() && #[trigger] self.head(t) == q && self.supports(t) && !self.discarded(t, pn)
                    ==> !self.superior(t, s))
    }

    /// The -d condition for `q`: both `q` and `~q` are +D, or the engine's
    /// check for deciding `q` as -d holds.
    pub open spec fn minus_ok(&self, d: Set<int>, pp: Set<int>, pn: Set<int>, q: int) -> bool {
        (d.contains(q) && d.contains(comp(q))) || self.disprove_ready(d, pp, pn, q)
    }

    /// The check for +d survives further propagation, as long as no literal
    /// is propagated both ways.
    pub proof fn lemma_prove_ready_mono(
        &self,
        d: Set<int>,
        pp: Set<int>,
        pn: Set<int>,
        pp2: Set<int>,
        pn2: Set<int>,
        q: int,
    )
        requires
            pp.subset_of(pp2),
            pn.subset_of(pn2),
            pp2.disjoint(pn2),
            self.prove_ready(d, pp, pn, q),
        ensures
            self.prove_ready(d, pp2, pn2, q),
    {
        assert forall|r: int| #[trigger] self.live_for(r, pp, pn, q) implies self.live_for(r, pp2, pn2, q) by {
            self.lemma_applicable_mono(r, pp, pp2);
            if self.discarded(r, pn2) {
                let i = choose|i: int| 0 <= i < self.body(r).len() && pn2.contains(#[trigger] self.body(r)[i] as int);
                assert(pp2.contains(self.body(r)[i] as int));
            }
        }
        let r = choose|r: int| #[trigger] self.live_for(r, pp, pn, q);
        assert(self.live_for(r, pp2, pn2, q));
        assert forall|s: int|
            0 <= s < self.nr() && #[trigger] self.head(s) == comp(q) implies self.discarded(s, pn2) || (
            self.kind(s) != RuleType::Strict && self.applicable(s, pp2) && exists|t: int|
                #[trigger] self.live_for(t, pp2, pn2, q) && self.superior(t, s)) by {
            if self.discarded(s, pn) {
                self.lemma_discarded_mono(s, pn, pn2);
            } else {
                self.lemma_applicable_mono(s, pp, pp2);
                let t = choose|t: int| #[trigger] self.live_for(t, pp, pn, q) && self.superior(t, s);
                assert(self.live_for(t, pp2, pn2, q));
            }
        }
    }

    /// The pair `(pp, pn)` is closed under the engine's decisions: no literal
    /// is in both; a literal that is +D while its complement is not is in
    /// `pp`; a literal that meets the +d check is in `pp`, and one that meets
    /// the -d condition is in `pn`.
    pub open spec fn closed(&self, d: Set<int>, pp: Set<int>, pn: Set<int>) -> bool {
        &&& pp.disjoint(pn)
        &&& forall|q: int| 0 <= q < self.n_lits && d.contains(q) && !d.contains(comp(q)) ==> #[trigger] pp.contains(q)
        &&& forall|q: int| 0 <= q < self.n_lits && #[trigger] self.prove_ready(d, pp, pn, q) ==> pp.contains(q)
        &&& forall|q: int| 0 <= q < self.n_lits && #[trigger] self.minus_ok(d, pp, pn, q) ==> pn.contains(q)
    }

    /// A literal that meets the +d check does not meet the -d condition.
    pub proof fn lemma_ready_not_minus(&self, d: Set<int>, pp: Set<int>, pn: Set<int>, q: int)
        requires
            pp.disjoint(pn),
            self.prove_ready(d, pp, pn, q),
        ensures
            !self.minus_ok(d, pp, pn, q),
    {
        let r = choose|r: int| #[trigger] self.live_for(r, pp, pn, q);
        if self.minus_ok(d, pp, pn, q) {
            if forall|r2: int|
                0 <= r2 < self.nr() && #[trigger] self.head(r2) == q && self.supports(r2) ==> self.discarded(r2, pn) {
                assert(self.head(r) == q);
            } else {
                let s = choose|s: int|
                    0 <= s < self.nr() && #[trigger] self.head(s) == comp(q) && self.applicable(s, pp)
                        && !self.discarded(s, pn) && forall|t: int|
                        0 <= t < self.nr() && #[trigger] self.head(t) == q && self.supports(t) && !self.discarded(
                            t,
                            pn,
                        ) ==> !self.superior(t, s);
                assert(self.head(s) == comp(q));
                let t = choose|t: int| #[trigger] self.live_for(t, pp, pn, q) && self.superior(t, s);
                assert(self.head(t) == q);
            }
        }
    }

    /// A literal that meets the +d condition does not meet the -d condition.
    pub proof fn lemma_plus_not_minus(&self, d: Set<int>, pp: Set<int>, pn: Set<int>, q: int)
        requires
            pp.disjoint(pn),
            self.plus_ok(d, pp, q),
        ensures
            !self.minus_ok(d, pp, pn, q),
    {
        if self.minus_ok(d, pp, pn, q) {
            assert(!d.contains(q));
            let r = choose|r: int|
                0 <= r < self.nr() && #[trigger] self.head(r) == q && self.supports(r) && self.applicable(r, pp);
            assert(!self.discarded(r, pn)) by {
                if self.discarded(r, pn) {
                    let i = choose|i: int| 0 <= i < self.body(r).len() && pn.contains(#[trigger] self.body(r)[i] as int);
                    assert(pp.contains(self.body(r)[i] as int));
                }
            }
            if forall|r2: int|
                0 <= r2 < self.nr() && #[trigger] self.head(r2) == q && self.supports(r2) ==> self.discarded(r2, pn) {
                assert(self.head(r) == q);
            } else {
                let s = choose|s: int|
                    0 <= s < self.nr() && #[trigger] self.head(s) == comp(q) && self.applicable(s, pp)
                        && !self.discarded(s, pn) && forall|t: int|
                        0 <= t < self.nr() && #[trigger] self.head(t) == q && self.supports(t) && !self.discarded(
                            t,
                            pn,
                        ) ==> !self.superior(t, s);
                assert(self.head(s) == comp(q));
                let t = choose|t: int|
                    0 <= t < self.nr() && #[trigger] self.head(t) == q && self.supports(t) && self.applicable(t, pp)
                        && self.superior(t, s);
                assert(!self.discarded(t, pn)) by {
                    if self.discarded(t, pn) {
                        let i = choose|i: int| 0 <= i < self.body(t).len() && pn.contains(#[trigger] self.body(t)[i] as int);
                        assert(pp.contains(self.body(t)[i] as int));
                    }
                }
            }
        }
    }

    /// The -d condition survives further propagation, as long as no literal
    /// is propagated both ways.
    pub proof fn lemma_minus_ok_mono(
        &self,
        d: Set<int>,
        pp: Set<int>,
        pn: Set<int>,
        pp2: Set<int>,
        pn2: Set<int>,
        q: int,
    )
        requires
            pp.subset_of(pp2),
            pn.subset_of(pn2),
            pp2.disjoint(pn2),
            self.minus_ok(d, pp, pn, q),
        ensures
            self.minus_ok(d, pp2, pn2, q),
    {
        if !(d.contains(q) && d.contains(comp(q))) && !d.contains(comp(q)) {
            if forall|r: int|
                0 <= r < self.nr() && #[trigger] self.head(r) == q && self.supports(r) ==> self.discarded(r, pn) {
                assert forall|r: int|
                    0 <= r < self.nr() && #[trigger] self.head(r) == q && self.supports(r) implies self.discarded(
                    r,
                    pn2,
                ) by {
                    self.lemma_discarded_mono(r, pn, pn2);
                }
            } else {
                let s = choose|s: int|
                    0 <= s < self.nr() && #[trigger] self.head(s) == comp(q) && self.applicable(s, pp)
                        && !self.discarded(s, pn) && forall|t: int|
                        0 <= t < self.nr() && #[trigger] self.head(t) == q && self.supports(t) && !self.discarded(
                            t,
                            pn,
                        ) ==> !self.superior(t, s);
                self.lemma_applicable_mono(s, pp, pp2);
                assert(!self.discarded(s, pn2)) by {
                    if self.discarded(s, pn2) {
                        let i = choose|i: int| 0 <= i < self.body(s).len() && pn2.contains(#[trigger] self.body(s)[i] as int);
                        assert(pp2.contains(self.body(s)[i] as int));
                    }
                }
                assert forall|t: int|
                    0 <= t < self.nr() && #[trigger] self.head(t) == q && self.supports(t) && !self.discarded(t, pn2)
                        implies !self.superior(t, s) by {
                    if self.discarded(t, pn) {
                        self.lemma_discarded_mono(t, pn, pn2);
                    }
                }
                assert(self.head(s) == comp(q));
            }
        }
    }

    /// Applicability grows with the set.
    pub proof fn lemma_applicable_mono(&self, r: int, a: Set<int>, b: Set<int>)
        requires
            a.subset_of(b),
            self.applicable(r, a),
        ensures
            self.applicable(r, b),
    {
        assert forall|i: int| 0 <= i < self.body(r).len() implies b.contains(
            #[trigger] self.body(r)[i] as int,
        ) by {
            assert(a.contains(self.body(r)[i] as int));
        }
    }

    /// Discarding grows with the set.
    pub proof fn lemma_discarded_mono(&self, r: int, a: Set<int>, b: Set<int>)
        requires
            a.subset_of(b),
            self.discarded(r, a),
        ensures
            self.discarded(r, b),
    {
        let i = choose|i: int| 0 <= i < self.body(r).len() && a.contains(#[trigger] self.body(r)[i] as int);
        assert(b.contains(self.body(r)[i] as int));
    }

    /// The running proof condition survives further propagation.
    pub proof fn lemma_plus_ok_state_mono(
        &self,
        d: Set<int>,
        pp: Set<int>,
        pn: Set<int>,
        pp2: Set<int>,
        pn2: Set<int>,
        q: int,
    )
        requires
            pp.subset_of(pp2),
            pn.subset_of(pn2),
            self.plus_ok_state(d, pp, pn, q),
        ensures
            self.plus_ok_state(d, pp2, pn2, q),
    {
        if !d.contains(q) {
            let r = choose|r: int|
                0 <= r < self.nr() && #[trigger] self.head(r) == q && self.supports(r)
                    && self.applicable(r, pp);
            self.lemma_applicable_mono(r, pp, pp2);
            assert forall|s: int|
                0 <= s < self.nr() && #[trigger] self.head(s) == comp(q) implies self.discarded(s, pn2)
                || (self.kind(s) != RuleType::Strict && self.applicable(s, pp2) && exists|t: int|
                0 <= t < self.nr() && #[trigger] self.head(t) == q && self.supports(t)
                    && self.applicable(t, pp2) && self.superior(t, s)) by {
                if self.discarded(s, pn) {
                    self.lemma_discarded_mono(s, pn, pn2);
                } else {
                    self.lemma_applicable_mono(s, pp, pp2);
                    let t = choose|t: int|
                        0 <= t < self.nr() && #[trigger] self.head(t) == q && self.supports(t)
                            && self.applicable(t, pp) && self.superior(t, s);
                    self.lemma_applicable_mono(t, pp, pp2);
                }
            }
        }
    }

    /// Once every decided literal is propagated and the two sets are
    /// disjoint, the running condition is the final proof condition.
    pub proof fn lemma_plus_ok_final(&self, d: Set<int>, p: Set<int>, n: Set<int>, q: int)
        requires
            p.disjoint(n),
            self.plus_ok_state(d, p, n, q),
        ensures
            self.plus_ok(d, p, q),
    {
        if !d.contains(q) {
            assert forall|s: int|
                0 <= s < self.nr() && #[trigger] self.head(s) == comp(q) && self.applicable(s, p)
                    implies self.kind(s) != RuleType::Strict && exists|t: int|
                0 <= t < self.nr() && #[trigger] self.head(t) == q && self.supports(t)
                    && self.applicable(t, p) && self.superior(t, s) by {
                if self.discarded(s, n) {
                    let i = choose|i: int|
                        0 <= i < self.body(s).len() && n.contains(#[trigger] self.body(s)[i] as int);
                    assert(p.contains(self.body(s)[i] as int));
                }
            }
        }
    }
}

/// The literals decided among the first `k` decisions, +d when `pos`, -d
/// otherwise.
pub open spec fn decided_set(ps: Seq<(usize, bool)>, k: int, pos: bool) -> Set<int> {
    Set::new(|l: int| exists|j: int| 0 <= j < k && (#[trigger] ps[j]).0 == l && ps[j].1 == pos)
}

/// Decisions about distinct literals never put a literal in both sets.
pub proof fn lemma_decided_disjoint(ps: Seq<(usize, bool)>, k: int)
    requires
        forall|i: int, j: int|
            0 <= i < ps.len() && 0 <= j < ps.len() && i != j ==> (#[trigger] ps[i]).0 != (#[trigger] ps[j]).0,
        0 <= k <= ps.len(),
    ensures
        decided_set(ps, k, true).disjoint(decided_set(ps, k, false)),
{
    assert forall|l: int| decided_set(ps, k, true).contains(l) implies !decided_set(ps, k, false).contains(l) by {
        let i = choose|i: int| 0 <= i < k && (#[trigger] ps[i]).0 == l && ps[i].1 == true;
        if decided_set(ps, k, false).contains(l) {
            let j = choose|j: int| 0 <= j < k && (#[trigger] ps[j]).0 == l && ps[j].1 == false;
            assert(ps[i].0 == ps[j].0);
        }
    }
}

/// A longer history has the same decisions among its first `k`.
pub proof fn lemma_decided_prefix(ps: Seq<(usize, bool)>, qs: Seq<(usize, bool)>, k: int, pos: bool)
    requires
        ps.is_prefix_of(qs),
        0 <= k <= ps.len(),
    ensures
        decided_set(ps, k, pos) == decided_set(qs, k, pos),
{
    assert forall|l: int| decided_set(ps, k, pos).contains(l) <==> decided_set(qs, k, pos).contains(l) by {
        if decided_set(qs, k, pos).contains(l) {
            let j = choose|j: int| 0 <= j < k && (#[trigger] qs[j]).0 == l && qs[j].1 == pos;
            assert(ps[j] == qs[j]);
        }
        if decided_set(ps, k, pos).contains(l) {
            let j = choose|j: int| 0 <= j < k && (#[trigger] ps[j]).0 == l && ps[j].1 == pos;
            assert(ps[j] == qs[j]);
        }
    }
    assert(decided_set(ps, k, pos) =~= decided_set(qs, k, pos));
}

impl Compiled {
    /// Decision `k` of the history was justified by the decisions before
    /// it: a +d decision by +D (with `~q` not +D) or by the +d check, a -d
    /// decision by the -d condition.
    pub open spec fn justified(&self, d: Set<int>, ps: Seq<(usize, bool)>, k: int) -> bool {
        let q = ps[k].0 as int;
        let pp = decided_set(ps, k, true);
        let pn = decided_set(ps, k, false);
        if ps[k].1 {
            (d.contains(q) && !d.contains(comp(q))) || self.prove_ready(d, pp, pn, q)
        } else {
            self.minus_ok(d, pp, pn, q)
        }
    }
}

/// The +d literals of a history of decisions, in the order decided.
pub open spec fn plus_order(ps: Seq<(usize, bool)>) -> Seq<usize>
    decreases ps.len(),
{
    if ps.len() == 0 {
        Seq::empty()
    } else if ps.last().1 {
        plus_order(ps.drop_last()).push(ps.last().0)
    } else {
        plus_order(ps.drop_last())
    }
}

/// Every decision of the history is justified by those before it.
#[verifier::opaque]
pub open spec fn history_ok(ct: &Compiled, d: Set<int>, ps: Seq<(usize, bool)>) -> bool {
    forall|k: int| 0 <= k < ps.len() ==> #[trigger] ct.justified(d, ps, k)
}

/// The decisions of a justified history fall inside every closed pair.
pub proof fn lemma_history_least(
    ct: &Compiled,
    d: Set<int>,
    ps: Seq<(usize, bool)>,
    k: int,
    pp: Set<int>,
    pn: Set<int>,
)
    requires
        history_ok(ct, d, ps),
        0 <= k <= ps.len(),
        forall|j: int| 0 <= j < ps.len() ==> (#[trigger] ps[j]).0 < ct.n_lits,
        ct.closed(d, pp, pn),
    ensures
        decided_set(ps, k, true).subset_of(pp),
        decided_set(ps, k, false).subset_of(pn),
    decreases k,
{
    reveal(history_ok);
    if k > 0 {
        lemma_history_least(ct, d, ps, k - 1, pp, pn);
        let q = ps[k - 1].0 as int;
        let a = decided_set(ps, k - 1, true);
        let b = decided_set(ps, k - 1, false);
        assert(ct.justified(d, ps, k - 1));
        if ps[k - 1].1 {
            if !(d.contains(q) && !d.contains(comp(q))) {
                ct.lemma_prove_ready_mono(d, a, b, pp, pn, q);
            }
            assert(pp.contains(q));
        } else {
            ct.lemma_minus_ok_mono(d, a, b, pp, pn, q);
            assert(pn.contains(q));
        }
        assert forall|l: int| decided_set(ps, k, true).contains(l) implies pp.contains(l) by {
            let j = choose|j: int| 0 <= j < k && (#[trigger] ps[j]).0 == l && ps[j].1 == true;
            if j < k - 1 {
                assert(a.contains(l));
            }
        }
        assert forall|l: int| decided_set(ps, k, false).contains(l) implies pn.contains(l) by {
            let j = choose|j: int| 0 <= j < k && (#[trigger] ps[j]).0 == l && ps[j].1 == false;
            if j < k - 1 {
                assert(b.contains(l));
            }
        }
    }
}

/// The state of the defeasible phase.
pub struct DState {
    /// Literals decided +d.
    pub p: BitSet,
    /// Literals decided -d.
    pub n: BitSet,
    /// Per rule: body literals not yet propagated as +d.
    pub rem: RuleCounts,
    /// Per rule: whether a body literal was propagated as -d.
    pub disc: RuleFlags,
    /// Decisions waiting to be propagated.
    pub work: VecDeque<(usize, bool)>,
    /// The +d literals in the order they were decided.
    pub plog: Vec<usize>,
    /// The rule behind each entry of `plog` (none when it came from +D).
    pub prule: Vec<Option<usize>>,
    /// Per entry of `plog`: how many decisions had been propagated when it
    /// was decided.
    pub pmark: Ghost<Seq<int>>,
    /// Literals propagated as +d.
    pub pop_p: Ghost<Set<int>>,
    /// Literals propagated as -d.
    pub pop_n: Ghost<Set<int>>,
    /// Every decision in the order it was made.
    pub pushes: Ghost<Seq<(usize, bool)>>,
    /// How many decisions were propagated.
    pub n_popped: Ghost<int>,
}

impl DState {
    /// Everything but the rule counters.
    pub open spec fn inv_core(&self, ct: &Compiled, d: Set<int>) -> bool {
        &&& ct.wf()
        &&& self.p.capacity() == ct.n_lits
        &&& self.n.capacity() == ct.n_lits
        &&& self.p.members().disjoint(self.n.members())
        &&& self.rem@.len() == ct.nr()
        &&& self.disc@.len() == ct.nr()
        &&& 0 <= self.n_popped@ <= self.pushes@.len() <= ct.n_lits
        &&& self.work@ == self.pushes@.subrange(self.n_popped@, self.pushes@.len() as int)
        &&& forall|i: int, j: int|
            0 <= i < self.pushes@.len() && 0 <= j < self.pushes@.len() && i != j
                ==> (#[trigger] self.pushes@[i]).0 != (#[trigger] self.pushes@[j]).0
        &&& forall|l: int|
            self.p.members().contains(l) <==> exists|k: int|
                0 <= k < self.pushes@.len() && (#[trigger] self.pushes@[k]).0 == l && self.pushes@[k].1
        &&& forall|l: int|
            self.n.members().contains(l) <==> exists|k: int|
                0 <= k < self.pushes@.len() && (#[trigger] self.pushes@[k]).0 == l && !self.pushes@[k].1
        &&& forall|k: int| 0 <= k < self.pushes@.len() ==> (#[trigger] self.pushes@[k]).0 < ct.n_lits
        &&& forall|l: int|
            self.pop_p@.contains(l) <==> exists|k: int|
                0 <= k < self.n_popped@ && (#[trigger] self.pushes@[k]).0 == l && self.pushes@[k].1
        &&& forall|l: int|
            self.pop_n@.contains(l) <==> exists|k: int|
                0 <= k < self.n_popped@ && (#[trigger] self.pushes@[k]).0 == l && !self.pushes@[k].1
        &&& forall|q: int| #[trigger] self.p.members().contains(q) ==> ct.plus_ok_state(
            d,
            self.pop_p@,
            self.pop_n@,
            q,
        )
        &&& forall|q: int| #[trigger] self.n.members().contains(q) ==> ct.minus_ok(
            d,
            self.pop_p@,
            self.pop_n@,
            q,
        )
        &&& history_ok(ct, d, self.pushes@)
        &&& self.plog@ == plus_order(self.pushes@)
        &&& self.plog@.no_duplicates()
        &&& self.plog@.len() == self.prule@.len()
        &&& forall|i: int|
            0 <= i < self.prule@.len() ==> ((#[trigger] self.prule@[i]) is None <==> (d.contains(self.plog@[i] as int)
                && !d.contains(comp(self.plog@[i] as int))))
        &&& forall|i: int| 0 <= i < self.plog@.len() ==> self.p.members().contains(#[trigger] self.plog@[i] as int)
        &&& forall|l: int| self.p.members().contains(l) ==> holds(self.plog@, l)
        &&& self.pmark@.len() == self.prule@.len()
        &&& forall|i: int| 0 <= i < self.pmark@.len() ==> 0 <= #[trigger] self.pmark@[i] <= self.n_popped@
        &&& forall|i: int, j: int|
            0 <= i < self.pmark@.len() && 0 <= j < self.pmark@[i] ==> (#[trigger] self.pushes@[j]).0 != #[trigger] self.plog@[i]
        &&& forall|i: int|
            0 <= i < self.prule@.len() ==> (#[trigger] self.prule@[i] matches Some(r) ==> ct.first_live(
                decided_set(self.pushes@, self.pmark@[i], true),
                decided_set(self.pushes@, self.pmark@[i], false),
                self.plog@[i] as int,
                r as int,
            ))
        &&& forall|i: int|
            0 <= i < self.prule@.len() ==> match #[trigger] self.prule@[i] {
                Some(r) => {
                    &&& 0 <= r < ct.nr()
                    &&& ct.head(r as int) == self.plog@[i]
                    &&& ct.supports(r as int)
                    &&& ct.applicable(r as int, self.pop_p@)
                },
                None => true,
            }
    }

    /// The rule counters match the propagated literals.
    pub open spec fn inv_counts(&self, ct: &Compiled) -> bool {
        &&& forall|r: int| 0 <= r < ct.nr() ==> #[trigger] self.rem@[r] == count_missing(ct.body(r), self.pop_p@)
        &&& forall|r: int| 0 <= r < ct.nr() ==> #[trigger] self.disc@[r] == ct.discarded(r, self.pop_n@)
    }

    /// The full invariant.
    pub open spec fn inv(&self, ct: &Compiled, d: Set<int>) -> bool {
        self.inv_core(ct, d) && self.inv_counts(ct)
    }

    /// A literal is decided iff some decision names it.
    pub proof fn lemma_decided(&self, ct: &Compiled, d: Set<int>, l: int)
        requires
            self.inv_core(ct, d),
            0 <= l,
        ensures
            (self.p.members().contains(l) || self.n.members().contains(l)) <==> exists|k: int|
                0 <= k < self.pushes@.len() && (#[trigger] self.pushes@[k]).0 == l,
    {
        if self.p.members().contains(l) {
            let k = choose|k: int| 0 <= k < self.pushes@.len() && (#[trigger] self.pushes@[k]).0 == l && self.pushes@[k].1;
        }
        if self.n.members().contains(l) {
            let k = choose|k: int| 0 <= k < self.pushes@.len() && (#[trigger] self.pushes@[k]).0 == l && !self.pushes@[k].1;
        }
    }

    /// The decisions fit in the literal range.
    pub proof fn lemma_pushes_bound(&self, ct: &Compiled, d: Set<int>)
        requires
            self.inv_core(ct, d),
        ensures
            self.pushes@.len() <= ct.n_lits,
    {
    }
}

/// Record a decision for an undecided literal.
fn decide(st: &mut DState, ct: &Compiled, Ghost(d): Ghost<Set<int>>, q: usize, positive: bool, rule: Option<usize>)
    requires
        old(st).inv(ct, d),
        q < ct.n_lits,
        !old(st).p.members().contains(q as int),
        !old(st).n.members().contains(q as int),
        positive ==> ct.plus_ok_state(d, old(st).pop_p@, old(st).pop_n@, q as int),
        positive ==> (d.contains(q as int) && !d.contains(comp(q as int))) || ct.prove_ready(
            d,
            old(st).pop_p@,
            old(st).pop_n@,
            q as int,
        ),
        !positive ==> ct.minus_ok(d, old(st).pop_p@, old(st).pop_n@, q as int),
        positive ==> (rule is None <==> (d.contains(q as int) && !d.contains(comp(q as int)))),
        positive ==> match rule {
            Some(r) => {
                &&& 0 <= r < ct.nr()
                &&& ct.head(r as int) == q
                &&& ct.supports(r as int)
                &&& ct.applicable(r as int, old(st).pop_p@)
                &&& ct.first_live(old(st).pop_p@, old(st).pop_n@, q as int, r as int)
            },
            None => true,
        },
    ensures
        final(st).inv(ct, d),
        final(st).pop_p@ == old(st).pop_p@,
        final(st).pop_n@ == old(st).pop_n@,
        final(st).n_popped@ == old(st).n_popped@,
        final(st).rem@ == old(st).rem@,
        final(st).disc@ == old(st).disc@,
        final(st).pushes@ == old(st).pushes@.push((q, positive)),
        positive ==> final(st).p.members() == old(st).p.members().insert(q as int),
        positive ==> final(st).n.members() == old(st).n.members(),
        !positive ==> final(st).n.members() == old(st).n.members().insert(q as int),
        !positive ==> final(st).p.members() == old(st).p.members(),
{
    proof {
        st.lemma_decided(ct, d, q as int);
        assert(!exists|k: int| 0 <= k < st.pushes@.len() && (#[trigger] st.pushes@[k]).0 == q);
    }
    let ghost old_pushes = st.pushes@;
    let ghost old_plog = st.plog@;
    let ghost old_p = st.p.members();
    let ghost old_n = st.n.members();
    let ghost old_prule = st.prule@;
    let ghost old_pmark = st.pmark@;
    if positive {
        st.p.insert(q);
        st.plog.push(q);
        st.prule.push(rule);
        proof {
            st.pmark@ = st.pmark@.push(st.n_popped@);
        }
    } else {
        st.n.insert(q);
    }
    st.work.push_back((q, positive));
    proof {
        st.pushes@ = st.pushes@.push((q, positive));
        let ps = st.pushes@;
        assert(st.work@ =~= ps.subrange(st.n_popped@, ps.len() as int));
        assert forall|i: int, j: int|
            0 <= i < ps.len() && 0 <= j < ps.len() && i != j implies (#[trigger] ps[i]).0 != (#[trigger] ps[j]).0 by {
            if i < old_pushes.len() && j < old_pushes.len() {
                assert(old_pushes[i] == ps[i] && old_pushes[j] == ps[j]);
            } else if i == old_pushes.len() {
                assert(old_pushes[j] == ps[j]);
            } else {
                assert(old_pushes[i] == ps[i]);
            }
        }
        assert forall|k: int| 0 <= k < ps.len() implies (#[trigger] ps[k]).0 < ct.n_lits by {
            if k < old_pushes.len() {
                assert(old_pushes[k] == ps[k]);
            }
        }
        assert forall|l: int|
            st.p.members().contains(l) <==> exists|k: int|
                0 <= k < ps.len() && (#[trigger] ps[k]).0 == l && ps[k].1 by {
            if st.p.members().contains(l) {
                if old_p.contains(l) {
                    let k = choose|k: int| 0 <= k < old_pushes.len() && (#[trigger] old_pushes[k]).0 == l && old_pushes[k].1;
                    assert(ps[k] == old_pushes[k]);
                } else {
                    assert(ps[old_pushes.len() as int].0 == l && ps[old_pushes.len() as int].1);
                }
            }
            if exists|k: int| 0 <= k < ps.len() && (#[trigger] ps[k]).0 == l && ps[k].1 {
                let k = choose|k: int| 0 <= k < ps.len() && (#[trigger] ps[k]).0 == l && ps[k].1;
                if k < old_pushes.len() {
                    assert(old_pushes[k] == ps[k]);
                }
            }
        }
        assert forall|l: int|
            st.n.members().contains(l) <==> exists|k: int|
                0 <= k < ps.len() && (#[trigger] ps[k]).0 == l && !ps[k].1 by {
            if st.n.members().contains(l) {
                if old_n.contains(l) {
                    let k = choose|k: int| 0 <= k < old_pushes.len() && (#[trigger] old_pushes[k]).0 == l && !old_pushes[k].1;
                    assert(ps[k] == old_pushes[k]);
                } else {
                    assert(ps[old_pushes.len() as int].0 == l && !ps[old_pushes.len() as int].1);
                }
            }
            if exists|k: int| 0 <= k < ps.len() && (#[trigger] ps[k]).0 == l && !ps[k].1 {
                let k = choose|k: int| 0 <= k < ps.len() && (#[trigger] ps[k]).0 == l && !ps[k].1;
                if k < old_pushes.len() {
                    assert(old_pushes[k] == ps[k]);
                }
            }
        }
        assert forall|l: int|
            st.pop_p@.contains(l) <==> exists|k: int|
                0 <= k < st.n_popped@ && (#[trigger] ps[k]).0 == l && ps[k].1 by {
            if st.pop_p@.contains(l) {
                let k = choose|k: int| 0 <= k < st.n_popped@ && (#[trigger] old_pushes[k]).0 == l && old_pushes[k].1;
                assert(ps[k] == old_pushes[k]);
            }
            if exists|k: int| 0 <= k < st.n_popped@ && (#[trigger] ps[k]).0 == l && ps[k].1 {
                let k = choose|k: int| 0 <= k < st.n_popped@ && (#[trigger] ps[k]).0 == l && ps[k].1;
                assert(old_pushes[k] == ps[k]);
            }
        }
        assert forall|l: int|
            st.pop_n@.contains(l) <==> exists|k: int|
                0 <= k < st.n_popped@ && (#[trigger] ps[k]).0 == l && !ps[k].1 by {
            if st.pop_n@.contains(l) {
                let k = choose|k: int| 0 <= k < st.n_popped@ && (#[trigger] old_pushes[k]).0 == l && !old_pushes[k].1;
                assert(ps[k] == old_pushes[k]);
            }
            if exists|k: int| 0 <= k < st.n_popped@ && (#[trigger] ps[k]).0 == l && !ps[k].1 {
                let k = choose|k: int| 0 <= k < st.n_popped@ && (#[trigger] ps[k]).0 == l && !ps[k].1;
                assert(old_pushes[k] == ps[k]);
            }
        }
        let lits = ps.map_values(|x: (usize, bool)| x.0);
        assert(lits.no_duplicates()) by {
            assert forall|i: int, j: int| 0 <= i < lits.len() && 0 <= j < lits.len() && i != j implies lits[i] != lits[j] by {
                assert(ps[i].0 != ps[j].0);
            }
        }
        assert forall|i: int| 0 <= i < lits.len() implies (#[trigger] lits[i] as int) < ct.n_lits by {
            assert(ps[i].0 < ct.n_lits);
        }
        lemma_distinct_bounded(lits, ct.n_lits as int);
        if positive {
            assert(st.plog@.no_duplicates()) by {
                assert forall|i: int, j: int|
                    0 <= i < st.plog@.len() && 0 <= j < st.plog@.len() && i != j implies st.plog@[i] != st.plog@[j] by {
                    if i == old_plog.len() {
                        assert(old_p.contains(old_plog[j] as int));
                    } else if j == old_plog.len() {
                        assert(old_p.contains(old_plog[i] as int));
                    }
                }
            }
            assert forall|l: int| st.p.members().contains(l) implies holds(st.plog@, l) by {
                if l == q {
                    assert(st.plog@[old_plog.len() as int] == q);
                } else {
                    let k = choose|k: int| 0 <= k < old_plog.len() && #[trigger] old_plog[k] == l;
                    assert(st.plog@[k] == l);
                }
            }
            assert forall|x: int| #[trigger] st.p.members().contains(x) implies ct.plus_ok_state(
                d,
                st.pop_p@,
                st.pop_n@,
                x,
            ) by {
                if x != q {
                    assert(old_p.contains(x));
                }
            }
        }
        assert(old_pushes.is_prefix_of(ps));
        assert forall|i: int|
            0 <= i < st.prule@.len() implies (#[trigger] st.prule@[i] matches Some(r) ==> ct.first_live(
                decided_set(ps, st.pmark@[i], true),
                decided_set(ps, st.pmark@[i], false),
                st.plog@[i] as int,
                r as int,
            )) by {
            if i < old_prule.len() {
                assert(st.prule@[i] == old_prule[i]);
                assert(st.pmark@[i] == old_pmark[i]);
                assert(st.plog@[i] == old_plog[i]);
                lemma_decided_prefix(old_pushes, ps, old_pmark[i], true);
                lemma_decided_prefix(old_pushes, ps, old_pmark[i], false);
            } else {
                assert(st.pop_p@ =~= decided_set(ps, st.n_popped@, true));
                assert(st.pop_n@ =~= decided_set(ps, st.n_popped@, false));
            }
        }
        assert forall|i: int, j: int|
            0 <= i < st.pmark@.len() && 0 <= j < st.pmark@[i] implies (#[trigger] ps[j]).0 != #[trigger] st.plog@[i] by {
            assert(ps[j] == old_pushes[j]);
            if i < old_pmark.len() {
                assert(st.plog@[i] == old_plog[i]);
                assert(old(st).pushes@[j].0 != old(st).plog@[i]);
            }
        }
        assert(ps.drop_last() =~= old_pushes);
        reveal(history_ok);
        lemma_justified_push(ct, d, old_pushes, ps, st.n_popped@, st.pop_p@, st.pop_n@);
    }
}

/// Appending a decision that is justified by the propagated literals keeps
/// every decision of the history justified.
proof fn lemma_justified_push(
    ct: &Compiled,
    d: Set<int>,
    old_ps: Seq<(usize, bool)>,
    ps: Seq<(usize, bool)>,
    n_popped: int,
    pp: Set<int>,
    pn: Set<int>,
)
    requires
        ps.len() == old_ps.len() + 1,
        old_ps.is_prefix_of(ps),
        0 <= n_popped <= old_ps.len(),
        forall|i: int, j: int|
            0 <= i < ps.len() && 0 <= j < ps.len() && i != j ==> (#[trigger] ps[i]).0 != (#[trigger] ps[j]).0,
        forall|k: int| 0 <= k < old_ps.len() ==> #[trigger] ct.justified(d, old_ps, k),
        forall|l: int| pp.contains(l) <==> exists|k: int| 0 <= k < n_popped && (#[trigger] old_ps[k]).0 == l && old_ps[k].1,
        forall|l: int| pn.contains(l) <==> exists|k: int| 0 <= k < n_popped && (#[trigger] old_ps[k]).0 == l && !old_ps[k].1,
        ps.last().1 ==> (d.contains(ps.last().0 as int) && !d.contains(comp(ps.last().0 as int))) || ct.prove_ready(
            d,
            pp,
            pn,
            ps.last().0 as int,
        ),
        !ps.last().1 ==> ct.minus_ok(d, pp, pn, ps.last().0 as int),
    ensures
        forall|k: int| 0 <= k < ps.len() ==> #[trigger] ct.justified(d, ps, k),
{
    assert forall|k: int| 0 <= k < ps.len() implies #[trigger] ct.justified(d, ps, k) by {
        if k < old_ps.len() {
            lemma_decided_prefix(old_ps, ps, k, true);
            lemma_decided_prefix(old_ps, ps, k, false);
            assert(ps[k] == old_ps[k]);
            assert(ct.justified(d, old_ps, k));
        } else {
            let pp2 = decided_set(ps, k, true);
            let pn2 = decided_set(ps, k, false);
            lemma_decided_disjoint(ps, k);
            assert forall|l: int| pp.contains(l) implies pp2.contains(l) by {
                let j = choose|j: int| 0 <= j < n_popped && (#[trigger] old_ps[j]).0 == l && old_ps[j].1;
                assert(ps[j] == old_ps[j]);
            }
            assert forall|l: int| pn.contains(l) implies pn2.contains(l) by {
                let j = choose|j: int| 0 <= j < n_popped && (#[trigger] old_ps[j]).0 == l && !old_ps[j].1;
                assert(ps[j] == old_ps[j]);
            }
            assert(ps[k] == ps.last());
            if ps[k].1 {
                if !(d.contains(ps[k].0 as int) && !d.contains(comp(ps[k].0 as int))) {
                    ct.lemma_prove_ready_mono(d, pp, pn, pp2, pn2, ps[k].0 as int);
                }
            } else {
                ct.lemma_minus_ok_mono(d, pp, pn, pp2, pn2, ps[k].0 as int);
            }
        }
    }
}

/// The rule counters of `r` tell whether it applies and whether it is
/// discarded.
proof fn lemma_rule_counts(st: &DState, ct: &Compiled, d: Set<int>, r: int)
    requires
        st.inv(ct, d),
        0 <= r < ct.nr(),
    ensures
        (st.rem@[r] == 0) == ct.applicable(r, st.pop_p@),
        st.disc@[r] == ct.discarded(r, st.pop_n@),
{
    lemma_count_missing_zero(ct.body(r), st.pop_p@);
}

/// Try to decide `q` as +d: some live rule supports `q`, `~q` is not +D,
/// and every rule for `~q` is discarded, or is a non-strict applicable rule
/// that a live rule for `q` beats. Does nothing otherwise.
fn try_prove(st: &mut DState, ct: &Compiled, d: &BitSet, q: usize)
    requires
        old(st).inv(ct, d.members()),
        q < ct.n_lits,
        d.capacity() == ct.n_lits,
        forall|x: int|
            0 <= x < ct.n_lits && d.members().contains(x) && !d.members().contains(comp(x)) ==> #[trigger] old(st).p.members().contains(x),
    ensures
        final(st).inv(ct, d.members()),
        final(st).pop_p@ == old(st).pop_p@,
        final(st).pop_n@ == old(st).pop_n@,
        final(st).n_popped@ == old(st).n_popped@,
        final(st).rem@ == old(st).rem@,
        final(st).disc@ == old(st).disc@,
        old(st).pushes@.is_prefix_of(final(st).pushes@),
        old(st).p.members().subset_of(final(st).p.members()),
        ({
            let ready = !old(st).p.members().contains(q as int) && !old(st).n.members().contains(q as int)
                && ct.prove_ready(d.members(), old(st).pop_p@, old(st).pop_n@, q as int);
            &&& ready ==> final(st).pushes@ == old(st).pushes@.push((q, true))
                && final(st).p.members() == old(st).p.members().insert(q as int)
                && final(st).n.members() == old(st).n.members()
            &&& !ready ==> *final(st) == *old(st)
        }),
{
    if st.p.contains(q) || st.n.contains(q) {
        proof {
            assert(st.pushes@.is_prefix_of(st.pushes@));
        }
        return;
    }
    let ghost dd = d.members();
    let ghost pp = st.pop_p@;
    let ghost pn = st.pop_n@;
    proof {
        lemma_comp_in_range(q as int, ct.n_lits as int);
    }
    let nq = complement_of(q);
    let supporters = &ct.head_index[q];
    let mut first: Option<usize> = None;
    let mut k: usize = 0;
    while k < supporters.len() && first.is_none()
        invariant
            0 <= k <= supporters@.len(),
            supporters@ == ct.head_index@[q as int]@,
            ct.wf(),
            q < ct.n_lits,
            st.inv(ct, dd),
            *st == *old(st),
            pp == st.pop_p@,
            pn == st.pop_n@,
            dd == d.members(),
            first matches Some(r) ==> 0 <= r < ct.nr() && ct.head(r as int) == q
                && ct.supports(r as int) && st.rem@[r as int] == 0 && !st.disc@[r as int],
            first is None ==> forall|j: int|
                0 <= j < k ==> !(ct.supports(#[trigger] supporters@[j] as int) && st.rem@[supporters@[j] as int] == 0
                    && !st.disc@[supporters@[j] as int]),
            first matches Some(r) ==> ct.first_live(pp, pn, q as int, r as int),
            first is None ==> forall|j: int| 0 <= j < k ==> !ct.live_for(#[trigger] supporters@[j] as int, pp, pn, q as int),
        decreases supporters@.len() - k,
    {
        let r = supporters[k];
        proof {
            assert(0 <= r < ct.nr());
            assert(ct.head_index@[q as int]@[k as int] == r);
            lemma_rule_counts(st, ct, dd, r as int);
        }
        if ct.rules[r].kind != RuleType::Defeater && st.rem.get(r) == 0 && !st.disc.get(r) {
            first = Some(r);
            proof {
                assert(ct.live_for(r as int, pp, pn, q as int));
                assert(supporters@[k as int] as int == r as int);
            }
        }
        k = k + 1;
    }
    let chosen = match first {
        None => {
            proof {
                assert(st.pushes@.is_prefix_of(st.pushes@));
                if exists|r: int| #[trigger] ct.live_for(r, pp, pn, q as int) {
                    let r = choose|r: int| #[trigger] ct.live_for(r, pp, pn, q as int);
                    lemma_rule_counts(st, ct, dd, r);
                    assert(holds(ct.head_index@[ct.head(r)]@, r));
                    let j = choose|j: int| 0 <= j < supporters@.len() && #[trigger] supporters@[j] == r;
                }
            }
            return;
        },
        Some(r) => r,
    };
    proof {
        lemma_rule_counts(st, ct, dd, chosen as int);
        assert(ct.live_for(chosen as int, pp, pn, q as int));
    }
    if d.contains(nq) {
        proof {
            assert(st.pushes@.is_prefix_of(st.pushes@));
        }
        return;
    }
    let attackers = &ct.head_index[nq];
    let mut a: usize = 0;
    while a < attackers.len()
        invariant
            0 <= a <= attackers@.len(),
            attackers@ == ct.head_index@[nq as int]@,
            supporters@ == ct.head_index@[q as int]@,
            ct.wf(),
            q < ct.n_lits,
            nq < ct.n_lits,
            nq == comp(q as int),
            st.inv(ct, dd),
            *st == *old(st),
            dd == d.members(),
            pp == st.pop_p@,
            pn == st.pop_n@,
            forall|j: int|
                0 <= j < a ==> {
                    let s = #[trigger] attackers@[j] as int;
                    ct.discarded(s, pn) || (ct.kind(s) != RuleType::Strict && ct.applicable(s, pp) && exists|t: int|
                        #[trigger] ct.live_for(t, pp, pn, q as int) && ct.superior(t, s))
                },
        decreases attackers@.len() - a,
    {
        let s = attackers[a];
        proof {
            assert(0 <= s < ct.nr());
            assert(ct.head(s as int) == comp(q as int));
            lemma_rule_counts(st, ct, dd, s as int);
        }
        if st.disc.get(s) {
            a = a + 1;
            continue;
        }
        if st.rem.get(s) > 0 {
            proof {
                assert(st.pushes@.is_prefix_of(st.pushes@));
            }
            return;
        }
        if ct.rules[s].kind == RuleType::Strict {
            proof {
                assert(st.pushes@.is_prefix_of(st.pushes@));
            }
            return;
        }
        let mut defeated = false;
        let mut j: usize = 0;
        while j < supporters.len()
            invariant
                0 <= j <= supporters@.len(),
                supporters@ == ct.head_index@[q as int]@,
                ct.wf(),
                q < ct.n_lits,
                0 <= s < ct.nr(),
                st.inv(ct, dd),
                *st == *old(st),
                dd == d.members(),
                pp == st.pop_p@,
                pn == st.pop_n@,
                defeated ==> exists|t: int| #[trigger] ct.live_for(t, pp, pn, q as int) && ct.superior(t, s as int),
                !defeated ==> forall|jj: int|
                    0 <= jj < j ==> !(ct.supports(#[trigger] supporters@[jj] as int)
                        && st.rem@[supporters@[jj] as int] == 0 && !st.disc@[supporters@[jj] as int]
                        && ct.superior(supporters@[jj] as int, s as int)),
            ensures
                !defeated ==> j == supporters@.len(),
            decreases supporters@.len() - j,
        {
            let t = supporters[j];
            proof {
                assert(0 <= t < ct.nr() && ct.head(t as int) == q) by {
                    assert(ct.head_index@[q as int]@[j as int] == t);
                }
            }
            if ct.rules[t].kind != RuleType::Defeater && st.rem.get(t) == 0 && !st.disc.get(t) && ct.is_superior(t, s) {
                proof {
                    lemma_rule_counts(st, ct, dd, t as int);
                    assert(ct.live_for(t as int, pp, pn, q as int));
                }
                defeated = true;
                break;
            }
            j = j + 1;
        }
        if !defeated {
            proof {
                assert(st.pushes@.is_prefix_of(st.pushes@));
                assert(!exists|t: int| #[trigger] ct.live_for(t, pp, pn, q as int) && ct.superior(t, s as int)) by {
                    if exists|t: int| #[trigger] ct.live_for(t, pp, pn, q as int) && ct.superior(t, s as int) {
                        let t = choose|t: int| #[trigger] ct.live_for(t, pp, pn, q as int) && ct.superior(t, s as int);
                        lemma_rule_counts(st, ct, dd, t);
                        assert(holds(ct.head_index@[ct.head(t)]@, t));
                        let jj = choose|jj: int| 0 <= jj < supporters@.len() && #[trigger] supporters@[jj] == t;
                        assert(ct.supports(supporters@[jj] as int));
                    }
                }
                assert(ct.head(s as int) == comp(q as int));
                assert(!ct.discarded(s as int, pn));
                assert(ct.kind(s as int) != RuleType::Strict);
                assert(!ct.prove_ready(dd, pp, pn, q as int));
            }
            return;
        }
        a = a + 1;
    }
    proof {
        assert forall|s: int|
            0 <= s < ct.nr() && #[trigger] ct.head(s) == comp(q as int) implies ct.discarded(s, pn) || (
            ct.kind(s) != RuleType::Strict && ct.applicable(s, pp) && exists|t: int|
                #[trigger] ct.live_for(t, pp, pn, q as int) && ct.superior(t, s)) by {
            assert(holds(ct.head_index@[ct.head(s)]@, s));
            let j = choose|j: int| 0 <= j < attackers@.len() && #[trigger] attackers@[j] == s;
        }
        assert(ct.prove_ready(dd, pp, pn, q as int));
        assert forall|s: int|
            0 <= s < ct.nr() && #[trigger] ct.head(s) == comp(q as int) implies ct.discarded(s, pn) || (
            ct.kind(s) != RuleType::Strict && ct.applicable(s, pp) && exists|t: int|
                0 <= t < ct.nr() && #[trigger] ct.head(t) == q && ct.supports(t)
                    && ct.applicable(t, pp) && ct.superior(t, s)) by {
            if !ct.discarded(s, pn) {
                let t = choose|t: int| #[trigger] ct.live_for(t, pp, pn, q as int) && ct.superior(t, s);
                assert(ct.head(t) == q);
            }
        }
        assert(ct.head(chosen as int) == q);
        assert(ct.plus_ok_state(dd, pp, pn, q as int));
    }
    let ghost before = st.pushes@;
    decide(st, ct, Ghost(dd), q, true, Some(chosen));
    proof {
        assert(before.is_prefix_of(st.pushes@));
    }
}


/// Try to decide `q` as -d: `q` is not +D and either `~q` is +D, every
/// supporting rule for `q` is discarded, or some applicable, undiscarded rule
/// for `~q` is beaten by no supporting, undiscarded rule for `q`. Does
/// nothing otherwise.
fn try_disprove(st: &mut DState, ct: &Compiled, d: &BitSet, q: usize)
    requires
        old(st).inv(ct, d.members()),
        q < ct.n_lits,
        d.capacity() == ct.n_lits,
    ensures
        final(st).inv(ct, d.members()),
        final(st).pop_p@ == old(st).pop_p@,
        final(st).pop_n@ == old(st).pop_n@,
        final(st).n_popped@ == old(st).n_popped@,
        final(st).rem@ == old(st).rem@,
        final(st).disc@ == old(st).disc@,
        old(st).pushes@.is_prefix_of(final(st).pushes@),
        final(st).p.members() == old(st).p.members(),
        ({
            let ready = !old(st).p.members().contains(q as int) && !old(st).n.members().contains(q as int)
                && ct.disprove_ready(d.members(), old(st).pop_p@, old(st).pop_n@, q as int);
            &&& ready ==> final(st).pushes@ == old(st).pushes@.push((q, false))
                && final(st).n.members() == old(st).n.members().insert(q as int)
            &&& !ready ==> *final(st) == *old(st)
        }),
{
    let ghost dd = d.members();
    let ghost pp = st.pop_p@;
    let ghost pn = st.pop_n@;
    if st.p.contains(q) || st.n.contains(q) {
        proof {
            assert(st.pushes@.is_prefix_of(st.pushes@));
        }
        return;
    }
    if d.contains(q) {
        proof {
            assert(st.pushes@.is_prefix_of(st.pushes@));
        }
        return;
    }
    proof {
        lemma_comp_in_range(q as int, ct.n_lits as int);
    }
    let nq = complement_of(q);
    if d.contains(nq) {
        let ghost before = st.pushes@;
        decide(st, ct, Ghost(dd), q, false, None);
        proof {
            assert(before.is_prefix_of(st.pushes@));
        }
        return;
    }
    let supporters = &ct.head_index[q];
    let mut all_discarded = true;
    let mut k: usize = 0;
    while k < supporters.len()
        invariant
            0 <= k <= supporters@.len(),
            supporters@ == ct.head_index@[q as int]@,
            ct.wf(),
            q < ct.n_lits,
            st.inv(ct, dd),
            *st == *old(st),
            pp == st.pop_p@,
            pn == st.pop_n@,
            all_discarded ==> forall|j: int|
                0 <= j < k ==> ct.supports(#[trigger] supporters@[j] as int) ==> st.disc@[supporters@[j] as int],
            !all_discarded ==> exists|r: int|
                0 <= r < ct.nr() && #[trigger] ct.head(r) == q && ct.supports(r) && !ct.discarded(r, pn),
        decreases supporters@.len() - k,
    {
        let r = supporters[k];
        proof {
            assert(0 <= r < ct.nr());
            assert(ct.head_index@[q as int]@[k as int] == r);
            lemma_rule_counts(st, ct, dd, r as int);
        }
        if ct.rules[r].kind != RuleType::Defeater && !st.disc.get(r) {
            all_discarded = false;
        }
        k = k + 1;
    }
    if all_discarded {
        proof {
            assert forall|r: int|
                0 <= r < ct.nr() && #[trigger] ct.head(r) == q && ct.supports(r) implies ct.discarded(r, pn) by {
                lemma_rule_counts(st, ct, dd, r);
                assert(holds(ct.head_index@[ct.head(r)]@, r));
                let j = choose|j: int| 0 <= j < supporters@.len() && #[trigger] supporters@[j] == r;
            }
        }
        let ghost before = st.pushes@;
        decide(st, ct, Ghost(dd), q, false, None);
        proof {
            assert(before.is_prefix_of(st.pushes@));
        }
        return;
    }
    let attackers = &ct.head_index[nq];
    let mut a: usize = 0;
    while a < attackers.len()
        invariant
            0 <= a <= attackers@.len(),
            attackers@ == ct.head_index@[nq as int]@,
            supporters@ == ct.head_index@[q as int]@,
            ct.wf(),
            q < ct.n_lits,
            nq < ct.n_lits,
            nq == comp(q as int),
            st.inv(ct, dd),
            dd == d.members(),
            !dd.contains(q as int),
            !dd.contains(nq as int),
            pp == st.pop_p@,
            pn == st.pop_n@,
            !st.p.members().contains(q as int),
            !st.n.members().contains(q as int),
            *st == *old(st),
            forall|j: int|
                0 <= j < a ==> {
                    let s = #[trigger] attackers@[j] as int;
                    !ct.applicable(s, pp) || ct.discarded(s, pn) || exists|t: int|
                        0 <= t < ct.nr() && #[trigger] ct.head(t) == q && ct.supports(t) && !ct.discarded(t, pn)
                            && ct.superior(t, s)
                },
        decreases attackers@.len() - a,
    {
        let s = attackers[a];
        proof {
            assert(0 <= s < ct.nr());
            assert(ct.head(s as int) == comp(q as int));
            lemma_rule_counts(st, ct, dd, s as int);
        }
        if st.rem.get(s) > 0 || st.disc.get(s) {
            a = a + 1;
            continue;
        }
        let mut undecided_superior = false;
        let mut all_fail = true;
        let mut j: usize = 0;
        while j < supporters.len()
            invariant
                0 <= j <= supporters@.len(),
                supporters@ == ct.head_index@[q as int]@,
                ct.wf(),
                q < ct.n_lits,
                0 <= s < ct.nr(),
                st.inv(ct, dd),
                *st == *old(st),
                pn == st.pop_n@,
                undecided_superior ==> !all_fail,
                all_fail ==> forall|jj: int|
                    0 <= jj < j ==> !(ct.supports(#[trigger] supporters@[jj] as int)
                        && !st.disc@[supporters@[jj] as int] && ct.superior(supporters@[jj] as int, s as int)),
                !all_fail ==> exists|t: int|
                    0 <= t < ct.nr() && #[trigger] ct.head(t) == q && ct.supports(t) && !ct.discarded(t, pn)
                        && ct.superior(t, s as int),
            decreases supporters@.len() - j,
        {
            let t = supporters[j];
            proof {
                assert(0 <= t < ct.nr());
                assert(ct.head_index@[q as int]@[j as int] == t);
                lemma_rule_counts(st, ct, dd, t as int);
            }
            if ct.rules[t].kind != RuleType::Defeater {
                let sup = ct.is_superior(t, s);
                if !st.disc.get(t) && st.rem.get(t) > 0 && sup {
                    undecided_superior = true;
                }
                if !st.disc.get(t) && sup {
                    all_fail = false;
                }
            }
            j = j + 1;
        }
        if !undecided_superior && all_fail {
            proof {
                assert forall|t: int|
                    0 <= t < ct.nr() && #[trigger] ct.head(t) == q && ct.supports(t) && !ct.discarded(t, pn)
                        implies !ct.superior(t, s as int) by {
                    lemma_rule_counts(st, ct, dd, t);
                    assert(holds(ct.head_index@[ct.head(t)]@, t));
                    let jj = choose|jj: int| 0 <= jj < supporters@.len() && #[trigger] supporters@[jj] == t;
                }
                assert(ct.applicable(s as int, pp));
                assert(!ct.discarded(s as int, pn));
                assert(!dd.contains(q as int) && !dd.contains(comp(q as int)));
                assert(ct.head(s as int) == comp(q as int));
                assert(ct.disprove_ready(dd, pp, pn, q as int));
            }
            let ghost before = st.pushes@;
            decide(st, ct, Ghost(dd), q, false, None);
            proof {
                assert(before.is_prefix_of(st.pushes@));
            }
            return;
        }
        a = a + 1;
    }
    proof {
        assert(st.pushes@.is_prefix_of(st.pushes@));
        assert forall|s: int|
            0 <= s < ct.nr() && #[trigger] ct.head(s) == comp(q as int) && ct.applicable(s, pp) && !ct.discarded(s, pn)
                implies exists|t: int|
                0 <= t < ct.nr() && #[trigger] ct.head(t) == q && ct.supports(t) && !ct.discarded(t, pn)
                    && ct.superior(t, s) by {
            assert(holds(ct.head_index@[ct.head(s)]@, s));
            let j = choose|j: int| 0 <= j < attackers@.len() && #[trigger] attackers@[j] == s;
        }
        assert(!ct.disprove_ready(dd, pp, pn, q as int));
    }
}


/// Try every literal once: to prove it (+d), then to disprove it (-d).
/// When nothing is decided the state is unchanged, and then no undecided
/// literal passes either check.
fn check_all(st: &mut DState, ct: &Compiled, d: &BitSet)
    requires
        old(st).inv(ct, d.members()),
        d.capacity() == ct.n_lits,
        forall|x: int|
            0 <= x < ct.n_lits && d.members().contains(x) && !d.members().contains(comp(x)) ==> #[trigger] old(st).p.members().contains(x),
    ensures
        final(st).inv(ct, d.members()),
        final(st).n_popped@ == old(st).n_popped@,
        old(st).pushes@.is_prefix_of(final(st).pushes@),
        old(st).p.members().subset_of(final(st).p.members()),
        old(st).n.members().subset_of(final(st).n.members()),
        final(st).pushes@.len() == old(st).pushes@.len() ==> *final(st) == *old(st),
        final(st).pushes@.len() == old(st).pushes@.len() ==> forall|x: int|
            0 <= x < ct.n_lits && !old(st).p.members().contains(x) && !old(st).n.members().contains(x)
                ==> !#[trigger] ct.prove_ready(d.members(), old(st).pop_p@, old(st).pop_n@, x)
                && !ct.disprove_ready(d.members(), old(st).pop_p@, old(st).pop_n@, x),
{
    let ghost dd = d.members();
    let ghost s0 = *st;
    let n = ct.n_lits;
    let mut q: usize = 0;
    while q < n
        invariant
            0 <= q <= n,
            n == ct.n_lits,
            st.inv(ct, dd),
            dd == d.members(),
            d.capacity() == n,
            st.n_popped@ == s0.n_popped@,
            s0.pushes@.is_prefix_of(st.pushes@),
            s0.p.members().subset_of(st.p.members()),
            s0.n.members().subset_of(st.n.members()),
            forall|x: int| 0 <= x < n && dd.contains(x) && !dd.contains(comp(x)) ==> #[trigger] st.p.members().contains(x),
            st.pushes@.len() == s0.pushes@.len() ==> *st == s0,
            st.pushes@.len() == s0.pushes@.len() ==> forall|x: int|
                0 <= x < q && !s0.p.members().contains(x) && !s0.n.members().contains(x) ==> !#[trigger] ct.prove_ready(
                    dd,
                    s0.pop_p@,
                    s0.pop_n@,
                    x,
                ) && !ct.disprove_ready(dd, s0.pop_p@, s0.pop_n@, x),
        decreases n - q,
    {
        let ghost sa = *st;
        try_prove(st, ct, d, q);
        let ghost sb = *st;
        try_disprove(st, ct, d, q);
        proof {
            if st.pushes@.len() == s0.pushes@.len() {
                assert(sa.pushes@.len() <= sb.pushes@.len() <= st.pushes@.len());
                assert(sa == s0);
                assert(sb == sa);
                assert(*st == sb);
                assert forall|x: int|
                    0 <= x < q + 1 && !s0.p.members().contains(x) && !s0.n.members().contains(x) implies !#[trigger] ct.prove_ready(
                        dd,
                        s0.pop_p@,
                        s0.pop_n@,
                        x,
                    ) && !ct.disprove_ready(dd, s0.pop_p@, s0.pop_n@, x) by {
                    if x < q {
                        assert(sa.pushes@.len() == s0.pushes@.len());
                    }
                }
            }
        }
        q = q + 1;
    }
}

/// Take the next decision off the work queue and fold it into the rule
/// counters. Returns `None` when nothing is left.
fn pop_and_absorb(st: &mut DState, ct: &Compiled, Ghost(d): Ghost<Set<int>>) -> (r: Option<(usize, bool)>)
    requires
        old(st).inv(ct, d),
    ensures
        final(st).inv(ct, d),
        final(st).pushes@ == old(st).pushes@,
        final(st).p.members() == old(st).p.members(),
        final(st).n.members() == old(st).n.members(),
        r is None ==> final(st).work@.len() == 0 && final(st).n_popped@ == old(st).n_popped@,
        r matches Some((q, b)) ==> q < ct.n_lits && final(st).n_popped@ == old(st).n_popped@ + 1,
{
    let next = st.work.pop_front();
    if next.is_none() {
        return None;
    }
    match next {
        None => None,
        Some((q, b)) => {
            let ghost k0 = st.n_popped@;
            let ghost old_pp = st.pop_p@;
            let ghost old_pn = st.pop_n@;
            proof {
                assert(st.pushes@[k0] == (q, b));
                assert(q < ct.n_lits);
                assert(!old_pp.contains(q as int)) by {
                    if old_pp.contains(q as int) {
                        let k = choose|k: int| 0 <= k < k0 && (#[trigger] st.pushes@[k]).0 == q as int && st.pushes@[k].1;
                        assert(st.pushes@[k].0 == st.pushes@[k0].0);
                    }
                }
                assert(!old_pn.contains(q as int)) by {
                    if old_pn.contains(q as int) {
                        let k = choose|k: int| 0 <= k < k0 && (#[trigger] st.pushes@[k]).0 == q as int && !st.pushes@[k].1;
                        assert(st.pushes@[k].0 == st.pushes@[k0].0);
                    }
                }
                st.n_popped@ = k0 + 1;
                if b {
                    st.pop_p@ = old_pp.insert(q as int);
                } else {
                    st.pop_n@ = old_pn.insert(q as int);
                }
                let ps = st.pushes@;
                assert(st.work@ =~= ps.subrange(st.n_popped@, ps.len() as int));
                assert forall|l: int|
                    st.pop_p@.contains(l) <==> exists|k: int|
                        0 <= k < st.n_popped@ && (#[trigger] ps[k]).0 == l && ps[k].1 by {
                    if st.pop_p@.contains(l) && l != q {
                        let k = choose|k: int| 0 <= k < k0 && (#[trigger] ps[k]).0 == l && ps[k].1;
                    }
                    if st.pop_p@.contains(l) && l == q {
                        assert(ps[k0].0 == l && ps[k0].1);
                    }
                }
                assert forall|l: int|
                    st.pop_n@.contains(l) <==> exists|k: int|
                        0 <= k < st.n_popped@ && (#[trigger] ps[k]).0 == l && !ps[k].1 by {
                    if st.pop_n@.contains(l) && l != q {
                        let k = choose|k: int| 0 <= k < k0 && (#[trigger] ps[k]).0 == l && !ps[k].1;
                    }
                    if st.pop_n@.contains(l) && l == q {
                        assert(ps[k0].0 == l && !ps[k0].1);
                    }
                }
                assert forall|x: int| #[trigger] st.p.members().contains(x) implies ct.plus_ok_state(
                    d,
                    st.pop_p@,
                    st.pop_n@,
                    x,
                ) by {
                    ct.lemma_plus_ok_state_mono(d, old_pp, old_pn, st.pop_p@, st.pop_n@, x);
                }
                assert forall|i: int| 0 <= i < st.prule@.len() implies match #[trigger] st.prule@[i] {
                    Some(r) => {
                        &&& 0 <= r < ct.nr()
                        &&& ct.head(r as int) == st.plog@[i]
                        &&& ct.supports(r as int)
                        &&& ct.applicable(r as int, st.pop_p@)
                    },
                    None => true,
                } by {
                    if let Some(r) = st.prule@[i] {
                        ct.lemma_applicable_mono(r as int, old_pp, st.pop_p@);
                    }
                }
                assert forall|r: int| 0 <= r < ct.nr() implies #[trigger] st.rem@[r] == count_missing(
                    ct.body(r),
                    st.pop_p@,
                ) + (if b && holds(ct.body(r), q as int) && !holds(ct.body_index@[q as int]@.subrange(0, 0), r) {
                    1nat
                } else {
                    0nat
                }) by {
                    if b {
                        lemma_count_missing_insert(ct.body(r), old_pp, q as int);
                    }
                }
                assert forall|r: int| 0 <= r < ct.nr() && !(!b && holds(ct.body(r), q as int) && !holds(ct.body_index@[q as int]@.subrange(0, 0), r))
                    implies #[trigger] st.disc@[r] == ct.discarded(r, st.pop_n@) by {
                    if !b && ct.discarded(r, st.pop_n@) {
                        let i = choose|i: int| 0 <= i < ct.body(r).len() && st.pop_n@.contains(#[trigger] ct.body(r)[i] as int);
                        if ct.body(r)[i] == q {
                            assert(holds(ct.body(r), q as int));
                        } else {
                            assert(old_pn.contains(ct.body(r)[i] as int));
                        }
                    }
                    if !b && ct.discarded(r, old_pn) {
                        ct.lemma_discarded_mono(r, old_pn, st.pop_n@);
                    }
                }
            }
            let users = &ct.body_index[q];
            let mut k: usize = 0;
            while k < users.len()
                invariant
                    0 <= k <= users@.len(),
                    users@ == ct.body_index@[q as int]@,
                    q < ct.n_lits,
                    st.inv_core(ct, d),
                    st.pushes@ == old(st).pushes@,
                    st.p == old(st).p,
                    st.n == old(st).n,
                    st.n_popped@ == old(st).n_popped@ + 1,
                    !old_pp.contains(q as int),
                    !old_pn.contains(q as int),
                    b ==> st.pop_p@ == old_pp.insert(q as int) && st.pop_n@ == old_pn,
                    !b ==> st.pop_n@ == old_pn.insert(q as int) && st.pop_p@ == old_pp,
                    forall|r: int| 0 <= r < ct.nr() ==> #[trigger] st.rem@[r] == count_missing(
                        ct.body(r),
                        st.pop_p@,
                    ) + (if b && holds(ct.body(r), q as int) && !holds(users@.subrange(0, k as int), r) {
                        1nat
                    } else {
                        0nat
                    }),
                    forall|r: int| 0 <= r < ct.nr() && !(!b && holds(ct.body(r), q as int) && !holds(users@.subrange(0, k as int), r))
                        ==> #[trigger] st.disc@[r] == ct.discarded(r, st.pop_n@),
                decreases users@.len() - k,
            {
                let r = users[k];
                proof {
                    assert(users@[k as int] == r);
                    assert(0 <= r < ct.nr());
                    assert(holds(ct.body(r as int), q as int));
                    assert(!holds(users@.subrange(0, k as int), r as int)) by {
                        if holds(users@.subrange(0, k as int), r as int) {
                            let j = choose|j: int| 0 <= j < k && #[trigger] users@.subrange(0, k as int)[j] == r;
                            assert(users@[j] == users@[k as int]);
                            assert(ct.body_index@[q as int]@.no_duplicates());
                        }
                    }
                    assert(users@.subrange(0, k + 1) =~= users@.subrange(0, k as int).push(r));
                    assert forall|r2: int| 0 <= r2 < ct.nr() && r2 != r implies holds(users@.subrange(0, k + 1), r2) == holds(users@.subrange(0, k as int), r2) by {
                        if holds(users@.subrange(0, k + 1), r2) {
                            let j = choose|j: int| 0 <= j < k + 1 && #[trigger] users@.subrange(0, k + 1)[j] == r2;
                            assert(users@.subrange(0, k as int)[j] == r2);
                        }
                        if holds(users@.subrange(0, k as int), r2) {
                            let j = choose|j: int| 0 <= j < k && #[trigger] users@.subrange(0, k as int)[j] == r2;
                            assert(users@.subrange(0, k + 1)[j] == r2);
                        }
                    }
                    assert(holds(users@.subrange(0, k + 1), r as int)) by {
                        assert(users@.subrange(0, k + 1)[k as int] == r);
                    }
                }
                let ghost before = *st;
                if b {
                    let cur = st.rem.get(r);
                    st.rem.set(r, cur - 1);
                } else {
                    st.disc.set(r, true);
                    proof {
                        let i = choose|i: int| 0 <= i < ct.body(r as int).len() && #[trigger] ct.body(r as int)[i] == q;
                        assert(st.pop_n@.contains(ct.body(r as int)[i] as int));
                    }
                }
                proof {
                    lemma_inv_core_counters(before, *st, ct, d);
                }
                k = k + 1;
            }
            proof {
                assert(users@.subrange(0, users@.len() as int) =~= users@);
                assert forall|r: int| 0 <= r < ct.nr() implies #[trigger] st.rem@[r] == count_missing(
                    ct.body(r),
                    st.pop_p@,
                ) by {
                    if b && holds(ct.body(r), q as int) {
                        let x = choose|x: int| 0 <= x < ct.body(r).len() && #[trigger] ct.body(r)[x] == q;
                        assert(holds(ct.body_index@[ct.body(r)[x] as int]@, r));
                    }
                }
                assert forall|r: int| 0 <= r < ct.nr() implies #[trigger] st.disc@[r] == ct.discarded(r, st.pop_n@) by {
                    if !b && holds(ct.body(r), q as int) {
                        let x = choose|x: int| 0 <= x < ct.body(r).len() && #[trigger] ct.body(r)[x] == q;
                        assert(holds(ct.body_index@[ct.body(r)[x] as int]@, r));
                    }
                }
            }
            Some((q, b))
        },
    }
}

/// The invariant apart from the counters does not look at the counters'
/// values, only at how many there are.
proof fn lemma_inv_core_counters(a: DState, b: DState, ct: &Compiled, d: Set<int>)
    requires
        a.inv_core(ct, d),
        b.p == a.p,
        b.n == a.n,
        b.work == a.work,
        b.plog == a.plog,
        b.prule == a.prule,
        b.pmark == a.pmark,
        b.pop_p == a.pop_p,
        b.pop_n == a.pop_n,
        b.pushes == a.pushes,
        b.n_popped == a.n_popped,
        b.rem@.len() == a.rem@.len(),
        b.disc@.len() == a.disc@.len(),
    ensures
        b.inv_core(ct, d),
{
}

/// The result of the defeasible phase.
pub struct DefeasibleResult {
    /// The defeasibly provable literal numbers.
    pub set: BitSet,
    /// The literal numbers decided as not defeasibly provable.
    pub neg: BitSet,
    /// The +d literal numbers in the order they were decided.
    pub log: Vec<usize>,
    /// The rule behind each entry of `log` (none when it came from +D).
    pub rule_of: Vec<Option<usize>>,
    /// Every decision, +d and -d, in the order it was made.
    pub history: Ghost<Seq<(usize, bool)>>,
    /// Per entry of `log`: how many decisions of `history` had been
    /// propagated when it was decided.
    pub marks: Ghost<Seq<int>>,
}

/// Phase two: forward chaining of +d and -d decisions from the +D set,
/// then checks of every literal until none decides anything more. The +d
/// and -d sets found are the least pair closed under the +d check and the
/// -d condition.
pub fn defeasible_phase(ct: &Compiled, d: &BitSet) -> (res: DefeasibleResult)
    requires
        ct.wf(),
        d.capacity() == ct.n_lits,
    ensures
        res.set.capacity() == ct.n_lits,
        forall|q: int| #[trigger] res.set.members().contains(q) ==> ct.plus_ok(d.members(), res.set.members(), q),
        res.neg.capacity() == ct.n_lits,
        res.set.members().disjoint(res.neg.members()),
        forall|q: int| #[trigger] res.neg.members().contains(q) ==> ct.minus_ok(
            d.members(),
            res.set.members(),
            res.neg.members(),
            q,
        ),
        forall|q: int|
            0 <= q < ct.n_lits && !res.set.members().contains(q) && !res.neg.members().contains(q)
                ==> !#[trigger] ct.prove_ready(d.members(), res.set.members(), res.neg.members(), q)
                && !ct.disprove_ready(d.members(), res.set.members(), res.neg.members(), q),
        ct.closed(d.members(), res.set.members(), res.neg.members()),
        history_ok(ct, d.members(), res.history@),
        res.log@ == plus_order(res.history@),
        forall|i: int|
            0 <= i < res.rule_of@.len() ==> ((#[trigger] res.rule_of@[i]) is None <==> (d.members().contains(
                res.log@[i] as int,
            ) && !d.members().contains(comp(res.log@[i] as int)))),
        res.set.members() == decided_set(res.history@, res.history@.len() as int, true),
        res.neg.members() == decided_set(res.history@, res.history@.len() as int, false),
        forall|pp: Set<int>, pn: Set<int>|
            #[trigger] ct.closed(d.members(), pp, pn) ==> res.set.members().subset_of(pp) && res.neg.members().subset_of(pn),
        forall|q: int|
            0 <= q < ct.n_lits && d.members().contains(q) && !d.members().contains(comp(q))
                ==> #[trigger] res.set.members().contains(q),
        res.log@.no_duplicates(),
        res.log@.len() == res.rule_of@.len(),
        forall|i: int| 0 <= i < res.log@.len() ==> res.set.members().contains(#[trigger] res.log@[i] as int),
        forall|l: int| res.set.members().contains(l) ==> holds(res.log@, l),
        forall|i: int|
            0 <= i < res.rule_of@.len() ==> match #[trigger] res.rule_of@[i] {
                Some(r) => {
                    &&& 0 <= r < ct.nr()
                    &&& ct.head(r as int) == res.log@[i]
                    &&& ct.supports(r as int)
                    &&& ct.applicable(r as int, res.set.members())
                },
                None => true,
            },
        res.marks@.len() == res.rule_of@.len(),
        forall|i: int| 0 <= i < res.marks@.len() ==> 0 <= #[trigger] res.marks@[i] <= res.history@.len(),
        forall|i: int, j: int|
            0 <= i < res.marks@.len() && 0 <= j < res.marks@[i] ==> (#[trigger] res.history@[j]).0 != #[trigger] res.log@[i],
        forall|i: int|
            0 <= i < res.rule_of@.len() ==> (#[trigger] res.rule_of@[i] matches Some(r) ==> ct.first_live(
                decided_set(res.history@, res.marks@[i], true),
                decided_set(res.history@, res.marks@[i], false),
                res.log@[i] as int,
                r as int,
            )),
{
    let ghost dd = d.members();
    let n = ct.n_lits;
    let nr = ct.rules.len();
    let mut rem = RuleCounts::new();
    let mut disc = RuleFlags::new();
    let mut i: usize = 0;
    while i < nr
        invariant
            0 <= i <= nr,
            nr == ct.nr(),
            rem@.len() == i,
            disc@.len() == i,
            forall|r: int| 0 <= r < i ==> #[trigger] rem@[r] == count_missing(ct.body(r), Set::empty()),
            forall|r: int| 0 <= r < i ==> #[trigger] disc@[r] == ct.discarded(r, Set::empty()),
        decreases nr - i,
    {
        proof {
            lemma_count_missing_empty(ct.body(i as int));
        }
        rem.push(ct.rules[i].body.len());
        disc.push(false);
        i = i + 1;
    }
    let mut st = DState {
        p: BitSet::new(n),
        n: BitSet::new(n),
        rem,
        disc,
        work: VecDeque::new(),
        plog: Vec::new(),
        prule: Vec::new(),
        pmark: Ghost(Seq::empty()),
        pop_p: Ghost(Set::empty()),
        pop_n: Ghost(Set::empty()),
        pushes: Ghost(Seq::empty()),
        n_popped: Ghost(0),
    };
    proof {
        assert(st.p.members().disjoint(st.n.members()));
        assert(st.work@ =~= st.pushes@.subrange(0, 0));
        assert(st.inv_counts(ct));
        reveal(history_ok);
        assert(st.inv_core(ct, dd));
    }
    // Seed +d from +D where the complement is not +D.
    let mut l: usize = 0;
    while l < n
        invariant
            0 <= l <= n,
            n == ct.n_lits,
            st.inv(ct, dd),
            dd == d.members(),
            d.capacity() == n,
            forall|x: int| #[trigger] st.p.members().contains(x) ==> 0 <= x < l && dd.contains(x) && !dd.contains(comp(x)),
            st.n.members() == Set::<int>::empty(),
            forall|x: int|
                0 <= x < l && dd.contains(x) && !dd.contains(comp(x)) ==> #[trigger] st.p.members().contains(x),
        decreases n - l,
    {
        proof {
            lemma_comp_in_range(l as int, n as int);
        }
        let nl = complement_of(l);
        if d.contains(l) && !d.contains(nl) {
            decide(&mut st, ct, Ghost(dd), l, true, None);
        }
        l = l + 1;
    }
    // Seed -d for literals that cannot be proved.
    let mut l: usize = 0;
    while l < n
        invariant
            0 <= l <= n,
            n == ct.n_lits,
            st.inv(ct, dd),
            dd == d.members(),
            d.capacity() == n,
            forall|x: int|
                0 <= x < n && dd.contains(x) && !dd.contains(comp(x)) ==> #[trigger] st.p.members().contains(x),
            forall|x: int|
                0 <= x < l && dd.contains(x) && dd.contains(comp(x)) ==> #[trigger] st.n.members().contains(x),
            forall|x: int| #[trigger] st.p.members().contains(x) ==> dd.contains(x) && !dd.contains(comp(x)),
        decreases n - l,
    {
        if !st.p.contains(l) && !st.n.contains(l) {
            if d.contains(l) {
                decide(&mut st, ct, Ghost(dd), l, false, None);
            } else {
                let supporters = &ct.head_index[l];
                let mut has_rule = false;
                let mut k: usize = 0;
                while k < supporters.len()
                    invariant
                        0 <= k <= supporters@.len(),
                        supporters@ == ct.head_index@[l as int]@,
                        ct.wf(),
                        l < ct.n_lits,
                        !has_rule ==> forall|j: int| 0 <= j < k ==> !ct.supports(#[trigger] supporters@[j] as int),
                    decreases supporters@.len() - k,
                {
                    let r = supporters[k];
                    proof {
                        assert(0 <= r < ct.nr());
                    }
                    if ct.rules[r].kind != RuleType::Defeater {
                        has_rule = true;
                    }
                    k = k + 1;
                }
                if !has_rule {
                    proof {
                        assert forall|r: int|
                            0 <= r < ct.nr() && #[trigger] ct.head(r) == l && ct.supports(r) implies ct.discarded(
                            r,
                            st.pop_n@,
                        ) by {
                            assert(holds(ct.head_index@[ct.head(r)]@, r));
                            let j = choose|j: int| 0 <= j < supporters@.len() && #[trigger] supporters@[j] == r;
                        }
                        assert(!dd.contains(l as int));
                        assert(ct.disprove_ready(dd, st.pop_p@, st.pop_n@, l as int));
                    }
                    decide(&mut st, ct, Ghost(dd), l, false, None);
                }
            }
        }
        l = l + 1;
    }
    // Try supporting rules with an empty body.
    let mut r: usize = 0;
    while r < nr
        invariant
            0 <= r <= nr,
            nr == ct.nr(),
            n == ct.n_lits,
            st.inv(ct, dd),
            dd == d.members(),
            d.capacity() == n,
            forall|x: int|
                0 <= x < n && dd.contains(x) && !dd.contains(comp(x)) ==> #[trigger] st.p.members().contains(x),
            forall|x: int|
                0 <= x < n && dd.contains(x) && dd.contains(comp(x)) ==> #[trigger] st.n.members().contains(x),
        decreases nr - r,
    {
        if ct.rules[r].body.len() == 0 && ct.rules[r].kind != RuleType::Defeater {
            proof {
                assert(ct.head(r as int) < n);
            }
            try_prove(&mut st, ct, d, ct.rules[r].head);
        }
        r = r + 1;
    }
    // Propagate decisions to a fixed point.
    loop
        invariant_except_break
            n == ct.n_lits,
            st.inv(ct, dd),
            dd == d.members(),
            d.capacity() == n,
            forall|x: int|
                0 <= x < n && dd.contains(x) && !dd.contains(comp(x)) ==> #[trigger] st.p.members().contains(x),
            forall|x: int|
                0 <= x < n && dd.contains(x) && dd.contains(comp(x)) ==> #[trigger] st.n.members().contains(x),
        ensures
            st.inv(ct, dd),
            st.work@.len() == 0,
            forall|x: int|
                0 <= x < n && dd.contains(x) && !dd.contains(comp(x)) ==> #[trigger] st.p.members().contains(x),
            forall|x: int|
                0 <= x < n && dd.contains(x) && dd.contains(comp(x)) ==> #[trigger] st.n.members().contains(x),
        decreases n - st.n_popped@,
    {
        let ghost before = st.n_popped@;
        match pop_and_absorb(&mut st, ct, Ghost(dd)) {
            None => {
                break;
            },
            Some((q, proved)) => {
                proof {
                    lemma_comp_in_range(q as int, n as int);
                }
                let users = &ct.body_index[q];
                if proved {
                    let mut k: usize = 0;
                    while k < users.len()
                        invariant
                            0 <= k <= users@.len(),
                            users@ == ct.body_index@[q as int]@,
                            q < n,
                            n == ct.n_lits,
                            st.inv(ct, dd),
                            dd == d.members(),
                            d.capacity() == n,
                            st.n_popped@ == before + 1,
                            forall|x: int|
                                0 <= x < n && dd.contains(x) && !dd.contains(comp(x)) ==> #[trigger] st.p.members().contains(x),
                            forall|x: int|
                                0 <= x < n && dd.contains(x) && dd.contains(comp(x)) ==> #[trigger] st.n.members().contains(x),
                        decreases users@.len() - k,
                    {
                        let r = users[k];
                        proof {
                            assert(0 <= r < ct.nr());
                        }
                        if ct.rules[r].kind != RuleType::Defeater && st.rem.get(r) == 0 && !st.disc.get(r) {
                            let h = ct.rules[r].head;
                            proof {
                                assert(ct.head(r as int) < n);
                                lemma_comp_in_range(h as int, n as int);
                            }
                            try_prove(&mut st, ct, d, h);
                            let hc = complement_of(h);
                            try_prove(&mut st, ct, d, hc);
                            try_disprove(&mut st, ct, d, hc);
                        }
                        k = k + 1;
                    }
                    let mut k: usize = 0;
                    while k < users.len()
                        invariant
                            0 <= k <= users@.len(),
                            users@ == ct.body_index@[q as int]@,
                            q < n,
                            n == ct.n_lits,
                            st.inv(ct, dd),
                            dd == d.members(),
                            d.capacity() == n,
                            st.n_popped@ == before + 1,
                            forall|x: int|
                                0 <= x < n && dd.contains(x) && !dd.contains(comp(x)) ==> #[trigger] st.p.members().contains(x),
                            forall|x: int|
                                0 <= x < n && dd.contains(x) && dd.contains(comp(x)) ==> #[trigger] st.n.members().contains(x),
                        decreases users@.len() - k,
                    {
                        let r = users[k];
                        proof {
                            assert(0 <= r < ct.nr());
                        }
                        if ct.rules[r].kind == RuleType::Defeater && st.rem.get(r) == 0 && !st.disc.get(r) {
                            let h = ct.rules[r].head;
                            proof {
                                assert(ct.head(r as int) < n);
                                lemma_comp_in_range(h as int, n as int);
                            }
                            let hc = complement_of(h);
                            try_prove(&mut st, ct, d, hc);
                            try_disprove(&mut st, ct, d, hc);
                        }
                        k = k + 1;
                    }
                    let qc = complement_of(q);
                    try_disprove(&mut st, ct, d, qc);
                } else {
                    let mut k: usize = 0;
                    while k < users.len()
                        invariant
                            0 <= k <= users@.len(),
                            users@ == ct.body_index@[q as int]@,
                            q < n,
                            n == ct.n_lits,
                            st.inv(ct, dd),
                            dd == d.members(),
                            d.capacity() == n,
                            st.n_popped@ == before + 1,
                            forall|x: int|
                                0 <= x < n && dd.contains(x) && !dd.contains(comp(x)) ==> #[trigger] st.p.members().contains(x),
                            forall|x: int|
                                0 <= x < n && dd.contains(x) && dd.contains(comp(x)) ==> #[trigger] st.n.members().contains(x),
                        decreases users@.len() - k,
                    {
                        let r = users[k];
                        proof {
                            assert(0 <= r < ct.nr());
                        }
                        let h = ct.rules[r].head;
                        proof {
                            assert(ct.head(r as int) < n);
                            lemma_comp_in_range(h as int, n as int);
                        }
                        if ct.rules[r].kind != RuleType::Defeater {
                            try_disprove(&mut st, ct, d, h);
                        }
                        let hc = complement_of(h);
                        try_prove(&mut st, ct, d, hc);
                        k = k + 1;
                    }
                    let qc = complement_of(q);
                    try_prove(&mut st, ct, d, qc);
                }
            },
        }
    }
    // Check every literal once more, until no check decides anything: the
    // sets then are a fixed point of both checks.
    let mut settled = false;
    while !settled
        invariant
            n == ct.n_lits,
            st.inv(ct, dd),
            st.work@.len() == 0,
            dd == d.members(),
            d.capacity() == n,
            forall|x: int|
                0 <= x < n && dd.contains(x) && !dd.contains(comp(x)) ==> #[trigger] st.p.members().contains(x),
            forall|x: int|
                0 <= x < n && dd.contains(x) && dd.contains(comp(x)) ==> #[trigger] st.n.members().contains(x),
            settled ==> forall|x: int|
                0 <= x < n && !st.p.members().contains(x) && !st.n.members().contains(x) ==> !#[trigger] ct.prove_ready(
                    dd,
                    st.pop_p@,
                    st.pop_n@,
                    x,
                ) && !ct.disprove_ready(dd, st.pop_p@, st.pop_n@, x),
        decreases n - st.pushes@.len() + (if settled { 0int } else { 1int }),
    {
        proof {
            st.lemma_pushes_bound(ct, dd);
        }
        let ghost s0 = st;
        check_all(&mut st, ct, d);
        let q = n;
        proof {
            assert(st.work@ =~= st.pushes@.subrange(st.n_popped@, st.pushes@.len() as int));
            assert(s0.work@ =~= s0.pushes@.subrange(s0.n_popped@, s0.pushes@.len() as int));
        }
        if st.work.len() == 0 {
            proof {
                assert(st.pushes@.len() == s0.pushes@.len());
                assert(st == s0);
                assert(q == n);
                assert forall|x: int|
                    0 <= x < n && !st.p.members().contains(x) && !st.n.members().contains(x) implies !#[trigger] ct.prove_ready(
                        dd,
                        st.pop_p@,
                        st.pop_n@,
                        x,
                    ) && !ct.disprove_ready(dd, st.pop_p@, st.pop_n@, x) by {
                    assert(0 <= x < q && !s0.p.members().contains(x) && !s0.n.members().contains(x));
                }
            }
            settled = true;
        } else {
            loop
                invariant_except_break
                    n == ct.n_lits,
                    st.inv(ct, dd),
                    dd == d.members(),
                    d.capacity() == n,
                    st.pushes@.len() > s0.pushes@.len(),
                    forall|x: int|
                        0 <= x < n && dd.contains(x) && !dd.contains(comp(x)) ==> #[trigger] st.p.members().contains(x),
                    forall|x: int|
                        0 <= x < n && dd.contains(x) && dd.contains(comp(x)) ==> #[trigger] st.n.members().contains(x),
                ensures
                    st.inv(ct, dd),
                    st.work@.len() == 0,
                    st.pushes@.len() > s0.pushes@.len(),
                    forall|x: int|
                        0 <= x < n && dd.contains(x) && !dd.contains(comp(x)) ==> #[trigger] st.p.members().contains(x),
                    forall|x: int|
                        0 <= x < n && dd.contains(x) && dd.contains(comp(x)) ==> #[trigger] st.n.members().contains(x),
                decreases n - st.n_popped@,
            {
                match pop_and_absorb(&mut st, ct, Ghost(dd)) {
                    None => {
                        break;
                    },
                    Some(_) => {},
                }
            }
        }
    }
    proof {
        let ps = st.pushes@;
        assert(st.work@ =~= ps.subrange(st.n_popped@, ps.len() as int));
        assert(st.n_popped@ == ps.len());
        assert(st.pop_p@ =~= st.p.members()) by {
            assert forall|l: int| st.p.members().contains(l) implies st.pop_p@.contains(l) by {
                let k = choose|k: int| 0 <= k < ps.len() && (#[trigger] ps[k]).0 == l && ps[k].1;
            }
        }
        assert(st.pop_n@ =~= st.n.members()) by {
            assert forall|l: int| st.n.members().contains(l) implies st.pop_n@.contains(l) by {
                let k = choose|k: int| 0 <= k < ps.len() && (#[trigger] ps[k]).0 == l && !ps[k].1;
            }
        }
        assert forall|q: int| #[trigger] st.p.members().contains(q) implies ct.plus_ok(dd, st.p.members(), q) by {
            ct.lemma_plus_ok_final(dd, st.p.members(), st.n.members(), q);
        }
        let pm = st.p.members();
        let nm = st.n.members();
        assert forall|q: int| 0 <= q < n && #[trigger] ct.prove_ready(dd, pm, nm, q) implies pm.contains(q) by {
            if nm.contains(q) {
                ct.lemma_ready_not_minus(dd, pm, nm, q);
            }
        }
        assert forall|q: int| 0 <= q < n && #[trigger] ct.minus_ok(dd, pm, nm, q) implies nm.contains(q) by {
            if pm.contains(q) {
                ct.lemma_plus_not_minus(dd, pm, nm, q);
            } else if !nm.contains(q) {
                assert(!ct.prove_ready(dd, pm, nm, q));
                assert(!ct.disprove_ready(dd, pm, nm, q));
            }
        }
        assert(ct.closed(dd, pm, nm));
        assert(pm =~= decided_set(ps, ps.len() as int, true));
        assert(nm =~= decided_set(ps, ps.len() as int, false));
        assert forall|a: Set<int>, b: Set<int>| #[trigger] ct.closed(dd, a, b) implies pm.subset_of(a) && nm.subset_of(b) by {
            lemma_history_least(ct, dd, ps, ps.len() as int, a, b);
        }
    }
    DefeasibleResult { set: st.p, neg: st.n, log: st.plog, rule_of: st.prule, history: st.pushes, marks: st.pmark }
}

} // verus!
