//! Process mining: event logs of cases (traces of activities), the
//! footprint of their directly-follows relation, the Alpha algorithm's
//! Petri net, conflicts between activities, and transition support.

use vstd::prelude::*;
use std::collections::HashMap;
use crate::text::{str_eq, push_decimal, decimal};

verus! {

// ---------------------------------------------------------------------------
// Text order
// ---------------------------------------------------------------------------

/// `a` comes strictly before `b` in the lexicographic order of characters
/// (the order of `str`: UTF-8 bytes order characters by code point).
pub open spec fn text_lt(a: Seq<char>, b: Seq<char>) -> bool
    decreases a.len(),
{
    if a.len() == 0 {
        b.len() > 0
    } else if b.len() == 0 {
        false
    } else if a[0] != b[0] {
        (a[0] as int) < (b[0] as int)
    } else {
        text_lt(a.drop_first(), b.drop_first())
    }
}

/// The order is irreflexive.
pub proof fn lemma_text_lt_irrefl(a: Seq<char>)
    ensures
        !text_lt(a, a),
    decreases a.len(),
{
    if a.len() > 0 {
        lemma_text_lt_irrefl(a.drop_first());
    }
}

/// The order is total: of two different texts, one comes first.
pub proof fn lemma_text_lt_total(a: Seq<char>, b: Seq<char>)
    ensures
        a != b ==> text_lt(a, b) || text_lt(b, a),
        !(text_lt(a, b) && text_lt(b, a)),
    decreases a.len(),
{
    if a.len() > 0 && b.len() > 0 {
        lemma_text_lt_total(a.drop_first(), b.drop_first());
        if a[0] != b[0] {
            assert((a[0] as int) != (b[0] as int));
        }
        if a[0] == b[0] && a.drop_first() == b.drop_first() {
            assert(a =~= seq![a[0]] + a.drop_first());
            assert(b =~= seq![b[0]] + b.drop_first());
        }
    } else if a.len() == 0 && b.len() == 0 {
        assert(a =~= b);
    }
}

/// The order is transitive.
pub proof fn lemma_text_lt_trans(a: Seq<char>, b: Seq<char>, c: Seq<char>)
    requires
        text_lt(a, b),
        text_lt(b, c),
    ensures
        text_lt(a, c),
    decreases a.len(),
{
    if a.len() > 0 && b.len() > 0 && c.len() > 0 {
        if a[0] == b[0] && b[0] == c[0] {
            lemma_text_lt_trans(a.drop_first(), b.drop_first(), c.drop_first());
        }
    }
}

/// Whether `a` comes strictly before `b`.
pub fn text_less(a: &str, b: &str) -> (r: bool)
    ensures
        r == text_lt(a@, b@),
{
    let n = a.unicode_len();
    let m = b.unicode_len();
    proof {
        assert(a@.subrange(0, n as int) =~= a@);
        assert(b@.subrange(0, m as int) =~= b@);
    }
    let mut i: usize = 0;
    while i < n && i < m
        invariant
            n == a@.len(),
            m == b@.len(),
            0 <= i <= n,
            i <= m,
            a@.subrange(0, i as int) == b@.subrange(0, i as int),
            text_lt(a@, b@) == text_lt(a@.subrange(i as int, n as int), b@.subrange(i as int, m as int)),
        decreases n - i,
    {
        let x = a.get_char(i);
        let y = b.get_char(i);
        proof {
            let sa = a@.subrange(i as int, n as int);
            let sb = b@.subrange(i as int, m as int);
            assert(sa[0] == x && sb[0] == y);
            assert(sa.drop_first() =~= a@.subrange(i + 1, n as int));
            assert(sb.drop_first() =~= b@.subrange(i + 1, m as int));
        }
        if x != y {
            return (x as u32) < (y as u32);
        }
        proof {
            assert(a@.subrange(0, i + 1) =~= a@.subrange(0, i as int).push(x));
            assert(b@.subrange(0, i + 1) =~= b@.subrange(0, i as int).push(y));
        }
        i = i + 1;
    }
    i == n && i < m
}

// ---------------------------------------------------------------------------
// Event logs
// ---------------------------------------------------------------------------

/// An activity executed at a time, with variable bindings, an optional actor
/// and annotations.
#[derive(Debug, Clone)]
pub struct Event {
    /// The time, as an ISO-8601 text.
    pub timestamp: String,
    /// The activity's name.
    pub activity: String,
    /// Variable bindings.
    pub bindings: HashMap<String, String>,
    /// Who performed the activity, if known.
    pub actor: Option<String>,
    /// Further annotations.
    pub annotations: HashMap<String, String>,
}

impl Event {
    /// An event with no actor and no annotations.
    pub fn new(timestamp: &str, activity: &str, bindings: HashMap<String, String>) -> (r: Self)
        ensures
            r.timestamp@ == timestamp@,
            r.activity@ == activity@,
            r.bindings == bindings,
            r.actor is None,
            r.annotations@ == Map::<String, String>::empty(),
    {
        Event {
            timestamp: String::from_str(timestamp),
            activity: String::from_str(activity),
            bindings,
            actor: None,
            annotations: HashMap::new(),
        }
    }

    /// The event with an actor.
    pub fn with_actor(self, actor: &str) -> (r: Self)
        ensures
            r.timestamp == self.timestamp,
            r.activity == self.activity,
            r.bindings == self.bindings,
            r.actor matches Some(a) && a@ == actor@,
            r.annotations == self.annotations,
    {
        Event { actor: Some(String::from_str(actor)), ..self }
    }

    /// The event with annotations.
    pub fn with_annotations(self, annotations: HashMap<String, String>) -> (r: Self)
        ensures
            r.timestamp == self.timestamp,
            r.activity == self.activity,
            r.bindings == self.bindings,
            r.actor == self.actor,
            r.annotations == annotations,
    {
        Event { annotations, ..self }
    }
}

/// The timestamps of events.
pub open spec fn stamps(es: Seq<Event>) -> Seq<Seq<char>> {
    es.map_values(|e: Event| e.timestamp@)
}

/// The activities of events.
pub open spec fn acts_of(es: Seq<Event>) -> Seq<Seq<char>> {
    es.map_values(|e: Event| e.activity@)
}

/// `out` is `inp` stably sorted by timestamp: `out[k]` is `inp[p[k]]` for a
/// rearrangement `p`, timestamps never decrease, and events with equal
/// timestamps keep their order.
pub open spec fn stably_sorted(inp: Seq<Event>, out: Seq<Event>, p: Seq<int>) -> bool {
    &&& out.len() == inp.len()
    &&& p.len() == inp.len()
    &&& p.no_duplicates()
    &&& forall|k: int| 0 <= k < p.len() ==> 0 <= #[trigger] p[k] < inp.len() && out[k] == inp[p[k]]
    &&& forall|k: int, l: int|
        0 <= k < l < out.len() ==> !text_lt(#[trigger] out[l].timestamp@, #[trigger] out[k].timestamp@)
    &&& forall|k: int, l: int|
        0 <= k < l < out.len() && out[k].timestamp@ == out[l].timestamp@ ==> #[trigger] p[k] < #[trigger] p[l]
}

/// Where an event with timestamp `t` goes among sorted events: after every
/// event whose timestamp is not later.
fn insert_position(out: &Vec<Event>, t: &str) -> (pos: usize)
    ensures
        pos <= out@.len(),
        forall|k: int| 0 <= k < pos ==> !text_lt(t@, #[trigger] out@[k].timestamp@),
        pos < out@.len() ==> text_lt(t@, out@[pos as int].timestamp@),
{
    let mut pos: usize = 0;
    while pos < out.len()
        invariant
            pos <= out@.len(),
            forall|k: int| 0 <= k < pos ==> !text_lt(t@, #[trigger] out@[k].timestamp@),
        decreases out@.len() - pos,
    {
        if text_less(t, out[pos].timestamp.as_str()) {
            return pos;
        }
        pos = pos + 1;
    }
    pos
}

/// The events stably sorted by timestamp.
fn sort_events(events: Vec<Event>) -> (r: Vec<Event>)
    ensures
        exists|p: Seq<int>| stably_sorted(events@, r@, p),
{
    let mut out: Vec<Event> = Vec::new();
    let ghost mut p: Seq<int> = Seq::empty();
    let mut rest = events;
    let ghost inp = rest@;
    let n = rest.len();
    let mut i: usize = 0;
    while i < n
        invariant
            n == inp.len(),
            0 <= i <= n,
            out@.len() == i,
            p.len() == i,
            p.no_duplicates(),
            forall|k: int| 0 <= k < i ==> 0 <= #[trigger] p[k] < i && out@[k] == inp[p[k]],
            forall|k: int, l: int|
                0 <= k < l < out@.len() ==> !text_lt(#[trigger] out@[l].timestamp@, #[trigger] out@[k].timestamp@),
            forall|k: int, l: int|
                0 <= k < l < out@.len() && out@[k].timestamp@ == out@[l].timestamp@ ==> #[trigger] p[k] < #[trigger] p[l],
            rest@ == inp.subrange(i as int, n as int),
        decreases n - i,
    {
        let e = rest.remove(0);
        let pos = insert_position(&out, e.timestamp.as_str());
        let ghost old_out = out@;
        let ghost old_p = p;
        let ghost et = e.timestamp@;
        assert(e == inp[i as int]);
        out.insert(pos, e);
        proof {
            p = old_p.insert(pos as int, i as int);
            assert(rest@ =~= inp.subrange(i + 1, n as int));
            assert forall|k: int| 0 <= k < i + 1 implies 0 <= #[trigger] p[k] < i + 1 && out@[k] == inp[p[k]] by {
                if k < pos {
                    assert(p[k] == old_p[k]);
                } else if k > pos {
                    assert(p[k] == old_p[k - 1]);
                }
            }
            assert(p.no_duplicates()) by {
                assert forall|a: int, b: int| 0 <= a < p.len() && 0 <= b < p.len() && a != b implies p[a] != p[b] by {
                    if a != pos && b != pos {
                        let oa = if a < pos { a } else { a - 1 };
                        let ob = if b < pos { b } else { b - 1 };
                        assert(old_p[oa] != old_p[ob]);
                    }
                }
            }
            assert forall|k: int, l: int|
                0 <= k < l < out@.len() implies !text_lt(#[trigger] out@[l].timestamp@, #[trigger] out@[k].timestamp@) by {
                let ok = if k < pos { k } else { k - 1 };
                let ol = if l < pos { l } else { l - 1 };
                if k == pos {
                    // l > pos: the old event at ol comes after position pos
                    let ov = old_out[pos as int].timestamp@;
                    assert(text_lt(et, ov));
                    if ol != pos as int {
                        assert(!text_lt(old_out[ol].timestamp@, ov));
                        lemma_text_lt_total(old_out[ol].timestamp@, ov);
                        if old_out[ol].timestamp@ != ov {
                            lemma_text_lt_trans(et, ov, old_out[ol].timestamp@);
                        }
                    }
                    lemma_text_lt_total(et, old_out[ol].timestamp@);
                } else if l == pos {
                    assert(!text_lt(et, old_out[ok].timestamp@));
                } else {
                    assert(!text_lt(old_out[ol].timestamp@, old_out[ok].timestamp@));
                }
            }
            assert forall|k: int, l: int|
                0 <= k < l < out@.len() && out@[k].timestamp@ == out@[l].timestamp@ implies #[trigger] p[k] < #[trigger] p[l] by {
                let ok = if k < pos { k } else { k - 1 };
                let ol = if l < pos { l } else { l - 1 };
                if k == pos {
                    let ov = old_out[pos as int].timestamp@;
                    assert(text_lt(et, ov));
                    if ol != pos as int {
                        assert(!text_lt(old_out[ol].timestamp@, ov));
                        lemma_text_lt_total(old_out[ol].timestamp@, ov);
                        if old_out[ol].timestamp@ != ov {
                            lemma_text_lt_trans(et, ov, old_out[ol].timestamp@);
                        }
                    }
                    lemma_text_lt_irrefl(et);
                } else if l == pos {
                    assert(old_p[ok] < i);
                } else {
                    assert(old_p[ok] < old_p[ol]);
                }
            }
        }
        i = i + 1;
    }
    proof {
        assert(stably_sorted(inp, out@, p));
    }
    out
}

/// A case: one run of the process, its events in time order.
#[derive(Debug, Clone)]
pub struct Case {
    /// The case's identifier.
    pub id: String,
    /// The events, ordered by timestamp.
    pub events: Vec<Event>,
}

impl Case {
    /// A case of the events, stably sorted by timestamp.
    pub fn new(id: &str, events: Vec<Event>) -> (r: Self)
        ensures
            r.id@ == id@,
            exists|p: Seq<int>| stably_sorted(events@, r.events@, p),
    {
        let ghost inp = events@;
        let sorted = sort_events(events);
        let ghost p = choose|p: Seq<int>| stably_sorted(inp, sorted@, p);
        let r = Case { id: String::from_str(id), events: sorted };
        proof {
            assert(stably_sorted(inp, r.events@, p));
        }
        r
    }

    /// The activities of the case, in order.
    pub fn activities(&self) -> (r: Vec<&str>)
        ensures
            r@.len() == self.events@.len(),
            forall|k: int| 0 <= k < r@.len() ==> (#[trigger] r@[k])@ == self.events@[k].activity@,
    {
        let mut out: Vec<&str> = Vec::new();
        let mut i: usize = 0;
        while i < self.events.len()
            invariant
                0 <= i <= self.events@.len(),
                out@.len() == i,
                forall|k: int| 0 <= k < i ==> (#[trigger] out@[k])@ == self.events@[k].activity@,
            decreases self.events@.len() - i,
        {
            out.push(self.events[i].activity.as_str());
            i = i + 1;
        }
        out
    }
}

/// An event log: cases, with metadata.
#[derive(Debug, Clone)]
pub struct EventLog {
    /// The cases.
    pub cases: Vec<Case>,
    /// Metadata about the log.
    pub metadata: HashMap<String, String>,
}

/// Activity `a` occurs in some case.
pub open spec fn log_has(cases: Seq<Case>, a: Seq<char>) -> bool {
    exists|c: int, i: int| 0 <= c < cases.len() && 0 <= i < cases[c].events@.len() && #[trigger] cases[c].events@[i].activity@ == a
}

/// The number of events over the cases.
pub open spec fn event_count(cases: Seq<Case>) -> nat
    decreases cases.len(),
{
    if cases.len() == 0 {
        0
    } else {
        event_count(cases.drop_last()) + cases.last().events@.len()
    }
}

/// The texts are pairwise different.
pub open spec fn distinct_texts(v: Seq<Seq<char>>) -> bool {
    forall|i: int, j: int| 0 <= i < v.len() && 0 <= j < v.len() && i != j ==> #[trigger] v[i] != #[trigger] v[j]
}

/// Whether some entry of `v` has the characters of `s`.
fn contains_text(v: &Vec<String>, s: &str) -> (r: bool)
    ensures
        r == exists|k: int| 0 <= k < v@.len() && (#[trigger] v@[k])@ == s@,
{
    let mut k: usize = 0;
    while k < v.len()
        invariant
            0 <= k <= v@.len(),
            forall|j: int| 0 <= j < k ==> (#[trigger] v@[j])@ != s@,
        decreases v@.len() - k,
    {
        if str_eq(v[k].as_str(), s) {
            return true;
        }
        k = k + 1;
    }
    false
}

/// The views of texts.
pub open spec fn str_views(v: Seq<&str>) -> Seq<Seq<char>> {
    v.map_values(|s: &str| s@)
}

/// The views of strings.
pub open spec fn views(v: Seq<String>) -> Seq<Seq<char>> {
    crate::text::string_views(v)
}

impl EventLog {
    /// A log of the cases, without metadata.
    pub fn new(cases: Vec<Case>) -> (r: Self)
        ensures
            r.cases == cases,
            r.metadata@ == Map::<String, String>::empty(),
    {
        EventLog { cases, metadata: HashMap::new() }
    }

    /// The log with metadata.
    pub fn with_metadata(self, metadata: HashMap<String, String>) -> (r: Self)
        ensures
            r.cases == self.cases,
            r.metadata == metadata,
    {
        EventLog { metadata, ..self }
    }

    /// The activities of the log, each once, in order of first occurrence.
    pub fn activities(&self) -> (r: Vec<String>)
        ensures
            distinct_texts(views(r@)),
            forall|a: Seq<char>| views(r@).contains(a) <==> log_has(self.cases@, a),
    {
        let mut out: Vec<String> = Vec::new();
        let mut c: usize = 0;
        while c < self.cases.len()
            invariant
                0 <= c <= self.cases@.len(),
                distinct_texts(views(out@)),
                forall|a: Seq<char>| views(out@).contains(a) <==> log_has(self.cases@.take(c as int), a),
            decreases self.cases@.len() - c,
        {
            let case = &self.cases[c];
            let mut i: usize = 0;
            while i < case.events.len()
                invariant
                    0 <= c < self.cases@.len(),
                    *case == self.cases@[c as int],
                    0 <= i <= case.events@.len(),
                    distinct_texts(views(out@)),
                    forall|a: Seq<char>| views(out@).contains(a) <==> (log_has(self.cases@.take(c as int), a) || exists|j: int|
                        0 <= j < i && #[trigger] case.events@[j].activity@ == a),
                decreases case.events@.len() - i,
            {
                let act = case.events[i].activity.as_str();
                let ghost before = out@;
                let present = contains_text(&out, act);
                proof {
                    if views(before).contains(act@) {
                        let k = choose|k: int| 0 <= k < views(before).len() && views(before)[k] == act@;
                        assert(before[k]@ == act@);
                    }
                    if present {
                        let k = choose|k: int| 0 <= k < before.len() && (#[trigger] before[k])@ == act@;
                        assert(views(before)[k] == act@);
                    }
                }
                if !present {
                    out.push(String::from_str(act));
                    proof {
                        assert(views(out@) =~= views(before).push(act@));
                    }
                }
                proof {
                    assert forall|a: Seq<char>| views(out@).contains(a) <==> (log_has(self.cases@.take(c as int), a) || exists|j: int|
                        0 <= j < i + 1 && #[trigger] case.events@[j].activity@ == a) by {
                        if views(out@).contains(a) && a == act@ {
                            assert(case.events@[i as int].activity@ == a);
                        }
                        if a == act@ {
                            if !views(before).contains(a) {
                                assert(views(out@)[before.len() as int] == a);
                            }
                        }
                        if views(before).contains(a) {
                            let k = choose|k: int| 0 <= k < views(before).len() && views(before)[k] == a;
                            assert(views(out@)[k] == a);
                        }
                        if views(out@).contains(a) && a != act@ {
                            let k = choose|k: int| 0 <= k < views(out@).len() && views(out@)[k] == a;
                            assert(views(before)[k] == a);
                        }
                    }
                }
                i = i + 1;
            }
            proof {
                assert forall|a: Seq<char>| views(out@).contains(a) <==> log_has(self.cases@.take(c + 1), a) by {
                    lemma_log_has_step(self.cases@, c as int, a);
                }
            }
            c = c + 1;
        }
        proof {
            assert(self.cases@.take(self.cases@.len() as int) =~= self.cases@);
        }
        out
    }

    /// The number of events over all cases.
    pub fn total_events(&self) -> (r: usize)
        requires
            event_count(self.cases@) <= usize::MAX,
        ensures
            r == event_count(self.cases@),
    {
        let mut n: usize = 0;
        let mut c: usize = 0;
        while c < self.cases.len()
            invariant
                0 <= c <= self.cases@.len(),
                event_count(self.cases@) <= usize::MAX,
                n == event_count(self.cases@.take(c as int)),
            decreases self.cases@.len() - c,
        {
            proof {
                assert(self.cases@.take(c + 1).drop_last() =~= self.cases@.take(c as int));
                lemma_event_count_prefix(self.cases@, c + 1);
            }
            n = n + self.cases[c].events.len();
            c = c + 1;
        }
        proof {
            assert(self.cases@.take(self.cases@.len() as int) =~= self.cases@);
        }
        n
    }
}

/// An activity occurs in the first `c + 1` cases when it occurs in the
/// first `c` or in case `c`.
proof fn lemma_log_has_step(cases: Seq<Case>, c: int, a: Seq<char>)
    requires
        0 <= c < cases.len(),
    ensures
        log_has(cases.take(c + 1), a) <==> (log_has(cases.take(c), a) || exists|j: int|
            0 <= j < cases[c].events@.len() && #[trigger] cases[c].events@[j].activity@ == a),
{
    let t = cases.take(c + 1);
    let s = cases.take(c);
    if log_has(t, a) {
        let (cc, ii) = choose|cc: int, ii: int| 0 <= cc < t.len() && 0 <= ii < t[cc].events@.len() && #[trigger] t[cc].events@[ii].activity@ == a;
        if cc < c {
            assert(s[cc] == t[cc]);
            assert(s[cc].events@[ii].activity@ == a);
        } else {
            assert(cases[c].events@[ii].activity@ == a);
        }
    }
    if log_has(s, a) {
        let (cc, ii) = choose|cc: int, ii: int| 0 <= cc < s.len() && 0 <= ii < s[cc].events@.len() && #[trigger] s[cc].events@[ii].activity@ == a;
        assert(t[cc] == s[cc]);
        assert(t[cc].events@[ii].activity@ == a);
    }
    if exists|j: int| 0 <= j < cases[c].events@.len() && #[trigger] cases[c].events@[j].activity@ == a {
        let j = choose|j: int| 0 <= j < cases[c].events@.len() && #[trigger] cases[c].events@[j].activity@ == a;
        assert(t[c] == cases[c]);
        assert(t[c].events@[j].activity@ == a);
    }
}

/// A prefix of the cases has no more events than all of them.
proof fn lemma_event_count_prefix(cases: Seq<Case>, j: int)
    requires
        0 <= j <= cases.len(),
    ensures
        event_count(cases.take(j)) <= event_count(cases),
    decreases cases.len() - j,
{
    if j < cases.len() {
        assert(cases.take(j + 1).drop_last() =~= cases.take(j));
        lemma_event_count_prefix(cases, j + 1);
    } else {
        assert(cases.take(j) =~= cases);
    }
}

impl Default for EventLog {
    fn default() -> (r: Self)
        ensures
            r.cases@.len() == 0,
            r.metadata@ == Map::<String, String>::empty(),
    {
        EventLog { cases: Vec::new(), metadata: HashMap::new() }
    }
}

// ---------------------------------------------------------------------------
// Footprint
// ---------------------------------------------------------------------------

/// How two activities are related by the directly-follows relation.
#[derive(Debug, Clone, Copy, PartialEq, Eq, Structural, Hash)]
pub enum Relation {
    /// `a` directly precedes `b`, never the other way round.
    Causality,
    /// `b` directly precedes `a`, never the other way round.
    Reverse,
    /// Both orders occur.
    Parallel,
    /// Neither order occurs.
    Unrelated,
}

impl Relation {
    /// The display text: `->`, `<-`, `||` or `#`.
    pub fn to_text(&self) -> (r: String)
        ensures
            r@ == match *self {
                Relation::Causality => "->"@,
                Relation::Reverse => "<-"@,
                Relation::Parallel => "||"@,
                Relation::Unrelated => "#"@,
            },
    {
        match self {
            Relation::Causality => String::from_str("->"),
            Relation::Reverse => String::from_str("<-"),
            Relation::Parallel => String::from_str("||"),
            Relation::Unrelated => String::from_str("#"),
        }
    }
}

/// In some case, an event of activity `a` is directly followed by one of `b`.
pub open spec fn directly_follows(cases: Seq<Case>, a: Seq<char>, b: Seq<char>) -> bool {
    exists|c: int, i: int|
        0 <= c < cases.len() && 0 <= i && i + 1 < cases[c].events@.len() && #[trigger] cases[c].events@[i].activity@ == a
            && cases[c].events@[i + 1].activity@ == b
}

/// The relation given whether `a` directly precedes `b` and whether `b`
/// directly precedes `a`.
pub open spec fn relation_of(ab: bool, ba: bool) -> Relation {
    if ab && ba {
        Relation::Parallel
    } else if ab {
        Relation::Causality
    } else if ba {
        Relation::Reverse
    } else {
        Relation::Unrelated
    }
}

/// The footprint relation of `a` to `b` in the cases.
pub open spec fn log_relation(cases: Seq<Case>, a: Seq<char>, b: Seq<char>) -> Relation {
    relation_of(directly_follows(cases, a, b), directly_follows(cases, b, a))
}

/// The footprint relation read the other way round is its mirror:
/// causality one way is reverse the other way, and parallel and unrelated
/// are symmetric. (`Footprint::from_log` stores exactly these relations.)
pub proof fn law_footprint_mirror(cases: Seq<Case>, a: Seq<char>, b: Seq<char>)
    ensures
        (log_relation(cases, a, b) == Relation::Causality) <==> (log_relation(cases, b, a) == Relation::Reverse),
        (log_relation(cases, a, b) == Relation::Parallel) <==> (log_relation(cases, b, a) == Relation::Parallel),
        (log_relation(cases, a, b) == Relation::Unrelated) <==> (log_relation(cases, b, a) == Relation::Unrelated),
{
}

/// The relation stored for `(a, b)`: that of the first entry with this
/// pair, or `Unrelated` when there is none.
pub open spec fn stored_relation(rel: Seq<((String, String), Relation)>, a: Seq<char>, b: Seq<char>) -> Relation
    decreases rel.len(),
{
    if rel.len() == 0 {
        Relation::Unrelated
    } else if has_pair(rel.drop_last(), a, b) || !(rel.last().0.0@ == a && rel.last().0.1@ == b) {
        stored_relation(rel.drop_last(), a, b)
    } else {
        rel.last().1
    }
}

/// Some entry is for the pair `(a, b)`.
pub open spec fn has_pair(rel: Seq<((String, String), Relation)>, a: Seq<char>, b: Seq<char>) -> bool {
    exists|k: int| 0 <= k < rel.len() && (#[trigger] rel[k]).0.0@ == a && rel[k].0.1@ == b
}

/// The pairs of the entries with relation `which`, in order.
pub open spec fn pairs_with(rel: Seq<((String, String), Relation)>, which: Relation) -> Seq<(Seq<char>, Seq<char>)>
    decreases rel.len(),
{
    if rel.len() == 0 {
        Seq::empty()
    } else {
        pairs_with(rel.drop_last(), which) + (if rel.last().1 == which {
            seq![(rel.last().0.0@, rel.last().0.1@)]
        } else {
            Seq::empty()
        })
    }
}

/// The footprint of a log: its activities, and the relation of every
/// ordered pair of them.
#[derive(Debug, Clone)]
pub struct Footprint {
    /// The activities, each once.
    pub activities: Vec<String>,
    /// One entry per ordered pair of activities.
    pub relations: Vec<((String, String), Relation)>,
}

/// The entries for the pairs of the activities `acts` carry the relations of the cases.
pub open spec fn entries_ok(cases: Seq<Case>, rel: Seq<((String, String), Relation)>) -> bool {
    forall|k: int| 0 <= k < rel.len() ==> (#[trigger] rel[k]).1 == log_relation(cases, rel[k].0.0@, rel[k].0.1@)
}

/// Each entry's relation is the one stored for its pair.
pub open spec fn entries_agree(fp: Footprint) -> bool {
    forall|k: int|
        0 <= k < fp.relations@.len() ==> stored_relation(fp.relations@, (#[trigger] fp.relations@[k]).0.0@, fp.relations@[k].0.1@)
            == fp.relations@[k].1
}

/// Every entry is for a pair of the footprint's activities.
pub open spec fn keys_in(fp: Footprint) -> bool {
    forall|k: int|
        0 <= k < fp.relations@.len() ==> views(fp.activities@).contains((#[trigger] fp.relations@[k]).0.0@) && views(
            fp.activities@,
        ).contains(fp.relations@[k].0.1@)
}

/// The first entry for a pair gives the stored relation.
proof fn lemma_stored(rel: Seq<((String, String), Relation)>, a: Seq<char>, b: Seq<char>)
    ensures
        !has_pair(rel, a, b) ==> stored_relation(rel, a, b) == Relation::Unrelated,
        has_pair(rel, a, b) ==> exists|k: int|
            0 <= k < rel.len() && (#[trigger] rel[k]).0.0@ == a && rel[k].0.1@ == b && stored_relation(rel, a, b) == rel[k].1,
    decreases rel.len(),
{
    if rel.len() > 0 {
        let init = rel.drop_last();
        lemma_stored(init, a, b);
        if has_pair(init, a, b) {
            let k = choose|k: int| 0 <= k < init.len() && (#[trigger] init[k]).0.0@ == a && init[k].0.1@ == b && stored_relation(init, a, b) == init[k].1;
            assert(rel[k] == init[k]);
        } else {
            if has_pair(rel, a, b) {
                let k = choose|k: int| 0 <= k < rel.len() && (#[trigger] rel[k]).0.0@ == a && rel[k].0.1@ == b;
                if k < rel.len() - 1 {
                    assert(init[k] == rel[k]);
                }
                assert(rel.last().0.0@ == a && rel.last().0.1@ == b);
            } else {
                assert(!(rel.last().0.0@ == a && rel.last().0.1@ == b));
            }
        }
    }
}

/// The first entry for a pair gives the stored relation.
proof fn lemma_stored_first(rel: Seq<((String, String), Relation)>, a: Seq<char>, b: Seq<char>, k: int)
    requires
        0 <= k < rel.len(),
        rel[k].0.0@ == a && rel[k].0.1@ == b,
        forall|j: int| 0 <= j < k ==> !((#[trigger] rel[j]).0.0@ == a && rel[j].0.1@ == b),
    ensures
        stored_relation(rel, a, b) == rel[k].1,
    decreases rel.len(),
{
    let init = rel.drop_last();
    if k < rel.len() - 1 {
        assert(init[k] == rel[k]);
        assert forall|j: int| 0 <= j < k implies !((#[trigger] init[j]).0.0@ == a && init[j].0.1@ == b) by {
            assert(init[j] == rel[j]);
        }
        lemma_stored_first(init, a, b, k);
        assert(has_pair(init, a, b));
    } else {
        if has_pair(init, a, b) {
            let j = choose|j: int| 0 <= j < init.len() && (#[trigger] init[j]).0.0@ == a && init[j].0.1@ == b;
            assert(rel[j] == init[j]);
        }
    }
}

/// Whether activity `a` is directly followed by `b` in some case.
fn follows(log: &EventLog, a: &str, b: &str) -> (r: bool)
    ensures
        r == directly_follows(log.cases@, a@, b@),
{
    let mut c: usize = 0;
    while c < log.cases.len()
        invariant
            0 <= c <= log.cases@.len(),
            forall|cc: int, i: int|
                0 <= cc < c && 0 <= i && i + 1 < log.cases@[cc].events@.len() ==> !(#[trigger] log.cases@[cc].events@[i].activity@ == a@
                    && log.cases@[cc].events@[i + 1].activity@ == b@),
        decreases log.cases@.len() - c,
    {
        let evs = &log.cases[c].events;
        let mut i: usize = 0;
        while i < evs.len() && i + 1 < evs.len()
            invariant
                0 <= c < log.cases@.len(),
                *evs == log.cases@[c as int].events,
                0 <= i <= evs@.len(),
                forall|cc: int, j: int|
                    0 <= cc < c && 0 <= j && j + 1 < log.cases@[cc].events@.len() ==> !(#[trigger] log.cases@[cc].events@[j].activity@ == a@
                        && log.cases@[cc].events@[j + 1].activity@ == b@),
                forall|j: int| 0 <= j < i && j + 1 < evs@.len() ==> !(#[trigger] evs@[j].activity@ == a@ && evs@[j + 1].activity@ == b@),
            decreases evs@.len() - i,
        {
            if str_eq(evs[i].activity.as_str(), a) && str_eq(evs[i + 1].activity.as_str(), b) {
                return true;
            }
            i = i + 1;
        }
        proof {
            assert forall|cc: int, j: int|
                0 <= cc < c + 1 && 0 <= j && j + 1 < log.cases@[cc].events@.len() implies !(#[trigger] log.cases@[cc].events@[j].activity@ == a@
                    && log.cases@[cc].events@[j + 1].activity@ == b@) by {
                if cc == c {
                    assert(evs@[j].activity@ == log.cases@[cc].events@[j].activity@);
                }
            }
        }
        c = c + 1;
    }
    false
}

impl Footprint {
    /// The footprint of the log: its activities in order of first
    /// occurrence, and for each ordered pair of them the relation that the
    /// directly-follows pairs of its cases give.
    pub fn from_log(log: &EventLog) -> (r: Self)
        ensures
            distinct_texts(views(r.activities@)),
            forall|a: Seq<char>| views(r.activities@).contains(a) <==> log_has(log.cases@, a),
            forall|a: Seq<char>, b: Seq<char>| #[trigger] stored_relation(r.relations@, a, b) == log_relation(log.cases@, a, b),
            entries_ok(log.cases@, r.relations@),
            keys_in(r),
            entries_agree(r),
            r.relations@.len() == r.activities@.len() * r.activities@.len(),
            forall|a: Seq<char>, b: Seq<char>| log_has(log.cases@, a) && log_has(log.cases@, b) ==> #[trigger] has_pair(r.relations@, a, b),
    {
        let acts = log.activities();
        let n = acts.len();
        let mut rel: Vec<((String, String), Relation)> = Vec::new();
        let mut i: usize = 0;
        while i < n
            invariant
                n == acts@.len(),
                0 <= i <= n,
                rel@.len() == i * n,
                distinct_texts(views(acts@)),
                entries_ok(log.cases@, rel@),
                forall|k: int| 0 <= k < rel@.len() ==> views(acts@).contains((#[trigger] rel@[k]).0.0@) && views(acts@).contains(rel@[k].0.1@),
                forall|x: int, y: int| 0 <= x < i && 0 <= y < n ==> #[trigger] has_pair(rel@, acts@[x]@, acts@[y]@),
            decreases n - i,
        {
            let mut j: usize = 0;
            while j < n
                invariant
                    n == acts@.len(),
                    0 <= i < n,
                    0 <= j <= n,
                    rel@.len() == i * n + j,
                    distinct_texts(views(acts@)),
                    entries_ok(log.cases@, rel@),
                    forall|k: int| 0 <= k < rel@.len() ==> views(acts@).contains((#[trigger] rel@[k]).0.0@) && views(acts@).contains(rel@[k].0.1@),
                    forall|x: int, y: int| 0 <= x < i && 0 <= y < n ==> #[trigger] has_pair(rel@, acts@[x]@, acts@[y]@),
                    forall|y: int| 0 <= y < j ==> #[trigger] has_pair(rel@, acts@[i as int]@, acts@[y]@),
                decreases n - j,
            {
                let a = acts[i].as_str();
                let b = acts[j].as_str();
                let ab = follows(log, a, b);
                let ba = follows(log, b, a);
                let r = if ab && ba {
                    Relation::Parallel
                } else if ab {
                    Relation::Causality
                } else if ba {
                    Relation::Reverse
                } else {
                    Relation::Unrelated
                };
                let ghost before = rel@;
                rel.push(((String::from_str(a), String::from_str(b)), r));
                proof {
                    let last = rel@.len() - 1;
                    assert(rel@[last].0.0@ == acts@[i as int]@ && rel@[last].0.1@ == acts@[j as int]@);
                    assert forall|k: int| 0 <= k < rel@.len() implies (#[trigger] rel@[k]).1 == log_relation(log.cases@, rel@[k].0.0@, rel@[k].0.1@) by {
                        if k < last {
                            assert(rel@[k] == before[k]);
                        }
                    }
                    assert(views(acts@)[i as int] == acts@[i as int]@ && views(acts@)[j as int] == acts@[j as int]@);
                    assert forall|k: int| 0 <= k < rel@.len() implies views(acts@).contains((#[trigger] rel@[k]).0.0@) && views(acts@).contains(rel@[k].0.1@) by {
                        if k < last {
                            assert(rel@[k] == before[k]);
                        }
                    }
                    assert forall|x: int, y: int| 0 <= x < i && 0 <= y < n implies #[trigger] has_pair(rel@, acts@[x]@, acts@[y]@) by {
                        assert(has_pair(before, acts@[x]@, acts@[y]@));
                        let k = choose|k: int| 0 <= k < before.len() && (#[trigger] before[k]).0.0@ == acts@[x]@ && before[k].0.1@ == acts@[y]@;
                        assert(rel@[k] == before[k]);
                    }
                    assert forall|y: int| 0 <= y < j + 1 implies #[trigger] has_pair(rel@, acts@[i as int]@, acts@[y]@) by {
                        if y < j {
                            assert(has_pair(before, acts@[i as int]@, acts@[y]@));
                            let k = choose|k: int| 0 <= k < before.len() && (#[trigger] before[k]).0.0@ == acts@[i as int]@ && before[k].0.1@ == acts@[y]@;
                            assert(rel@[k] == before[k]);
                        } else {
                            assert(rel@[last].0.0@ == acts@[i as int]@);
                        }
                    }
                }
                j = j + 1;
            }
            proof {
                assert((i + 1) * n == i * n + n) by (nonlinear_arith);
                assert forall|x: int, y: int| 0 <= x < i + 1 && 0 <= y < n implies #[trigger] has_pair(rel@, acts@[x]@, acts@[y]@) by {
                    if x == i {
                        assert(has_pair(rel@, acts@[i as int]@, acts@[y]@));
                    }
                }
            }
            i = i + 1;
        }
        let r = Footprint { activities: acts, relations: rel };
        proof {
            assert forall|a: Seq<char>, b: Seq<char>| log_has(log.cases@, a) && log_has(log.cases@, b) implies #[trigger] has_pair(r.relations@, a, b) by {
                assert(views(acts@).contains(a) && views(acts@).contains(b));
                let x = choose|x: int| 0 <= x < views(acts@).len() && views(acts@)[x] == a;
                let y = choose|y: int| 0 <= y < views(acts@).len() && views(acts@)[y] == b;
                assert(has_pair(r.relations@, acts@[x]@, acts@[y]@));
            }
            assert forall|k: int| 0 <= k < r.relations@.len() implies stored_relation(r.relations@, (#[trigger] r.relations@[k]).0.0@, r.relations@[k].0.1@) == r.relations@[k].1 by {
                lemma_stored(r.relations@, r.relations@[k].0.0@, r.relations@[k].0.1@);
                assert(has_pair(r.relations@, r.relations@[k].0.0@, r.relations@[k].0.1@));
            }
            assert forall|a: Seq<char>, b: Seq<char>| #[trigger] stored_relation(r.relations@, a, b) == log_relation(log.cases@, a, b) by {
                lemma_stored(r.relations@, a, b);
                if !has_pair(r.relations@, a, b) {
                    lemma_follows_in_log(log.cases@, a, b);
                    lemma_follows_in_log(log.cases@, b, a);
                    if directly_follows(log.cases@, a, b) || directly_follows(log.cases@, b, a) {
                        assert(views(acts@).contains(a) && views(acts@).contains(b));
                        let x = choose|x: int| 0 <= x < views(acts@).len() && views(acts@)[x] == a;
                        let y = choose|y: int| 0 <= y < views(acts@).len() && views(acts@)[y] == b;
                        assert(has_pair(r.relations@, acts@[x]@, acts@[y]@));
                    }
                }
            }
        }
        r
    }
}

impl Footprint {
    /// The relation of `a` to `b`: the stored one, `Unrelated` when none is.
    pub fn relation(&self, a: &str, b: &str) -> (r: Relation)
        ensures
            r == stored_relation(self.relations@, a@, b@),
    {
        let mut k: usize = 0;
        while k < self.relations.len()
            invariant
                0 <= k <= self.relations@.len(),
                forall|j: int| 0 <= j < k ==> !((#[trigger] self.relations@[j]).0.0@ == a@ && self.relations@[j].0.1@ == b@),
            decreases self.relations@.len() - k,
        {
            let entry = &self.relations[k];
            if str_eq(entry.0.0.as_str(), a) && str_eq(entry.0.1.as_str(), b) {
                proof {
                    lemma_stored_first(self.relations@, a@, b@, k as int);
                }
                return entry.1;
            }
            k = k + 1;
        }
        proof {
            lemma_stored(self.relations@, a@, b@);
        }
        Relation::Unrelated
    }

    /// Whether `a` causally precedes `b`.
    pub fn is_causal(&self, a: &str, b: &str) -> (r: bool)
        ensures
            r == (stored_relation(self.relations@, a@, b@) == Relation::Causality),
    {
        self.relation(a, b) == Relation::Causality
    }

    /// Whether `a` and `b` are parallel.
    pub fn is_parallel(&self, a: &str, b: &str) -> (r: bool)
        ensures
            r == (stored_relation(self.relations@, a@, b@) == Relation::Parallel),
    {
        self.relation(a, b) == Relation::Parallel
    }

    /// Whether `a` and `b` are unrelated.
    pub fn is_unrelated(&self, a: &str, b: &str) -> (r: bool)
        ensures
            r == (stored_relation(self.relations@, a@, b@) == Relation::Unrelated),
    {
        self.relation(a, b) == Relation::Unrelated
    }

    /// The pairs of the entries with relation `which`, in order.
    fn pairs(&self, which: Relation) -> (r: Vec<(String, String)>)
        ensures
            r@.map_values(|p: (String, String)| (p.0@, p.1@)) == pairs_with(self.relations@, which),
    {
        let mut out: Vec<(String, String)> = Vec::new();
        let mut k: usize = 0;
        while k < self.relations.len()
            invariant
                0 <= k <= self.relations@.len(),
                out@.map_values(|p: (String, String)| (p.0@, p.1@)) == pairs_with(self.relations@.take(k as int), which),
            decreases self.relations@.len() - k,
        {
            proof {
                assert(self.relations@.take(k + 1).drop_last() =~= self.relations@.take(k as int));
            }
            let ghost before = out@;
            let entry = &self.relations[k];
            if entry.1 == which {
                out.push((String::from_str(entry.0.0.as_str()), String::from_str(entry.0.1.as_str())));
                proof {
                    assert(out@.map_values(|p: (String, String)| (p.0@, p.1@)) =~= before.map_values(
                        |p: (String, String)| (p.0@, p.1@),
                    ).push((entry.0.0@, entry.0.1@)));
                }
            }
            k = k + 1;
        }
        proof {
            assert(self.relations@.take(self.relations@.len() as int) =~= self.relations@);
        }
        out
    }

    /// The causal pairs `(a, b)`, `a -> b`, in entry order.
    pub fn causal_pairs(&self) -> (r: Vec<(String, String)>)
        ensures
            r@.map_values(|p: (String, String)| (p.0@, p.1@)) == pairs_with(self.relations@, Relation::Causality),
    {
        self.pairs(Relation::Causality)
    }

    /// The parallel pairs `(a, b)`, `a || b`, in entry order.
    pub fn parallel_pairs(&self) -> (r: Vec<(String, String)>)
        ensures
            r@.map_values(|p: (String, String)| (p.0@, p.1@)) == pairs_with(self.relations@, Relation::Parallel),
    {
        self.pairs(Relation::Parallel)
    }
}

/// Activities that follow one another occur in the log.
proof fn lemma_follows_in_log(cases: Seq<Case>, a: Seq<char>, b: Seq<char>)
    ensures
        directly_follows(cases, a, b) ==> log_has(cases, a) && log_has(cases, b),
{
    if directly_follows(cases, a, b) {
        let (c, i) = choose|c: int, i: int|
            0 <= c < cases.len() && 0 <= i && i + 1 < cases[c].events@.len() && #[trigger] cases[c].events@[i].activity@ == a
                && cases[c].events@[i + 1].activity@ == b;
        assert(cases[c].events@[i + 1].activity@ == b);
    }
}

// ---------------------------------------------------------------------------
// Petri nets
// ---------------------------------------------------------------------------

/// A place of a Petri net.
#[derive(Debug, Clone)]
pub struct Place {
    /// The identifier.
    pub id: String,
    /// A description.
    pub label: String,
}

impl Place {
    /// A place with the identifier and label.
    pub fn new(id: &str, label: &str) -> (r: Self)
        ensures
            r.id@ == id@,
            r.label@ == label@,
    {
        Place { id: String::from_str(id), label: String::from_str(label) }
    }
}

/// A transition of a Petri net: an activity.
#[derive(Debug, Clone)]
pub struct Transition {
    /// The identifier.
    pub id: String,
    /// The activity it stands for.
    pub activity: String,
    /// Variable bindings.
    pub bindings: Vec<String>,
}

impl Transition {
    /// A transition with the identifier and activity, without bindings.
    pub fn new(id: &str, activity: &str) -> (r: Self)
        ensures
            r.id@ == id@,
            r.activity@ == activity@,
            r.bindings@.len() == 0,
    {
        Transition { id: String::from_str(id), activity: String::from_str(activity), bindings: Vec::new() }
    }
}

/// An end of an arc: a place or a transition, by identifier.
#[derive(Debug, Clone)]
pub enum ArcNode {
    /// A place.
    Place(String),
    /// A transition.
    Transition(String),
}

/// An arc of a Petri net.
#[derive(Debug, Clone)]
pub struct Arc {
    /// Where it starts.
    pub source: ArcNode,
    /// Where it ends.
    pub target: ArcNode,
}

impl Arc {
    /// An arc from `source` to `target`.
    pub fn new(source: ArcNode, target: ArcNode) -> (r: Self)
        ensures
            r.source == source,
            r.target == target,
    {
        Arc { source, target }
    }
}

/// A Petri net: places, transitions, and arcs between them.
#[derive(Debug, Clone)]
pub struct PetriNet {
    /// The places.
    pub places: Vec<Place>,
    /// The transitions.
    pub transitions: Vec<Transition>,
    /// The arcs.
    pub arcs: Vec<Arc>,
}

impl Default for PetriNet {
    fn default() -> (r: Self)
        ensures
            r.places@.len() == 0,
            r.transitions@.len() == 0,
            r.arcs@.len() == 0,
    {
        PetriNet::new()
    }
}

impl PetriNet {
    /// An empty net.
    pub fn new() -> (r: Self)
        ensures
            r.places@.len() == 0,
            r.transitions@.len() == 0,
            r.arcs@.len() == 0,
    {
        PetriNet { places: Vec::new(), transitions: Vec::new(), arcs: Vec::new() }
    }

    /// Add a place at the end.
    pub fn add_place(&mut self, place: Place)
        ensures
            final(self).places@ == old(self).places@.push(place),
            final(self).transitions@ == old(self).transitions@,
            final(self).arcs@ == old(self).arcs@,
    {
        self.places.push(place);
    }

    /// Add a transition at the end.
    pub fn add_transition(&mut self, transition: Transition)
        ensures
            final(self).transitions@ == old(self).transitions@.push(transition),
            final(self).places@ == old(self).places@,
            final(self).arcs@ == old(self).arcs@,
    {
        self.transitions.push(transition);
    }

    /// Add an arc at the end.
    pub fn add_arc(&mut self, arc: Arc)
        ensures
            final(self).arcs@ == old(self).arcs@.push(arc),
            final(self).places@ == old(self).places@,
            final(self).transitions@ == old(self).transitions@,
    {
        self.arcs.push(arc);
    }

    /// The first transition for the activity, if any.
    pub fn find_transition(&self, activity: &str) -> (r: Option<&Transition>)
        ensures
            match r {
                Some(t) => exists|k: int|
                    0 <= k < self.transitions@.len() && *t == self.transitions@[k] && t.activity@ == activity@ && forall|j: int|
                        0 <= j < k ==> (#[trigger] self.transitions@[j]).activity@ != activity@,
                None => forall|j: int| 0 <= j < self.transitions@.len() ==> (#[trigger] self.transitions@[j]).activity@ != activity@,
            },
    {
        let mut k: usize = 0;
        while k < self.transitions.len()
            invariant
                0 <= k <= self.transitions@.len(),
                forall|j: int| 0 <= j < k ==> (#[trigger] self.transitions@[j]).activity@ != activity@,
            decreases self.transitions@.len() - k,
        {
            if str_eq(self.transitions[k].activity.as_str(), activity) {
                return Some(&self.transitions[k]);
            }
            k = k + 1;
        }
        None
    }

    /// The activities of the transitions, each once, in order of first occurrence.
    pub fn activities(&self) -> (r: Vec<&str>)
        ensures
            distinct_texts(str_views(r@)),
            forall|a: Seq<char>| str_views(r@).contains(a) <==> exists|k: int|
                0 <= k < self.transitions@.len() && (#[trigger] self.transitions@[k]).activity@ == a,
    {
        let mut out: Vec<&str> = Vec::new();
        let mut k: usize = 0;
        while k < self.transitions.len()
            invariant
                0 <= k <= self.transitions@.len(),
                distinct_texts(str_views(out@)),
                forall|a: Seq<char>| str_views(out@).contains(a) <==> exists|j: int|
                    0 <= j < k && (#[trigger] self.transitions@[j]).activity@ == a,
            decreases self.transitions@.len() - k,
        {
            let act = self.transitions[k].activity.as_str();
            let ghost before = str_views(out@);
            let mut present = false;
            let mut j: usize = 0;
            while j < out.len()
                invariant
                    0 <= j <= out@.len(),
                    before == str_views(out@),
                    present == exists|i: int| 0 <= i < j && before[i] == act@,
                decreases out@.len() - j,
            {
                if str_eq(out[j], act) {
                    present = true;
                }
                proof {
                    assert(before[j as int] == out@[j as int]@);
                    if exists|i: int| 0 <= i < j + 1 && before[i] == act@ {
                        let i = choose|i: int| 0 <= i < j + 1 && before[i] == act@;
                        if i < j {
                            assert(exists|i2: int| 0 <= i2 < j && before[i2] == act@);
                        }
                    }
                }
                j = j + 1;
            }
            if !present {
                out.push(act);
                proof {
                    assert(str_views(out@) =~= before.push(act@));
                }
            }
            proof {
                let now = str_views(out@);
                assert forall|a: Seq<char>| now.contains(a) <==> exists|j: int|
                    0 <= j < k + 1 && (#[trigger] self.transitions@[j]).activity@ == a by {
                    if a == act@ {
                        assert(self.transitions@[k as int].activity@ == a);
                        if present {
                            let i = choose|i: int| 0 <= i < before.len() && before[i] == act@;
                            assert(now[i] == a);
                        } else {
                            assert(now[before.len() as int] == a);
                        }
                    } else {
                        if now.contains(a) {
                            let i = choose|i: int| 0 <= i < now.len() && now[i] == a;
                            assert(before[i] == a);
                        }
                        if before.contains(a) {
                            let i = choose|i: int| 0 <= i < before.len() && before[i] == a;
                            assert(now[i] == a);
                        }
                    }
                }
            }
            k = k + 1;
        }
        out
    }
}

// ---------------------------------------------------------------------------
// Alpha miner
// ---------------------------------------------------------------------------

/// The relation a footprint stores, as a function.
pub open spec fn fp_rel(fp: Footprint) -> spec_fn(Seq<char>, Seq<char>) -> Relation {
    |a: Seq<char>, b: Seq<char>| stored_relation(fp.relations@, a, b)
}

/// The activities of `s` are pairwise unrelated.
pub open spec fn pairwise_unrelated(rel: spec_fn(Seq<char>, Seq<char>) -> Relation, s: Seq<Seq<char>>) -> bool {
    forall|x: Seq<char>, y: Seq<char>|
        #[trigger] s.contains(x) && #[trigger] s.contains(y) && x != y ==> rel(x, y) == Relation::Unrelated
}

/// Each activity of `a` causally precedes each of `b`.
pub open spec fn all_lead(rel: spec_fn(Seq<char>, Seq<char>) -> Relation, a: Seq<Seq<char>>, b: Seq<Seq<char>>) -> bool {
    forall|x: Seq<char>, y: Seq<char>| #[trigger] a.contains(x) && #[trigger] b.contains(y) ==> rel(x, y) == Relation::Causality
}

/// `(a, b)` is a pair of the Alpha algorithm: `a` and `b` are each pairwise
/// unrelated, and each activity of `a` causally precedes each of `b`.
pub open spec fn valid_pair(rel: spec_fn(Seq<char>, Seq<char>) -> Relation, a: Seq<Seq<char>>, b: Seq<Seq<char>>) -> bool {
    pairwise_unrelated(rel, a) && pairwise_unrelated(rel, b) && all_lead(rel, a, b)
}

/// Every element of `a` is an element of `b`.
pub open spec fn set_le(a: Seq<Seq<char>>, b: Seq<Seq<char>>) -> bool {
    forall|x: Seq<char>| #[trigger] a.contains(x) ==> b.contains(x)
}

/// A pair inside a valid pair is valid.
proof fn lemma_valid_mono(
    rel: spec_fn(Seq<char>, Seq<char>) -> Relation,
    a1: Seq<Seq<char>>,
    b1: Seq<Seq<char>>,
    a2: Seq<Seq<char>>,
    b2: Seq<Seq<char>>,
)
    requires
        set_le(a1, a2),
        set_le(b1, b2),
        valid_pair(rel, a2, b2),
    ensures
        valid_pair(rel, a1, b1),
{
    assert forall|x: Seq<char>, y: Seq<char>| #[trigger] a1.contains(x) && #[trigger] a1.contains(y) && x != y implies rel(x, y)
        == Relation::Unrelated by {
        assert(a2.contains(x) && a2.contains(y));
    }
    assert forall|x: Seq<char>, y: Seq<char>| #[trigger] b1.contains(x) && #[trigger] b1.contains(y) && x != y implies rel(x, y)
        == Relation::Unrelated by {
        assert(b2.contains(x) && b2.contains(y));
    }
    assert forall|x: Seq<char>, y: Seq<char>| #[trigger] a1.contains(x) && #[trigger] b1.contains(y) implies rel(x, y)
        == Relation::Causality by {
        assert(a2.contains(x) && b2.contains(y));
    }
}

/// Whether the activities of the set are pairwise unrelated.
fn all_unrelated(fp: &Footprint, set: &Vec<String>) -> (r: bool)
    ensures
        r == pairwise_unrelated(fp_rel(*fp), views(set@)),
{
    let ghost sv = views(set@);
    let mut i: usize = 0;
    while i < set.len()
        invariant
            0 <= i <= set@.len(),
            sv == views(set@),
            forall|x: int, y: int| 0 <= x < i && 0 <= y < set@.len() && sv[x] != sv[y] ==> stored_relation(fp.relations@, #[trigger] sv[x], #[trigger] sv[y]) == Relation::Unrelated,
        decreases set@.len() - i,
    {
        let mut j: usize = 0;
        while j < set.len()
            invariant
                0 <= i < set@.len(),
                0 <= j <= set@.len(),
                sv == views(set@),
                forall|x: int, y: int| 0 <= x < i && 0 <= y < set@.len() && sv[x] != sv[y] ==> stored_relation(fp.relations@, #[trigger] sv[x], #[trigger] sv[y]) == Relation::Unrelated,
                forall|y: int| 0 <= y < j && sv[i as int] != sv[y] ==> stored_relation(fp.relations@, sv[i as int], #[trigger] sv[y]) == Relation::Unrelated,
            decreases set@.len() - j,
        {
            assert(sv[i as int] == set@[i as int]@ && sv[j as int] == set@[j as int]@);
            if !str_eq(set[i].as_str(), set[j].as_str()) && !fp.is_unrelated(set[i].as_str(), set[j].as_str()) {
                proof {
                    assert(sv.contains(sv[i as int]) && sv.contains(sv[j as int]));
                }
                return false;
            }
            j = j + 1;
        }
        i = i + 1;
    }
    proof {
        assert forall|x: Seq<char>, y: Seq<char>| #[trigger] sv.contains(x) && #[trigger] sv.contains(y) && x != y implies stored_relation(fp.relations@, x, y) == Relation::Unrelated by {
            let a = choose|a: int| 0 <= a < sv.len() && sv[a] == x;
            let b = choose|b: int| 0 <= b < sv.len() && sv[b] == y;
            assert(stored_relation(fp.relations@, sv[a], sv[b]) == Relation::Unrelated);
        }
    }
    true
}

/// Whether each activity of `a` causally precedes each of `b`.
fn all_causal(fp: &Footprint, a: &Vec<String>, b: &Vec<String>) -> (r: bool)
    ensures
        r == all_lead(fp_rel(*fp), views(a@), views(b@)),
{
    let ghost av = views(a@);
    let ghost bv = views(b@);
    let mut i: usize = 0;
    while i < a.len()
        invariant
            0 <= i <= a@.len(),
            av == views(a@),
            bv == views(b@),
            forall|x: int, y: int| 0 <= x < i && 0 <= y < b@.len() ==> stored_relation(fp.relations@, #[trigger] av[x], #[trigger] bv[y]) == Relation::Causality,
        decreases a@.len() - i,
    {
        let mut j: usize = 0;
        while j < b.len()
            invariant
                0 <= i < a@.len(),
                0 <= j <= b@.len(),
                av == views(a@),
                bv == views(b@),
                forall|x: int, y: int| 0 <= x < i && 0 <= y < b@.len() ==> stored_relation(fp.relations@, #[trigger] av[x], #[trigger] bv[y]) == Relation::Causality,
                forall|y: int| 0 <= y < j ==> stored_relation(fp.relations@, av[i as int], #[trigger] bv[y]) == Relation::Causality,
            decreases b@.len() - j,
        {
            assert(av[i as int] == a@[i as int]@ && bv[j as int] == b@[j as int]@);
            if !fp.is_causal(a[i].as_str(), b[j].as_str()) {
                proof {
                    assert(av.contains(av[i as int]) && bv.contains(bv[j as int]));
                }
                return false;
            }
            j = j + 1;
        }
        i = i + 1;
    }
    proof {
        assert forall|x: Seq<char>, y: Seq<char>| #[trigger] av.contains(x) && #[trigger] bv.contains(y) implies stored_relation(fp.relations@, x, y) == Relation::Causality by {
            let p = choose|p: int| 0 <= p < av.len() && av[p] == x;
            let q = choose|q: int| 0 <= q < bv.len() && bv[q] == y;
            assert(stored_relation(fp.relations@, av[p], bv[q]) == Relation::Causality);
        }
    }
    true
}

/// Every activity of the footprint is in `a`, or cannot be added to `a`
/// keeping `(a, b)` a pair.
pub open spec fn a_maximal(rel: spec_fn(Seq<char>, Seq<char>) -> Relation, acts: Seq<Seq<char>>, a: Seq<Seq<char>>, b: Seq<Seq<char>>) -> bool {
    forall|x: Seq<char>| #[trigger] acts.contains(x) && !a.contains(x) ==> !valid_pair(rel, a.push(x), b)
}

/// Every activity of the footprint is in `b`, or cannot be added to `b`
/// keeping `(a, b)` a pair.
pub open spec fn b_maximal(rel: spec_fn(Seq<char>, Seq<char>) -> Relation, acts: Seq<Seq<char>>, a: Seq<Seq<char>>, b: Seq<Seq<char>>) -> bool {
    forall|x: Seq<char>| #[trigger] acts.contains(x) && !b.contains(x) ==> !valid_pair(rel, a, b.push(x))
}

/// The set with `x` added at the end.
fn with_text(v: &Vec<String>, x: &str) -> (r: Vec<String>)
    ensures
        views(r@) == views(v@).push(x@),
{
    let mut r = crate::literal::clone_strings(v);
    r.push(String::from_str(x));
    proof {
        assert(views(r@) =~= views(v@).push(x@));
    }
    r
}

/// The pair grown from the causal pair `(a, b)`: each activity of the
/// footprint, in order, joins the first set when the pair stays valid; then
/// each joins the second set likewise.
fn maximal_pair(fp: &Footprint, a: &str, b: &str) -> (r: (Vec<String>, Vec<String>))
    requires
        stored_relation(fp.relations@, a@, b@) == Relation::Causality,
    ensures
        valid_pair(fp_rel(*fp), views(r.0@), views(r.1@)),
        views(r.0@).contains(a@),
        views(r.1@).contains(b@),
        distinct_texts(views(r.0@)),
        distinct_texts(views(r.1@)),
        forall|x: Seq<char>| #[trigger] views(r.0@).contains(x) ==> x == a@ || views(fp.activities@).contains(x),
        forall|x: Seq<char>| #[trigger] views(r.1@).contains(x) ==> x == b@ || views(fp.activities@).contains(x),
        a_maximal(fp_rel(*fp), views(fp.activities@), views(r.0@), views(r.1@)),
        b_maximal(fp_rel(*fp), views(fp.activities@), views(r.0@), views(r.1@)),
{
    let ghost rel = fp_rel(*fp);
    let ghost acts = views(fp.activities@);
    let mut sa: Vec<String> = Vec::new();
    sa.push(String::from_str(a));
    let mut sb: Vec<String> = Vec::new();
    sb.push(String::from_str(b));
    proof {
        assert(views(sa@) =~= seq![a@]);
        assert(views(sb@) =~= seq![b@]);
        assert(views(sa@)[0] == a@);
        assert(valid_pair(rel, views(sa@), views(sb@)));
    }
    let n = fp.activities.len();
    let mut t: usize = 0;
    while t < n
        invariant
            n == fp.activities@.len(),
            acts == views(fp.activities@),
            rel == fp_rel(*fp),
            0 <= t <= n,
            valid_pair(rel, views(sa@), views(sb@)),
            views(sb@) == seq![b@],
            views(sa@).contains(a@),
            distinct_texts(views(sa@)),
            distinct_texts(views(sb@)),
            forall|x: Seq<char>| #[trigger] views(sa@).contains(x) ==> x == a@ || acts.contains(x),
            forall|k: int| 0 <= k < t ==> views(sa@).contains(#[trigger] acts[k]) || !valid_pair(rel, views(sa@).push(acts[k]), views(sb@)),
        decreases n - t,
    {
        let x = fp.activities[t].as_str();
        assert(acts[t as int] == x@);
        if !contains_text(&sa, x) {
            let na = with_text(&sa, x);
            if all_unrelated(fp, &na) && all_causal(fp, &na, &sb) {
                proof {
                    let old_a = views(sa@);
                    let new_a = views(na@);
                    assert(!old_a.contains(x@)) by {
                        if old_a.contains(x@) {
                            let k = choose|k: int| 0 <= k < old_a.len() && old_a[k] == x@;
                            assert(sa@[k]@ == x@);
                        }
                    }
                    assert(valid_pair(rel, new_a, views(sb@)));
                    assert forall|k: int| 0 <= k < t + 1 implies new_a.contains(#[trigger] acts[k]) || !valid_pair(rel, new_a.push(acts[k]), views(sb@)) by {
                        if k < t && !old_a.contains(acts[k]) {
                            if valid_pair(rel, new_a.push(acts[k]), views(sb@)) {
                                assert(set_le(old_a.push(acts[k]), new_a.push(acts[k]))) by {
                                    assert forall|y: Seq<char>| #[trigger] old_a.push(acts[k]).contains(y) implies new_a.push(acts[k]).contains(y) by {
                                        let j = choose|j: int| 0 <= j < old_a.push(acts[k]).len() && old_a.push(acts[k])[j] == y;
                                        if j < old_a.len() {
                                            assert(new_a.push(acts[k])[j] == y);
                                        } else {
                                            assert(new_a.push(acts[k])[new_a.len() as int] == y);
                                        }
                                    }
                                }
                                assert(set_le(views(sb@), views(sb@)));
                                lemma_valid_mono(rel, old_a.push(acts[k]), views(sb@), new_a.push(acts[k]), views(sb@));
                            }
                        }
                        if k < t && old_a.contains(acts[k]) {
                            let j = choose|j: int| 0 <= j < old_a.len() && old_a[j] == acts[k];
                            assert(new_a[j] == acts[k]);
                        }
                        if k == t {
                            assert(new_a[old_a.len() as int] == acts[k]);
                        }
                    }
                    assert forall|y: Seq<char>| #[trigger] new_a.contains(y) implies y == a@ || acts.contains(y) by {
                        let j = choose|j: int| 0 <= j < new_a.len() && new_a[j] == y;
                        if j < old_a.len() {
                            assert(old_a.contains(y));
                        } else {
                            assert(acts[t as int] == y);
                        }
                    }
                    let j0 = choose|j: int| 0 <= j < old_a.len() && old_a[j] == a@;
                    assert(new_a[j0] == a@);
                    assert(distinct_texts(new_a)) by {
                        assert forall|p: int, q: int| 0 <= p < new_a.len() && 0 <= q < new_a.len() && p != q implies #[trigger] new_a[p] != #[trigger] new_a[q] by {
                            if p == old_a.len() {
                                assert(old_a[q] == new_a[q]);
                            } else if q == old_a.len() {
                                assert(old_a[p] == new_a[p]);
                            }
                        }
                    }
                }
                sa = na;
            } else {
                proof {
                    assert(views(na@) == views(sa@).push(x@));
                }
            }
        } else {
            proof {
                let k = choose|k: int| 0 <= k < sa@.len() && (#[trigger] sa@[k])@ == x@;
                assert(views(sa@)[k] == x@);
            }
        }
        t = t + 1;
    }
    proof {
        assert(views(sb@)[0] == b@);
        assert forall|x: Seq<char>| #[trigger] acts.contains(x) && !views(sa@).contains(x) implies !valid_pair(rel, views(sa@).push(x), views(sb@)) by {
            let k = choose|k: int| 0 <= k < acts.len() && acts[k] == x;
            assert(views(sa@).contains(acts[k]) || !valid_pair(rel, views(sa@).push(acts[k]), views(sb@)));
        }
    }
    let mut u: usize = 0;
    while u < n
        invariant
            n == fp.activities@.len(),
            acts == views(fp.activities@),
            rel == fp_rel(*fp),
            0 <= u <= n,
            valid_pair(rel, views(sa@), views(sb@)),
            views(sa@).contains(a@),
            views(sb@).contains(b@),
            distinct_texts(views(sa@)),
            distinct_texts(views(sb@)),
            forall|x: Seq<char>| #[trigger] views(sa@).contains(x) ==> x == a@ || acts.contains(x),
            forall|x: Seq<char>| #[trigger] views(sb@).contains(x) ==> x == b@ || acts.contains(x),
            forall|x: Seq<char>| #[trigger] acts.contains(x) && !views(sa@).contains(x) ==> !valid_pair(rel, views(sa@).push(x), views(sb@)),
            forall|k: int| 0 <= k < u ==> views(sb@).contains(#[trigger] acts[k]) || !valid_pair(rel, views(sa@), views(sb@).push(acts[k])),
        decreases n - u,
    {
        let x = fp.activities[u].as_str();
        assert(acts[u as int] == x@);
        if !contains_text(&sb, x) {
            let nb = with_text(&sb, x);
            if all_unrelated(fp, &nb) && all_causal(fp, &sa, &nb) {
                proof {
                    let old_b = views(sb@);
                    let new_b = views(nb@);
                    let av = views(sa@);
                    assert(!old_b.contains(x@)) by {
                        if old_b.contains(x@) {
                            let k = choose|k: int| 0 <= k < old_b.len() && old_b[k] == x@;
                            assert(sb@[k]@ == x@);
                        }
                    }
                    assert(valid_pair(rel, av, new_b));
                    assert(set_le(old_b, new_b)) by {
                        assert forall|y: Seq<char>| #[trigger] old_b.contains(y) implies new_b.contains(y) by {
                            let j = choose|j: int| 0 <= j < old_b.len() && old_b[j] == y;
                            assert(new_b[j] == y);
                        }
                    }
                    assert(set_le(av, av));
                    assert forall|y: Seq<char>| #[trigger] acts.contains(y) && !av.contains(y) implies !valid_pair(rel, av.push(y), new_b) by {
                        if valid_pair(rel, av.push(y), new_b) {
                            assert(set_le(av.push(y), av.push(y)));
                            lemma_valid_mono(rel, av.push(y), old_b, av.push(y), new_b);
                        }
                    }
                    assert forall|k: int| 0 <= k < u + 1 implies new_b.contains(#[trigger] acts[k]) || !valid_pair(rel, av, new_b.push(acts[k])) by {
                        if k < u && !old_b.contains(acts[k]) {
                            if valid_pair(rel, av, new_b.push(acts[k])) {
                                assert(set_le(old_b.push(acts[k]), new_b.push(acts[k]))) by {
                                    assert forall|y: Seq<char>| #[trigger] old_b.push(acts[k]).contains(y) implies new_b.push(acts[k]).contains(y) by {
                                        let j = choose|j: int| 0 <= j < old_b.push(acts[k]).len() && old_b.push(acts[k])[j] == y;
                                        if j < old_b.len() {
                                            assert(new_b.push(acts[k])[j] == y);
                                        } else {
                                            assert(new_b.push(acts[k])[new_b.len() as int] == y);
                                        }
                                    }
                                }
                                lemma_valid_mono(rel, av, old_b.push(acts[k]), av, new_b.push(acts[k]));
                            }
                        }
                        if k < u && old_b.contains(acts[k]) {
                            let j = choose|j: int| 0 <= j < old_b.len() && old_b[j] == acts[k];
                            assert(new_b[j] == acts[k]);
                        }
                        if k == u {
                            assert(new_b[old_b.len() as int] == acts[k]);
                        }
                    }
                    assert forall|y: Seq<char>| #[trigger] new_b.contains(y) implies y == b@ || acts.contains(y) by {
                        let j = choose|j: int| 0 <= j < new_b.len() && new_b[j] == y;
                        if j < old_b.len() {
                            assert(old_b.contains(y));
                        } else {
                            assert(acts[u as int] == y);
                        }
                    }
                    let j0 = choose|j: int| 0 <= j < old_b.len() && old_b[j] == b@;
                    assert(new_b[j0] == b@);
                    assert(distinct_texts(new_b)) by {
                        assert forall|p: int, q: int| 0 <= p < new_b.len() && 0 <= q < new_b.len() && p != q implies #[trigger] new_b[p] != #[trigger] new_b[q] by {
                            if p == old_b.len() {
                                assert(old_b[q] == new_b[q]);
                            } else if q == old_b.len() {
                                assert(old_b[p] == new_b[p]);
                            }
                        }
                    }
                }
                sb = nb;
            } else {
                proof {
                    assert(views(nb@) == views(sb@).push(x@));
                }
            }
        } else {
            proof {
                let k = choose|k: int| 0 <= k < sb@.len() && (#[trigger] sb@[k])@ == x@;
                assert(views(sb@)[k] == x@);
            }
        }
        u = u + 1;
    }
    proof {
        assert forall|x: Seq<char>| #[trigger] acts.contains(x) && !views(sb@).contains(x) implies !valid_pair(rel, views(sa@), views(sb@).push(x)) by {
            let k = choose|k: int| 0 <= k < acts.len() && acts[k] == x;
            assert(views(sb@).contains(acts[k]) || !valid_pair(rel, views(sa@), views(sb@).push(acts[k])));
        }
    }
    (sa, sb)
}

/// Whether every element of `a` is an element of `b`.
fn subset(a: &Vec<String>, b: &Vec<String>) -> (r: bool)
    ensures
        r == set_le(views(a@), views(b@)),
{
    let mut i: usize = 0;
    while i < a.len()
        invariant
            0 <= i <= a@.len(),
            forall|k: int| 0 <= k < i ==> views(b@).contains(#[trigger] views(a@)[k]),
        decreases a@.len() - i,
    {
        let present = contains_text(b, a[i].as_str());
        proof {
            assert(views(a@)[i as int] == a@[i as int]@);
            if present {
                let k = choose|k: int| 0 <= k < b@.len() && (#[trigger] b@[k])@ == a@[i as int]@;
                assert(views(b@)[k] == a@[i as int]@);
            } else {
                if views(b@).contains(views(a@)[i as int]) {
                    let k = choose|k: int| 0 <= k < views(b@).len() && views(b@)[k] == views(a@)[i as int];
                    assert(b@[k]@ == views(b@)[k]);
                }
            }
        }
        if !present {
            proof {
                assert(views(a@).contains(views(a@)[i as int]));
            }
            return false;
        }
        i = i + 1;
    }
    proof {
        assert forall|x: Seq<char>| #[trigger] views(a@).contains(x) implies views(b@).contains(x) by {
            let k = choose|k: int| 0 <= k < views(a@).len() && views(a@)[k] == x;
            assert(views(b@).contains(views(a@)[k]));
        }
    }
    true
}

/// The pair is valid under `rel`, of activities of `acts`, and maximal on
/// both sides.
pub open spec fn maximal_wrt(rel: spec_fn(Seq<char>, Seq<char>) -> Relation, acts: Seq<Seq<char>>, a: Seq<Seq<char>>, b: Seq<Seq<char>>) -> bool {
    &&& valid_pair(rel, a, b)
    &&& a.len() > 0
    &&& b.len() > 0
    &&& distinct_texts(a)
    &&& distinct_texts(b)
    &&& set_le(a, acts)
    &&& set_le(b, acts)
    &&& a_maximal(rel, acts, a, b)
    &&& b_maximal(rel, acts, a, b)
}

/// The pair is maximal in the footprint.
pub open spec fn maximal_in(fp: Footprint, a: Seq<Seq<char>>, b: Seq<Seq<char>>) -> bool {
    maximal_wrt(fp_rel(fp), views(fp.activities@), a, b)
}

/// A maximal pair inside another is the same pair (as sets).
proof fn lemma_maximal_inside(fp: Footprint, a1: Seq<Seq<char>>, b1: Seq<Seq<char>>, a2: Seq<Seq<char>>, b2: Seq<Seq<char>>)
    requires
        maximal_in(fp, a1, b1),
        maximal_in(fp, a2, b2),
        set_le(a1, a2),
        set_le(b1, b2),
    ensures
        set_le(a2, a1),
        set_le(b2, b1),
{
    let rel = fp_rel(fp);
    assert forall|x: Seq<char>| #[trigger] a2.contains(x) implies a1.contains(x) by {
        if !a1.contains(x) {
            assert(views(fp.activities@).contains(x));
            assert(set_le(a1.push(x), a2)) by {
                assert forall|y: Seq<char>| #[trigger] a1.push(x).contains(y) implies a2.contains(y) by {
                    let j = choose|j: int| 0 <= j < a1.push(x).len() && a1.push(x)[j] == y;
                    if j < a1.len() {
                        assert(a1.contains(y));
                    }
                }
            }
            lemma_valid_mono(rel, a1.push(x), b1, a2, b2);
        }
    }
    assert forall|x: Seq<char>| #[trigger] b2.contains(x) implies b1.contains(x) by {
        if !b1.contains(x) {
            assert(views(fp.activities@).contains(x));
            assert(set_le(b1.push(x), b2)) by {
                assert forall|y: Seq<char>| #[trigger] b1.push(x).contains(y) implies b2.contains(y) by {
                    let j = choose|j: int| 0 <= j < b1.push(x).len() && b1.push(x)[j] == y;
                    if j < b1.len() {
                        assert(b1.contains(y));
                    }
                }
            }
            lemma_valid_mono(rel, a1, b1.push(x), a2, b2);
        }
    }
}

/// The views of the pairs' sets.
pub open spec fn pair_views(ps: Seq<(Vec<String>, Vec<String>)>) -> Seq<(Seq<Seq<char>>, Seq<Seq<char>>)> {
    ps.map_values(|p: (Vec<String>, Vec<String>)| (views(p.0@), views(p.1@)))
}

/// The maximal pairs of the footprint, each once: for each causal pair, the
/// pair grown from it; pairs equal as sets are kept once, and a pair inside
/// another is dropped.
fn find_maximal_pairs(fp: &Footprint) -> (r: Vec<(Vec<String>, Vec<String>)>)
    requires
        keys_in(*fp),
        entries_agree(*fp),
    ensures
        forall|k: int| 0 <= k < r@.len() ==> #[trigger] maximal_in(*fp, pair_views(r@)[k].0, pair_views(r@)[k].1),
        forall|k: int, l: int|
            0 <= k < r@.len() && 0 <= l < r@.len() && k != l ==> !(set_le(#[trigger] pair_views(r@)[k].0, #[trigger] pair_views(r@)[l].0)
                && set_le(pair_views(r@)[k].1, pair_views(r@)[l].1)),
        forall|x: Seq<char>, y: Seq<char>|
            #[trigger] pairs_with(fp.relations@, Relation::Causality).contains((x, y)) ==> exists|k: int|
                0 <= k < r@.len() && pair_views(r@)[k].0.contains(x) && pair_views(r@)[k].1.contains(y),
        r@.len() <= fp.relations@.len(),
{
    let causal = fp.causal_pairs();
    let ghost cv = causal@.map_values(|p: (String, String)| (p.0@, p.1@));
    let mut unique: Vec<(Vec<String>, Vec<String>)> = Vec::new();
    let mut i: usize = 0;
    while i < causal.len()
        invariant
            keys_in(*fp),
            entries_agree(*fp),
            cv == causal@.map_values(|p: (String, String)| (p.0@, p.1@)),
            cv == pairs_with(fp.relations@, Relation::Causality),
            0 <= i <= causal@.len(),
            unique@.len() <= i,
            forall|k: int| 0 <= k < unique@.len() ==> #[trigger] maximal_in(*fp, pair_views(unique@)[k].0, pair_views(unique@)[k].1),
            forall|k: int, l: int|
                0 <= k < unique@.len() && 0 <= l < unique@.len() && k != l ==> !(set_le(#[trigger] pair_views(unique@)[k].0, #[trigger] pair_views(unique@)[l].0)
                    && set_le(pair_views(unique@)[k].1, pair_views(unique@)[l].1)),
            forall|j: int| 0 <= j < i ==> exists|k: int|
                0 <= k < unique@.len() && pair_views(unique@)[k].0.contains(#[trigger] cv[j].0) && pair_views(unique@)[k].1.contains(cv[j].1),
        decreases causal@.len() - i,
    {
        let a = causal[i].0.as_str();
        let b = causal[i].1.as_str();
        proof {
            assert(cv[i as int] == (a@, b@));
            lemma_pairs_with(fp.relations@, Relation::Causality, i as int);
        }
        let (pa, pb) = maximal_pair(fp, a, b);
        let ghost pav = views(pa@);
        let ghost pbv = views(pb@);
        proof {
            assert(views(fp.activities@).contains(a@) && views(fp.activities@).contains(b@));
            assert(maximal_in(*fp, pav, pbv)) by {
                let ja = choose|j: int| 0 <= j < pav.len() && pav[j] == a@;
                let jb = choose|j: int| 0 <= j < pbv.len() && pbv[j] == b@;
            }
        }
        let mut dup = false;
        let mut k: usize = 0;
        while k < unique.len()
            invariant
                0 <= k <= unique@.len(),
                pav == views(pa@),
                pbv == views(pb@),
                dup ==> exists|q: int|
                    0 <= q < unique@.len() && set_le(pav, #[trigger] pair_views(unique@)[q].0) && set_le(pair_views(unique@)[q].0, pav)
                        && set_le(pbv, pair_views(unique@)[q].1) && set_le(pair_views(unique@)[q].1, pbv),
                !dup ==> forall|q: int|
                    0 <= q < k ==> !(set_le(pav, #[trigger] pair_views(unique@)[q].0) && set_le(pair_views(unique@)[q].0, pav)
                        && set_le(pbv, pair_views(unique@)[q].1) && set_le(pair_views(unique@)[q].1, pbv)),
            decreases unique@.len() - k,
        {
            assert(pair_views(unique@)[k as int] == (views(unique@[k as int].0@), views(unique@[k as int].1@)));
            let s1 = subset(&pa, &unique[k].0);
            let s2 = subset(&unique[k].0, &pa);
            let s3 = subset(&pb, &unique[k].1);
            let s4 = subset(&unique[k].1, &pb);
            if s1 && s2 && s3 && s4 {
                dup = true;
            }
            proof {
                let uk = pair_views(unique@)[k as int];
                if s1 && s2 && s3 && s4 {
                    assert(set_le(pav, uk.0) && set_le(uk.0, pav) && set_le(pbv, uk.1) && set_le(uk.1, pbv));
                }
            }
            k = k + 1;
        }
        let ghost before = unique@;
        if !dup {
            unique.push((pa, pb));
            proof {
                let uv = pair_views(unique@);
                let bv = pair_views(before);
                assert(uv =~= bv.push((pav, pbv)));
                assert forall|q: int, l: int|
                    0 <= q < uv.len() && 0 <= l < uv.len() && q != l implies !(set_le(#[trigger] uv[q].0, #[trigger] uv[l].0)
                        && set_le(uv[q].1, uv[l].1)) by {
                    let last = bv.len() as int;
                    if q == last && set_le(uv[q].0, uv[l].0) && set_le(uv[q].1, uv[l].1) {
                        lemma_maximal_inside(*fp, pav, pbv, bv[l].0, bv[l].1);
                        assert(!(set_le(pav, bv[l].0) && set_le(bv[l].0, pav) && set_le(pbv, bv[l].1) && set_le(bv[l].1, pbv)));
                    }
                    if l == last && set_le(uv[q].0, uv[l].0) && set_le(uv[q].1, uv[l].1) {
                        lemma_maximal_inside(*fp, bv[q].0, bv[q].1, pav, pbv);
                        assert(!(set_le(pav, bv[q].0) && set_le(bv[q].0, pav) && set_le(pbv, bv[q].1) && set_le(bv[q].1, pbv)));
                    }
                }
                assert forall|q: int| 0 <= q < uv.len() implies #[trigger] maximal_in(*fp, uv[q].0, uv[q].1) by {
                    if q < bv.len() {
                        assert(uv[q] == bv[q]);
                    }
                }
                assert forall|j: int| 0 <= j < i + 1 implies exists|q: int|
                    0 <= q < uv.len() && uv[q].0.contains(#[trigger] cv[j].0) && uv[q].1.contains(cv[j].1) by {
                    if j < i {
                        let q = choose|q: int| 0 <= q < bv.len() && bv[q].0.contains(cv[j].0) && bv[q].1.contains(cv[j].1);
                        assert(uv[q] == bv[q]);
                    } else {
                        assert(uv[bv.len() as int] == (pav, pbv));
                    }
                }
            }
        } else {
            proof {
                let uv = pair_views(unique@);
                let q = choose|q: int|
                    0 <= q < unique@.len() && set_le(pav, #[trigger] pair_views(unique@)[q].0) && set_le(pair_views(unique@)[q].0, pav)
                        && set_le(pbv, pair_views(unique@)[q].1) && set_le(pair_views(unique@)[q].1, pbv);
                assert(uv[q].0.contains(cv[i as int].0) && uv[q].1.contains(cv[i as int].1));
                assert forall|j: int| 0 <= j < i + 1 implies exists|q2: int|
                    0 <= q2 < uv.len() && uv[q2].0.contains(#[trigger] cv[j].0) && uv[q2].1.contains(cv[j].1) by {
                    if j == i {
                        assert(uv[q].0.contains(cv[j].0) && uv[q].1.contains(cv[j].1));
                    }
                }
            }
        }
        i = i + 1;
    }
    proof {
        lemma_pairs_with_len(fp.relations@, Relation::Causality);
        assert forall|x: Seq<char>, y: Seq<char>|
            #[trigger] pairs_with(fp.relations@, Relation::Causality).contains((x, y)) implies exists|k: int|
                0 <= k < unique@.len() && pair_views(unique@)[k].0.contains(x) && pair_views(unique@)[k].1.contains(y) by {
            let j = choose|j: int| 0 <= j < cv.len() && cv[j] == (x, y);
            let k = choose|k: int| 0 <= k < unique@.len() && pair_views(unique@)[k].0.contains(cv[j].0) && pair_views(unique@)[k].1.contains(cv[j].1);
        }
    }
    unique
}

/// No more pairs are listed than there are entries.
proof fn lemma_pairs_with_len(rel: Seq<((String, String), Relation)>, which: Relation)
    ensures
        pairs_with(rel, which).len() <= rel.len(),
    decreases rel.len(),
{
    if rel.len() > 0 {
        lemma_pairs_with_len(rel.drop_last(), which);
    }
}

/// Each pair listed with relation `which` is an entry with that relation.
proof fn lemma_pairs_with(rel: Seq<((String, String), Relation)>, which: Relation, i: int)
    requires
        0 <= i < pairs_with(rel, which).len(),
    ensures
        exists|k: int|
            0 <= k < rel.len() && (#[trigger] rel[k]).1 == which && rel[k].0.0@ == pairs_with(rel, which)[i].0 && rel[k].0.1@
                == pairs_with(rel, which)[i].1,
    decreases rel.len(),
{
    let init = rel.drop_last();
    if i < pairs_with(init, which).len() {
        lemma_pairs_with(init, which, i);
        let k = choose|k: int|
            0 <= k < init.len() && (#[trigger] init[k]).1 == which && init[k].0.0@ == pairs_with(init, which)[i].0 && init[k].0.1@
                == pairs_with(init, which)[i].1;
        assert(rel[k] == init[k]);
    } else {
        assert(rel[rel.len() - 1] == rel.last());
    }
}

/// Some case starts with activity `x`.
pub open spec fn is_start(cases: Seq<Case>, x: Seq<char>) -> bool {
    exists|c: int| 0 <= c < cases.len() && cases[c].events@.len() > 0 && #[trigger] cases[c].events@[0].activity@ == x
}

/// Some case ends with activity `x`.
pub open spec fn is_end(cases: Seq<Case>, x: Seq<char>) -> bool {
    exists|c: int|
        0 <= c < cases.len() && cases[c].events@.len() > 0 && #[trigger] cases[c].events@[cases[c].events@.len() - 1].activity@ == x
}

/// The first (`first`) or last activities of the cases, each once, in order
/// of the cases.
fn boundary_activities(log: &EventLog, first: bool) -> (r: Vec<String>)
    ensures
        distinct_texts(views(r@)),
        first ==> forall|x: Seq<char>| #[trigger] views(r@).contains(x) <==> is_start(log.cases@, x),
        !first ==> forall|x: Seq<char>| #[trigger] views(r@).contains(x) <==> is_end(log.cases@, x),
{
    let mut out: Vec<String> = Vec::new();
    let mut c: usize = 0;
    while c < log.cases.len()
        invariant
            0 <= c <= log.cases@.len(),
            distinct_texts(views(out@)),
            forall|x: Seq<char>| #[trigger] views(out@).contains(x) <==> exists|cc: int|
                0 <= cc < c && log.cases@[cc].events@.len() > 0 && (if first {
                    log.cases@[cc].events@[0].activity@
                } else {
                    log.cases@[cc].events@[log.cases@[cc].events@.len() - 1].activity@
                }) == x,
        decreases log.cases@.len() - c,
    {
        let evs = &log.cases[c].events;
        if evs.len() > 0 {
            let act = if first { evs[0].activity.as_str() } else { evs[evs.len() - 1].activity.as_str() };
            let ghost before = views(out@);
            let present = contains_text(&out, act);
            proof {
                if present {
                    let k = choose|k: int| 0 <= k < out@.len() && (#[trigger] out@[k])@ == act@;
                    assert(before[k] == act@);
                }
                if before.contains(act@) {
                    let k = choose|k: int| 0 <= k < before.len() && before[k] == act@;
                    assert(out@[k]@ == act@);
                }
            }
            if !present {
                out.push(String::from_str(act));
                proof {
                    assert(views(out@) =~= before.push(act@));
                }
            }
            proof {
                let now = views(out@);
                assert forall|x: Seq<char>| #[trigger] now.contains(x) <==> exists|cc: int|
                    0 <= cc < c + 1 && log.cases@[cc].events@.len() > 0 && (if first {
                        log.cases@[cc].events@[0].activity@
                    } else {
                        log.cases@[cc].events@[log.cases@[cc].events@.len() - 1].activity@
                    }) == x by {
                    if x == act@ {
                        if present {
                            let k = choose|k: int| 0 <= k < before.len() && before[k] == act@;
                            assert(now[k] == x);
                        } else {
                            assert(now[before.len() as int] == x);
                        }
                    } else {
                        if now.contains(x) {
                            let k = choose|k: int| 0 <= k < now.len() && now[k] == x;
                            assert(before[k] == x);
                        }
                        if before.contains(x) {
                            let k = choose|k: int| 0 <= k < before.len() && before[k] == x;
                            assert(now[k] == x);
                        }
                    }
                }
            }
        }
        c = c + 1;
    }
    proof {
        if first {
            assert forall|x: Seq<char>| #[trigger] views(out@).contains(x) <==> is_start(log.cases@, x) by {
                if is_start(log.cases@, x) {
                    let cc = choose|cc: int| 0 <= cc < log.cases@.len() && log.cases@[cc].events@.len() > 0 && #[trigger] log.cases@[cc].events@[0].activity@ == x;
                }
            }
        } else {
            assert forall|x: Seq<char>| #[trigger] views(out@).contains(x) <==> is_end(log.cases@, x) by {
                if is_end(log.cases@, x) {
                    let cc = choose|cc: int|
                        0 <= cc < log.cases@.len() && log.cases@[cc].events@.len() > 0 && #[trigger] log.cases@[cc].events@[log.cases@[cc].events@.len() - 1].activity@ == x;
                }
            }
        }
    }
    out
}

/// `t` is `s` in increasing order: the same texts, each once, increasing.
pub open spec fn sorted_of(t: Seq<Seq<char>>, s: Seq<Seq<char>>) -> bool {
    &&& t.len() == s.len()
    &&& forall|x: Seq<char>| #[trigger] t.contains(x) <==> s.contains(x)
    &&& forall|i: int, j: int| 0 <= i < j < t.len() ==> text_lt(#[trigger] t[i], #[trigger] t[j])
}

/// Where `x` goes among increasing texts: after every text it does not
/// come before.
fn text_position(out: &Vec<String>, x: &str) -> (pos: usize)
    ensures
        pos <= out@.len(),
        forall|k: int| 0 <= k < pos ==> !text_lt(x@, #[trigger] views(out@)[k]),
        pos < out@.len() ==> text_lt(x@, views(out@)[pos as int]),
{
    let mut pos: usize = 0;
    while pos < out.len()
        invariant
            0 <= pos <= out@.len(),
            forall|k: int| 0 <= k < pos ==> !text_lt(x@, #[trigger] views(out@)[k]),
        decreases out@.len() - pos,
    {
        assert(views(out@)[pos as int] == out@[pos as int]@);
        if text_less(x, out[pos].as_str()) {
            return pos;
        }
        pos = pos + 1;
    }
    pos
}

/// The texts in increasing order.
pub(crate) fn sort_texts(v: &Vec<String>) -> (r: Vec<String>)
    requires
        distinct_texts(views(v@)),
    ensures
        sorted_of(views(r@), views(v@)),
{
    let mut out: Vec<String> = Vec::new();
    let mut i: usize = 0;
    while i < v.len()
        invariant
            0 <= i <= v@.len(),
            distinct_texts(views(v@)),
            out@.len() == i,
            forall|x: Seq<char>| #[trigger] views(out@).contains(x) <==> views(v@).take(i as int).contains(x),
            forall|p: int, q: int| 0 <= p < q < out@.len() ==> text_lt(#[trigger] views(out@)[p], #[trigger] views(out@)[q]),
        decreases v@.len() - i,
    {
        let x = v[i].as_str();
        let ghost ov = views(out@);
        let ghost vi = views(v@).take(i as int);
        let pos = text_position(&out, x);
        proof {
            assert(views(v@)[i as int] == x@);
            assert(!vi.contains(x@)) by {
                if vi.contains(x@) {
                    let j = choose|j: int| 0 <= j < vi.len() && vi[j] == x@;
                    assert(views(v@)[j] == views(v@)[i as int]);
                }
            }
            assert(!ov.contains(x@));
        }
        out.insert(pos, String::from_str(x));
        proof {
            let nv = views(out@);
            assert(nv =~= ov.insert(pos as int, x@));
            assert forall|k: int| 0 <= k < pos implies text_lt(#[trigger] ov[k], x@) by {
                assert(!text_lt(x@, ov[k]));
                lemma_text_lt_total(x@, ov[k]);
                assert(ov.contains(ov[k]));
            }
            assert forall|p: int, q: int| 0 <= p < q < nv.len() implies text_lt(#[trigger] nv[p], #[trigger] nv[q]) by {
                if p < pos && q < pos {
                    assert(text_lt(ov[p], ov[q]));
                } else if p < pos && q == pos {
                    assert(text_lt(ov[p], x@));
                } else if p < pos && q > pos {
                    assert(text_lt(ov[p], ov[q - 1]));
                } else if p == pos {
                    let w = ov[pos as int];
                    assert(text_lt(x@, w));
                    if q - 1 > pos {
                        assert(text_lt(w, ov[q - 1]));
                        lemma_text_lt_trans(x@, w, ov[q - 1]);
                    }
                } else {
                    assert(text_lt(ov[p - 1], ov[q - 1]));
                }
            }
            assert(views(v@).take(i + 1) =~= vi.push(x@));
            assert forall|y: Seq<char>| #[trigger] nv.contains(y) <==> views(v@).take(i + 1).contains(y) by {
                if nv.contains(y) {
                    let k = choose|k: int| 0 <= k < nv.len() && nv[k] == y;
                    if k < pos {
                        assert(ov[k] == y);
                        assert(ov.contains(y));
                        let j = choose|j: int| 0 <= j < vi.len() && vi[j] == y;
                        assert(vi.push(x@)[j] == y);
                    } else if k > pos {
                        assert(ov[k - 1] == y);
                        assert(ov.contains(y));
                        let j = choose|j: int| 0 <= j < vi.len() && vi[j] == y;
                        assert(vi.push(x@)[j] == y);
                    } else {
                        assert(vi.push(x@)[vi.len() as int] == y);
                    }
                }
                if views(v@).take(i + 1).contains(y) {
                    let j = choose|j: int| 0 <= j < vi.push(x@).len() && vi.push(x@)[j] == y;
                    if j < vi.len() {
                        assert(vi.contains(y));
                        assert(ov.contains(y));
                        let k = choose|k: int| 0 <= k < ov.len() && ov[k] == y;
                        if k < pos {
                            assert(nv[k] == y);
                        } else {
                            assert(nv[k + 1] == y);
                        }
                    } else {
                        assert(nv[pos as int] == y);
                    }
                }
            }
        }
        i = i + 1;
    }
    proof {
        assert(views(v@).take(v@.len() as int) =~= views(v@));
    }
    out
}

/// The activities of all events, case after case.
pub open spec fn all_acts(cases: Seq<Case>) -> Seq<Seq<char>>
    decreases cases.len(),
{
    if cases.len() == 0 {
        Seq::empty()
    } else {
        all_acts(cases.drop_last()) + acts_of(cases.last().events@)
    }
}

/// Every activity of the log is among the activities of all events, which
/// are as many as the events.
proof fn lemma_all_acts(cases: Seq<Case>, a: Seq<char>)
    ensures
        all_acts(cases).len() == event_count(cases),
        log_has(cases, a) ==> all_acts(cases).contains(a),
    decreases cases.len(),
{
    if cases.len() > 0 {
        let init = cases.drop_last();
        lemma_all_acts(init, a);
        if log_has(cases, a) {
            let (c, i) = choose|c: int, i: int| 0 <= c < cases.len() && 0 <= i < cases[c].events@.len() && #[trigger] cases[c].events@[i].activity@ == a;
            if c < init.len() {
                assert(init[c] == cases[c]);
                assert(log_has(init, a));
                let k = choose|k: int| 0 <= k < all_acts(init).len() && all_acts(init)[k] == a;
                assert(all_acts(cases)[k] == a);
            } else {
                assert(acts_of(cases.last().events@)[i] == a);
                assert(all_acts(cases)[all_acts(init).len() + i] == a);
            }
        }
    }
}

/// A log has no more distinct activities than events.
proof fn lemma_acts_le_events(cases: Seq<Case>, acts: Seq<Seq<char>>)
    requires
        distinct_texts(acts),
        forall|a: Seq<char>| #[trigger] acts.contains(a) ==> log_has(cases, a),
    ensures
        acts.len() <= event_count(cases),
{
    let all = all_acts(cases);
    assert(acts.no_duplicates()) by {
        assert forall|i: int, j: int| 0 <= i < acts.len() && 0 <= j < acts.len() && i != j implies acts[i] != acts[j] by {
            assert(acts[i] != acts[j]);
        }
    }
    acts.unique_seq_to_set();
    all.lemma_cardinality_of_set();
    vstd::seq_lib::seq_to_set_is_finite(all);
    assert(acts.to_set().subset_of(all.to_set())) by {
        assert forall|a: Seq<char>| acts.to_set().contains(a) implies all.to_set().contains(a) by {
            assert(acts.contains(a));
            lemma_all_acts(cases, a);
        }
    }
    vstd::set_lib::lemma_len_subset(acts.to_set(), all.to_set());
    lemma_all_acts(cases, Seq::empty());
}

/// The transition identifier `t` and the number `c + i + 1`.
pub open spec fn tid(c: nat, i: int) -> Seq<char> {
    "t"@ + decimal((c + i + 1) as nat)
}

/// The place identifier `p` and the number `c + i + 1`.
pub open spec fn pid(c: nat, i: int) -> Seq<char> {
    "p"@ + decimal((c + i + 1) as nat)
}

/// The label of the place of a pair: its sets in increasing order.
pub open spec fn pair_label(ta: Seq<Seq<char>>, tb: Seq<Seq<char>>) -> Seq<char> {
    "p("@ + crate::text::joined(ta, ","@) + ","@ + crate::text::joined(tb, ","@) + ")"@
}

/// The view of an arc end: whether it is a place, and its identifier.
pub open spec fn node_view(n: ArcNode) -> (bool, Seq<char>) {
    match n {
        ArcNode::Place(id) => (true, id@),
        ArcNode::Transition(id) => (false, id@),
    }
}

/// The views of arcs.
pub open spec fn arc_views(arcs: Seq<Arc>) -> Seq<((bool, Seq<char>), (bool, Seq<char>))> {
    arcs.map_values(|a: Arc| (node_view(a.source), node_view(a.target)))
}

/// The position of `x` among the activities.
pub open spec fn index_in(acts: Seq<Seq<char>>, x: Seq<char>) -> int {
    choose|i: int| 0 <= i < acts.len() && acts[i] == x
}

/// Arcs from the transitions of `xs` into the place `place`.
pub open spec fn arcs_into(acts: Seq<Seq<char>>, tc: nat, place: Seq<char>, xs: Seq<Seq<char>>) -> Seq<((bool, Seq<char>), (bool, Seq<char>))> {
    xs.map_values(|x: Seq<char>| ((false, tid(tc, index_in(acts, x))), (true, place)))
}

/// Arcs from the place `place` to the transitions of `xs`.
pub open spec fn arcs_from(acts: Seq<Seq<char>>, tc: nat, place: Seq<char>, xs: Seq<Seq<char>>) -> Seq<((bool, Seq<char>), (bool, Seq<char>))> {
    xs.map_values(|x: Seq<char>| ((true, place), (false, tid(tc, index_in(acts, x)))))
}

/// The arcs of the first `n` pairs: for each, from its first set's
/// transitions into its place, then from its place to its second set's.
pub open spec fn pair_arcs(
    acts: Seq<Seq<char>>,
    tc: nat,
    pc: nat,
    pairs: Seq<(Seq<Seq<char>>, Seq<Seq<char>>)>,
    n: nat,
) -> Seq<((bool, Seq<char>), (bool, Seq<char>))>
    decreases n,
{
    if n == 0 {
        Seq::empty()
    } else {
        let k = n - 1;
        pair_arcs(acts, tc, pc, pairs, (n - 1) as nat) + arcs_into(acts, tc, pid(pc, 2 + k), pairs[k].0) + arcs_from(
            acts,
            tc,
            pid(pc, 2 + k),
            pairs[k].1,
        )
    }
}

/// Discovers a Petri net from an event log with the Alpha algorithm,
/// numbering the places and transitions it makes.
pub struct AlphaMiner {
    place_counter: usize,
    transition_counter: usize,
}

impl Default for AlphaMiner {
    fn default() -> (r: Self)
        ensures
            r.places_made() == 0,
            r.transitions_made() == 0,
    {
        AlphaMiner::new()
    }
}

impl AlphaMiner {
    /// The number of places made so far.
    pub closed spec fn places_made(&self) -> nat {
        self.place_counter as nat
    }

    /// The number of transitions made so far.
    pub closed spec fn transitions_made(&self) -> nat {
        self.transition_counter as nat
    }

    /// A miner that has made nothing yet.
    pub fn new() -> (r: Self)
        ensures
            r.places_made() == 0,
            r.transitions_made() == 0,
    {
        AlphaMiner { place_counter: 0, transition_counter: 0 }
    }

    /// The next place identifier.
    fn fresh_place_id(&mut self) -> (r: String)
        requires
            old(self).places_made() < usize::MAX,
        ensures
            final(self).places_made() == old(self).places_made() + 1,
            final(self).transitions_made() == old(self).transitions_made(),
            r@ == pid(old(self).places_made(), 0),
    {
        self.place_counter = self.place_counter + 1;
        let mut r = String::from_str("p");
        push_decimal(&mut r, self.place_counter as u64);
        r
    }

    /// The next transition identifier.
    fn fresh_transition_id(&mut self) -> (r: String)
        requires
            old(self).transitions_made() < usize::MAX,
        ensures
            final(self).transitions_made() == old(self).transitions_made() + 1,
            final(self).places_made() == old(self).places_made(),
            r@ == tid(old(self).transitions_made(), 0),
    {
        self.transition_counter = self.transition_counter + 1;
        let mut r = String::from_str("t");
        push_decimal(&mut r, self.transition_counter as u64);
        r
    }
}

/// The footprint relation of the cases, as a function.
pub open spec fn log_rel(cases: Seq<Case>) -> spec_fn(Seq<char>, Seq<char>) -> Relation {
    |a: Seq<char>, b: Seq<char>| log_relation(cases, a, b)
}

/// The parts the Alpha algorithm finds in the cases: the activities, the
/// start and end activities (each once), and the maximal pairs, none inside
/// another, covering every causal pair.
pub open spec fn alpha_parts(
    cases: Seq<Case>,
    acts: Seq<Seq<char>>,
    starts: Seq<Seq<char>>,
    ends: Seq<Seq<char>>,
    pairs: Seq<(Seq<Seq<char>>, Seq<Seq<char>>)>,
) -> bool {
    &&& distinct_texts(acts)
    &&& forall|a: Seq<char>| #[trigger] acts.contains(a) <==> log_has(cases, a)
    &&& distinct_texts(starts)
    &&& forall|a: Seq<char>| #[trigger] starts.contains(a) <==> is_start(cases, a)
    &&& distinct_texts(ends)
    &&& forall|a: Seq<char>| #[trigger] ends.contains(a) <==> is_end(cases, a)
    &&& forall|k: int| 0 <= k < pairs.len() ==> #[trigger] maximal_wrt(log_rel(cases), acts, pairs[k].0, pairs[k].1)
    &&& forall|k: int, l: int|
        0 <= k < pairs.len() && 0 <= l < pairs.len() && k != l ==> !(set_le(#[trigger] pairs[k].0, #[trigger] pairs[l].0)
            && set_le(pairs[k].1, pairs[l].1))
    &&& forall|x: Seq<char>, y: Seq<char>|
        #[trigger] log_relation(cases, x, y) == Relation::Causality ==> exists|k: int|
            0 <= k < pairs.len() && pairs[k].0.contains(x) && pairs[k].1.contains(y)
}

/// The net built from the parts, by a miner that had made `tc` transitions
/// and `pc` places: a transition per activity, the start and end places and
/// a place per pair (labelled by its sets in increasing order), and arcs from
/// the start place to the start activities, from the end activities to the
/// end place, and for each pair from its first set into its place and from
/// `p` is the place of pair `k`: its identifier, and its label made of the
/// pair's two sets in increasing order.
pub open spec fn place_of_pair(p: Place, pair: (Seq<Seq<char>>, Seq<Seq<char>>), pc: nat, k: int) -> bool {
    &&& p.id@ == pid(pc, 2 + k)
    &&& exists|ta: Seq<Seq<char>>, tb: Seq<Seq<char>>|
        sorted_of(ta, pair.0) && sorted_of(tb, pair.1) && #[trigger] pair_label(ta, tb) == p.label@
}

/// its place to its second set.
pub open spec fn net_shape(
    tc: nat,
    pc: nat,
    acts: Seq<Seq<char>>,
    starts: Seq<Seq<char>>,
    ends: Seq<Seq<char>>,
    pairs: Seq<(Seq<Seq<char>>, Seq<Seq<char>>)>,
    net: PetriNet,
) -> bool {
    &&& net.transitions@.len() == acts.len()
    &&& forall|i: int|
        0 <= i < acts.len() ==> (#[trigger] net.transitions@[i]).id@ == tid(tc, i) && net.transitions@[i].activity@ == acts[i]
            && net.transitions@[i].bindings@.len() == 0
    &&& net.places@.len() == 2 + pairs.len()
    &&& net.places@[0].id@ == pid(pc, 0) && net.places@[0].label@ == "start"@
    &&& net.places@[1].id@ == pid(pc, 1) && net.places@[1].label@ == "end"@
    &&& forall|k: int| 0 <= k < pairs.len() ==> #[trigger] place_of_pair(net.places@[2 + k], pairs[k], pc, k)
    &&& arc_views(net.arcs@) == arcs_from(acts, tc, pid(pc, 0), starts) + arcs_into(acts, tc, pid(pc, 1), ends) + pair_arcs(
        acts,
        tc,
        pc,
        pairs,
        pairs.len(),
    )
}

/// `net` is the Alpha algorithm's net for the cases.
pub open spec fn alpha_net(cases: Seq<Case>, tc: nat, pc: nat, net: PetriNet) -> bool {
    exists|acts: Seq<Seq<char>>, starts: Seq<Seq<char>>, ends: Seq<Seq<char>>, pairs: Seq<(Seq<Seq<char>>, Seq<Seq<char>>)>|
        #[trigger] alpha_parts(cases, acts, starts, ends, pairs) && net_shape(tc, pc, acts, starts, ends, pairs, net)
}

/// In the Alpha algorithm's net, the first activity of every non-empty case
/// gets an arc from the start place to its transition, and the last
/// activity of every non-empty case an arc from its transition into the end
/// place.
pub proof fn law_case_boundaries_meet_start_and_end(cases: Seq<Case>, tc: nat, pc: nat, net: PetriNet, c: int)
    requires
        alpha_net(cases, tc, pc, net),
        0 <= c < cases.len(),
        cases[c].events@.len() > 0,
    ensures
        exists|k: int, j: int|
            #![trigger net.arcs@[k], net.transitions@[j]]
            0 <= k < net.arcs@.len() && 0 <= j < net.transitions@.len() && (net.arcs@[k].source matches ArcNode::Place(
                p,
            ) && p@ == net.places@[0].id@) && (net.arcs@[k].target matches ArcNode::Transition(x) && x@ == net.transitions@[j].id@)
                && net.transitions@[j].activity@ == cases[c].events@[0].activity@,
        exists|k: int, j: int|
            #![trigger net.arcs@[k], net.transitions@[j]]
            0 <= k < net.arcs@.len() && 0 <= j < net.transitions@.len() && (net.arcs@[k].target matches ArcNode::Place(
                p,
            ) && p@ == net.places@[1].id@) && (net.arcs@[k].source matches ArcNode::Transition(x) && x@ == net.transitions@[j].id@)
                && net.transitions@[j].activity@ == cases[c].events@[cases[c].events@.len() - 1].activity@,
{
    let (acts, starts, ends, pairs) = choose|
        acts: Seq<Seq<char>>,
        starts: Seq<Seq<char>>,
        ends: Seq<Seq<char>>,
        pairs: Seq<(Seq<Seq<char>>, Seq<Seq<char>>)>,
    | #[trigger] alpha_parts(cases, acts, starts, ends, pairs) && net_shape(tc, pc, acts, starts, ends, pairs, net);
    let evs = cases[c].events@;
    let x = evs[0].activity@;
    let y = evs[evs.len() - 1].activity@;
    assert(is_start(cases, x));
    assert(is_end(cases, y));
    assert(log_has(cases, x));
    assert(log_has(cases, y));
    assert(starts.contains(x));
    assert(ends.contains(y));
    assert(acts.contains(x));
    assert(acts.contains(y));
    let s = choose|s: int| 0 <= s < starts.len() && starts[s] == x;
    let e = choose|e: int| 0 <= e < ends.len() && ends[e] == y;
    let jx = index_in(acts, x);
    let jy = index_in(acts, y);
    let av = arc_views(net.arcs@);
    let from = arcs_from(acts, tc, pid(pc, 0), starts);
    let into = arcs_into(acts, tc, pid(pc, 1), ends);
    let rest = pair_arcs(acts, tc, pc, pairs, pairs.len());
    assert(av == from + into + rest);
    assert(av.len() == net.arcs@.len());
    assert(from.len() == starts.len() && into.len() == ends.len());
    assert(av[s] == from[s]);
    assert(av[from.len() + e] == into[e]);
    let ks = s;
    let ke = from.len() + e;
    assert(net.transitions@[jx].id@ == tid(tc, jx) && net.transitions@[jx].activity@ == acts[jx]);
    assert(net.transitions@[jy].id@ == tid(tc, jy) && net.transitions@[jy].activity@ == acts[jy]);
    assert(av[ks] == (node_view(net.arcs@[ks].source), node_view(net.arcs@[ks].target)));
    assert(av[ke] == (node_view(net.arcs@[ke].source), node_view(net.arcs@[ke].target)));
    assert(net.transitions@[jx].activity@ == x && net.transitions@[jy].activity@ == y);
}

/// The places the arcs of the pairs touch are the pairs' places.
proof fn lemma_pair_arc_places(
    acts: Seq<Seq<char>>,
    tc: nat,
    pc: nat,
    pairs: Seq<(Seq<Seq<char>>, Seq<Seq<char>>)>,
    n: nat,
    i: int,
)
    requires
        0 <= i < pair_arcs(acts, tc, pc, pairs, n).len(),
    ensures
        pair_arcs(acts, tc, pc, pairs, n)[i].0.0 ==> exists|k: int| 0 <= k < n && pair_arcs(acts, tc, pc, pairs, n)[i].0.1 == #[trigger] pid(pc, 2 + k),
        pair_arcs(acts, tc, pc, pairs, n)[i].1.0 ==> exists|k: int| 0 <= k < n && pair_arcs(acts, tc, pc, pairs, n)[i].1.1 == #[trigger] pid(pc, 2 + k),
    decreases n,
{
    if n > 0 {
        let k = n - 1;
        let prev = pair_arcs(acts, tc, pc, pairs, k as nat);
        let ai = arcs_into(acts, tc, pid(pc, 2 + k), pairs[k].0);
        let af = arcs_from(acts, tc, pid(pc, 2 + k), pairs[k].1);
        let all = pair_arcs(acts, tc, pc, pairs, n);
        assert(all == prev + ai + af);
        if i < prev.len() {
            lemma_pair_arc_places(acts, tc, pc, pairs, k as nat, i);
            assert(all[i] == prev[i]);
        } else if i < prev.len() + ai.len() {
            assert(all[i] == ai[i - prev.len()]);
        } else {
            assert(all[i] == af[i - prev.len() - ai.len()]);
        }
    }
}

/// The start and end places differ from the places of the pairs.
proof fn lemma_pair_place_ids(pc: nat, k: int)
    requires
        0 <= k,
    ensures
        pid(pc, 2 + k) != pid(pc, 0),
        pid(pc, 2 + k) != pid(pc, 1),
{
    if pid(pc, 2 + k) == pid(pc, 0) {
        crate::requirement::lemma_numbered_injective("p"@, (pc + 2 + k + 1) as nat, (pc + 1) as nat);
    }
    if pid(pc, 2 + k) == pid(pc, 1) {
        crate::requirement::lemma_numbered_injective("p"@, (pc + 2 + k + 1) as nat, (pc + 2) as nat);
    }
}

/// In the Alpha algorithm's net, every arc from the start place goes to the
/// transition of an activity that begins some case, and every arc into the
/// end place comes from the transition of an activity that ends some case.
pub proof fn law_start_and_end_arcs_are_case_boundaries(cases: Seq<Case>, tc: nat, pc: nat, net: PetriNet, k: int)
    requires
        alpha_net(cases, tc, pc, net),
        0 <= k < net.arcs@.len(),
    ensures
        (net.arcs@[k].source matches ArcNode::Place(p) && p@ == net.places@[0].id@) ==> exists|j: int, c: int|
            #![trigger net.transitions@[j], cases[c]]
            0 <= j < net.transitions@.len() && 0 <= c < cases.len() && cases[c].events@.len() > 0
                && (net.arcs@[k].target matches ArcNode::Transition(x) && x@ == net.transitions@[j].id@)
                && net.transitions@[j].activity@ == cases[c].events@[0].activity@,
        (net.arcs@[k].target matches ArcNode::Place(p) && p@ == net.places@[1].id@) ==> exists|j: int, c: int|
            #![trigger net.transitions@[j], cases[c]]
            0 <= j < net.transitions@.len() && 0 <= c < cases.len() && cases[c].events@.len() > 0
                && (net.arcs@[k].source matches ArcNode::Transition(x) && x@ == net.transitions@[j].id@)
                && net.transitions@[j].activity@ == cases[c].events@[cases[c].events@.len() - 1].activity@,
{
    let (acts, starts, ends, pairs) = choose|
        acts: Seq<Seq<char>>,
        starts: Seq<Seq<char>>,
        ends: Seq<Seq<char>>,
        pairs: Seq<(Seq<Seq<char>>, Seq<Seq<char>>)>,
    | #[trigger] alpha_parts(cases, acts, starts, ends, pairs) && net_shape(tc, pc, acts, starts, ends, pairs, net);
    let av = arc_views(net.arcs@);
    let from = arcs_from(acts, tc, pid(pc, 0), starts);
    let into = arcs_into(acts, tc, pid(pc, 1), ends);
    let rest = pair_arcs(acts, tc, pc, pairs, pairs.len());
    assert(av == from + into + rest);
    assert(av.len() == net.arcs@.len());
    let v = av[k];
    assert(v == (node_view(net.arcs@[k].source), node_view(net.arcs@[k].target)));
    if k < from.len() {
        assert(v == from[k]);
        let x = starts[k];
        assert(starts.contains(x));
        assert(is_start(cases, x));
        let c = choose|c: int| 0 <= c < cases.len() && cases[c].events@.len() > 0 && #[trigger] cases[c].events@[0].activity@ == x;
        assert(log_has(cases, cases[c].events@[0].activity@));
        assert(acts.contains(x));
        let j = index_in(acts, x);
        assert(net.transitions@[j].id@ == tid(tc, j) && net.transitions@[j].activity@ == acts[j]);
        assert(net.transitions@[j] == net.transitions@[j] && cases[c] == cases[c]);
    } else if k < from.len() + into.len() {
        let e = k - from.len();
        assert(v == into[e]);
        let y = ends[e];
        assert(ends.contains(y));
        assert(is_end(cases, y));
        let c = choose|c: int|
            0 <= c < cases.len() && cases[c].events@.len() > 0 && #[trigger] cases[c].events@[cases[c].events@.len() - 1].activity@ == y;
        assert(log_has(cases, cases[c].events@[cases[c].events@.len() - 1].activity@));
        assert(acts.contains(y));
        let j = index_in(acts, y);
        assert(net.transitions@[j].id@ == tid(tc, j) && net.transitions@[j].activity@ == acts[j]);
        assert(net.transitions@[j] == net.transitions@[j] && cases[c] == cases[c]);
    } else {
        let i = k - from.len() - into.len();
        assert(v == rest[i]);
        lemma_pair_arc_places(acts, tc, pc, pairs, pairs.len(), i);
        if v.0.0 {
            let q = choose|q: int| 0 <= q < pairs.len() && v.0.1 == #[trigger] pid(pc, 2 + q);
            lemma_pair_place_ids(pc, q);
        }
        if v.1.0 {
            let q = choose|q: int| 0 <= q < pairs.len() && v.1.1 == #[trigger] pid(pc, 2 + q);
            lemma_pair_place_ids(pc, q);
        }
    }
}

/// The position of `x` among the distinct activities, when present.
fn lookup_index(acts: &Vec<String>, x: &str) -> (r: Option<usize>)
    requires
        distinct_texts(views(acts@)),
    ensures
        r matches Some(i) ==> i < acts@.len() && index_in(views(acts@), x@) == i && views(acts@)[i as int] == x@,
        r is None ==> !views(acts@).contains(x@),
{
    let mut i: usize = 0;
    while i < acts.len()
        invariant
            0 <= i <= acts@.len(),
            distinct_texts(views(acts@)),
            forall|k: int| 0 <= k < i ==> (#[trigger] views(acts@)[k]) != x@,
        decreases acts@.len() - i,
    {
        assert(views(acts@)[i as int] == acts@[i as int]@);
        if str_eq(acts[i].as_str(), x) {
            proof {
                assert(views(acts@)[i as int] == x@);
                let j = index_in(views(acts@), x@);
                assert(0 <= j < views(acts@).len() && views(acts@)[j] == x@);
                if j != i {
                    assert(views(acts@)[j] != views(acts@)[i as int]);
                }
            }
            return Some(i);
        }
        i = i + 1;
    }
    None
}

/// Append the arcs between `place` and the transitions of `xs`: into the
/// place when `into`, else from it.
fn add_arcs(net: &mut PetriNet, acts: &Vec<String>, tids: &Vec<String>, tc: Ghost<nat>, place: &str, xs: &Vec<String>, into: bool)
    requires
        distinct_texts(views(acts@)),
        tids@.len() == acts@.len(),
        forall|i: int| 0 <= i < tids@.len() ==> (#[trigger] tids@[i])@ == tid(tc@, i),
        forall|x: Seq<char>| #[trigger] views(xs@).contains(x) ==> views(acts@).contains(x),
    ensures
        final(net).places@ == old(net).places@,
        final(net).transitions@ == old(net).transitions@,
        arc_views(final(net).arcs@) == arc_views(old(net).arcs@) + (if into {
            arcs_into(views(acts@), tc@, place@, views(xs@))
        } else {
            arcs_from(views(acts@), tc@, place@, views(xs@))
        }),
{
    let ghost start = arc_views(net.arcs@);
    let ghost f = if into {
        |x: Seq<char>| ((false, tid(tc@, index_in(views(acts@), x))), (true, place@))
    } else {
        |x: Seq<char>| ((true, place@), (false, tid(tc@, index_in(views(acts@), x))))
    };
    let mut k: usize = 0;
    while k < xs.len()
        invariant
            0 <= k <= xs@.len(),
            distinct_texts(views(acts@)),
            tids@.len() == acts@.len(),
            forall|i: int| 0 <= i < tids@.len() ==> (#[trigger] tids@[i])@ == tid(tc@, i),
            forall|x: Seq<char>| #[trigger] views(xs@).contains(x) ==> views(acts@).contains(x),
            net.places@ == old(net).places@,
            net.transitions@ == old(net).transitions@,
            start == arc_views(old(net).arcs@),
            f == (if into {
                |x: Seq<char>| ((false, tid(tc@, index_in(views(acts@), x))), (true, place@))
            } else {
                |x: Seq<char>| ((true, place@), (false, tid(tc@, index_in(views(acts@), x))))
            }),
            arc_views(net.arcs@) == start + views(xs@).take(k as int).map_values(f),
        decreases xs@.len() - k,
    {
        let x = xs[k].as_str();
        proof {
            assert(views(xs@)[k as int] == x@);
            assert(views(xs@).contains(x@));
        }
        match lookup_index(acts, x) {
            Some(i) => {
                let t = String::from_str(tids[i].as_str());
                let arc = if into {
                    Arc::new(ArcNode::Transition(t), ArcNode::Place(String::from_str(place)))
                } else {
                    Arc::new(ArcNode::Place(String::from_str(place)), ArcNode::Transition(t))
                };
                let ghost before = arc_views(net.arcs@);
                net.add_arc(arc);
                proof {
                    assert(arc_views(net.arcs@) =~= before.push((node_view(arc.source), node_view(arc.target))));
                    assert(f(x@) == (node_view(arc.source), node_view(arc.target)));
                    assert(views(xs@).take(k + 1).map_values(f) =~= views(xs@).take(k as int).map_values(f).push(f(x@)));
                }
            },
            None => {},
        }
        k = k + 1;
    }
    proof {
        assert(views(xs@).take(xs@.len() as int) =~= views(xs@));
        if into {
            assert(views(xs@).map_values(f) =~= arcs_into(views(acts@), tc@, place@, views(xs@)));
        } else {
            assert(views(xs@).map_values(f) =~= arcs_from(views(acts@), tc@, place@, views(xs@)));
        }
    }
}

/// The label of the place of a pair.
fn make_label(a: &Vec<String>, b: &Vec<String>) -> (r: String)
    requires
        distinct_texts(views(a@)),
        distinct_texts(views(b@)),
    ensures
        exists|ta: Seq<Seq<char>>, tb: Seq<Seq<char>>|
            sorted_of(ta, views(a@)) && sorted_of(tb, views(b@)) && #[trigger] pair_label(ta, tb) == r@,
{
    let sa = sort_texts(a);
    let sb = sort_texts(b);
    let mut r = String::from_str("p(");
    let ja = crate::text::join(&sa, ",");
    r.append(ja.as_str());
    r.append(",");
    let jb = crate::text::join(&sb, ",");
    r.append(jb.as_str());
    r.append(")");
    proof {
        assert(pair_label(views(sa@), views(sb@)) == r@);
    }
    r
}

impl AlphaMiner {
    /// The Petri net of the log by the Alpha algorithm: a transition per
    /// activity, a start and an end place, a place per maximal pair, and
    /// their arcs (see [`alpha_net`]).
    pub fn mine(&mut self, log: &EventLog) -> (net: PetriNet)
        requires
            old(self).transitions_made() + event_count(log.cases@) <= usize::MAX,
            old(self).places_made() + 2 + event_count(log.cases@) * event_count(log.cases@) <= usize::MAX,
        ensures
            alpha_net(log.cases@, old(self).transitions_made(), old(self).places_made(), net),
            final(self).transitions_made() == old(self).transitions_made() + net.transitions@.len(),
            final(self).places_made() == old(self).places_made() + net.places@.len(),
    {
        let ghost tc = self.transitions_made();
        let ghost pc = self.places_made();
        let ghost cases = log.cases@;
        let fp = Footprint::from_log(log);
        let starts = boundary_activities(log, true);
        let ends = boundary_activities(log, false);
        let pairs = find_maximal_pairs(&fp);
        let ghost acts = views(fp.activities@);
        let ghost pv = pair_views(pairs@);
        let n = fp.activities.len();
        proof {
            lemma_acts_le_events(cases, acts);
            let ec = event_count(cases);
            assert(n * n <= ec * ec) by (nonlinear_arith)
                requires
                    n <= ec,
            ;
        }
        let mut net = PetriNet::new();
        let mut tids: Vec<String> = Vec::new();
        let mut i: usize = 0;
        while i < n
            invariant
                n == fp.activities@.len(),
                acts == views(fp.activities@),
                0 <= i <= n,
                tc + n <= usize::MAX,
                self.transitions_made() == tc + i,
                self.places_made() == pc,
                tids@.len() == i,
                forall|j: int| 0 <= j < i ==> (#[trigger] tids@[j])@ == tid(tc, j),
                net.transitions@.len() == i,
                forall|j: int|
                    0 <= j < i ==> (#[trigger] net.transitions@[j]).id@ == tid(tc, j) && net.transitions@[j].activity@ == acts[j]
                        && net.transitions@[j].bindings@.len() == 0,
                net.places@.len() == 0,
                net.arcs@.len() == 0,
            decreases n - i,
        {
            let id = self.fresh_transition_id();
            assert(acts[i as int] == fp.activities@[i as int]@);
            net.add_transition(Transition::new(id.as_str(), fp.activities[i].as_str()));
            tids.push(id);
            i = i + 1;
        }
        let sp = self.fresh_place_id();
        net.add_place(Place::new(sp.as_str(), "start"));
        let ep = self.fresh_place_id();
        net.add_place(Place::new(ep.as_str(), "end"));
        assert(sp@ == pid(pc, 0) && ep@ == pid(pc, 1));
        let mut pids: Vec<String> = Vec::new();
        let mut k: usize = 0;
        while k < pairs.len()
            invariant
                pv == pair_views(pairs@),
                0 <= k <= pairs@.len(),
                pairs@.len() <= n * n,
                pc + 2 + n * n <= usize::MAX,
                self.places_made() == pc + 2 + k,
                self.transitions_made() == tc + n,
                pids@.len() == k,
                forall|j: int| 0 <= j < k ==> (#[trigger] pids@[j])@ == pid(pc, 2 + j),
                forall|j: int| 0 <= j < pairs@.len() ==> #[trigger] maximal_in(fp, pv[j].0, pv[j].1),
                net.places@.len() == 2 + k,
                net.places@[0].id@ == pid(pc, 0) && net.places@[0].label@ == "start"@,
                net.places@[1].id@ == pid(pc, 1) && net.places@[1].label@ == "end"@,
                forall|j: int| 0 <= j < k ==> #[trigger] place_of_pair(net.places@[2 + j], pv[j], pc, j),
                net.transitions@.len() == n,
                forall|j: int|
                    0 <= j < n ==> (#[trigger] net.transitions@[j]).id@ == tid(tc, j) && net.transitions@[j].activity@ == acts[j]
                        && net.transitions@[j].bindings@.len() == 0,
                net.arcs@.len() == 0,
            decreases pairs@.len() - k,
        {
            assert(pv[k as int] == (views(pairs@[k as int].0@), views(pairs@[k as int].1@)));
            assert(maximal_in(fp, pv[k as int].0, pv[k as int].1));
            let id = self.fresh_place_id();
            let label = make_label(&pairs[k].0, &pairs[k].1);
            let ghost before = net.places@;
            net.add_place(Place::new(id.as_str(), label.as_str()));
            pids.push(id);
            proof {
                assert forall|j: int| 0 <= j < k + 1 implies #[trigger] place_of_pair(net.places@[2 + j], pv[j], pc, j) by {
                    if j < k {
                        assert(net.places@[2 + j] == before[2 + j]);
                    } else {
                        let (ta, tb) = choose|ta: Seq<Seq<char>>, tb: Seq<Seq<char>>|
                            sorted_of(ta, views(pairs@[k as int].0@)) && sorted_of(tb, views(pairs@[k as int].1@)) && #[trigger] pair_label(ta, tb) == label@;
                        assert(net.places@[2 + j].label@ == label@);
                        assert(sorted_of(ta, pv[j].0) && sorted_of(tb, pv[j].1) && pair_label(ta, tb) == net.places@[2 + j].label@);
                    }
                }
            }
            k = k + 1;
        }
        let ghost sv = views(starts@);
        let ghost ev = views(ends@);
        proof {
            assert forall|x: Seq<char>| #[trigger] sv.contains(x) implies acts.contains(x) by {
                let c = choose|c: int| 0 <= c < cases.len() && cases[c].events@.len() > 0 && #[trigger] cases[c].events@[0].activity@ == x;
                assert(log_has(cases, x));
            }
            assert forall|x: Seq<char>| #[trigger] ev.contains(x) implies acts.contains(x) by {
                let c = choose|c: int|
                    0 <= c < cases.len() && cases[c].events@.len() > 0 && #[trigger] cases[c].events@[cases[c].events@.len() - 1].activity@ == x;
                assert(log_has(cases, x));
            }
        }
        let ghost net_places = net.places@;
        let ghost net_trans = net.transitions@;
        proof {
            assert(arc_views(net.arcs@) =~= Seq::empty());
        }
        add_arcs(&mut net, &fp.activities, &tids, Ghost(tc), sp.as_str(), &starts, false);
        add_arcs(&mut net, &fp.activities, &tids, Ghost(tc), ep.as_str(), &ends, true);
        let ghost base = arc_views(net.arcs@);
        proof {
            assert(base =~= arcs_from(acts, tc, pid(pc, 0), sv) + arcs_into(acts, tc, pid(pc, 1), ev));
        }
        let mut q: usize = 0;
        while q < pairs.len()
            invariant
                pv == pair_views(pairs@),
                0 <= q <= pairs@.len(),
                acts == views(fp.activities@),
                distinct_texts(acts),
                tids@.len() == acts.len(),
                forall|j: int| 0 <= j < tids@.len() ==> (#[trigger] tids@[j])@ == tid(tc, j),
                pids@.len() == pairs@.len(),
                forall|j: int| 0 <= j < pairs@.len() ==> (#[trigger] pids@[j])@ == pid(pc, 2 + j),
                forall|j: int| 0 <= j < pairs@.len() ==> #[trigger] maximal_in(fp, pv[j].0, pv[j].1),
                arc_views(net.arcs@) == base + pair_arcs(acts, tc, pc, pv, q as nat),
                net.places@ == net_places,
                net.transitions@ == net_trans,
            decreases pairs@.len() - q,
        {
            assert(pv[q as int] == (views(pairs@[q as int].0@), views(pairs@[q as int].1@)));
            assert(maximal_in(fp, pv[q as int].0, pv[q as int].1));
            let ghost before = arc_views(net.arcs@);
            add_arcs(&mut net, &fp.activities, &tids, Ghost(tc), pids[q].as_str(), &pairs[q].0, true);
            add_arcs(&mut net, &fp.activities, &tids, Ghost(tc), pids[q].as_str(), &pairs[q].1, false);
            proof {
                assert(arc_views(net.arcs@) =~= base + pair_arcs(acts, tc, pc, pv, (q + 1) as nat));
            }
            q = q + 1;
        }
        proof {
            assert(fp_rel(fp) =~= log_rel(cases)) by {
                assert forall|a: Seq<char>, b: Seq<char>| #[trigger] fp_rel(fp)(a, b) == log_rel(cases)(a, b) by {
                    assert(stored_relation(fp.relations@, a, b) == log_relation(cases, a, b));
                }
            }
            assert forall|j: int| 0 <= j < pv.len() implies #[trigger] maximal_wrt(log_rel(cases), acts, pv[j].0, pv[j].1) by {
                assert(maximal_in(fp, pv[j].0, pv[j].1));
            }
            assert forall|x: Seq<char>, y: Seq<char>| #[trigger] log_relation(cases, x, y) == Relation::Causality implies exists|j: int|
                0 <= j < pv.len() && pv[j].0.contains(x) && pv[j].1.contains(y) by {
                lemma_follows_in_log(cases, x, y);
                assert(has_pair(fp.relations@, x, y));
                let e = choose|e: int| 0 <= e < fp.relations@.len() && (#[trigger] fp.relations@[e]).0.0@ == x && fp.relations@[e].0.1@ == y;
                assert(fp.relations@[e].1 == log_relation(cases, x, y));
                lemma_pairs_with_has(fp.relations@, Relation::Causality, e);
                assert(pairs_with(fp.relations@, Relation::Causality).contains((x, y)));
            }
            assert(alpha_parts(cases, acts, sv, ev, pv));
            assert(arc_views(net.arcs@) =~= arcs_from(acts, tc, pid(pc, 0), sv) + arcs_into(acts, tc, pid(pc, 1), ev) + pair_arcs(
                acts,
                tc,
                pc,
                pv,
                pv.len(),
            ));
            assert(net_shape(tc, pc, acts, sv, ev, pv, net));
        }
        net
    }
}

/// An entry with relation `which` has its pair listed.
proof fn lemma_pairs_with_has(rel: Seq<((String, String), Relation)>, which: Relation, k: int)
    requires
        0 <= k < rel.len(),
        rel[k].1 == which,
    ensures
        pairs_with(rel, which).contains((rel[k].0.0@, rel[k].0.1@)),
    decreases rel.len(),
{
    let init = rel.drop_last();
    if k < rel.len() - 1 {
        assert(init[k] == rel[k]);
        lemma_pairs_with_has(init, which, k);
        let j = choose|j: int| 0 <= j < pairs_with(init, which).len() && pairs_with(init, which)[j] == (rel[k].0.0@, rel[k].0.1@);
        assert(pairs_with(rel, which)[j] == (rel[k].0.0@, rel[k].0.1@));
    } else {
        let l = pairs_with(init, which).len();
        assert(pairs_with(rel, which)[l as int] == (rel[k].0.0@, rel[k].0.1@));
    }
}

// ---------------------------------------------------------------------------
// Conflicts
// ---------------------------------------------------------------------------

/// The kind of a conflict between activities.
#[derive(Debug, Clone, Copy, PartialEq, Eq, Structural)]
pub enum ConflictType {
    /// A choice: a place of the net leads to several transitions.
    Choice,
    /// Mutual exclusion: the activities never occur in the same case.
    Mutex,
}

/// Activities in conflict, with the evidence for it.
#[derive(Debug, Clone)]
pub struct Conflict {
    /// The activities.
    pub activities: Vec<String>,
    /// The kind of conflict.
    pub conflict_type: ConflictType,
    /// The evidence, by key.
    pub evidence: HashMap<String, String>,
}

impl Conflict {
    /// A conflict without evidence.
    pub fn new(activities: Vec<String>, conflict_type: ConflictType) -> (r: Self)
        ensures
            r.activities == activities,
            r.conflict_type == conflict_type,
            r.evidence@ == Map::<String, String>::empty(),
    {
        Conflict { activities, conflict_type, evidence: HashMap::new() }
    }

    /// The conflict with a piece of evidence added under `key`.
    pub fn with_evidence(self, key: &str, value: &str) -> (r: Self)
        ensures
            r.activities == self.activities,
            r.conflict_type == self.conflict_type,
            vstd::std_specs::hash::obeys_key_model::<String>() && vstd::std_specs::hash::builds_valid_hashers::<
                std::collections::hash_map::RandomState,
            >() ==> exists|k: String, v: String| k@ == key@ && v@ == value@ && r.evidence@ == self.evidence@.insert(k, v),
    {
        let mut c = self;
        let k = String::from_str(key);
        let v = String::from_str(value);
        c.evidence.insert(k, v);
        c
    }
}

/// The activity of the first transition with identifier `id`.
pub open spec fn trans_activity(ts: Seq<Transition>, id: Seq<char>) -> Option<Seq<char>>
    decreases ts.len(),
{
    if ts.len() == 0 {
        None
    } else {
        match trans_activity(ts.drop_last(), id) {
            Some(a) => Some(a),
            None => if ts.last().id@ == id {
                Some(ts.last().activity@)
            } else {
                None
            },
        }
    }
}

/// The activities of the transitions that the arcs from place `p` lead
/// to, in arc order.
pub open spec fn outgoing(ts: Seq<Transition>, arcs: Seq<Arc>, p: Seq<char>) -> Seq<Seq<char>>
    decreases arcs.len(),
{
    if arcs.len() == 0 {
        Seq::empty()
    } else {
        let src = node_view(arcs.last().source);
        let dst = node_view(arcs.last().target);
        outgoing(ts, arcs.drop_last(), p) + (if src.0 && src.1 == p && !dst.0 {
            match trans_activity(ts, dst.1) {
                Some(a) => seq![a],
                None => Seq::empty(),
            }
        } else {
            Seq::empty()
        })
    }
}

/// The choices of the first `n` places: the activities each leads to, when
/// more than one.
pub open spec fn choices(net: PetriNet, n: nat) -> Seq<Seq<Seq<char>>>
    decreases n,
{
    if n == 0 {
        Seq::empty()
    } else {
        let o = outgoing(net.transitions@, net.arcs@, net.places@[n - 1].id@);
        choices(net, (n - 1) as nat) + (if o.len() > 1 {
            seq![o]
        } else {
            Seq::empty()
        })
    }
}

/// Some case has both activities.
pub open spec fn co_occur(cases: Seq<Case>, a: Seq<char>, b: Seq<char>) -> bool {
    exists|c: int|
        0 <= c < cases.len() && #[trigger] acts_of(cases[c].events@).contains(a) && acts_of(cases[c].events@).contains(b)
}

/// Some choice has both activities.
pub open spec fn covered(ch: Seq<Seq<Seq<char>>>, a: Seq<char>, b: Seq<char>) -> bool {
    exists|k: int| 0 <= k < ch.len() && #[trigger] ch[k].contains(a) && ch[k].contains(b)
}

/// The mutex pairs `(acts[i], acts[j])` for `i < j < m`: the activities never
/// occur together and no choice has both.
pub open spec fn mutex_row(cases: Seq<Case>, acts: Seq<Seq<char>>, ch: Seq<Seq<Seq<char>>>, i: int, m: nat) -> Seq<(Seq<char>, Seq<char>)>
    decreases m,
{
    if m == 0 {
        Seq::empty()
    } else {
        let j = m - 1;
        mutex_row(cases, acts, ch, i, (m - 1) as nat) + (if i < j && !co_occur(cases, acts[i], acts[j]) && !covered(ch, acts[i], acts[j]) {
            seq![(acts[i], acts[j])]
        } else {
            Seq::empty()
        })
    }
}

/// The mutex pairs with first activity among the first `n`.
pub open spec fn mutex_pairs(cases: Seq<Case>, acts: Seq<Seq<char>>, ch: Seq<Seq<Seq<char>>>, n: nat) -> Seq<(Seq<char>, Seq<char>)>
    decreases n,
{
    if n == 0 {
        Seq::empty()
    } else {
        mutex_pairs(cases, acts, ch, (n - 1) as nat) + mutex_row(cases, acts, ch, n - 1, acts.len())
    }
}

/// The view of conflicts: activities and kind.
pub open spec fn conflict_views(cs: Seq<Conflict>) -> Seq<(Seq<Seq<char>>, ConflictType)> {
    cs.map_values(|c: Conflict| (views(c.activities@), c.conflict_type))
}

/// The conflicts found: the choices of the net's places, in place order,
/// then the mutex pairs of its activities (ordered by `acts`).
pub open spec fn conflicts_found(cases: Seq<Case>, net: PetriNet, acts: Seq<Seq<char>>) -> Seq<(Seq<Seq<char>>, ConflictType)> {
    let ch = choices(net, net.places@.len());
    ch.map_values(|o: Seq<Seq<char>>| (o, ConflictType::Choice)) + mutex_pairs(cases, acts, ch, acts.len()).map_values(
        |p: (Seq<char>, Seq<char>)| (seq![p.0, p.1], ConflictType::Mutex),
    )
}

/// Once a prefix has a transition with the identifier, the whole does too,
/// the same one.
proof fn lemma_trans_prefix(ts: Seq<Transition>, id: Seq<char>, k: int)
    requires
        0 <= k <= ts.len(),
        trans_activity(ts.take(k), id) is Some,
    ensures
        trans_activity(ts, id) == trans_activity(ts.take(k), id),
    decreases ts.len() - k,
{
    if k < ts.len() {
        assert(ts.take(k + 1).drop_last() =~= ts.take(k));
        lemma_trans_prefix(ts, id, k + 1);
    } else {
        assert(ts.take(k) =~= ts);
    }
}

/// The activity of the first transition with identifier `id`.
fn transition_activity<'a>(ts: &'a Vec<Transition>, id: &str) -> (r: Option<&'a String>)
    ensures
        match r {
            Some(a) => trans_activity(ts@, id@) == Some(a@),
            None => trans_activity(ts@, id@) is None,
        },
{
    let mut k: usize = 0;
    while k < ts.len()
        invariant
            0 <= k <= ts@.len(),
            trans_activity(ts@.take(k as int), id@) is None,
        decreases ts@.len() - k,
    {
        proof {
            assert(ts@.take(k + 1).drop_last() =~= ts@.take(k as int));
        }
        if str_eq(ts[k].id.as_str(), id) {
            proof {
                assert(ts@.take(k + 1).last() == ts@[k as int]);
                lemma_trans_prefix(ts@, id@, k + 1);
            }
            return Some(&ts[k].activity);
        }
        k = k + 1;
    }
    proof {
        assert(ts@.take(ts@.len() as int) =~= ts@);
    }
    None
}

/// The activities that the arcs from place `place` lead to.
fn outgoing_of(net: &PetriNet, place: &str) -> (r: Vec<String>)
    ensures
        views(r@) == outgoing(net.transitions@, net.arcs@, place@),
{
    let mut out: Vec<String> = Vec::new();
    let mut k: usize = 0;
    while k < net.arcs.len()
        invariant
            0 <= k <= net.arcs@.len(),
            views(out@) == outgoing(net.transitions@, net.arcs@.take(k as int), place@),
        decreases net.arcs@.len() - k,
    {
        proof {
            assert(net.arcs@.take(k + 1).drop_last() =~= net.arcs@.take(k as int));
            assert(net.arcs@.take(k + 1).last() == net.arcs@[k as int]);
        }
        let ghost before = out@;
        match (&net.arcs[k].source, &net.arcs[k].target) {
            (ArcNode::Place(p), ArcNode::Transition(t)) => {
                if str_eq(p.as_str(), place) {
                    match transition_activity(&net.transitions, t.as_str()) {
                        Some(a) => {
                            out.push(String::from_str(a.as_str()));
                            proof {
                                assert(views(out@) =~= views(before).push(a@));
                            }
                        },
                        None => {},
                    }
                }
            },
            _ => {},
        }
        k = k + 1;
    }
    proof {
        assert(net.arcs@.take(net.arcs@.len() as int) =~= net.arcs@);
    }
    out
}

/// Whether the events have an event of activity `a`.
fn has_activity(evs: &Vec<Event>, a: &str) -> (r: bool)
    ensures
        r == acts_of(evs@).contains(a@),
{
    let mut i: usize = 0;
    while i < evs.len()
        invariant
            0 <= i <= evs@.len(),
            forall|k: int| 0 <= k < i ==> (#[trigger] evs@[k]).activity@ != a@,
        decreases evs@.len() - i,
    {
        if str_eq(evs[i].activity.as_str(), a) {
            proof {
                assert(acts_of(evs@)[i as int] == a@);
            }
            return true;
        }
        i = i + 1;
    }
    proof {
        if acts_of(evs@).contains(a@) {
            let k = choose|k: int| 0 <= k < acts_of(evs@).len() && acts_of(evs@)[k] == a@;
            assert(evs@[k].activity@ == a@);
        }
    }
    false
}

/// Whether some case has both activities.
fn co_occurring(log: &EventLog, a: &str, b: &str) -> (r: bool)
    ensures
        r == co_occur(log.cases@, a@, b@),
{
    let mut c: usize = 0;
    while c < log.cases.len()
        invariant
            0 <= c <= log.cases@.len(),
            forall|k: int| 0 <= k < c ==> !(#[trigger] acts_of(log.cases@[k].events@).contains(a@) && acts_of(log.cases@[k].events@).contains(b@)),
        decreases log.cases@.len() - c,
    {
        if has_activity(&log.cases[c].events, a) && has_activity(&log.cases[c].events, b) {
            return true;
        }
        c = c + 1;
    }
    false
}

/// Whether a choice conflict among `cs` has both activities.
fn choice_has_both(cs: &Vec<Conflict>, a: &str, b: &str) -> (r: bool)
    ensures
        r == exists|k: int|
            0 <= k < cs@.len() && (#[trigger] cs@[k]).conflict_type == ConflictType::Choice && views(cs@[k].activities@).contains(a@)
                && views(cs@[k].activities@).contains(b@),
{
    let mut k: usize = 0;
    while k < cs.len()
        invariant
            0 <= k <= cs@.len(),
            forall|j: int|
                0 <= j < k ==> !((#[trigger] cs@[j]).conflict_type == ConflictType::Choice && views(cs@[j].activities@).contains(a@)
                    && views(cs@[j].activities@).contains(b@)),
        decreases cs@.len() - k,
    {
        if cs[k].conflict_type == ConflictType::Choice {
            let ha = contains_text(&cs[k].activities, a);
            let hb = contains_text(&cs[k].activities, b);
            proof {
                let v = views(cs@[k as int].activities@);
                if ha {
                    let i = choose|i: int| 0 <= i < cs@[k as int].activities@.len() && (#[trigger] cs@[k as int].activities@[i])@ == a@;
                    assert(v[i] == a@);
                }
                if v.contains(a@) {
                    let i = choose|i: int| 0 <= i < v.len() && v[i] == a@;
                    assert(cs@[k as int].activities@[i]@ == a@);
                }
                if hb {
                    let i = choose|i: int| 0 <= i < cs@[k as int].activities@.len() && (#[trigger] cs@[k as int].activities@[i])@ == b@;
                    assert(v[i] == b@);
                }
                if v.contains(b@) {
                    let i = choose|i: int| 0 <= i < v.len() && v[i] == b@;
                    assert(cs@[k as int].activities@[i]@ == b@);
                }
            }
            if ha && hb {
                return true;
            }
        }
        k = k + 1;
    }
    false
}

/// The conflicts of the log's activities given its mined net: a choice
/// for each place that leads to more than one transition (in place order),
/// then a mutex for each two activities of the net (in the order `acts` of
/// its activities) that never occur in the same case and that no choice
/// already has both of.
pub fn detect_conflicts(log: &EventLog, net: &PetriNet) -> (r: Vec<Conflict>)
    ensures
        exists|acts: Seq<Seq<char>>|
            distinct_texts(acts) && (forall|a: Seq<char>| #[trigger] acts.contains(a) <==> exists|k: int|
                0 <= k < net.transitions@.len() && (#[trigger] net.transitions@[k]).activity@ == a) && conflict_views(r@)
                == conflicts_found(log.cases@, *net, acts),
{
    let mut conflicts: Vec<Conflict> = Vec::new();
    let mut p: usize = 0;
    while p < net.places.len()
        invariant
            0 <= p <= net.places@.len(),
            conflict_views(conflicts@) == choices(*net, p as nat).map_values(|o: Seq<Seq<char>>| (o, ConflictType::Choice)),
        decreases net.places@.len() - p,
    {
        let o = outgoing_of(net, net.places[p].id.as_str());
        let ghost before = conflict_views(conflicts@);
        if o.len() > 1 {
            let c = Conflict::new(o, ConflictType::Choice).with_evidence("source", "petri-net-structure");
            conflicts.push(c);
            proof {
                assert(conflict_views(conflicts@) =~= before.push((views(c.activities@), ConflictType::Choice)));
            }
        }
        proof {
            assert(choices(*net, (p + 1) as nat).map_values(|o: Seq<Seq<char>>| (o, ConflictType::Choice)) =~= choices(
                *net,
                p as nat,
            ).map_values(|o: Seq<Seq<char>>| (o, ConflictType::Choice)) + (if outgoing(net.transitions@, net.arcs@, net.places@[p as int].id@).len() > 1 {
                seq![(outgoing(net.transitions@, net.arcs@, net.places@[p as int].id@), ConflictType::Choice)]
            } else {
                Seq::empty()
            }));
        }
        p = p + 1;
    }
    let ghost ch = choices(*net, net.places@.len());
    let nc = conflicts.len();
    let all = net.activities();
    let ghost acts = str_views(all@);
    let n = all.len();
    let mut i: usize = 0;
    while i < n
        invariant
            n == all@.len(),
            acts == str_views(all@),
            0 <= i <= n,
            nc == ch.len(),
            conflicts@.len() >= nc,
            conflict_views(conflicts@).take(nc as int) == ch.map_values(|o: Seq<Seq<char>>| (o, ConflictType::Choice)),
            conflict_views(conflicts@).skip(nc as int) == mutex_pairs(log.cases@, acts, ch, i as nat).map_values(
                |q: (Seq<char>, Seq<char>)| (seq![q.0, q.1], ConflictType::Mutex),
            ),
        decreases n - i,
    {
        let mut j: usize = 0;
        while j < n
            invariant
                n == all@.len(),
                acts == str_views(all@),
                0 <= i < n,
                0 <= j <= n,
                nc == ch.len(),
                conflicts@.len() >= nc,
                conflict_views(conflicts@).take(nc as int) == ch.map_values(|o: Seq<Seq<char>>| (o, ConflictType::Choice)),
                conflict_views(conflicts@).skip(nc as int) == (mutex_pairs(log.cases@, acts, ch, i as nat) + mutex_row(
                    log.cases@,
                    acts,
                    ch,
                    i as int,
                    j as nat,
                )).map_values(|q: (Seq<char>, Seq<char>)| (seq![q.0, q.1], ConflictType::Mutex)),
            decreases n - j,
        {
            let a = all[i];
            let b = all[j];
            proof {
                assert(acts[i as int] == a@ && acts[j as int] == b@);
            }
            let ghost before = conflicts@;
            if i < j && !co_occurring(log, a, b) {
                let cov = choice_has_both(&conflicts, a, b);
                proof {
                    let cv = conflict_views(conflicts@);
                    if cov {
                        let k = choose|k: int|
                            0 <= k < conflicts@.len() && (#[trigger] conflicts@[k]).conflict_type == ConflictType::Choice && views(conflicts@[k].activities@).contains(a@)
                                && views(conflicts@[k].activities@).contains(b@);
                        if k >= nc {
                            assert(cv.skip(nc as int)[k - nc] == cv[k]);
                        } else {
                            assert(cv.take(nc as int)[k] == cv[k]);
                            assert(ch[k].contains(a@) && ch[k].contains(b@));
                        }
                    }
                    if covered(ch, a@, b@) {
                        let k = choose|k: int| 0 <= k < ch.len() && #[trigger] ch[k].contains(a@) && ch[k].contains(b@);
                        assert(cv.take(nc as int)[k] == cv[k]);
                        assert(conflicts@[k].conflict_type == ConflictType::Choice);
                    }
                }
                if !cov {
                    let mut pair: Vec<String> = Vec::new();
                    pair.push(String::from_str(a));
                    pair.push(String::from_str(b));
                    let c = Conflict::new(pair, ConflictType::Mutex).with_evidence("source", "trace-analysis");
                    conflicts.push(c);
                    proof {
                        assert(views(c.activities@) =~= seq![a@, b@]);
                        let cv0 = conflict_views(before);
                        let cv1 = conflict_views(conflicts@);
                        assert(cv1 =~= cv0.push((seq![a@, b@], ConflictType::Mutex)));
                        assert(cv1.take(nc as int) =~= cv0.take(nc as int));
                        assert(cv1.skip(nc as int) =~= cv0.skip(nc as int).push((seq![a@, b@], ConflictType::Mutex)));
                    }
                }
            }
            proof {
                let f = |q: (Seq<char>, Seq<char>)| (seq![q.0, q.1], ConflictType::Mutex);
                assert((mutex_pairs(log.cases@, acts, ch, i as nat) + mutex_row(log.cases@, acts, ch, i as int, (j + 1) as nat)).map_values(f)
                    =~= (mutex_pairs(log.cases@, acts, ch, i as nat) + mutex_row(log.cases@, acts, ch, i as int, j as nat)).map_values(f)
                    + (if (i as int) < (j as int) && !co_occur(log.cases@, acts[i as int], acts[j as int]) && !covered(ch, acts[i as int], acts[j as int]) {
                    seq![f((acts[i as int], acts[j as int]))]
                } else {
                    Seq::empty()
                }));
            }
            j = j + 1;
        }
        proof {
            assert(mutex_pairs(log.cases@, acts, ch, (i + 1) as nat) == mutex_pairs(log.cases@, acts, ch, i as nat) + mutex_row(
                log.cases@,
                acts,
                ch,
                i as int,
                acts.len(),
            ));
        }
        i = i + 1;
    }
    proof {
        let cv = conflict_views(conflicts@);
        assert(cv =~= cv.take(nc as int) + cv.skip(nc as int));
        assert(conflict_views(conflicts@) == conflicts_found(log.cases@, *net, acts));
    }
    conflicts
}

// ---------------------------------------------------------------------------
// Support
// ---------------------------------------------------------------------------

/// The number of positions `i` with `i + 1 < m` where an event of activity
/// `a` is directly followed by one of `b`.
pub open spec fn follow_count(evs: Seq<Event>, a: Seq<char>, b: Seq<char>, m: nat) -> nat
    decreases m,
{
    if m < 2 {
        0
    } else {
        follow_count(evs, a, b, (m - 1) as nat) + (if evs[m - 2].activity@ == a && evs[m - 1].activity@ == b {
            1nat
        } else {
            0nat
        })
    }
}

/// The number of positions `i` with `i + 1 < m` holding an event of
/// activity `a`: the transitions out of `a`.
pub open spec fn from_count(evs: Seq<Event>, a: Seq<char>, m: nat) -> nat
    decreases m,
{
    if m < 2 {
        0
    } else {
        from_count(evs, a, (m - 1) as nat) + (if evs[m - 2].activity@ == a {
            1nat
        } else {
            0nat
        })
    }
}

/// The support of `a -> b` over the cases: how often `a` is directly
/// followed by `b`.
pub open spec fn support(cases: Seq<Case>, a: Seq<char>, b: Seq<char>) -> nat
    decreases cases.len(),
{
    if cases.len() == 0 {
        0
    } else {
        support(cases.drop_last(), a, b) + follow_count(cases.last().events@, a, b, cases.last().events@.len())
    }
}

/// The transitions out of `a` over the cases.
pub open spec fn transitions_out(cases: Seq<Case>, a: Seq<char>) -> nat
    decreases cases.len(),
{
    if cases.len() == 0 {
        0
    } else {
        transitions_out(cases.drop_last(), a) + from_count(cases.last().events@, a, cases.last().events@.len())
    }
}

/// Counts are at most the number of events.
proof fn lemma_counts_le(evs: Seq<Event>, a: Seq<char>, b: Seq<char>, m: nat)
    ensures
        follow_count(evs, a, b, m) <= m,
        from_count(evs, a, m) <= m,
    decreases m,
{
    if m >= 2 {
        lemma_counts_le(evs, a, b, (m - 1) as nat);
    }
}

/// Support and transitions out are at most the number of events.
proof fn lemma_support_le(cases: Seq<Case>, a: Seq<char>, b: Seq<char>)
    ensures
        support(cases, a, b) <= event_count(cases),
        transitions_out(cases, a) <= event_count(cases),
    decreases cases.len(),
{
    if cases.len() > 0 {
        lemma_support_le(cases.drop_last(), a, b);
        lemma_counts_le(cases.last().events@, a, b, cases.last().events@.len());
    }
}

/// The positions `(c, i)` of the cases where an event of activity `a` is
/// directly followed by one of activity `b`.
pub open spec fn follow_positions(cases: Seq<Case>, a: Seq<char>, b: Seq<char>) -> Set<(int, int)> {
    Set::new(
        |p: (int, int)|
            0 <= p.0 < cases.len() && 0 <= p.1 && p.1 + 1 < cases[p.0].events@.len()
                && cases[p.0].events@[p.1].activity@ == a && cases[p.0].events@[p.1 + 1].activity@ == b,
    )
}

/// The positions `(c, i)` of the cases holding an event of activity `a`
/// that some event directly follows.
pub open spec fn from_positions(cases: Seq<Case>, a: Seq<char>) -> Set<(int, int)> {
    Set::new(
        |p: (int, int)|
            0 <= p.0 < cases.len() && 0 <= p.1 && p.1 + 1 < cases[p.0].events@.len()
                && cases[p.0].events@[p.1].activity@ == a,
    )
}

/// Within one case: the positions below `m` counted by `follow_count` and
/// `from_count`.
proof fn lemma_case_counts(evs: Seq<Event>, a: Seq<char>, b: Seq<char>, m: nat)
    requires
        m <= evs.len(),
    ensures
        Set::new(|i: int| 0 <= i && i + 1 < m && evs[i].activity@ == a && evs[i + 1].activity@ == b).finite(),
        follow_count(evs, a, b, m) == Set::new(
            |i: int| 0 <= i && i + 1 < m && evs[i].activity@ == a && evs[i + 1].activity@ == b,
        ).len(),
        Set::new(|i: int| 0 <= i && i + 1 < m && evs[i].activity@ == a).finite(),
        from_count(evs, a, m) == Set::new(|i: int| 0 <= i && i + 1 < m && evs[i].activity@ == a).len(),
    decreases m,
{
    let sf = Set::new(|i: int| 0 <= i && i + 1 < m && evs[i].activity@ == a && evs[i + 1].activity@ == b);
    let so = Set::new(|i: int| 0 <= i && i + 1 < m && evs[i].activity@ == a);
    if m < 2 {
        assert(sf =~= Set::empty());
        assert(so =~= Set::empty());
    } else {
        let k = (m - 1) as nat;
        lemma_case_counts(evs, a, b, k);
        let pf = Set::new(|i: int| 0 <= i && i + 1 < k && evs[i].activity@ == a && evs[i + 1].activity@ == b);
        let po = Set::new(|i: int| 0 <= i && i + 1 < k && evs[i].activity@ == a);
        let j = m - 2;
        assert(!pf.contains(j));
        assert(!po.contains(j));
        if evs[j].activity@ == a && evs[j + 1].activity@ == b {
            assert(sf =~= pf.insert(j));
        } else {
            assert(sf =~= pf);
        }
        if evs[j].activity@ == a {
            assert(so =~= po.insert(j));
        } else {
            assert(so =~= po);
        }
    }
}

/// Pairs `(c, i)` for the positions `i` of one case `c`.
proof fn lemma_tag_case(s: Set<int>, c: int)
    requires
        s.finite(),
    ensures
        s.map(|i: int| (c, i)).finite(),
        s.map(|i: int| (c, i)).len() == s.len(),
{
    let f = |i: int| (c, i);
    assert(vstd::relations::injective_on(f, s)) by {
        assert forall|x: int, y: int| s.contains(x) && s.contains(y) && #[trigger] f(x) == #[trigger] f(y) implies x == y by {
            assert(f(x).1 == x && f(y).1 == y);
        }
    }
    vstd::set_lib::lemma_map_size(s, s.map(f), f);
}

/// The support of `a -> b` is the number of positions where an event of
/// activity `a` is directly followed by one of `b`, every such position of
/// every case counted; the transitions out of `a` are the number of
/// positions holding `a` with an event after it.
pub proof fn law_counts_are_positions(cases: Seq<Case>, a: Seq<char>, b: Seq<char>)
    ensures
        follow_positions(cases, a, b).finite(),
        support(cases, a, b) == follow_positions(cases, a, b).len(),
        from_positions(cases, a).finite(),
        transitions_out(cases, a) == from_positions(cases, a).len(),
    decreases cases.len(),
{
    let fp = follow_positions(cases, a, b);
    let op = from_positions(cases, a);
    if cases.len() == 0 {
        assert(fp =~= Set::empty());
        assert(op =~= Set::empty());
    } else {
        let n = cases.len() - 1;
        let init = cases.drop_last();
        law_counts_are_positions(init, a, b);
        let evs = cases.last().events@;
        let m = evs.len();
        lemma_case_counts(evs, a, b, m);
        let sf = Set::new(|i: int| 0 <= i && i + 1 < m && evs[i].activity@ == a && evs[i + 1].activity@ == b);
        let so = Set::new(|i: int| 0 <= i && i + 1 < m && evs[i].activity@ == a);
        lemma_tag_case(sf, n);
        lemma_tag_case(so, n);
        let tf = sf.map(|i: int| (n, i));
        let to = so.map(|i: int| (n, i));
        let ifp = follow_positions(init, a, b);
        let iop = from_positions(init, a);
        assert(fp =~= ifp + tf) by {
            assert forall|p: (int, int)| fp.contains(p) implies (ifp + tf).contains(p) by {
                if p.0 < n {
                    assert(init[p.0] == cases[p.0]);
                } else {
                    assert(sf.contains(p.1));
                    assert((|i: int| (n, i))(p.1) == p);
                }
            }
            assert forall|p: (int, int)| (ifp + tf).contains(p) implies fp.contains(p) by {
                if ifp.contains(p) {
                    assert(init[p.0] == cases[p.0]);
                } else {
                    let i = choose|i: int| sf.contains(i) && (|i: int| (n, i))(i) == p;
                }
            }
        }
        assert(op =~= iop + to) by {
            assert forall|p: (int, int)| op.contains(p) implies (iop + to).contains(p) by {
                if p.0 < n {
                    assert(init[p.0] == cases[p.0]);
                } else {
                    assert(so.contains(p.1));
                    assert((|i: int| (n, i))(p.1) == p);
                }
            }
            assert forall|p: (int, int)| (iop + to).contains(p) implies op.contains(p) by {
                if iop.contains(p) {
                    assert(init[p.0] == cases[p.0]);
                } else {
                    let i = choose|i: int| so.contains(i) && (|i: int| (n, i))(i) == p;
                }
            }
        }
        assert(ifp.disjoint(tf)) by {
            assert forall|p: (int, int)| ifp.contains(p) implies !tf.contains(p) by {
                if tf.contains(p) {
                    let i = choose|i: int| sf.contains(i) && (|i: int| (n, i))(i) == p;
                }
            }
        }
        assert(iop.disjoint(to)) by {
            assert forall|p: (int, int)| iop.contains(p) implies !to.contains(p) by {
                if to.contains(p) {
                    let i = choose|i: int| so.contains(i) && (|i: int| (n, i))(i) == p;
                }
            }
        }
        vstd::set_lib::lemma_set_disjoint_lens(ifp, tf);
        vstd::set_lib::lemma_set_disjoint_lens(iop, to);
    }
}

/// The count over one case's events: `a` directly followed by `b` when
/// `follow`, else `a` followed by anything.
fn count_in_case(evs: &Vec<Event>, a: &str, b: &str, follow: bool) -> (r: usize)
    ensures
        follow ==> r == follow_count(evs@, a@, b@, evs@.len()),
        !follow ==> r == from_count(evs@, a@, evs@.len()),
{
    proof {
        lemma_counts_le(evs@, a@, b@, evs@.len());
    }
    if evs.len() < 2 {
        return 0;
    }
    let mut n: usize = 0;
    let mut i: usize = 0;
    while i < evs.len() - 1
        invariant
            0 <= i,
            evs@.len() >= 2,
            i + 1 <= evs@.len(),
            follow ==> n == follow_count(evs@, a@, b@, (i + 1) as nat),
            !follow ==> n == from_count(evs@, a@, (i + 1) as nat),
            n <= i,
        decreases evs@.len() - i,
    {
        let hit = if follow {
            str_eq(evs[i].activity.as_str(), a) && str_eq(evs[i + 1].activity.as_str(), b)
        } else {
            str_eq(evs[i].activity.as_str(), a)
        };
        if hit {
            n = n + 1;
        }
        i = i + 1;
    }
    n
}

/// The support of `a -> b`: how often, over all cases, an event of activity
/// `a` is directly followed by one of `b`.
pub fn calculate_support(log: &EventLog, a: &str, b: &str) -> (r: usize)
    requires
        event_count(log.cases@) <= usize::MAX,
    ensures
        r == support(log.cases@, a@, b@),
        r == follow_positions(log.cases@, a@, b@).len(),
{
    proof {
        law_counts_are_positions(log.cases@, a@, b@);
    }
    count_over_cases(log, a, b, true)
}

/// The transitions out of `a`: how often, over all cases, an event of
/// activity `a` is directly followed by another event.
pub fn count_transitions_from(log: &EventLog, a: &str) -> (r: usize)
    requires
        event_count(log.cases@) <= usize::MAX,
    ensures
        r == transitions_out(log.cases@, a@),
        r == from_positions(log.cases@, a@).len(),
{
    proof {
        law_counts_are_positions(log.cases@, a@, a@);
    }
    count_over_cases(log, a, a, false)
}

/// The count over all cases (see [`count_in_case`]).
fn count_over_cases(log: &EventLog, a: &str, b: &str, follow: bool) -> (r: usize)
    requires
        event_count(log.cases@) <= usize::MAX,
    ensures
        follow ==> r == support(log.cases@, a@, b@),
        !follow ==> r == transitions_out(log.cases@, a@),
{
    let mut n: usize = 0;
    let mut c: usize = 0;
    while c < log.cases.len()
        invariant
            0 <= c <= log.cases@.len(),
            event_count(log.cases@) <= usize::MAX,
            follow ==> n == support(log.cases@.take(c as int), a@, b@),
            !follow ==> n == transitions_out(log.cases@.take(c as int), a@),
        decreases log.cases@.len() - c,
    {
        proof {
            assert(log.cases@.take(c + 1).drop_last() =~= log.cases@.take(c as int));
            lemma_event_count_prefix(log.cases@, c + 1);
            lemma_support_le(log.cases@.take(c + 1), a@, b@);
        }
        let k = count_in_case(&log.cases[c].events, a, b, follow);
        n = n + k;
        c = c + 1;
    }
    proof {
        assert(log.cases@.take(log.cases@.len() as int) =~= log.cases@);
    }
    n
}

// ---------------------------------------------------------------------------
// Building logs
// ---------------------------------------------------------------------------

/// The timestamp of the `i`-th event of a built trace: ten o'clock plus `i`
/// hours on a fixed day.
pub open spec fn trace_stamp(i: int) -> Seq<char> {
    "2026-01-17T"@ + decimal((10 + i) as nat) + ":00:00Z"@
}

/// `c` is the case built with identifier `id` from the activities: one
/// event per activity, the `i`-th stamped [`trace_stamp`]`(i)`, without
/// bindings, actor or annotations, stably sorted by timestamp.
pub open spec fn built_case(c: Case, id: Seq<char>, acts: Seq<Seq<char>>) -> bool {
    &&& c.id@ == id
    &&& exists|inp: Seq<Event>, p: Seq<int>|
        #[trigger] stably_sorted(inp, c.events@, p) && inp.len() == acts.len() && forall|i: int|
            0 <= i < acts.len() ==> (#[trigger] inp[i]).timestamp@ == trace_stamp(i) && inp[i].activity@ == acts[i]
                && inp[i].bindings@ == Map::<String, String>::empty() && inp[i].actor is None && inp[i].annotations@
                == Map::<String, String>::empty()
}

/// The views of a slice of texts.
pub open spec fn slice_views(s: Seq<&str>) -> Seq<Seq<char>> {
    s.map_values(|x: &str| x@)
}

/// A case of the activities in order, an hour apart.
pub fn make_sequential_trace(case_id: &str, activities: &[&str]) -> (r: Case)
    requires
        activities@.len() + 10 <= u64::MAX,
    ensures
        built_case(r, case_id@, slice_views(activities@)),
{
    let mut events: Vec<Event> = Vec::new();
    let mut i: usize = 0;
    while i < activities.len()
        invariant
            0 <= i <= activities@.len(),
            activities@.len() + 10 <= u64::MAX,
            events@.len() == i,
            forall|k: int|
                0 <= k < i ==> (#[trigger] events@[k]).timestamp@ == trace_stamp(k) && events@[k].activity@ == activities@[k]@
                    && events@[k].bindings@ == Map::<String, String>::empty() && events@[k].actor is None && events@[k].annotations@
                    == Map::<String, String>::empty(),
        decreases activities@.len() - i,
    {
        let mut ts = String::from_str("2026-01-17T");
        push_decimal(&mut ts, (i as u64) + 10);
        ts.append(":00:00Z");
        let e = Event::new(ts.as_str(), activities[i], HashMap::new());
        events.push(e);
        i = i + 1;
    }
    let ghost inp = events@;
    let r = Case::new(case_id, events);
    proof {
        let p = choose|p: Seq<int>| stably_sorted(inp, r.events@, p);
        assert(forall|k: int| 0 <= k < slice_views(activities@).len() ==> slice_views(activities@)[k] == activities@[k]@);
        assert(stably_sorted(inp, r.events@, p));
    }
    r
}

/// A log with a case per trace, the `i`-th identified `case-` and `i`.
pub fn make_log_from_traces(traces: &[&[&str]]) -> (r: EventLog)
    requires
        forall|i: int| 0 <= i < traces@.len() ==> (#[trigger] traces@[i])@.len() + 10 <= u64::MAX,
    ensures
        r.cases@.len() == traces@.len(),
        forall|i: int|
            0 <= i < traces@.len() ==> #[trigger] built_case(r.cases@[i], "case-"@ + decimal(i as nat), slice_views(traces@[i]@)),
        r.metadata@ == Map::<String, String>::empty(),
{
    let mut cases: Vec<Case> = Vec::new();
    let mut i: usize = 0;
    while i < traces.len()
        invariant
            0 <= i <= traces@.len(),
            forall|k: int| 0 <= k < traces@.len() ==> (#[trigger] traces@[k])@.len() + 10 <= u64::MAX,
            cases@.len() == i,
            forall|k: int| 0 <= k < i ==> #[trigger] built_case(cases@[k], "case-"@ + decimal(k as nat), slice_views(traces@[k]@)),
        decreases traces@.len() - i,
    {
        let mut id = String::from_str("case-");
        push_decimal(&mut id, i as u64);
        let c = make_sequential_trace(id.as_str(), traces[i]);
        cases.push(c);
        proof {
            assert(cases@[i as int] == c);
        }
        i = i + 1;
    }
    EventLog::new(cases)
}

/// A log of `n` cases with the same activities.
pub fn make_repeated_log(n: usize, activities: &[&str]) -> (r: EventLog)
    requires
        activities@.len() + 10 <= u64::MAX,
    ensures
        r.cases@.len() == n,
        forall|i: int| 0 <= i < n ==> #[trigger] built_case(r.cases@[i], "case-"@ + decimal(i as nat), slice_views(activities@)),
        r.metadata@ == Map::<String, String>::empty(),
{
    let mut traces: Vec<&[&str]> = Vec::new();
    let mut i: usize = 0;
    while i < n
        invariant
            0 <= i <= n,
            traces@.len() == i,
            forall|k: int| 0 <= k < i ==> #[trigger] traces@[k] == activities,
        decreases n - i,
    {
        traces.push(activities);
        i = i + 1;
    }
    let r = make_log_from_traces(traces.as_slice());
    proof {
        assert forall|i: int| 0 <= i < n implies #[trigger] built_case(r.cases@[i], "case-"@ + decimal(i as nat), slice_views(activities@)) by {
            assert(traces@[i] == activities);
            assert(built_case(r.cases@[i], "case-"@ + decimal(i as nat), slice_views(traces@[i]@)));
        }
    }
    r
}

} // verus!
