//! Time points and temporal bounds of literals.

use vstd::prelude::*;
use crate::text::{signed_decimal, push_signed_decimal};

verus! {

/// A point in time: a moment in milliseconds, or one of the two infinities.
#[derive(Clone, Copy, PartialEq, Eq, Structural, Debug, Hash)]
pub enum TimePoint {
    /// Before every moment.
    NegInf,
    /// A moment (milliseconds since the epoch).
    Moment(i64),
    /// After every moment.
    PosInf,
}

/// The order of time points: `NegInf` first, moments by value, `PosInf` last.
pub open spec fn tp_le(a: TimePoint, b: TimePoint) -> bool {
    match (a, b) {
        (TimePoint::NegInf, _) => true,
        (_, TimePoint::PosInf) => true,
        (TimePoint::Moment(x), TimePoint::Moment(y)) => x <= y,
        _ => false,
    }
}

/// The display text of a time point.
pub open spec fn tp_text(t: TimePoint) -> Seq<char> {
    match t {
        TimePoint::NegInf => seq!['-', 'i', 'n', 'f'],
        TimePoint::PosInf => seq!['i', 'n', 'f'],
        TimePoint::Moment(m) => signed_decimal(m as int),
    }
}

impl TimePoint {
    /// A moment from milliseconds since the epoch.
    pub fn from_millis(ms: i64) -> (r: Self)
        ensures
            r == TimePoint::Moment(ms),
    {
        TimePoint::Moment(ms)
    }

    /// Whether `self` is not after `other`.
    pub fn le(self, other: Self) -> (r: bool)
        ensures
            r == tp_le(self, other),
    {
        match (self, other) {
            (TimePoint::NegInf, _) => true,
            (_, TimePoint::PosInf) => true,
            (TimePoint::Moment(x), TimePoint::Moment(y)) => x <= y,
            _ => false,
        }
    }

    /// Append the display text of this point to `out`.
    pub fn push_text(self, out: &mut String)
        ensures
            final(out)@ == old(out)@ + tp_text(self),
    {
        match self {
            TimePoint::NegInf => {
                proof {
                    reveal_strlit("-inf");
                }
                out.append("-inf");
            },
            TimePoint::PosInf => {
                proof {
                    reveal_strlit("inf");
                }
                out.append("inf");
            },
            TimePoint::Moment(m) => {
                push_signed_decimal(out, m);
            },
        }
    }
}

/// Temporal bounds `[start, end]`; unbounded on both sides means no bounds.
#[derive(Clone, Copy, PartialEq, Eq, Structural, Debug, Hash)]
pub struct Temporal {
    /// The first time point covered.
    pub start: TimePoint,
    /// The last time point covered.
    pub end: TimePoint,
}

/// The display text of temporal bounds: `[start,end]`, or nothing when unbounded.
pub open spec fn temporal_text(t: Temporal) -> Seq<char> {
    if t.start == TimePoint::NegInf && t.end == TimePoint::PosInf {
        Seq::empty()
    } else {
        seq!['['] + tp_text(t.start) + seq![','] + tp_text(t.end) + seq![']']
    }
}

impl Default for Temporal {
    fn default() -> (r: Self)
        ensures
            r == Temporal::spec_empty(),
    {
        Temporal::empty()
    }
}

impl Temporal {
    /// Bounds from two time points.
    pub fn new(start: TimePoint, end: TimePoint) -> (r: Self)
        ensures
            r.start == start,
            r.end == end,
    {
        Temporal { start, end }
    }

    /// No bounds, as a spec value.
    pub open spec fn spec_empty() -> Temporal {
        Temporal { start: TimePoint::NegInf, end: TimePoint::PosInf }
    }

    /// No bounds: from `NegInf` to `PosInf`.
    pub fn empty() -> (r: Self)
        ensures
            r.start == TimePoint::NegInf,
            r.end == TimePoint::PosInf,
    {
        Temporal { start: TimePoint::NegInf, end: TimePoint::PosInf }
    }

    /// Bounds between two moments.
    pub fn from_bounds(start: i64, end: i64) -> (r: Self)
        ensures
            r.start == TimePoint::Moment(start),
            r.end == TimePoint::Moment(end),
    {
        Temporal { start: TimePoint::Moment(start), end: TimePoint::Moment(end) }
    }

    /// Whether there are no bounds.
    pub open spec fn spec_is_empty(self) -> bool {
        self.start == TimePoint::NegInf && self.end == TimePoint::PosInf
    }

    /// Whether there are no bounds.
    pub fn is_empty(&self) -> (r: bool)
        ensures
            r == self.spec_is_empty(),
    {
        self.start == TimePoint::NegInf && self.end == TimePoint::PosInf
    }

    /// Whether `t` lies within the bounds (both ends included).
    pub open spec fn spec_contains(self, t: TimePoint) -> bool {
        tp_le(self.start, t) && tp_le(t, self.end)
    }

    /// Whether `t` lies within the bounds (both ends included).
    pub fn contains(&self, t: TimePoint) -> (r: bool)
        ensures
            r == self.spec_contains(t),
    {
        self.start.le(t) && t.le(self.end)
    }

    /// Render the bounds as display text.
    pub fn to_text(&self) -> (r: String)
        ensures
            r@ == temporal_text(*self),
    {
        let mut out = String::new();
        if self.is_empty() {
            return out;
        }
        proof {
            reveal_strlit("[");
            reveal_strlit(",");
            reveal_strlit("]");
        }
        out.append("[");
        self.start.push_text(&mut out);
        out.append(",");
        self.end.push_text(&mut out);
        out.append("]");
        proof {
            assert(out@ =~= temporal_text(*self));
        }
        out
    }
}

/// One end of a temporal expression: a concrete point or a variable such as `?t1`.
#[derive(Debug, Hash)]
pub enum TimeTerm {
    /// A concrete time point.
    Point(TimePoint),
    /// A variable, named without its `?`.
    Var(String),
}

impl Clone for TimeTerm {
    fn clone(&self) -> (r: Self)
        ensures
            r == *self,
    {
        match self {
            TimeTerm::Point(p) => TimeTerm::Point(*p),
            TimeTerm::Var(v) => TimeTerm::Var(v.clone()),
        }
    }
}

/// Temporal bounds whose ends may still be variables (before grounding).
#[derive(Debug, Hash)]
pub struct TemporalExpr {
    /// The start of the interval.
    pub start: TimeTerm,
    /// The end of the interval.
    pub end: TimeTerm,
}

impl Clone for TemporalExpr {
    fn clone(&self) -> (r: Self)
        ensures
            r == *self,
    {
        TemporalExpr { start: self.start.clone(), end: self.end.clone() }
    }
}

/// The concrete bounds of an expression whose two ends are points.
pub open spec fn spec_to_concrete(e: TemporalExpr) -> Option<Temporal> {
    match (e.start, e.end) {
        (TimeTerm::Point(s), TimeTerm::Point(t)) => Some(Temporal { start: s, end: t }),
        _ => None,
    }
}

/// The display text of a time term: the point, or `?` and the variable.
pub open spec fn term_text(t: TimeTerm) -> Seq<char> {
    match t {
        TimeTerm::Point(p) => tp_text(p),
        TimeTerm::Var(v) => seq!['?'] + v@,
    }
}

impl TimeTerm {
    /// Append the display text of this term to `out`.
    pub fn push_text(&self, out: &mut String)
        ensures
            final(out)@ == old(out)@ + term_text(*self),
    {
        match self {
            TimeTerm::Point(p) => p.push_text(out),
            TimeTerm::Var(v) => {
                proof {
                    reveal_strlit("?");
                }
                out.append("?");
                out.append(v.as_str());
                proof {
                    assert(final(out)@ =~= old(out)@ + term_text(*self));
                }
            },
        }
    }
}

impl TemporalExpr {
    /// The concrete bounds, when both ends are points.
    pub fn to_concrete(&self) -> (r: Option<Temporal>)
        ensures
            r == spec_to_concrete(*self),
    {
        match (&self.start, &self.end) {
            (TimeTerm::Point(s), TimeTerm::Point(t)) => Some(Temporal { start: *s, end: *t }),
            _ => None,
        }
    }
}

} // verus!
