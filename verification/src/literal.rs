//! Literals: the propositions that rules reason about, with an optional
//! modal operator, temporal bounds and predicate arguments.

use vstd::prelude::*;
use vstd::std_specs::cmp::PartialEqSpecImpl;
use crate::intern::{Interner, LiteralId, SymbolId};
use crate::mode::Mode;
use crate::temporal::{Temporal, TemporalExpr, TimeTerm, temporal_text, term_text, tp_text};
use crate::text::{joined, string_views, join, char_at};

verus! {

/// Copy a vector of strings entry by entry.
pub fn clone_strings(v: &Vec<String>) -> (r: Vec<String>)
    ensures
        r@ == v@,
{
    let mut out: Vec<String> = Vec::new();
    let mut i: usize = 0;
    while i < v.len()
        invariant
            0 <= i <= v@.len(),
            out@ == v@.take(i as int),
        decreases v@.len() - i,
    {
        out.push(v[i].clone());
        proof {
            assert(v@.take(i + 1) =~= v@.take(i as int).push(v@[i as int]));
        }
        i = i + 1;
    }
    proof {
        assert(v@.take(v@.len() as int) =~= v@);
    }
    out
}

/// Compare two vectors of strings by their characters.
pub fn strings_eq(a: &Vec<String>, b: &Vec<String>) -> (r: bool)
    ensures
        r == (string_views(a@) == string_views(b@)),
{
    if a.len() != b.len() {
        proof {
            assert(string_views(a@).len() != string_views(b@).len());
        }
        return false;
    }
    let mut i: usize = 0;
    while i < a.len()
        invariant
            0 <= i <= a@.len(),
            a@.len() == b@.len(),
            forall|k: int| 0 <= k < i ==> (#[trigger] a@[k])@ == b@[k]@,
        decreases a@.len() - i,
    {
        if !a[i].eq(&b[i]) {
            proof {
                assert(string_views(a@)[i as int] != string_views(b@)[i as int]);
            }
            return false;
        }
        i = i + 1;
    }
    proof {
        assert(string_views(a@) =~= string_views(b@));
    }
    true
}

/// The name of a literal, as text.
pub type LiteralName = String;

/// A name held by an interner: a symbol standing for a literal's name.
#[derive(Clone, Copy, Debug, PartialEq, Eq, Structural, Hash, PartialOrd, Ord, Default)]
pub struct InternedLiteralName(pub SymbolId);

impl InternedLiteralName {
    /// Intern `name` in `interner`.
    pub fn intern(interner: &mut Interner, name: &str) -> (r: Self)
        requires
            old(interner).wf(),
            old(interner).names().len() < u32::MAX,
        ensures
            final(interner).wf(),
            0 <= r.0.0 < final(interner).names().len(),
            final(interner).names()[r.0.0 as int] == name@,
            old(interner).names().contains(name@) ==> final(interner).names() == old(
                interner,
            ).names(),
            !old(interner).names().contains(name@) ==> final(interner).names() == old(
                interner,
            ).names().push(name@),
    {
        InternedLiteralName(interner.intern(name))
    }

    /// The name this symbol stands for in `interner`.
    pub fn resolve(self, interner: &Interner) -> (r: &str)
        requires
            interner.wf(),
        ensures
            (self.0.0 as int) < interner.names().len() ==> r@ == interner.names()[self.0.0 as int],
            (self.0.0 as int) >= interner.names().len() ==> r@ == Seq::<char>::empty(),
    {
        interner.resolve(self.0)
    }

    /// The underlying symbol.
    pub fn symbol_id(self) -> (r: SymbolId)
        ensures
            r == self.0,
    {
        self.0
    }
}

/// A literal: a named proposition, possibly negated, with a modal operator,
/// temporal bounds and predicate arguments.
///
/// Two literals compare equal when their names, negation flags, modes and
/// arguments agree; temporal bounds are not compared.
#[derive(Debug)]
pub struct Literal {
    /// The name.
    pub name: String,
    /// Whether the literal is negated.
    pub negation: bool,
    /// The modal operator; the empty mode when the literal is not modal.
    pub mode: Mode,
    /// The temporal bounds; empty when the literal holds at every time.
    pub temporal: Temporal,
    /// Temporal bounds that still name variables, before grounding.
    pub temporal_expr: Option<TemporalExpr>,
    /// The predicate arguments.
    pub predicates: Vec<String>,
}

/// The identity of the proposition a literal speaks of, whichever its
/// polarity: name, mode, arguments and temporal bounds.
pub struct AtomKey {
    /// The name.
    pub name: Seq<char>,
    /// The mode, by its view.
    pub mode: (Option<Seq<char>>, bool),
    /// The arguments.
    pub preds: Seq<Seq<char>>,
    /// The temporal bounds.
    pub temporal: Temporal,
}

impl Literal {
    /// The name, as characters.
    pub open spec fn spec_name(&self) -> Seq<char> {
        self.name@
    }

    /// The predicate arguments, as characters.
    pub open spec fn spec_preds(&self) -> Seq<Seq<char>> {
        string_views(self.predicates@)
    }

    /// The proposition this literal is about, ignoring negation.
    pub open spec fn atom(&self) -> AtomKey {
        AtomKey {
            name: self.spec_name(),
            mode: self.mode@,
            preds: self.spec_preds(),
            temporal: self.temporal,
        }
    }

    /// The equality of literals: name, negation, mode and arguments.
    pub open spec fn same_as(&self, other: &Literal) -> bool {
        &&& self.spec_name() == other.spec_name()
        &&& self.negation == other.negation
        &&& self.mode@ == other.mode@
        &&& self.spec_preds() == other.spec_preds()
    }

    /// A positive literal with no mode, bounds or arguments.
    pub fn simple(name: &str) -> (r: Self)
        ensures
            r.spec_name() == name@,
            !r.negation,
            r.mode@ == (None::<Seq<char>>, false),
            r.temporal == Temporal::spec_empty(),
            r.temporal_expr.is_none(),
            r.spec_preds() == Seq::<Seq<char>>::empty(),
    {
        let r = Literal {
            name: name.to_owned(),
            negation: false,
            mode: Mode::empty(),
            temporal: Temporal::empty(),
            temporal_expr: None,
            predicates: Vec::new(),
        };
        proof {
            assert(r.spec_preds() =~= Seq::<Seq<char>>::empty());
        }
        r
    }

    /// A negated literal with no mode, bounds or arguments.
    pub fn negated(name: &str) -> (r: Self)
        ensures
            r.spec_name() == name@,
            r.negation,
            r.mode@ == (None::<Seq<char>>, false),
            r.temporal == Temporal::spec_empty(),
            r.temporal_expr.is_none(),
            r.spec_preds() == Seq::<Seq<char>>::empty(),
    {
        let mut r = Literal::simple(name);
        r.negation = true;
        r
    }

    /// A literal given in full.
    pub fn new(name: &str, negation: bool, mode: Mode, temporal: Temporal, predicates: Vec<String>) -> (r: Self)
        ensures
            r.spec_name() == name@,
            r.negation == negation,
            r.mode == mode,
            r.temporal == temporal,
            r.temporal_expr.is_none(),
            r.spec_preds() == string_views(predicates@),
    {
        Literal { name: name.to_owned(), negation, mode, temporal, temporal_expr: None, predicates }
    }

    /// A literal whose bounds are given by a temporal expression; when both
    /// ends of the expression are points the bounds are taken at once,
    /// otherwise the bounds are left empty and the expression is kept.
    pub fn new_with_temporal_expr(
        name: &str,
        negation: bool,
        mode: Mode,
        temporal_expr: TemporalExpr,
        predicates: Vec<String>,
    ) -> (r: Self)
        ensures
            r.spec_name() == name@,
            r.negation == negation,
            r.mode == mode,
            r.spec_preds() == string_views(predicates@),
            match (temporal_expr.start, temporal_expr.end) {
                (TimeTerm::Point(s), TimeTerm::Point(e)) => r.temporal == Temporal { start: s, end: e }
                    && r.temporal_expr.is_none(),
                _ => r.temporal == Temporal::spec_empty() && r.temporal_expr == Some(temporal_expr),
            },
    {
        match temporal_expr.to_concrete() {
            Some(concrete) => Literal {
                name: name.to_owned(),
                negation,
                mode,
                temporal: concrete,
                temporal_expr: None,
                predicates,
            },
            None => Literal {
                name: name.to_owned(),
                negation,
                mode,
                temporal: Temporal::empty(),
                temporal_expr: Some(temporal_expr),
                predicates,
            },
        }
    }

    /// A literal from interned symbols, resolved in `interner`.
    pub fn from_ids(
        interner: &Interner,
        name_id: SymbolId,
        negation: bool,
        mode: Mode,
        temporal: Temporal,
        predicate_ids: Vec<SymbolId>,
    ) -> (r: Self)
        requires
            interner.wf(),
            (name_id.0 as int) < interner.names().len(),
            forall|i: int| 0 <= i < predicate_ids@.len() ==> ((#[trigger] predicate_ids@[i]).0 as int) < interner.names().len(),
        ensures
            r.spec_name() == interner.names()[name_id.0 as int],
            r.negation == negation,
            r.mode == mode,
            r.temporal == temporal,
            r.temporal_expr.is_none(),
            r.spec_preds().len() == predicate_ids@.len(),
            forall|i: int| 0 <= i < predicate_ids@.len() ==> #[trigger] r.spec_preds()[i] == interner.names()[predicate_ids@[i].0 as int],
    {
        let mut preds: Vec<String> = Vec::new();
        let mut i: usize = 0;
        while i < predicate_ids.len()
            invariant
                0 <= i <= predicate_ids@.len(),
                interner.wf(),
                forall|k: int| 0 <= k < predicate_ids@.len() ==> ((#[trigger] predicate_ids@[k]).0 as int) < interner.names().len(),
                preds@.len() == i,
                forall|k: int| 0 <= k < i ==> (#[trigger] preds@[k])@ == interner.names()[predicate_ids@[k].0 as int],
            decreases predicate_ids@.len() - i,
        {
            preds.push(interner.resolve(predicate_ids[i]).to_owned());
            i = i + 1;
        }
        Literal {
            name: interner.resolve(name_id).to_owned(),
            negation,
            mode,
            temporal,
            temporal_expr: None,
            predicates: preds,
        }
    }

    /// The same literal with its negation flipped.
    pub fn complement(&self) -> (r: Self)
        ensures
            r.spec_name() == self.spec_name(),
            r.negation == !self.negation,
            r.mode == self.mode,
            r.temporal == self.temporal,
            r.temporal_expr == self.temporal_expr,
            r.spec_preds() == self.spec_preds(),
    {
        Literal {
            name: self.name.clone(),
            negation: !self.negation,
            mode: self.mode.clone(),
            temporal: self.temporal,
            temporal_expr: match &self.temporal_expr {
                Some(e) => Some(e.clone()),
                None => None,
            },
            predicates: clone_strings(&self.predicates),
        }
    }

    /// A copy of this literal.
    pub fn duplicate(&self) -> (r: Self)
        ensures
            r.spec_name() == self.spec_name(),
            r.negation == self.negation,
            r.mode == self.mode,
            r.temporal == self.temporal,
            r.temporal_expr == self.temporal_expr,
            r.spec_preds() == self.spec_preds(),
    {
        Literal {
            name: self.name.clone(),
            negation: self.negation,
            mode: self.mode.clone(),
            temporal: self.temporal,
            temporal_expr: match &self.temporal_expr {
                Some(e) => Some(e.clone()),
                None => None,
            },
            predicates: clone_strings(&self.predicates),
        }
    }

    /// The name.
    pub fn name(&self) -> (r: &str)
        ensures
            r@ == self.spec_name(),
    {
        self.name.as_str()
    }

    /// The name, as an owned string.
    pub fn literal_name(&self) -> (r: String)
        ensures
            r@ == self.spec_name(),
    {
        self.name.clone()
    }

    /// The name, interned in `interner`.
    pub fn interned_name(&self, interner: &mut Interner) -> (r: InternedLiteralName)
        requires
            old(interner).wf(),
            old(interner).names().len() < u32::MAX,
        ensures
            final(interner).wf(),
            0 <= r.0.0 < final(interner).names().len(),
            final(interner).names()[r.0.0 as int] == self.spec_name(),
            final(interner).names().len() <= old(interner).names().len() + 1,
            old(interner).names().is_prefix_of(final(interner).names()),
    {
        InternedLiteralName::intern(interner, self.name.as_str())
    }

    /// The symbol of the name, interned in `interner`.
    pub fn name_id(&self, interner: &mut Interner) -> (r: SymbolId)
        requires
            old(interner).wf(),
            old(interner).names().len() < u32::MAX,
        ensures
            final(interner).wf(),
            0 <= r.0 < final(interner).names().len(),
            final(interner).names()[r.0 as int] == self.spec_name(),
            final(interner).names().len() <= old(interner).names().len() + 1,
            old(interner).names().is_prefix_of(final(interner).names()),
    {
        interner.intern(self.name.as_str())
    }

    /// The predicate arguments.
    pub fn predicates(&self) -> (r: Vec<String>)
        ensures
            string_views(r@) == self.spec_preds(),
    {
        clone_strings(&self.predicates)
    }

    /// The number of predicate arguments.
    pub fn arity(&self) -> (r: usize)
        ensures
            r == self.spec_preds().len(),
    {
        self.predicates.len()
    }

    /// The argument at position `i`.
    pub fn predicate(&self, i: usize) -> (r: &str)
        requires
            i < self.spec_preds().len(),
        ensures
            r@ == self.spec_preds()[i as int],
    {
        self.predicates[i].as_str()
    }

    /// The symbols of the predicate arguments, interned in `interner`.
    pub fn predicate_ids(&self, interner: &mut Interner) -> (r: Vec<SymbolId>)
        requires
            old(interner).wf(),
            old(interner).names().len() + self.spec_preds().len() < u32::MAX,
        ensures
            final(interner).wf(),
            r@.len() == self.spec_preds().len(),
            forall|i: int| 0 <= i < r@.len() ==> ((#[trigger] r@[i]).0 as int) < final(interner).names().len()
                && final(interner).names()[r@[i].0 as int] == self.spec_preds()[i],
            final(interner).names().len() <= old(interner).names().len() + self.spec_preds().len(),
            old(interner).names().is_prefix_of(final(interner).names()),
    {
        let mut out: Vec<SymbolId> = Vec::new();
        let mut i: usize = 0;
        while i < self.predicates.len()
            invariant
                0 <= i <= self.spec_preds().len(),
                self.spec_preds() == string_views(self.predicates@),
                interner.wf(),
                interner.names().len() <= old(interner).names().len() + i,
                old(interner).names().len() + self.spec_preds().len() < u32::MAX,
                old(interner).names().is_prefix_of(interner.names()),
                out@.len() == i,
                forall|k: int| 0 <= k < i ==> ((#[trigger] out@[k]).0 as int) < interner.names().len()
                    && interner.names()[out@[k].0 as int] == self.spec_preds()[k],
            decreases self.spec_preds().len() - i,
        {
            let ghost before = interner.names();
            let id = interner.intern(self.predicates[i].as_str());
            proof {
                assert forall|k: int| 0 <= k < i implies ((#[trigger] out@[k]).0 as int) < interner.names().len()
                    && interner.names()[out@[k].0 as int] == self.spec_preds()[k] by {
                    assert(before[out@[k].0 as int] == interner.names()[out@[k].0 as int]);
                }
            }
            out.push(id);
            i = i + 1;
        }
        out
    }

    /// Whether the literal is positive.
    pub fn is_positive(&self) -> (r: bool)
        ensures
            r == !self.negation,
    {
        !self.negation
    }

    /// Whether the literal is negated.
    pub fn is_negated(&self) -> (r: bool)
        ensures
            r == self.negation,
    {
        self.negation
    }

    /// Whether the literal has a modal operator.
    pub fn is_modal(&self) -> (r: bool)
        ensures
            r == self.mode.name.is_some(),
    {
        !self.mode.is_empty()
    }

    /// Whether the literal has temporal bounds.
    pub fn is_temporal(&self) -> (r: bool)
        ensures
            r == !self.temporal.spec_is_empty(),
    {
        !self.temporal.is_empty()
    }

    /// Whether the literal has predicate arguments.
    pub fn is_predicate(&self) -> (r: bool)
        ensures
            r == (self.spec_preds().len() > 0),
    {
        self.predicates.len() > 0
    }

    /// Whether the literal still has temporal variables to resolve.
    pub fn has_temporal_variables(&self) -> (r: bool)
        ensures
            r == self.temporal_expr.is_some(),
    {
        self.temporal_expr.is_some()
    }

    /// The literal id of name and negation, interned in `interner`; mode,
    /// arguments and bounds do not enter it.
    pub fn name_literal_id(&self, interner: &mut Interner) -> (r: LiteralId)
        requires
            old(interner).wf(),
            old(interner).names().len() < 0x7fff_ffff,
        ensures
            final(interner).wf(),
            0 <= r.spec_symbol() < final(interner).names().len(),
            final(interner).names()[r.spec_symbol() as int] == self.spec_name(),
            r.spec_negated() == self.negation,
            final(interner).names().len() <= old(interner).names().len() + 1,
            old(interner).names().is_prefix_of(final(interner).names()),
    {
        let sym = interner.intern(self.name.as_str());
        proof {
            let v = sym.0;
            assert(v < 0x7fff_ffffu32 ==> v & 0x7fff_ffffu32 == v) by (bit_vector);
        }
        LiteralId::new(sym, self.negation)
    }

    /// The name with a leading `~` when negated.
    pub fn canonical_name(&self) -> (r: String)
        ensures
            r@ == (if self.negation {
                seq!['~'] + self.spec_name()
            } else {
                self.spec_name()
            }),
    {
        if self.negation {
            let mut out = String::from_str("~");
            proof {
                reveal_strlit("~");
            }
            out.append(self.name.as_str());
            out
        } else {
            self.name.clone()
        }
    }

    /// The display text: mode, `~` when negated, name, arguments in
    /// parentheses separated by `, `, and temporal bounds.
    pub open spec fn spec_text(&self) -> Seq<char> {
        self.mode.spec_text() + (if self.negation {
            seq!['~']
        } else {
            Seq::empty()
        }) + self.spec_name() + (if self.spec_preds().len() > 0 {
            seq!['('] + joined(self.spec_preds(), seq![',', ' ']) + seq![')']
        } else {
            Seq::empty()
        }) + temporal_text(self.temporal)
    }

    /// Render the literal as display text.
    pub fn to_text(&self) -> (r: String)
        ensures
            r@ == self.spec_text(),
    {
        let mut out = self.mode.to_text();
        proof {
            reveal_strlit("~");
            reveal_strlit("(");
            reveal_strlit(")");
            reveal_strlit(", ");
        }
        let ghost neg: Seq<char> = if self.negation {
            seq!['~']
        } else {
            Seq::empty()
        };
        let ghost args: Seq<char> = if self.spec_preds().len() > 0 {
            seq!['('] + joined(self.spec_preds(), seq![',', ' ']) + seq![')']
        } else {
            Seq::empty()
        };
        if self.negation {
            out.append("~");
        }
        assert(out@ =~= self.mode.spec_text() + neg);
        out.append(self.name.as_str());
        assert(out@ =~= self.mode.spec_text() + neg + self.spec_name());
        if self.predicates.len() > 0 {
            out.append("(");
            let inner = join(&self.predicates, ", ");
            assert(", "@ =~= seq![',', ' ']);
            assert(inner@ == joined(self.spec_preds(), seq![',', ' ']));
            out.append(inner.as_str());
            out.append(")");
            assert(out@ =~= self.mode.spec_text() + neg + self.spec_name() + args);
        } else {
            assert(args == Seq::<char>::empty());
        }
        assert(out@ =~= self.mode.spec_text() + neg + self.spec_name() + args);
        let t = self.temporal.to_text();
        out.append(t.as_str());
        proof {
            assert(out@ =~= self.spec_text());
        }
        out
    }

    /// The literal in SPL s-expression form (see [`spl_text`]).
    pub fn to_spl(&self) -> (r: String)
        ensures
            r@ == spl_text(*self),
    {
        proof {
            reveal_strlit("(");
            reveal_strlit(")");
            reveal_strlit(" ");
            reveal_strlit("(not ");
            reveal_strlit("(not (");
            reveal_strlit("))");
            reveal_strlit("(during ");
            reveal_strlit("must");
            reveal_strlit("may");
            reveal_strlit("forbidden");
            reveal_strlit("O");
            reveal_strlit("P");
            reveal_strlit("F");
        }
        let mut parts: Vec<String> = Vec::new();
        parts.push(render_spl_atom(self.name.as_str()));
        let mut i: usize = 0;
        while i < self.predicates.len()
            invariant
                0 <= i <= self.predicates@.len(),
                parts@.len() == i + 1,
                parts@[0]@ == spl_atom(self.spec_name()),
                self.spec_preds() == string_views(self.predicates@),
                forall|k: int| 0 <= k < i ==> (#[trigger] parts@[k + 1])@ == spl_atom(self.spec_preds()[k]),
            decreases self.predicates@.len() - i,
        {
            parts.push(render_spl_atom(self.predicates[i].as_str()));
            i = i + 1;
        }
        proof {
            let sp = spl_parts(*self);
            assert(sp.len() == parts@.len());
            assert forall|k: int| 0 <= k < parts@.len() implies #[trigger] string_views(parts@)[k] == sp[k] by {
                if k > 0 {
                    assert(parts@[(k - 1) + 1]@ == spl_atom(self.spec_preds()[k - 1]));
                }
            }
            assert(string_views(parts@) =~= spl_parts(*self));
        }
        let inner = join(&parts, " ");
        assert(" "@ =~= seq![' ']);
        assert(inner@ == joined(spl_parts(*self), seq![' ']));
        let mut expr = String::from_str("(");
        expr.append(inner.as_str());
        expr.append(")");
        assert(expr@ =~= seq!['('] + joined(spl_parts(*self), seq![' ']) + seq![')']);
        if self.negation {
            let mut e = String::from_str("(not ");
            e.append(expr.as_str());
            e.append(")");
            expr = e;
        }
        proof {
            assert(expr@ =~= spl_negated(*self));
        }
        match &self.mode.name {
            Some(n) => {
                let tag = spl_mode_tag(n.as_str());
                if tag.unicode_len() > 0 {
                    let mut e = if self.mode.negation {
                        String::from_str("(not (")
                    } else {
                        String::from_str("(")
                    };
                    e.append(tag);
                    e.append(" ");
                    e.append(expr.as_str());
                    if self.mode.negation {
                        e.append("))");
                    } else {
                        e.append(")");
                    }
                    expr = e;
                }
            },
            None => {},
        }
        proof {
            assert(expr@ =~= spl_moded(*self));
        }
        match &self.temporal_expr {
            Some(texpr) => {
                let mut e = String::from_str("(during ");
                e.append(expr.as_str());
                e.append(" ");
                texpr.start.push_text(&mut e);
                e.append(" ");
                texpr.end.push_text(&mut e);
                e.append(")");
                expr = e;
            },
            None => {
                if !self.temporal.is_empty() {
                    let mut e = String::from_str("(during ");
                    e.append(expr.as_str());
                    e.append(" ");
                    self.temporal.start.push_text(&mut e);
                    e.append(" ");
                    self.temporal.end.push_text(&mut e);
                    e.append(")");
                    expr = e;
                }
            },
        }
        proof {
            assert(expr@ =~= spl_text(*self));
        }
        expr
    }
}

impl Clone for Literal {
    fn clone(&self) -> (r: Self)
        ensures
            r.spec_name() == self.spec_name(),
            r.negation == self.negation,
            r.mode == self.mode,
            r.temporal == self.temporal,
            r.temporal_expr == self.temporal_expr,
            r.spec_preds() == self.spec_preds(),
    {
        self.duplicate()
    }
}

impl PartialEq for Literal {
    fn eq(&self, other: &Self) -> (r: bool) {
        self.name.eq(&other.name) && self.negation == other.negation && self.mode.same(&other.mode)
            && strings_eq(&self.predicates, &other.predicates)
    }
}

impl PartialEqSpecImpl for Literal {
    open spec fn obeys_eq_spec() -> bool {
        true
    }

    open spec fn eq_spec(&self, other: &Self) -> bool {
        self.same_as(other)
    }
}

impl Eq for Literal {
}

impl Default for Literal {
    fn default() -> (r: Self)
        ensures
            r.spec_name() == Seq::<char>::empty(),
            !r.negation,
            r.mode@ == (None::<Seq<char>>, false),
            r.temporal == Temporal::spec_empty(),
            r.temporal_expr.is_none(),
            r.spec_preds() == Seq::<Seq<char>>::empty(),
    {
        proof {
            reveal_strlit("");
        }
        Literal::simple("")
    }
}

/// What `char::is_alphanumeric` says of a character: that it is alphabetic
/// or numeric in Unicode's sense.
pub uninterp spec fn char_alphanumeric(c: char) -> bool;

/// `char::is_alphanumeric`.
#[verifier::external_body]
fn is_alphanumeric(c: char) -> (r: bool)
    ensures
        r == char_alphanumeric(c),
{
    c.is_alphanumeric()
}

/// A character that may stand in an unquoted SPL atom.
pub open spec fn spl_atom_char(c: char) -> bool {
    char_alphanumeric(c) || c == '-' || c == '_' || c == '?' || c == '~' || c == ':' || c == '.'
        || c == '+'
}

/// Whether `c` may stand in an unquoted SPL atom.
pub fn is_spl_atom_char(c: char) -> (r: bool)
    ensures
        r == spl_atom_char(c),
{
    is_alphanumeric(c) || c == '-' || c == '_' || c == '?' || c == '~' || c == ':' || c == '.'
        || c == '+'
}

/// The escape of one character inside a quoted atom.
pub open spec fn spl_escape_char(c: char) -> Seq<char> {
    if c == '\\' {
        seq!['\\', '\\']
    } else if c == '"' {
        seq!['\\', '"']
    } else {
        seq![c]
    }
}

/// The escape of a text inside a quoted atom: backslashes and quotes get a
/// backslash before them.
pub open spec fn spl_escape(s: Seq<char>) -> Seq<char>
    decreases s.len(),
{
    if s.len() == 0 {
        Seq::empty()
    } else {
        spl_escape(s.drop_last()) + spl_escape_char(s.last())
    }
}

/// An SPL atom: the text itself when it is not empty and every character
/// may stand unquoted, else the text escaped inside double quotes.
pub open spec fn spl_atom(s: Seq<char>) -> Seq<char> {
    if s.len() > 0 && forall|i: int| 0 <= i < s.len() ==> #[trigger] spl_atom_char(s[i]) {
        s
    } else {
        seq!['"'] + spl_escape(s) + seq!['"']
    }
}

/// Render `atom` as an SPL atom.
pub fn render_spl_atom(atom: &str) -> (r: String)
    ensures
        r@ == spl_atom(atom@),
{
    let n = atom.unicode_len();
    let mut plain = n > 0;
    let mut i: usize = 0;
    while i < n
        invariant
            n == atom@.len(),
            0 <= i <= n,
            plain == (n > 0 && forall|k: int| 0 <= k < i ==> #[trigger] spl_atom_char(atom@[k])),
        decreases n - i,
    {
        let c = atom.get_char(i);
        if !is_spl_atom_char(c) {
            plain = false;
        }
        i = i + 1;
    }
    if plain {
        return atom.to_owned();
    }
    proof {
        reveal_strlit("\"");
        reveal_strlit("\\\\");
        reveal_strlit("\\\"");
    }
    let mut out = String::from_str("\"");
    let mut j: usize = 0;
    while j < n
        invariant
            n == atom@.len(),
            0 <= j <= n,
            out@ == seq!['"'] + spl_escape(atom@.take(j as int)),
        decreases n - j,
    {
        let c = atom.get_char(j);
        proof {
            reveal_strlit("\\\\");
            reveal_strlit("\\\"");
            assert(atom@.take(j + 1).drop_last() =~= atom@.take(j as int));
            assert(atom@.take(j + 1).last() == c);
            assert(spl_escape(atom@.take(j + 1)) == spl_escape(atom@.take(j as int)) + spl_escape_char(c));
        }
        if c == '\\' {
            out.append("\\\\");
            assert(spl_escape_char(c) == seq!['\\', '\\']);
        } else if c == '"' {
            out.append("\\\"");
            assert(spl_escape_char(c) == seq!['\\', '"']);
        } else {
            let piece = char_at(atom, j, n);
            out.append(piece);
            assert(spl_escape_char(c) == seq![c]);
        }
        proof {
            assert(out@ =~= seq!['"'] + spl_escape(atom@.take(j + 1)));
        }
        j = j + 1;
    }
    out.append("\"");
    proof {
        assert(atom@.take(n as int) =~= atom@);
    }
    out
}

/// The SPL atoms of a literal: its name, then its arguments.
pub open spec fn spl_parts(l: Literal) -> Seq<Seq<char>> {
    seq![spl_atom(l.spec_name())] + l.spec_preds().map_values(|p: Seq<char>| spl_atom(p))
}

/// The SPL form with negation applied.
pub open spec fn spl_negated(l: Literal) -> Seq<char> {
    let base = seq!['('] + joined(spl_parts(l), seq![' ']) + seq![')'];
    if l.negation {
        seq!['(', 'n', 'o', 't', ' '] + base + seq![')']
    } else {
        base
    }
}

/// The SPL tag of a mode name: `must`, `may`, `forbidden`, or the name.
pub open spec fn spl_tag(n: Seq<char>) -> Seq<char> {
    if n == seq!['O'] {
        seq!['m', 'u', 's', 't']
    } else if n == seq!['P'] {
        seq!['m', 'a', 'y']
    } else if n == seq!['F'] {
        seq!['f', 'o', 'r', 'b', 'i', 'd', 'd', 'e', 'n']
    } else {
        n
    }
}

/// Whether `s` is the one-character text `c`.
fn is_single(s: &str, c: char) -> (r: bool)
    ensures
        r == (s@ == seq![c]),
{
    if s.unicode_len() == 1 {
        let r = s.get_char(0) == c;
        proof {
            if r {
                assert(s@ =~= seq![c]);
            }
        }
        r
    } else {
        false
    }
}

/// The SPL tag of a mode name.
fn spl_mode_tag(n: &str) -> (r: &str)
    ensures
        r@ == spl_tag(n@),
{
    proof {
        reveal_strlit("must");
        reveal_strlit("may");
        reveal_strlit("forbidden");
    }
    if is_single(n, 'O') {
        "must"
    } else if is_single(n, 'P') {
        "may"
    } else if is_single(n, 'F') {
        "forbidden"
    } else {
        n
    }
}

/// The SPL form with negation and mode applied.
pub open spec fn spl_moded(l: Literal) -> Seq<char> {
    let e = spl_negated(l);
    match l.mode@.0 {
        Some(n) => if spl_tag(n).len() > 0 {
            if l.mode@.1 {
                seq!['(', 'n', 'o', 't', ' ', '('] + spl_tag(n) + seq![' '] + e + seq![')', ')']
            } else {
                seq!['('] + spl_tag(n) + seq![' '] + e + seq![')']
            }
        } else {
            e
        },
        None => e,
    }
}

/// The SPL s-expression of a literal: `(name args..)`, wrapped in `(not ..)`
/// when negated, in the mode's tag, and in `(during .. start end)` when it
/// has a temporal expression or bounds.
pub open spec fn spl_text(l: Literal) -> Seq<char> {
    let e = spl_moded(l);
    match l.temporal_expr {
        Some(x) => seq!['(', 'd', 'u', 'r', 'i', 'n', 'g', ' '] + e + seq![' '] + term_text(x.start)
            + seq![' '] + term_text(x.end) + seq![')'],
        None => if !l.temporal.spec_is_empty() {
            seq!['(', 'd', 'u', 'r', 'i', 'n', 'g', ' '] + e + seq![' '] + tp_text(l.temporal.start)
                + seq![' '] + tp_text(l.temporal.end) + seq![')']
        } else {
            e
        },
    }
}

/// A literal in a plain, serialisable shape.
#[derive(Debug)]
pub struct LiteralStruct {
    /// The modal operator.
    pub mode: Mode,
    /// Whether the literal is negated.
    pub negated: bool,
    /// The name.
    pub functor: String,
    /// The predicate arguments.
    pub args: Vec<String>,
    /// The temporal bounds.
    pub temporal: Temporal,
}

impl LiteralStruct {
    /// The plain shape of a literal.
    pub fn from_literal(l: &Literal) -> (r: Self)
        ensures
            r.mode == l.mode,
            r.negated == l.negation,
            r.functor@ == l.spec_name(),
            string_views(r.args@) == l.spec_preds(),
            r.temporal == l.temporal,
    {
        LiteralStruct {
            mode: l.mode.clone(),
            negated: l.negation,
            functor: l.literal_name(),
            args: l.predicates(),
            temporal: l.temporal,
        }
    }
}

} // verus!
