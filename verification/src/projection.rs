//! Identities and counters of temporal projection: exact literal numbers
//! (an atom slot and a negation flag in one word), support tokens, and the
//! diagnostic counters of a projection run.

use vstd::prelude::*;
use crate::literal::Literal;
use crate::mode::{Mode, opt_view};
use crate::rule::{Rule, RuleType};
use crate::text::{decimal, push_decimal, char_at, joined, string_views, join, signed_decimal, push_signed_decimal};
use crate::temporal::{Temporal, TimePoint};
use crate::error::SpindleError;
use crate::mining::{distinct_texts, text_lt, text_less, lemma_text_lt_irrefl, lemma_text_lt_total, lemma_text_lt_trans};
use std::collections::BTreeSet;
use smallvec::SmallVec;

verus! {

/// The word of the identity of slot `atom_index` with the negation flag.
pub open spec fn exact_raw(atom_index: u32, negated: bool) -> u32 {
    if negated {
        atom_index | 0x8000_0000u32
    } else {
        atom_index
    }
}

/// An exact literal identity: an atom slot in the low 31 bits, the
/// negation flag in the top bit.
#[derive(Debug, Clone, Copy, PartialEq, Eq, Structural, Hash)]
pub struct ExactLitId(pub u32);

impl ExactLitId {
    /// The atom slot.
    pub open spec fn spec_atom_index(self) -> u32 {
        self.0 & 0x7fff_ffffu32
    }

    /// The negation flag.
    pub open spec fn spec_is_negated(self) -> bool {
        self.0 & 0x8000_0000u32 != 0
    }

    /// The identity of slot `atom_index` with the negation flag.
    pub fn new(atom_index: u32, negated: bool) -> (r: Self)
        requires
            atom_index <= 0x7fff_ffffu32,
        ensures
            r.spec_atom_index() == atom_index,
            r.spec_is_negated() == negated,
            r.0 == exact_raw(atom_index, negated),
    {
        let raw = if negated { atom_index | 0x8000_0000u32 } else { atom_index };
        proof {
            assert(atom_index <= 0x7fff_ffffu32 ==> (atom_index | 0x8000_0000u32) & 0x7fff_ffffu32 == atom_index) by (bit_vector);
            assert((atom_index | 0x8000_0000u32) & 0x8000_0000u32 != 0) by (bit_vector);
            assert(atom_index <= 0x7fff_ffffu32 ==> atom_index & 0x7fff_ffffu32 == atom_index) by (bit_vector);
            assert(atom_index <= 0x7fff_ffffu32 ==> atom_index & 0x8000_0000u32 == 0) by (bit_vector);
        }
        ExactLitId(raw)
    }

    /// The atom slot.
    pub fn atom_index(self) -> (r: u32)
        ensures
            r == self.spec_atom_index(),
    {
        self.0 & 0x7fff_ffffu32
    }

    /// Whether the negation flag is set.
    pub fn is_negated(self) -> (r: bool)
        ensures
            r == self.spec_is_negated(),
    {
        (self.0 & 0x8000_0000u32) != 0
    }

    /// The raw word.
    pub fn as_raw(self) -> (r: u32)
        ensures
            r == self.0,
    {
        self.0
    }

    /// The display text: `exact` then `~` when negated, then the slot.
    pub fn to_text(&self) -> (r: String)
        ensures
            r@ == (if self.spec_is_negated() {
                "exact~"@
            } else {
                "exact"@
            }) + decimal(self.spec_atom_index() as nat),
    {
        let mut r = if self.is_negated() { String::from_str("exact~") } else { String::from_str("exact") };
        push_decimal(&mut r, self.atom_index() as u64);
        r
    }
}

/// A token: a rule supported an exact literal.
#[derive(Debug, Clone)]
pub struct ExactSupport {
    /// The literal supported.
    pub exact_lit: ExactLitId,
    /// The label of the rule.
    pub rule_label: String,
    /// The kind of the rule.
    pub rule_type: RuleType,
}

/// The counters of a projection run, and the labels of the rules that
/// contributed projected evidence.
#[derive(Debug, Clone, Default, PartialEq, Eq)]
pub struct ProjectionDiagnostics {
    /// Exact support tokens emitted.
    pub exact_supports: usize,
    /// Family support tokens emitted.
    pub family_supports: usize,
    /// Family attack tokens emitted.
    pub family_attacks: usize,
    /// The contributing rule labels, in increasing order.
    pub contributing_labels: std::collections::BTreeSet<String>,
}

impl ProjectionDiagnostics {
    /// The number of tokens emitted.
    pub fn total_tokens(&self) -> (r: usize)
        requires
            self.exact_supports + self.family_supports + self.family_attacks <= usize::MAX,
        ensures
            r == self.exact_supports + self.family_supports + self.family_attacks,
    {
        self.exact_supports + self.family_supports + self.family_attacks
    }
}

/// The tokens of a projection run as sorted text tuples: exact supports as
/// (rule label, exact key), family supports and attacks as (rule label,
/// family key, source exact key).
#[derive(Debug, Clone, Default, PartialEq, Eq)]
pub struct ProjectionSnapshot {
    /// The exact support entries.
    pub exact: Vec<(String, String)>,
    /// The family support entries.
    pub family: Vec<(String, String, String)>,
    /// The family attack entries.
    pub attack: Vec<(String, String, String)>,
}


/// A structural character of canonical keys: `\ ( ) , [ ] : #`.
pub open spec fn key_special(c: char) -> bool {
    c == '\\' || c == '(' || c == ')' || c == ',' || c == '[' || c == ']' || c == ':' || c == '#'
}

/// One character of a key field: escaped by `\` when structural.
pub open spec fn key_char(c: char) -> Seq<char> {
    if key_special(c) {
        seq!['\\', c]
    } else {
        seq![c]
    }
}

/// A key field: every structural character escaped by `\`.
pub open spec fn key_escaped(s: Seq<char>) -> Seq<char>
    decreases s.len(),
{
    if s.len() == 0 {
        Seq::empty()
    } else {
        key_escaped(s.drop_last()) + key_char(s.last())
    }
}

/// A key field starts with the escape of its first character.
proof fn lemma_key_escaped_front(s: Seq<char>)
    requires
        s.len() > 0,
    ensures
        key_escaped(s) == key_char(s[0]) + key_escaped(s.drop_first()),
    decreases s.len(),
{
    if s.len() > 1 {
        lemma_key_escaped_front(s.drop_last());
        assert(s.drop_last().drop_first() =~= s.drop_first().drop_last());
        assert(s.drop_first().last() == s.last());
    } else {
        assert(s.drop_last() =~= Seq::<char>::empty());
        assert(s.drop_first() =~= Seq::<char>::empty());
    }
}

/// A delimiter that follows a key field: `:`, `(`, `,` or `)`.
pub open spec fn key_delim(c: char) -> bool {
    c == ':' || c == '(' || c == ',' || c == ')'
}

/// A key field followed by a delimiter determines the field: escaped
/// fields can be read back from the front.
proof fn lemma_key_field_unique(x: Seq<char>, y: Seq<char>, tx: Seq<char>, ty: Seq<char>)
    requires
        key_escaped(x) + tx == key_escaped(y) + ty,
        tx.len() > 0 && key_delim(tx[0]),
        ty.len() > 0 && key_delim(ty[0]),
    ensures
        x == y,
        tx == ty,
    decreases x.len() + y.len(),
{
    let lhs = key_escaped(x) + tx;
    if x.len() == 0 && y.len() == 0 {
        assert(key_escaped(x) =~= Seq::<char>::empty());
        assert(key_escaped(y) =~= Seq::<char>::empty());
        assert(tx =~= lhs);
        assert(ty =~= lhs);
        assert(x =~= y);
    } else if x.len() == 0 {
        lemma_key_escaped_front(y);
        assert(key_escaped(x) =~= Seq::<char>::empty());
        assert(lhs[0] == tx[0]);
        assert(lhs[0] == key_char(y[0])[0]);
    } else if y.len() == 0 {
        lemma_key_escaped_front(x);
        assert(key_escaped(y) =~= Seq::<char>::empty());
        assert(lhs[0] == ty[0]);
        assert(lhs[0] == key_char(x[0])[0]);
    } else {
        lemma_key_escaped_front(x);
        lemma_key_escaped_front(y);
        let ex = key_char(x[0]);
        let ey = key_char(y[0]);
        assert(lhs[0] == ex[0]);
        assert(lhs[0] == ey[0]);
        assert(ex.len() == ey.len() && x[0] == y[0]) by {
            if key_special(x[0]) {
                assert(lhs[1] == x[0]);
                if key_special(y[0]) {
                    assert(lhs[1] == y[0]);
                }
            } else if key_special(y[0]) {
                assert(lhs[1] == y[0]);
            }
        }
        let k = ex.len() as int;
        assert(lhs.subrange(k, lhs.len() as int) =~= key_escaped(x.drop_first()) + tx);
        assert(lhs.subrange(k, lhs.len() as int) =~= key_escaped(y.drop_first()) + ty);
        lemma_key_field_unique(x.drop_first(), y.drop_first(), tx, ty);
        assert(x =~= seq![x[0]] + x.drop_first());
        assert(y =~= seq![y[0]] + y.drop_first());
    }
}

/// The argument part of a key: the escaped arguments separated by `,`.
pub open spec fn args_key(xs: Seq<Seq<char>>) -> Seq<char>
    decreases xs.len(),
{
    if xs.len() == 0 {
        Seq::empty()
    } else if xs.len() == 1 {
        key_escaped(xs[0])
    } else {
        key_escaped(xs[0]) + seq![','] + args_key(xs.drop_first())
    }
}

/// One more argument at the end of the argument part.
proof fn lemma_args_key_push(xs: Seq<Seq<char>>, x: Seq<char>)
    ensures
        args_key(xs.push(x)) == (if xs.len() == 0 {
            key_escaped(x)
        } else {
            args_key(xs) + seq![','] + key_escaped(x)
        }),
    decreases xs.len(),
{
    if xs.len() >= 1 {
        lemma_args_key_push(xs.drop_first(), x);
        assert(xs.push(x).drop_first() =~= xs.drop_first().push(x));
        if xs.len() == 1 {
            assert(xs.drop_first() =~= Seq::<Seq<char>>::empty());
        }
    }
}

/// The argument part followed by `)` determines the arguments, except that
/// no arguments and one empty argument read the same.
proof fn lemma_args_key_unique(xs: Seq<Seq<char>>, ys: Seq<Seq<char>>)
    requires
        args_key(xs) + seq![')'] == args_key(ys) + seq![')'],
        !(xs.len() == 0 && ys == seq![Seq::<char>::empty()]),
        !(ys.len() == 0 && xs == seq![Seq::<char>::empty()]),
    ensures
        xs == ys,
    decreases xs.len(),
{
    let lhs = args_key(xs) + seq![')'];
    if xs.len() == 0 || ys.len() == 0 {
        if xs.len() == 0 && ys.len() == 0 {
            assert(xs =~= ys);
        } else if xs.len() == 0 {
            assert(lhs.len() == 1);
            if ys.len() == 1 {
                assert(key_escaped(ys[0]).len() == 0);
                if ys[0].len() > 0 {
                    lemma_key_escaped_front(ys[0]);
                }
                assert(ys[0] =~= Seq::<char>::empty());
                assert(ys =~= seq![Seq::<char>::empty()]);
            }
        } else {
            assert(lhs.len() == args_key(xs).len() + 1);
            if xs.len() == 1 {
                assert(key_escaped(xs[0]).len() == 0);
                if xs[0].len() > 0 {
                    lemma_key_escaped_front(xs[0]);
                }
                assert(xs[0] =~= Seq::<char>::empty());
                assert(xs =~= seq![Seq::<char>::empty()]);
            }
        }
    } else {
        let tx = if xs.len() == 1 {
            seq![')']
        } else {
            seq![','] + args_key(xs.drop_first()) + seq![')']
        };
        let ty = if ys.len() == 1 {
            seq![')']
        } else {
            seq![','] + args_key(ys.drop_first()) + seq![')']
        };
        assert(lhs =~= key_escaped(xs[0]) + tx);
        assert(args_key(ys) + seq![')'] =~= key_escaped(ys[0]) + ty);
        lemma_key_field_unique(xs[0], ys[0], tx, ty);
        if xs.len() == 1 && ys.len() == 1 {
            assert(xs =~= ys);
        } else if xs.len() > 1 && ys.len() > 1 {
            assert(tx.subrange(1, tx.len() as int) =~= args_key(xs.drop_first()) + seq![')']);
            assert(ty.subrange(1, ty.len() as int) =~= args_key(ys.drop_first()) + seq![')']);
            lemma_args_key_unique(xs.drop_first(), ys.drop_first());
            assert(xs =~= seq![xs[0]] + xs.drop_first());
            assert(ys =~= seq![ys[0]] + ys.drop_first());
        } else {
            assert(tx[0] != ty[0]);
        }
    }
}

/// A family's arguments, held in a `SmallVec` of the `smallvec` crate with
/// room for two inline.
#[verifier::external_body]
#[derive(Debug, PartialEq, Eq, Hash)]
pub struct SmallArgs {
    items: SmallVec<[String; 2]>,
}

/// The strings the `SmallVec` holds, in order, by their characters.
pub uninterp spec fn small_strings(v: SmallArgs) -> Seq<Seq<char>>;

/// `SmallVec::from_vec`: the vector's items become the `SmallVec`'s items,
/// in the same order.
#[verifier::external_body]
fn small_from_vec(v: Vec<String>) -> (r: SmallArgs)
    ensures
        small_strings(r) == string_views(v@),
{
    SmallArgs { items: SmallVec::from_vec(v) }
}

/// `SmallVec::as_slice`: a slice of all the `SmallVec`'s items, in order.
#[verifier::external_body]
fn small_as_slice(v: &SmallArgs) -> (r: &[String])
    ensures
        string_views(r@) == small_strings(*v),
{
    v.items.as_slice()
}

/// Copy a slice of strings into a vector, entry by entry.
fn strings_from_slice(s: &[String]) -> (r: Vec<String>)
    ensures
        r@ == s@,
{
    let mut out: Vec<String> = Vec::new();
    let mut i: usize = 0;
    while i < s.len()
        invariant
            0 <= i <= s@.len(),
            out@ == s@.take(i as int),
        decreases s@.len() - i,
    {
        out.push(s[i].clone());
        proof {
            assert(s@.take(i + 1) =~= s@.take(i as int).push(s@[i as int]));
        }
        i = i + 1;
    }
    proof {
        assert(s@.take(s@.len() as int) =~= s@);
    }
    out
}

/// The identity of a literal's family: functor, arguments, mode and sign,
/// without temporal bounds.
#[derive(Debug, PartialEq, Eq, Hash)]
pub struct FamilyId {
    functor: String,
    args: SmallArgs,
    mode: Mode,
    negated: bool,
}

/// What a family identity is: functor, arguments, mode and sign.
pub open spec fn family_view(f: FamilyId) -> (Seq<char>, Seq<Seq<char>>, (Option<Seq<char>>, bool), bool) {
    (f.spec_functor(), f.spec_args(), f.spec_mode()@, f.spec_negated())
}

/// The polarity character: `-` when set, `+` otherwise.
pub open spec fn sign_char(b: bool) -> char {
    if b {
        '-'
    } else {
        '+'
    }
}

/// The canonical key of a family: literal sign, mode sign, `!` and the
/// escaped mode name or `.` for none, `:`, the escaped functor, and the
/// escaped arguments in parentheses separated by `,`.
pub open spec fn family_key(functor: Seq<char>, args: Seq<Seq<char>>, mode: (Option<Seq<char>>, bool), negated: bool) -> Seq<char> {
    seq![sign_char(negated), sign_char(mode.1)] + name_part(mode.0) + key_tail(functor, args)
}

/// The display text of a family: mode, `~` when negated, functor, and the
/// arguments in parentheses separated by `, ` when there are any.
pub open spec fn family_text(f: FamilyId) -> Seq<char> {
    f.spec_mode().spec_text() + (if f.spec_negated() {
        seq!['~']
    } else {
        Seq::empty()
    }) + f.spec_functor() + (if f.spec_args().len() > 0 {
        seq!['('] + joined(f.spec_args(), seq![',', ' ']) + seq![')']
    } else {
        Seq::empty()
    })
}

/// Append `s` with its structural characters escaped.
fn push_key_escaped(out: &mut String, s: &str)
    ensures
        final(out)@ == old(out)@ + key_escaped(s@),
{
    let n = s.unicode_len();
    let mut j: usize = 0;
    proof {
        assert(s@.take(0) =~= Seq::<char>::empty());
        assert(old(out)@ + key_escaped(s@.take(0)) =~= old(out)@);
    }
    while j < n
        invariant
            n == s@.len(),
            0 <= j <= n,
            out@ == old(out)@ + key_escaped(s@.take(j as int)),
        decreases n - j,
    {
        let c = s.get_char(j);
        proof {
            reveal_strlit("\\");
            assert(s@.take(j + 1).drop_last() =~= s@.take(j as int));
            assert(s@.take(j + 1).last() == c);
        }
        if c == '\\' || c == '(' || c == ')' || c == ',' || c == '[' || c == ']' || c == ':' || c == '#' {
            out.append("\\");
        }
        let piece = char_at(s, j, n);
        out.append(piece);
        proof {
            assert(out@ =~= old(out)@ + key_escaped(s@.take(j + 1)));
        }
        j = j + 1;
    }
    proof {
        assert(s@.take(n as int) =~= s@);
    }
}

impl FamilyId {
    /// The functor's characters.
    pub closed spec fn spec_functor(&self) -> Seq<char> {
        self.functor@
    }

    /// The arguments' characters.
    pub closed spec fn spec_args(&self) -> Seq<Seq<char>> {
        small_strings(self.args)
    }

    /// The mode.
    pub closed spec fn spec_mode(&self) -> Mode {
        self.mode
    }

    /// The sign.
    pub closed spec fn spec_negated(&self) -> bool {
        self.negated
    }

    /// A family from its parts.
    pub fn new(functor: &str, args: Vec<String>, mode: Mode, negated: bool) -> (r: Self)
        ensures
            r.spec_functor() == functor@,
            r.spec_args() == string_views(args@),
            r.spec_mode() == mode,
            r.spec_negated() == negated,
    {
        FamilyId { functor: String::from_str(functor), args: small_from_vec(args), mode, negated }
    }

    /// The family of a literal: its name, arguments, mode and sign.
    pub fn from_literal(lit: &Literal) -> (r: Self)
        ensures
            r.spec_functor() == lit.spec_name(),
            r.spec_args() == lit.spec_preds(),
            r.spec_mode() == lit.mode,
            r.spec_negated() == lit.negation,
    {
        let args = crate::literal::clone_strings(&lit.predicates);
        proof {
            assert(string_views(args@) =~= lit.spec_preds());
        }
        FamilyId { functor: lit.name.clone(), args: small_from_vec(args), mode: lit.mode.clone(), negated: lit.negation }
    }

    /// The functor.
    pub fn functor(&self) -> (r: &str)
        ensures
            r@ == self.spec_functor(),
    {
        self.functor.as_str()
    }

    /// The arguments.
    pub fn args(&self) -> (r: &[String])
        ensures
            string_views(r@) == self.spec_args(),
    {
        small_as_slice(&self.args)
    }

    /// The mode.
    pub fn mode(&self) -> (r: &Mode)
        ensures
            *r == self.spec_mode(),
    {
        &self.mode
    }

    /// Whether the family is negated.
    pub fn negated(&self) -> (r: bool)
        ensures
            r == self.spec_negated(),
    {
        self.negated
    }

    /// A copy of the family.
    pub fn duplicate(&self) -> (r: Self)
        ensures
            family_view(r) == family_view(*self),
            r.spec_mode() == self.spec_mode(),
    {
        FamilyId {
            functor: self.functor.clone(),
            args: small_from_vec(strings_from_slice(small_as_slice(&self.args))),
            mode: self.mode.clone(),
            negated: self.negated,
        }
    }

    /// The complementary family: the sign flipped.
    pub fn complement(&self) -> (r: Self)
        ensures
            r.spec_functor() == self.spec_functor(),
            r.spec_args() == self.spec_args(),
            r.spec_mode() == self.spec_mode(),
            r.spec_negated() == !self.spec_negated(),
    {
        let mut r = self.duplicate();
        r.negated = !self.negated;
        r
    }

    /// The canonical key: constant on equal families and different for
    /// different ones (see [`law_family_key_injective`]).
    pub fn canonical_key(&self) -> (r: String)
        ensures
            r@ == family_key(self.spec_functor(), self.spec_args(), self.spec_mode()@, self.spec_negated()),
    {
        let mut out = String::new();
        self.push_canonical_key(&mut out);
        proof {
            assert(out@ =~= family_key(self.spec_functor(), self.spec_args(), self.spec_mode()@, self.spec_negated()));
        }
        out
    }

    /// Append the canonical key.
    pub(crate) fn push_canonical_key(&self, out: &mut String)
        ensures
            final(out)@ == old(out)@ + family_key(self.spec_functor(), self.spec_args(), self.spec_mode()@, self.spec_negated()),
    {
        proof {
            reveal_strlit("-");
            reveal_strlit("+");
            reveal_strlit("!");
            reveal_strlit(".");
            reveal_strlit(":");
            reveal_strlit("(");
            reveal_strlit(",");
            reveal_strlit(")");
        }
        let ghost start = out@;
        out.append(if self.negated { "-" } else { "+" });
        out.append(if self.mode.negation { "-" } else { "+" });
        match &self.mode.name {
            Some(name) => {
                out.append("!");
                push_key_escaped(out, name.as_str());
            },
            None => {
                out.append(".");
            },
        }
        out.append(":");
        push_key_escaped(out, self.functor.as_str());
        out.append("(");
        let ghost head = out@;
        let args = small_as_slice(&self.args);
        let ghost xs = string_views(args@);
        proof {
            assert(xs.take(0) =~= Seq::<Seq<char>>::empty());
            assert(head + args_key(xs.take(0)) =~= head);
        }
        let mut i: usize = 0;
        while i < args.len()
            invariant
                0 <= i <= args@.len(),
                xs == string_views(args@),
                out@ == head + args_key(xs.take(i as int)),
            decreases args@.len() - i,
        {
            proof {
                reveal_strlit(",");
                assert(xs[i as int] == args@[i as int]@);
                assert(xs.take(i + 1) =~= xs.take(i as int).push(xs[i as int]));
                lemma_args_key_push(xs.take(i as int), xs[i as int]);
            }
            if i > 0 {
                out.append(",");
            }
            push_key_escaped(out, args[i].as_str());
            proof {
                assert(out@ =~= head + args_key(xs.take(i + 1)));
            }
            i = i + 1;
        }
        out.append(")");
        proof {
            assert(xs.take(i as int) =~= xs);
            assert(out@ =~= start + family_key(self.spec_functor(), self.spec_args(), self.spec_mode()@, self.spec_negated()));
        }
    }
}

/// The mode part of a key: `!` and the escaped name, or `.` for none.
pub open spec fn name_part(name: Option<Seq<char>>) -> Seq<char> {
    match name {
        Some(n) => seq!['!'] + key_escaped(n),
        None => seq!['.'],
    }
}

/// The part of a key after the mode: `:`, the escaped functor, and the
/// arguments in parentheses.
pub open spec fn key_tail(functor: Seq<char>, args: Seq<Seq<char>>) -> Seq<char> {
    seq![':'] + key_escaped(functor) + seq!['('] + args_key(args) + seq![')']
}

/// The mode part followed by the tail determines the mode name.
proof fn lemma_name_part_unique(ma: Option<Seq<char>>, mb: Option<Seq<char>>, ta: Seq<char>, tb: Seq<char>)
    requires
        name_part(ma) + ta == name_part(mb) + tb,
        ta.len() > 0 && ta[0] == ':',
        tb.len() > 0 && tb[0] == ':',
    ensures
        ma == mb,
        ta == tb,
{
    let l = name_part(ma) + ta;
    match (ma, mb) {
        (Some(na), Some(nb)) => {
            assert(l.subrange(1, l.len() as int) =~= key_escaped(na) + ta);
            assert((name_part(mb) + tb).subrange(1, l.len() as int) =~= key_escaped(nb) + tb);
            lemma_key_field_unique(na, nb, ta, tb);
        },
        (None, None) => {
            assert(l.subrange(1, l.len() as int) =~= ta);
            assert((name_part(mb) + tb).subrange(1, l.len() as int) =~= tb);
        },
        (Some(na), None) => {
            assert(l[0] == '!');
            assert((name_part(mb) + tb)[0] == '.');
        },
        (None, Some(nb)) => {
            assert(l[0] == '.');
            assert((name_part(mb) + tb)[0] == '!');
        },
    }
}

/// The tail determines the functor and the arguments, but for the one
/// ambiguity of arguments.
proof fn lemma_key_tail_unique(fa: Seq<char>, xa: Seq<Seq<char>>, fb: Seq<char>, xb: Seq<Seq<char>>)
    requires
        key_tail(fa, xa) == key_tail(fb, xb),
        !(xa.len() == 0 && xb == seq![Seq::<char>::empty()]),
        !(xb.len() == 0 && xa == seq![Seq::<char>::empty()]),
    ensures
        fa == fb,
        xa == xb,
{
    let ta = key_tail(fa, xa);
    let pa = seq!['('] + args_key(xa) + seq![')'];
    let pb = seq!['('] + args_key(xb) + seq![')'];
    assert(ta.subrange(1, ta.len() as int) =~= key_escaped(fa) + pa);
    assert(key_tail(fb, xb).subrange(1, ta.len() as int) =~= key_escaped(fb) + pb);
    lemma_key_field_unique(fa, fb, pa, pb);
    assert(pa.subrange(1, pa.len() as int) =~= args_key(xa) + seq![')']);
    assert(pb.subrange(1, pb.len() as int) =~= args_key(xb) + seq![')']);
    lemma_args_key_unique(xa, xb);
}

/// Canonical keys are injective: two families with the same key are the
/// same family, except that no arguments and one empty argument give the
/// same key.
pub proof fn law_family_key_injective(a: FamilyId, b: FamilyId)
    requires
        family_key(a.spec_functor(), a.spec_args(), a.spec_mode()@, a.spec_negated()) == family_key(
            b.spec_functor(),
            b.spec_args(),
            b.spec_mode()@,
            b.spec_negated(),
        ),
        !(a.spec_args().len() == 0 && b.spec_args() == seq![Seq::<char>::empty()]),
        !(b.spec_args().len() == 0 && a.spec_args() == seq![Seq::<char>::empty()]),
    ensures
        family_view(a) == family_view(b),
{
    let ka = family_key(a.spec_functor(), a.spec_args(), a.spec_mode()@, a.spec_negated());
    let kb = family_key(b.spec_functor(), b.spec_args(), b.spec_mode()@, b.spec_negated());
    let ta = key_tail(a.spec_functor(), a.spec_args());
    let tb = key_tail(b.spec_functor(), b.spec_args());
    let na = name_part(a.spec_mode()@.0);
    let nb = name_part(b.spec_mode()@.0);
    assert(ka[0] == sign_char(a.spec_negated()) && ka[1] == sign_char(a.spec_mode()@.1));
    assert(kb[0] == sign_char(b.spec_negated()) && kb[1] == sign_char(b.spec_mode()@.1));
    assert(ka.subrange(2, ka.len() as int) =~= na + ta);
    assert(kb.subrange(2, kb.len() as int) =~= nb + tb);
    lemma_name_part_unique(a.spec_mode()@.0, b.spec_mode()@.0, ta, tb);
    lemma_key_tail_unique(a.spec_functor(), a.spec_args(), b.spec_functor(), b.spec_args());
    assert(a.spec_mode()@ == b.spec_mode()@);
}


impl FamilyId {
    /// The display text (see [`family_text`]); not injective, see
    /// [`FamilyId::canonical_key`].
    pub fn to_text(&self) -> (r: String)
        ensures
            r@ == family_text(*self),
    {
        proof {
            reveal_strlit("~");
            reveal_strlit("(");
            reveal_strlit(")");
            reveal_strlit(", ");
        }
        let mut out = self.mode.to_text();
        if self.negated {
            out.append("~");
        }
        out.append(self.functor.as_str());
        let ghost pre = out@;
        proof {
            assert(pre =~= self.mode.spec_text() + (if self.negated {
                seq!['~']
            } else {
                Seq::empty()
            }) + self.functor@);
        }
        let args = strings_from_slice(small_as_slice(&self.args));
        if args.len() > 0 {
            out.append("(");
            let joined_args = join(&args, ", ");
            out.append(joined_args.as_str());
            out.append(")");
            proof {
                reveal_strlit("(");
                reveal_strlit(")");
                reveal_strlit(", ");
                assert(", "@ =~= seq![',', ' ']);
                assert("("@ =~= seq!['(']);
                assert(")"@ =~= seq![')']);
                assert(joined_args@ == joined(string_views(args@), seq![',', ' ']));
                assert(out@ =~= pre + (seq!['('] + joined(string_views(args@), seq![',', ' ']) + seq![')']));
            }
        } else {
            proof {
                assert(out@ =~= pre + Seq::<char>::empty());
            }
        }
        out
    }
}

impl Literal {
    /// The literal's family (see [`FamilyId::from_literal`]).
    pub fn family_id(&self) -> (r: FamilyId)
        ensures
            r.spec_functor() == self.spec_name(),
            r.spec_args() == self.spec_preds(),
            r.spec_mode() == self.mode,
            r.spec_negated() == self.negation,
    {
        FamilyId::from_literal(self)
    }
}

/// The key of a time point: `-inf`, `+inf`, or `m` and the moment.
pub open spec fn tp_key(t: TimePoint) -> Seq<char> {
    match t {
        TimePoint::NegInf => seq!['-', 'i', 'n', 'f'],
        TimePoint::PosInf => seq!['+', 'i', 'n', 'f'],
        TimePoint::Moment(v) => seq!['m'] + signed_decimal(v as int),
    }
}

/// Append the key of a time point.
fn push_canonical_timepoint(out: &mut String, t: TimePoint)
    ensures
        final(out)@ == old(out)@ + tp_key(t),
{
    proof {
        reveal_strlit("-inf");
        reveal_strlit("+inf");
        reveal_strlit("m");
    }
    match t {
        TimePoint::NegInf => out.append("-inf"),
        TimePoint::PosInf => out.append("+inf"),
        TimePoint::Moment(v) => {
            out.append("m");
            push_signed_decimal(out, v);
        },
    }
    proof {
        assert(final(out)@ =~= old(out)@ + tp_key(t));
    }
}

/// The key of an exact atom: the key of the literal's positive family,
/// then its bounds as `[start,end]`.
pub open spec fn atom_key(lit: Literal) -> Seq<char> {
    family_key(lit.spec_name(), lit.spec_preds(), lit.mode@, false) + seq!['['] + tp_key(lit.temporal.start) + seq![','] + tp_key(
        lit.temporal.end,
    ) + seq![']']
}

/// The key of an exact literal: its atom's key with the literal's sign.
pub open spec fn exact_key(atom: Seq<char>, negated: bool) -> Seq<char> {
    if negated && atom.len() > 0 {
        seq!['-'] + atom.drop_first()
    } else {
        atom
    }
}

/// The atom key of a literal.
fn atom_key_exec(lit: &Literal) -> (r: String)
    ensures
        r@ == atom_key(*lit),
{
    let fam = FamilyId::new(lit.name.as_str(), crate::literal::clone_strings(&lit.predicates), lit.mode.clone(), false);
    proof {
        assert(fam.spec_args() =~= lit.spec_preds());
        reveal_strlit("[");
        reveal_strlit(",");
        reveal_strlit("]");
    }
    let mut out = fam.canonical_key();
    out.append("[");
    push_canonical_timepoint(&mut out, lit.temporal.start);
    out.append(",");
    push_canonical_timepoint(&mut out, lit.temporal.end);
    out.append("]");
    proof {
        assert(out@ =~= atom_key(*lit));
    }
    out
}

/// The key list after interning `k`: unchanged when present, else with
/// `k` at the end.
pub open spec fn intern_key(keys: Seq<Seq<char>>, k: Seq<char>) -> Seq<Seq<char>> {
    if keys.contains(k) {
        keys
    } else {
        keys.push(k)
    }
}

/// The slot that `k` has once interned in `keys`.
pub open spec fn slot_of(keys: Seq<Seq<char>>, k: Seq<char>) -> int {
    choose|i: int| 0 <= i < intern_key(keys, k).len() && intern_key(keys, k)[i] == k
}

/// The number of exact atoms that fit the 31-bit slot space.
pub open spec fn atom_capacity() -> nat {
    0x8000_0000
}

/// A projection-local table of exact atoms (a literal without its sign,
/// bounds included), each with a slot.
#[derive(Debug)]
pub struct ExactIndex {
    atoms: Vec<String>,
}

impl ExactIndex {
    /// The atom keys, by slot.
    pub closed spec fn keys(&self) -> Seq<Seq<char>> {
        string_views(self.atoms@)
    }

    /// The keys are distinct and fit the slot space.
    pub open spec fn wf(&self) -> bool {
        distinct_texts(self.keys()) && self.keys().len() <= atom_capacity()
    }

    /// The literal can be given an identity: its atom is known or a slot
    /// is free.
    pub open spec fn can_intern(&self, lit: Literal) -> bool {
        self.keys().contains(atom_key(lit)) || self.keys().len() < atom_capacity()
    }

    /// An empty table.
    pub fn new() -> (r: Self)
        ensures
            r.wf(),
            r.keys().len() == 0,
    {
        let r = ExactIndex { atoms: Vec::new() };
        proof {
            assert(r.keys() =~= Seq::<Seq<char>>::empty());
        }
        r
    }

    /// The number of atoms.
    pub fn len(&self) -> (r: usize)
        ensures
            r == self.keys().len(),
    {
        self.atoms.len()
    }

    /// The slot of a key, when present.
    fn find(&self, k: &str) -> (r: Option<usize>)
        ensures
            r matches Some(i) ==> i < self.keys().len() && self.keys()[i as int] == k@,
            r is None ==> !self.keys().contains(k@),
    {
        let mut i: usize = 0;
        while i < self.atoms.len()
            invariant
                0 <= i <= self.atoms@.len(),
                forall|j: int| 0 <= j < i ==> (#[trigger] self.atoms@[j])@ != k@,
            decreases self.atoms@.len() - i,
        {
            if crate::text::str_eq(self.atoms[i].as_str(), k) {
                return Some(i);
            }
            i = i + 1;
        }
        proof {
            if self.keys().contains(k@) {
                let j = choose|j: int| 0 <= j < self.keys().len() && self.keys()[j] == k@;
                assert(self.atoms@[j]@ == k@);
            }
        }
        None
    }

    /// The identity of a literal: the slot of its atom (interned when new)
    /// and its sign; an error when the atom is new and no slot is free.
    pub fn try_exact_lit_id(&mut self, lit: &Literal) -> (r: Result<ExactLitId, SpindleError>)
        requires
            old(self).wf(),
        ensures
            final(self).wf(),
            r is Ok <==> old(self).can_intern(*lit),
            r matches Ok(id) ==> final(self).keys() == intern_key(old(self).keys(), atom_key(*lit)) && id.0 == exact_raw(
                slot_of(old(self).keys(), atom_key(*lit)) as u32,
                lit.negation,
            ) && slot_of(old(self).keys(), atom_key(*lit)) < atom_capacity(),
            r is Err ==> final(self).keys() == old(self).keys(),
    {
        let k = atom_key_exec(lit);
        let ghost ks = self.keys();
        match self.find(k.as_str()) {
            Some(i) => {
                proof {
                    assert(intern_key(ks, k@) == ks);
                    lemma_slot_unique(ks, k@, i as int);
                }
                Ok(ExactLitId::new(i as u32, lit.negation))
            },
            None => {
                if self.atoms.len() >= 0x8000_0000usize {
                    return Err(SpindleError::Validation { message: String::from_str("exact literal capacity exceeded") });
                }
                let i = self.atoms.len();
                self.atoms.push(k);
                proof {
                    assert(self.keys() =~= ks.push(k@));
                    assert(intern_key(ks, k@) == ks.push(k@));
                    assert forall|a: int, b: int| 0 <= a < self.keys().len() && 0 <= b < self.keys().len() && a != b implies #[trigger] self.keys()[a]
                        != #[trigger] self.keys()[b] by {
                        if a < ks.len() && b < ks.len() {
                            assert(ks[a] != ks[b]);
                        } else if a < ks.len() {
                            assert(ks.contains(ks[a]));
                        } else {
                            assert(ks.contains(ks[b]));
                        }
                    }
                    lemma_slot_unique(ks, k@, i as int);
                }
                Ok(ExactLitId::new(i as u32, lit.negation))
            },
        }
    }

    /// The identity of a literal (see [`ExactIndex::try_exact_lit_id`]),
    /// which must fit.
    pub fn exact_lit_id(&mut self, lit: &Literal) -> (r: ExactLitId)
        requires
            old(self).wf(),
            old(self).can_intern(*lit),
        ensures
            final(self).wf(),
            final(self).keys() == intern_key(old(self).keys(), atom_key(*lit)),
            r.0 == exact_raw(slot_of(old(self).keys(), atom_key(*lit)) as u32, lit.negation),
    {
        match self.try_exact_lit_id(lit) {
            Ok(id) => id,
            Err(_) => ExactLitId::new(0, false),
        }
    }

    /// The canonical key of an identity: its atom's key with its sign, or
    /// none for an unknown slot.
    pub fn exact_lit_key(&self, id: ExactLitId) -> (r: Option<String>)
        ensures
            (id.spec_atom_index() as int) < self.keys().len() ==> (r matches Some(k) && k@ == exact_key(
                self.keys()[id.spec_atom_index() as int],
                id.spec_is_negated(),
            )),
            (id.spec_atom_index() as int) >= self.keys().len() ==> r is None,
    {
        let i = id.atom_index() as usize;
        if i >= self.atoms.len() {
            return None;
        }
        let atom = self.atoms[i].as_str();
        if id.is_negated() && atom.unicode_len() > 0 {
            let n = atom.unicode_len();
            let mut out = String::from_str("-");
            out.append(atom.substring_char(1, n));
            proof {
                reveal_strlit("-");
                assert(out@ =~= exact_key(self.keys()[i as int], true));
            }
            Some(out)
        } else {
            Some(String::from_str(atom))
        }
    }
}

/// The slot of a key found at position `i` is `i`.
proof fn lemma_slot_unique(ks: Seq<Seq<char>>, k: Seq<char>, i: int)
    requires
        distinct_texts(intern_key(ks, k)),
        0 <= i < intern_key(ks, k).len(),
        intern_key(ks, k)[i] == k,
    ensures
        slot_of(ks, k) == i,
{
    let j = slot_of(ks, k);
    if j != i {
        assert(intern_key(ks, k)[j] != intern_key(ks, k)[i]);
    }
}


/// A token: a rule that is not a defeater supported a family, projected
/// from an exact literal.
#[derive(Debug)]
pub struct FamilySupport {
    /// The family supported.
    pub family_id: FamilyId,
    /// The exact literal the support comes from.
    pub source_exact_lit: ExactLitId,
    /// The label of the rule.
    pub rule_label: String,
    /// The kind of the rule.
    pub rule_type: RuleType,
}

/// A token: a defeater attacked a family, projected from an exact literal.
#[derive(Debug)]
pub struct FamilyAttack {
    /// The family attacked.
    pub family_id: FamilyId,
    /// The exact literal the attack comes from.
    pub source_exact_lit: ExactLitId,
    /// The label of the defeater.
    pub rule_label: String,
    /// The kind of the rule.
    pub rule_type: RuleType,
}

/// A token emitted by projection.
#[derive(Debug)]
pub enum ProjectionToken {
    /// Exact support.
    Exact(ExactSupport),
    /// Family support.
    Family(FamilySupport),
    /// Family attack.
    Attack(FamilyAttack),
}

/// What a family is, as plain values.
pub type FamView = (Seq<char>, Seq<Seq<char>>, (Option<Seq<char>>, bool), bool);

/// What a token is: its kind (0 exact, 1 family support, 2 family attack),
/// the rule's label and kind, the exact literal's word, and the family.
pub type TokenView = (nat, Seq<char>, RuleType, u32, Option<FamView>);

/// The view of a token.
pub open spec fn token_view(t: ProjectionToken) -> TokenView {
    match t {
        ProjectionToken::Exact(e) => (0, e.rule_label@, e.rule_type, e.exact_lit.0, None),
        ProjectionToken::Family(f) => (1, f.rule_label@, f.rule_type, f.source_exact_lit.0, Some(family_view(f.family_id))),
        ProjectionToken::Attack(a) => (2, a.rule_label@, a.rule_type, a.source_exact_lit.0, Some(family_view(a.family_id))),
    }
}

/// The views of tokens.
pub open spec fn token_views(ts: Seq<ProjectionToken>) -> Seq<TokenView> {
    ts.map_values(|t: ProjectionToken| token_view(t))
}

/// The number of token views of kind `k`.
pub open spec fn count_kind(ts: Seq<TokenView>, k: nat) -> nat
    decreases ts.len(),
{
    if ts.len() == 0 {
        0
    } else {
        count_kind(ts.drop_last(), k) + (if ts.last().0 == k {
            1nat
        } else {
            0nat
        })
    }
}

/// A count of one kind is at most the number of tokens.
proof fn lemma_count_kind_le(ts: Seq<TokenView>, k: nat)
    ensures
        count_kind(ts, k) <= ts.len(),
    decreases ts.len(),
{
    if ts.len() > 0 {
        lemma_count_kind_le(ts.drop_last(), k);
    }
}

/// The family view of a literal.
pub open spec fn lit_family(l: Literal) -> FamView {
    (l.spec_name(), l.spec_preds(), l.mode@, l.negation)
}

/// The key of `k` fits: present already, or a slot is free.
pub open spec fn key_fits(keys: Seq<Seq<char>>, k: Seq<char>) -> bool {
    keys.contains(k) || keys.len() < atom_capacity()
}

/// Projecting the head literals `heads` of a rule with the label and kind
/// from the atom keys `keys`: the keys after, and the tokens, two per head
/// literal: exact support, then family attack for a defeater or family
/// support otherwise.
pub open spec fn proj(keys: Seq<Seq<char>>, label: Seq<char>, rt: RuleType, heads: Seq<Literal>) -> (Seq<Seq<char>>, Seq<TokenView>)
    decreases heads.len(),
{
    if heads.len() == 0 {
        (keys, Seq::empty())
    } else {
        let (k1, ts) = proj(keys, label, rt, heads.drop_last());
        let l = heads.last();
        let k = atom_key(l);
        let raw = exact_raw(slot_of(k1, k) as u32, l.negation);
        let kind: nat = if rt == RuleType::Defeater {
            2
        } else {
            1
        };
        (intern_key(k1, k), ts + seq![(0nat, label, rt, raw, None), (kind, label, rt, raw, Some(lit_family(l)))])
    }
}

/// Every head literal fits when its turn comes.
pub open spec fn proj_fits(keys: Seq<Seq<char>>, label: Seq<char>, rt: RuleType, heads: Seq<Literal>) -> bool {
    forall|j: int| 0 <= j < heads.len() ==> key_fits(#[trigger] proj(keys, label, rt, heads.take(j)).0, atom_key(heads[j]))
}

/// Emits support and attack tokens for fired rules, keeping counts of each
/// kind.
#[derive(Debug)]
pub struct ProjectionEngine {
    tokens: Vec<ProjectionToken>,
    exact_supports: usize,
    family_supports: usize,
    family_attacks: usize,
}

impl ProjectionEngine {
    /// The counters always hold the number of tokens of each kind.
    #[verifier::type_invariant]
    closed spec fn counts_ok(self) -> bool {
        &&& self.exact_supports == count_kind(token_views(self.tokens@), 0)
        &&& self.family_supports == count_kind(token_views(self.tokens@), 1)
        &&& self.family_attacks == count_kind(token_views(self.tokens@), 2)
    }

    /// The views of the tokens emitted, in order.
    pub closed spec fn views(&self) -> Seq<TokenView> {
        token_views(self.tokens@)
    }

    /// An engine with no tokens.
    pub fn new() -> (r: Self)
        ensures
            r.views().len() == 0,
    {
        let r = ProjectionEngine { tokens: Vec::new(), exact_supports: 0, family_supports: 0, family_attacks: 0 };
        r
    }

    /// An engine with no tokens and room for `cap` of them.
    pub fn with_capacity(cap: usize) -> (r: Self)
        ensures
            r.views().len() == 0,
    {
        ProjectionEngine { tokens: Vec::with_capacity(cap), exact_supports: 0, family_supports: 0, family_attacks: 0 }
    }

    /// Append a token, counting it.
    fn push_token(&mut self, t: ProjectionToken)
        ensures
            final(self).views() == old(self).views().push(token_view(t)),
    {
        let kind: u8 = match &t {
            ProjectionToken::Exact(_) => 0,
            ProjectionToken::Family(_) => 1,
            ProjectionToken::Attack(_) => 2,
        };
        let mut old_engine = ProjectionEngine::new();
        std::mem::swap(self, &mut old_engine);
        proof {
            use_type_invariant(&old_engine);
        }
        let ProjectionEngine { tokens, exact_supports, family_supports, family_attacks } = old_engine;
        let ghost before = token_views(tokens@);
        let mut tokens = tokens;
        tokens.push(t);
        proof {
            let after = token_views(tokens@);
            assert(after =~= before.push(token_view(t)));
            assert(after.drop_last() =~= before);
        }
        let n = tokens.len();
        proof {
            lemma_count_kind_le(before, 0);
            lemma_count_kind_le(before, 1);
            lemma_count_kind_le(before, 2);
            assert(before.len() + 1 == n);
        }
        let (e, f, a) = if kind == 0 {
            (exact_supports + 1, family_supports, family_attacks)
        } else if kind == 1 {
            (exact_supports, family_supports + 1, family_attacks)
        } else {
            (exact_supports, family_supports, family_attacks + 1)
        };
        *self = ProjectionEngine { tokens, exact_supports: e, family_supports: f, family_attacks: a };
    }
}


/// Projecting one more head literal.
proof fn lemma_proj_step(keys: Seq<Seq<char>>, label: Seq<char>, rt: RuleType, heads: Seq<Literal>, h: int)
    requires
        0 <= h < heads.len(),
    ensures
        ({
            let (k1, ts) = proj(keys, label, rt, heads.take(h));
            let l = heads[h];
            let k = atom_key(l);
            let raw = exact_raw(slot_of(k1, k) as u32, l.negation);
            let kind: nat = if rt == RuleType::Defeater {
                2
            } else {
                1
            };
            proj(keys, label, rt, heads.take(h + 1)) == (
                intern_key(k1, k),
                ts + seq![(0nat, label, rt, raw, None), (kind, label, rt, raw, Some(lit_family(l)))],
            )
        }),
{
    assert(heads.take(h + 1).drop_last() =~= heads.take(h));
    assert(heads.take(h + 1).last() == heads[h]);
}

impl ProjectionEngine {
    /// Project a fired rule: for each head literal in order, an exact
    /// support token for its identity, then a family attack token for a
    /// defeater or a family support token otherwise, each carrying the
    /// rule's label and kind (see [`proj`]). An error when a head literal's
    /// atom is new and no slot is free; the tokens of the head literals
    /// before it stay.
    pub fn try_project_rule(&mut self, rule: &Rule, index: &mut ExactIndex) -> (r: Result<(), SpindleError>)
        requires
            old(index).wf(),
        ensures
            final(index).wf(),
            r is Ok <==> proj_fits(old(index).keys(), rule.label@, rule.rule_type, rule.head@),
            r is Ok ==> final(index).keys() == proj(old(index).keys(), rule.label@, rule.rule_type, rule.head@).0
                && final(self).views() == old(self).views() + proj(old(index).keys(), rule.label@, rule.rule_type, rule.head@).1,
            r is Err ==> exists|j: int|
                0 <= j < rule.head@.len() && !key_fits(
                    #[trigger] proj(old(index).keys(), rule.label@, rule.rule_type, rule.head@.take(j)).0,
                    atom_key(rule.head@[j]),
                ) && final(index).keys() == proj(old(index).keys(), rule.label@, rule.rule_type, rule.head@.take(j)).0
                    && final(self).views() == old(self).views() + proj(
                    old(index).keys(),
                    rule.label@,
                    rule.rule_type,
                    rule.head@.take(j),
                ).1,
    {
        let ghost keys0 = index.keys();
        let ghost v0 = self.views();
        let ghost label = rule.label@;
        let ghost rt = rule.rule_type;
        let ghost heads = rule.head@;
        proof {
            assert(heads.take(0) =~= Seq::<Literal>::empty());
            assert(v0 + Seq::<TokenView>::empty() =~= v0);
        }
        let mut h: usize = 0;
        while h < rule.head.len()
            invariant
                0 <= h <= heads.len(),
                keys0 == old(index).keys(),
                v0 == old(self).views(),
                heads == rule.head@,
                label == rule.label@,
                rt == rule.rule_type,
                index.wf(),
                index.keys() == proj(keys0, label, rt, heads.take(h as int)).0,
                self.views() == v0 + proj(keys0, label, rt, heads.take(h as int)).1,
                forall|i: int| 0 <= i < h ==> key_fits(#[trigger] proj(keys0, label, rt, heads.take(i)).0, atom_key(heads[i])),
            decreases heads.len() - h,
        {
            proof {
                lemma_proj_step(keys0, label, rt, heads, h as int);
            }
            let lit = &rule.head[h];
            let ghost kb = index.keys();
            let id = match index.try_exact_lit_id(lit) {
                Ok(id) => id,
                Err(e) => {
                    proof {
                        assert(*lit == heads[h as int]);
                        assert(!key_fits(proj(keys0, label, rt, heads.take(h as int)).0, atom_key(heads[h as int])));
                        assert(!proj_fits(keys0, label, rt, heads));
                        assert(index.keys() == kb);
                    }
                    return Err(e);
                },
            };
            let ghost va = self.views();
            self.push_token(
                ProjectionToken::Exact(ExactSupport { exact_lit: id, rule_label: rule.label.clone(), rule_type: rule.rule_type }),
            );
            let family = FamilyId::from_literal(lit);
            if rule.rule_type.is_defeater() {
                self.push_token(
                    ProjectionToken::Attack(
                        FamilyAttack { family_id: family, source_exact_lit: id, rule_label: rule.label.clone(), rule_type: rule.rule_type },
                    ),
                );
            } else {
                self.push_token(
                    ProjectionToken::Family(
                        FamilySupport { family_id: family, source_exact_lit: id, rule_label: rule.label.clone(), rule_type: rule.rule_type },
                    ),
                );
            }
            proof {
                let (k1, ts) = proj(keys0, label, rt, heads.take(h as int));
                assert(self.views() =~= v0 + proj(keys0, label, rt, heads.take(h + 1)).1);
            }
            h = h + 1;
        }
        proof {
            assert(heads.take(h as int) =~= heads);
        }
        Ok(())
    }

    /// Project a fired rule (see [`ProjectionEngine::try_project_rule`]);
    /// every head literal must fit.
    pub fn project_rule(&mut self, rule: &Rule, index: &mut ExactIndex)
        requires
            old(index).wf(),
            proj_fits(old(index).keys(), rule.label@, rule.rule_type, rule.head@),
        ensures
            final(index).wf(),
            final(index).keys() == proj(old(index).keys(), rule.label@, rule.rule_type, rule.head@).0,
            final(self).views() == old(self).views() + proj(old(index).keys(), rule.label@, rule.rule_type, rule.head@).1,
    {
        let _ = self.try_project_rule(rule, index);
    }

    /// The tokens emitted, in order.
    pub fn tokens(&self) -> (r: &[ProjectionToken])
        ensures
            token_views(r@) == self.views(),
    {
        self.tokens.as_slice()
    }

    /// The tokens emitted, taken out of the engine.
    pub fn into_tokens(self) -> (r: Vec<ProjectionToken>)
        ensures
            token_views(r@) == self.views(),
    {
        let ProjectionEngine { tokens, .. } = self;
        tokens
    }

    /// The number of tokens emitted.
    pub fn len(&self) -> (r: usize)
        ensures
            r == self.views().len(),
    {
        self.tokens.len()
    }

    /// Whether no token was emitted.
    pub fn is_empty(&self) -> (r: bool)
        ensures
            r == (self.views().len() == 0),
    {
        self.tokens.len() == 0
    }

    /// Drop all tokens and reset the counts.
    pub fn clear(&mut self)
        ensures
            final(self).views().len() == 0,
    {
        *self = ProjectionEngine::new();
    }

    /// The number of exact support tokens.
    pub fn exact_count(&self) -> (r: usize)
        ensures
            r == count_kind(self.views(), 0),
    {
        proof {
            use_type_invariant(self);
        }
        self.exact_supports
    }

    /// The number of family support tokens.
    pub fn family_count(&self) -> (r: usize)
        ensures
            r == count_kind(self.views(), 1),
    {
        proof {
            use_type_invariant(self);
        }
        self.family_supports
    }

    /// The number of family attack tokens.
    pub fn attack_count(&self) -> (r: usize)
        ensures
            r == count_kind(self.views(), 2),
    {
        proof {
            use_type_invariant(self);
        }
        self.family_attacks
    }
}

impl Default for ProjectionEngine {
    fn default() -> (r: Self)
        ensures
            r.views().len() == 0,
    {
        ProjectionEngine::new()
    }
}


/// What a `BTreeSet` of strings holds, by the strings' characters.
pub uninterp spec fn tree_labels(s: BTreeSet<String>) -> Set<Seq<char>>;

/// `BTreeSet::from_iter`: the set of the strings.
#[verifier::external_body]
fn label_tree(labels: Vec<String>) -> (r: BTreeSet<String>)
    ensures
        tree_labels(r) == string_views(labels@).to_set(),
{
    BTreeSet::from_iter(labels)
}

/// `BTreeSet::clone`: a set with the same strings.
#[verifier::external_body]
fn tree_copy(s: &BTreeSet<String>) -> (r: BTreeSet<String>)
    ensures
        tree_labels(r) == tree_labels(*s),
{
    s.clone()
}

/// `Vec::from_iter` over a `BTreeSet`: the strings of the set in ascending
/// order, each once.
#[verifier::external_body]
fn tree_items(s: BTreeSet<String>) -> (r: Vec<String>)
    ensures
        string_views(r@).to_set() == tree_labels(s),
        forall|i: int, j: int| 0 <= i < j < r@.len() ==> text_lt(#[trigger] r@[i]@, #[trigger] r@[j]@),
{
    Vec::from_iter(s)
}

/// The labels of the token views, in order.
pub open spec fn token_labels(ts: Seq<TokenView>) -> Seq<Seq<char>> {
    ts.map_values(|t: TokenView| t.1)
}

/// The display text of diagnostics: the three counts and the labels in
/// ascending order.
pub open spec fn diagnostics_text(e: nat, f: nat, a: nat, labels: Seq<Seq<char>>) -> Seq<char> {
    "exact_supports="@ + decimal(e) + ", family_supports="@ + decimal(f) + ", family_attacks="@ + decimal(a) + ", labels=["@
        + joined(labels, ", "@) + "]"@
}

impl ProjectionDiagnostics {
    /// The display text: `exact_supports=<n>, family_supports=<n>,
    /// family_attacks=<n>, labels=[<labels in ascending order, joined by
    /// ", ">]`.
    pub fn to_text(&self) -> (r: String)
        ensures
            exists|ls: Seq<Seq<char>>|
                ls.to_set() == tree_labels(self.contributing_labels) && (forall|i: int, j: int|
                    0 <= i < j < ls.len() ==> text_lt(#[trigger] ls[i], #[trigger] ls[j])) && r@ == diagnostics_text(
                    self.exact_supports as nat,
                    self.family_supports as nat,
                    self.family_attacks as nat,
                    ls,
                ),
    {
        let items = tree_items(tree_copy(&self.contributing_labels));
        let mut out = String::from_str("exact_supports=");
        push_decimal(&mut out, self.exact_supports as u64);
        out.append(", family_supports=");
        push_decimal(&mut out, self.family_supports as u64);
        out.append(", family_attacks=");
        push_decimal(&mut out, self.family_attacks as u64);
        out.append(", labels=[");
        let j = join(&items, ", ");
        out.append(j.as_str());
        out.append("]");
        proof {
            let ls = string_views(items@);
            assert(forall|i: int, k: int| 0 <= i < k < ls.len() ==> text_lt(#[trigger] ls[i], #[trigger] ls[k])) by {
                assert forall|i: int, k: int| 0 <= i < k < ls.len() implies text_lt(#[trigger] ls[i], #[trigger] ls[k]) by {
                    assert(ls[i] == items@[i]@ && ls[k] == items@[k]@);
                }
            }
            assert(out@ =~= diagnostics_text(self.exact_supports as nat, self.family_supports as nat, self.family_attacks as nat, ls));
        }
        out
    }
}

impl ProjectionEngine {
    /// The counters, and the set of labels of the rules whose tokens were
    /// emitted.
    pub fn diagnostics(&self) -> (r: ProjectionDiagnostics)
        ensures
            r.exact_supports == count_kind(self.views(), 0),
            r.family_supports == count_kind(self.views(), 1),
            r.family_attacks == count_kind(self.views(), 2),
            tree_labels(r.contributing_labels) == token_labels(self.views()).to_set(),
    {
        proof {
            use_type_invariant(self);
        }
        let mut labels: Vec<String> = Vec::new();
        let mut i: usize = 0;
        while i < self.tokens.len()
            invariant
                0 <= i <= self.tokens@.len(),
                string_views(labels@) == token_labels(token_views(self.tokens@)).take(i as int),
            decreases self.tokens@.len() - i,
        {
            let label = match &self.tokens[i] {
                ProjectionToken::Exact(e) => e.rule_label.clone(),
                ProjectionToken::Family(f) => f.rule_label.clone(),
                ProjectionToken::Attack(a) => a.rule_label.clone(),
            };
            let ghost lb = labels@;
            labels.push(label);
            proof {
                assert(string_views(labels@) =~= string_views(lb).push(token_view(self.tokens@[i as int]).1));
                assert(token_labels(token_views(self.tokens@)).take(i + 1) =~= token_labels(token_views(self.tokens@)).take(
                    i as int,
                ).push(token_view(self.tokens@[i as int]).1));
            }
            i = i + 1;
        }
        proof {
            assert(token_labels(token_views(self.tokens@)).take(i as int) =~= token_labels(token_views(self.tokens@)));
        }
        ProjectionDiagnostics {
            exact_supports: self.exact_supports,
            family_supports: self.family_supports,
            family_attacks: self.family_attacks,
            contributing_labels: label_tree(labels),
        }
    }
}


/// Lexicographic order of lists of texts.
pub open spec fn list_lt(a: Seq<Seq<char>>, b: Seq<Seq<char>>) -> bool
    decreases a.len(),
{
    if a.len() == 0 || b.len() == 0 {
        false
    } else if a[0] != b[0] {
        text_lt(a[0], b[0])
    } else {
        list_lt(a.drop_first(), b.drop_first())
    }
}

/// The order of lists is irreflexive and transitive.
proof fn lemma_list_lt(a: Seq<Seq<char>>, b: Seq<Seq<char>>, c: Seq<Seq<char>>)
    ensures
        !list_lt(a, a),
        list_lt(a, b) && list_lt(b, c) ==> list_lt(a, c),
    decreases a.len(),
{
    if a.len() > 0 {
        lemma_list_lt(a.drop_first(), b.drop_first(), c.drop_first());
        lemma_text_lt_irrefl(a[0]);
        if b.len() > 0 && c.len() > 0 {
            if list_lt(a, b) && list_lt(b, c) {
                if a[0] != b[0] && b[0] != c[0] {
                    lemma_text_lt_trans(a[0], b[0], c[0]);
                    lemma_text_lt_total(a[0], c[0]);
                } else if a[0] != b[0] {
                    assert(b[0] == c[0]);
                } else if b[0] != c[0] {
                    assert(a[0] == b[0]);
                }
            }
        }
    }
}

/// The views of rows of strings.
pub open spec fn row_views(rows: Seq<Vec<String>>) -> Seq<Seq<Seq<char>>> {
    rows.map_values(|r: Vec<String>| string_views(r@))
}

/// The rows are in nondecreasing order.
pub open spec fn rows_sorted(t: Seq<Seq<Seq<char>>>) -> bool {
    forall|i: int, j: int| 0 <= i < j < t.len() ==> !list_lt(#[trigger] t[j], #[trigger] t[i])
}

/// Whether row `a` comes before row `b`.
fn list_less(a: &Vec<String>, b: &Vec<String>) -> (r: bool)
    ensures
        r == list_lt(string_views(a@), string_views(b@)),
{
    let ghost va = string_views(a@);
    let ghost vb = string_views(b@);
    proof {
        assert(va.skip(0) =~= va);
        assert(vb.skip(0) =~= vb);
    }
    let mut k: usize = 0;
    while k < a.len() && k < b.len()
        invariant
            0 <= k <= a@.len(),
            k <= b@.len(),
            va == string_views(a@),
            vb == string_views(b@),
            list_lt(va, vb) == list_lt(va.skip(k as int), vb.skip(k as int)),
        decreases a@.len() - k,
    {
        let ghost sa = va.skip(k as int);
        let ghost sb = vb.skip(k as int);
        proof {
            assert(sa[0] == a@[k as int]@);
            assert(sb[0] == b@[k as int]@);
            assert(sa.drop_first() =~= va.skip(k + 1));
            assert(sb.drop_first() =~= vb.skip(k + 1));
        }
        if !crate::text::str_eq(a[k].as_str(), b[k].as_str()) {
            return text_less(a[k].as_str(), b[k].as_str());
        }
        k = k + 1;
    }
    proof {
        assert(va.skip(k as int).len() == 0 || vb.skip(k as int).len() == 0);
    }
    false
}

/// Rows in nondecreasing order, each input row once (stable insertion).
fn sort_rows(rows: &Vec<Vec<String>>) -> (r: Vec<Vec<String>>)
    ensures
        rows_sorted(row_views(r@)),
        row_views(r@).to_multiset() == row_views(rows@).to_multiset(),
{
    let mut out: Vec<Vec<String>> = Vec::new();
    let mut i: usize = 0;
    proof {
        assert(row_views(out@) =~= row_views(rows@).take(0));
    }
    while i < rows.len()
        invariant
            0 <= i <= rows@.len(),
            rows_sorted(row_views(out@)),
            row_views(out@).to_multiset() == row_views(rows@).take(i as int).to_multiset(),
        decreases rows@.len() - i,
    {
        let x = crate::literal::clone_strings(&rows[i]);
        let ghost xv = string_views(x@);
        let ghost t = row_views(out@);
        let mut p: usize = 0;
        while p < out.len() && !list_less(&x, &out[p])
            invariant
                0 <= p <= out@.len(),
                t == row_views(out@),
                xv == string_views(x@),
                forall|a: int| 0 <= a < p ==> !list_lt(xv, #[trigger] t[a]),
            decreases out@.len() - p,
        {
            p = p + 1;
        }
        proof {
            assert(p < t.len() ==> list_lt(xv, t[p as int]));
            let t2 = t.insert(p as int, xv);
            assert forall|a: int, b: int| 0 <= a < b < t2.len() implies !list_lt(#[trigger] t2[b], #[trigger] t2[a]) by {
                if b < p {
                    assert(t2[a] == t[a] && t2[b] == t[b]);
                } else if b == p {
                    assert(t2[a] == t[a] && t2[b] == xv);
                } else if a < p {
                    assert(t2[a] == t[a] && t2[b] == t[b - 1]);
                } else if a == p {
                    assert(t2[a] == xv && t2[b] == t[b - 1]);
                    if list_lt(t[b - 1], xv) {
                        lemma_list_lt(t[b - 1], xv, t[p as int]);
                        lemma_list_lt(t[p as int], t[p as int], t[p as int]);
                    }
                } else {
                    assert(t2[a] == t[a - 1] && t2[b] == t[b - 1]);
                }
            }
            vstd::seq_lib::to_multiset_insert(t, p as int, xv);
            assert(row_views(rows@).take(i + 1) =~= row_views(rows@).take(i as int).push(xv));
            vstd::seq_lib::to_multiset_build(row_views(rows@).take(i as int), xv);
        }
        out.insert(p, x);
        proof {
            assert(row_views(out@) =~= t.insert(p as int, xv));
        }
        i = i + 1;
    }
    proof {
        assert(row_views(rows@).take(i as int) =~= row_views(rows@));
    }
    out
}


/// The text of an exact literal in a snapshot: its canonical key, or its
/// display text when its slot is unknown.
pub open spec fn exact_text(keys: Seq<Seq<char>>, raw: u32) -> Seq<char> {
    let id = ExactLitId(raw);
    let i = id.spec_atom_index() as int;
    if i < keys.len() {
        exact_key(keys[i], id.spec_is_negated())
    } else {
        (if id.spec_is_negated() {
            "exact~"@
        } else {
            "exact"@
        }) + decimal(i as nat)
    }
}

/// The snapshot row of a token: (label, exact text) for exact support,
/// (label, family key, exact text) otherwise.
pub open spec fn row_of(t: TokenView, keys: Seq<Seq<char>>) -> Seq<Seq<char>> {
    if t.0 == 0 {
        seq![t.1, exact_text(keys, t.3)]
    } else {
        match t.4 {
            Some(fv) => seq![t.1, family_key(fv.0, fv.1, fv.2, fv.3), exact_text(keys, t.3)],
            None => seq![t.1, Seq::empty(), exact_text(keys, t.3)],
        }
    }
}

/// The snapshot rows of the tokens of kind `kind`, in token order.
pub open spec fn snap_rows(ts: Seq<TokenView>, keys: Seq<Seq<char>>, kind: nat) -> Seq<Seq<Seq<char>>>
    decreases ts.len(),
{
    if ts.len() == 0 {
        Seq::empty()
    } else {
        let prev = snap_rows(ts.drop_last(), keys, kind);
        if ts.last().0 == kind {
            prev.push(row_of(ts.last(), keys))
        } else {
            prev
        }
    }
}

/// The rows of pairs.
pub open spec fn pair_rows(v: Seq<(String, String)>) -> Seq<Seq<Seq<char>>> {
    v.map_values(|p: (String, String)| seq![p.0@, p.1@])
}

/// The rows of triples.
pub open spec fn triple_rows(v: Seq<(String, String, String)>) -> Seq<Seq<Seq<char>>> {
    v.map_values(|p: (String, String, String)| seq![p.0@, p.1@, p.2@])
}

/// The text of an exact literal for a snapshot.
fn exact_text_exec(index: &ExactIndex, id: ExactLitId) -> (r: String)
    ensures
        r@ == exact_text(index.keys(), id.0),
{
    match index.exact_lit_key(id) {
        Some(k) => k,
        None => id.to_text(),
    }
}

/// All rows have `n` entries.
pub open spec fn rows_len(t: Seq<Seq<Seq<char>>>, n: nat) -> bool {
    forall|i: int| 0 <= i < t.len() ==> (#[trigger] t[i]).len() == n
}

/// Rows with the same multiset have the same lengths.
proof fn lemma_rows_len_multiset(a: Seq<Seq<Seq<char>>>, b: Seq<Seq<Seq<char>>>, n: nat)
    requires
        a.to_multiset() == b.to_multiset(),
        rows_len(b, n),
    ensures
        rows_len(a, n),
{
    assert forall|i: int| 0 <= i < a.len() implies (#[trigger] a[i]).len() == n by {
        vstd::seq_lib::to_multiset_contains(a, a[i]);
        vstd::seq_lib::to_multiset_contains(b, a[i]);
        assert(a.contains(a[i]));
        let j = choose|j: int| 0 <= j < b.len() && b[j] == a[i];
        assert(b[j].len() == n);
    }
}

/// Sorted rows of two entries as pairs.
fn to_pairs(rows: &Vec<Vec<String>>) -> (r: Vec<(String, String)>)
    requires
        rows_len(row_views(rows@), 2),
    ensures
        pair_rows(r@) == row_views(rows@),
{
    let mut out: Vec<(String, String)> = Vec::new();
    let mut i: usize = 0;
    while i < rows.len()
        invariant
            0 <= i <= rows@.len(),
            rows_len(row_views(rows@), 2),
            pair_rows(out@) == row_views(rows@).take(i as int),
        decreases rows@.len() - i,
    {
        proof {
            assert(row_views(rows@)[i as int].len() == 2);
        }
        let ghost ob = out@;
        out.push((rows[i][0].clone(), rows[i][1].clone()));
        proof {
            assert(row_views(rows@)[i as int] =~= seq![rows@[i as int]@[0]@, rows@[i as int]@[1]@]);
            assert(pair_rows(out@) =~= pair_rows(ob).push(row_views(rows@)[i as int]));
            assert(row_views(rows@).take(i + 1) =~= row_views(rows@).take(i as int).push(row_views(rows@)[i as int]));
        }
        i = i + 1;
    }
    proof {
        assert(row_views(rows@).take(i as int) =~= row_views(rows@));
    }
    out
}

/// Sorted rows of three entries as triples.
fn to_triples(rows: &Vec<Vec<String>>) -> (r: Vec<(String, String, String)>)
    requires
        rows_len(row_views(rows@), 3),
    ensures
        triple_rows(r@) == row_views(rows@),
{
    let mut out: Vec<(String, String, String)> = Vec::new();
    let mut i: usize = 0;
    while i < rows.len()
        invariant
            0 <= i <= rows@.len(),
            rows_len(row_views(rows@), 3),
            triple_rows(out@) == row_views(rows@).take(i as int),
        decreases rows@.len() - i,
    {
        proof {
            assert(row_views(rows@)[i as int].len() == 3);
        }
        let ghost ob = out@;
        out.push((rows[i][0].clone(), rows[i][1].clone(), rows[i][2].clone()));
        proof {
            assert(row_views(rows@)[i as int] =~= seq![rows@[i as int]@[0]@, rows@[i as int]@[1]@, rows@[i as int]@[2]@]);
            assert(triple_rows(out@) =~= triple_rows(ob).push(row_views(rows@)[i as int]));
            assert(row_views(rows@).take(i + 1) =~= row_views(rows@).take(i as int).push(row_views(rows@)[i as int]));
        }
        i = i + 1;
    }
    proof {
        assert(row_views(rows@).take(i as int) =~= row_views(rows@));
    }
    out
}

/// The snapshot rows of one more token.
proof fn lemma_snap_rows_push(ts: Seq<TokenView>, t: TokenView, keys: Seq<Seq<char>>, kind: nat)
    ensures
        snap_rows(ts.push(t), keys, kind) == (if t.0 == kind {
            snap_rows(ts, keys, kind).push(row_of(t, keys))
        } else {
            snap_rows(ts, keys, kind)
        }),
{
    assert(ts.push(t).drop_last() =~= ts);
}

impl ProjectionEngine {
    /// A deterministic snapshot: for each kind of token, its rows (see
    /// [`row_of`]) in nondecreasing order, with exact literals and families
    /// given by their canonical keys, not by slot numbers.
    pub fn snapshot(&self, index: &ExactIndex) -> (r: ProjectionSnapshot)
        ensures
            rows_sorted(pair_rows(r.exact@)),
            pair_rows(r.exact@).to_multiset() == snap_rows(self.views(), index.keys(), 0).to_multiset(),
            rows_sorted(triple_rows(r.family@)),
            triple_rows(r.family@).to_multiset() == snap_rows(self.views(), index.keys(), 1).to_multiset(),
            rows_sorted(triple_rows(r.attack@)),
            triple_rows(r.attack@).to_multiset() == snap_rows(self.views(), index.keys(), 2).to_multiset(),
    {
        let ghost keys = index.keys();
        let ghost all = token_views(self.tokens@);
        let mut ex: Vec<Vec<String>> = Vec::new();
        let mut fam: Vec<Vec<String>> = Vec::new();
        let mut att: Vec<Vec<String>> = Vec::new();
        let mut i: usize = 0;
        proof {
            assert(all.take(0) =~= Seq::<TokenView>::empty());
            assert(row_views(ex@) =~= Seq::<Seq<Seq<char>>>::empty());
            assert(row_views(fam@) =~= Seq::<Seq<Seq<char>>>::empty());
            assert(row_views(att@) =~= Seq::<Seq<Seq<char>>>::empty());
        }
        while i < self.tokens.len()
            invariant
                0 <= i <= self.tokens@.len(),
                all == token_views(self.tokens@),
                keys == index.keys(),
                row_views(ex@) == snap_rows(all.take(i as int), keys, 0),
                row_views(fam@) == snap_rows(all.take(i as int), keys, 1),
                row_views(att@) == snap_rows(all.take(i as int), keys, 2),
                rows_len(row_views(ex@), 2),
                rows_len(row_views(fam@), 3),
                rows_len(row_views(att@), 3),
            decreases self.tokens@.len() - i,
        {
            let ghost t = all[i as int];
            proof {
                assert(all.take(i + 1) =~= all.take(i as int).push(t));
                lemma_snap_rows_push(all.take(i as int), t, keys, 0);
                lemma_snap_rows_push(all.take(i as int), t, keys, 1);
                lemma_snap_rows_push(all.take(i as int), t, keys, 2);
            }
            match &self.tokens[i] {
                ProjectionToken::Exact(e) => {
                    let mut row: Vec<String> = Vec::new();
                    row.push(e.rule_label.clone());
                    row.push(exact_text_exec(index, e.exact_lit));
                    let ghost eb = row_views(ex@);
                    ex.push(row);
                    proof {
                        assert(string_views(row@) =~= row_of(t, keys));
                        assert(row_views(ex@) =~= eb.push(row_of(t, keys)));
                    }
                },
                ProjectionToken::Family(f) => {
                    let mut row: Vec<String> = Vec::new();
                    row.push(f.rule_label.clone());
                    row.push(f.family_id.canonical_key());
                    row.push(exact_text_exec(index, f.source_exact_lit));
                    let ghost fb = row_views(fam@);
                    fam.push(row);
                    proof {
                        assert(string_views(row@) =~= row_of(t, keys));
                        assert(row_views(fam@) =~= fb.push(row_of(t, keys)));
                    }
                },
                ProjectionToken::Attack(a) => {
                    let mut row: Vec<String> = Vec::new();
                    row.push(a.rule_label.clone());
                    row.push(a.family_id.canonical_key());
                    row.push(exact_text_exec(index, a.source_exact_lit));
                    let ghost ab = row_views(att@);
                    att.push(row);
                    proof {
                        assert(string_views(row@) =~= row_of(t, keys));
                        assert(row_views(att@) =~= ab.push(row_of(t, keys)));
                    }
                },
            }
            i = i + 1;
        }
        proof {
            assert(all.take(i as int) =~= all);
        }
        let ex_sorted = sort_rows(&ex);
        let fam_sorted = sort_rows(&fam);
        let att_sorted = sort_rows(&att);
        proof {
            lemma_rows_len_multiset(row_views(ex_sorted@), row_views(ex@), 2);
            lemma_rows_len_multiset(row_views(fam_sorted@), row_views(fam@), 3);
            lemma_rows_len_multiset(row_views(att_sorted@), row_views(att@), 3);
        }
        let exact = to_pairs(&ex_sorted);
        let family = to_triples(&fam_sorted);
        let attack = to_triples(&att_sorted);
        ProjectionSnapshot { exact, family, attack }
    }
}


/// Every token is of one of the three kinds, so the three counts add up to
/// the number of tokens.
proof fn lemma_counts_add_up(ts: Seq<TokenView>)
    requires
        forall|i: int| 0 <= i < ts.len() ==> (#[trigger] ts[i]).0 <= 2,
    ensures
        count_kind(ts, 0) + count_kind(ts, 1) + count_kind(ts, 2) == ts.len(),
    decreases ts.len(),
{
    if ts.len() > 0 {
        lemma_counts_add_up(ts.drop_last());
        assert(ts.last().0 <= 2);
    }
}

/// The engine's three counts add up to the number of tokens it emitted.
pub proof fn law_counts_partition_tokens(e: ProjectionEngine)
    ensures
        count_kind(e.views(), 0) + count_kind(e.views(), 1) + count_kind(e.views(), 2) == e.views().len(),
{
    let ts = e.views();
    assert forall|i: int| 0 <= i < ts.len() implies (#[trigger] ts[i]).0 <= 2 by {
        assert(ts[i] == token_view(e.tokens@[i]));
    }
    lemma_counts_add_up(ts);
}

/// Projecting a rule emits one exact support per head literal, and as many
/// family attacks (for a defeater) or family supports (otherwise), and
/// nothing of the third kind.
pub proof fn law_projection_counts(keys: Seq<Seq<char>>, label: Seq<char>, rt: RuleType, heads: Seq<Literal>)
    ensures
        count_kind(proj(keys, label, rt, heads).1, 0) == heads.len(),
        count_kind(proj(keys, label, rt, heads).1, if rt == RuleType::Defeater {
            2nat
        } else {
            1nat
        }) == heads.len(),
        count_kind(proj(keys, label, rt, heads).1, if rt == RuleType::Defeater {
            1nat
        } else {
            2nat
        }) == 0,
    decreases heads.len(),
{
    if heads.len() > 0 {
        let init = heads.drop_last();
        law_projection_counts(keys, label, rt, init);
        let (k1, ts) = proj(keys, label, rt, init);
        let l = heads.last();
        let raw = exact_raw(slot_of(k1, atom_key(l)) as u32, l.negation);
        let kind: nat = if rt == RuleType::Defeater {
            2
        } else {
            1
        };
        let a: TokenView = (0nat, label, rt, raw, None);
        let b: TokenView = (kind, label, rt, raw, Some(lit_family(l)));
        let ts2 = ts + seq![a, b];
        assert(ts2.drop_last() =~= ts.push(a));
        assert(ts.push(a).drop_last() =~= ts);
        assert(ts2.last() == b);
        assert(ts.push(a).last() == a);
        assert(proj(keys, label, rt, heads).1 == ts2);
        let tp = ts.push(a);
        assert(count_kind(tp, 0) == count_kind(ts, 0) + 1);
        assert(count_kind(tp, 1) == count_kind(ts, 1));
        assert(count_kind(tp, 2) == count_kind(ts, 2));
        assert(count_kind(ts2, 0) == count_kind(tp, 0) + (if kind == 0 { 1nat } else { 0nat }));
        assert(count_kind(ts2, 1) == count_kind(tp, 1) + (if kind == 1 { 1nat } else { 0nat }));
        assert(count_kind(ts2, 2) == count_kind(tp, 2) + (if kind == 2 { 1nat } else { 0nat }));
        assert(count_kind(ts2, 0) == count_kind(ts, 0) + 1);
        assert(count_kind(ts2, 1) == count_kind(ts, 1) + (if kind == 1 { 1nat } else { 0nat }));
        assert(count_kind(ts2, 2) == count_kind(ts, 2) + (if kind == 2 { 1nat } else { 0nat }));
    }
}

} // verus!
