//! String interning: cheap copyable symbol handles for names.
//!
//! An `Interner` maps each distinct string to a `SymbolId`; index 0 is
//! reserved for the empty string. `LiteralId` packs a symbol with a
//! negation flag in the high bit of a `u32`.

use vstd::prelude::*;
use rustc_hash::FxBuildHasher;
use rustc_hash::FxHashMap;
use crate::text::{decimal, push_decimal};

verus! {

/// A unique identifier for an interned string.
///
/// Two `SymbolId`s from one interner are equal iff they name the same string.
#[derive(Clone, Copy, PartialEq, Eq, Structural, Hash, Default, Debug, PartialOrd, Ord)]
pub struct SymbolId(pub u32);

impl SymbolId {
    /// Create a `SymbolId` from its raw value.
    pub fn from_raw(value: u32) -> (r: Self)
        ensures
            r.0 == value,
    {
        SymbolId(value)
    }

    /// The raw value of this symbol.
    pub fn as_raw(self) -> (r: u32)
        ensures
            r == self.0,
    {
        self.0
    }

    /// Whether this is the empty symbol.
    pub fn is_empty(self) -> (r: bool)
        ensures
            r == (self.0 == 0),
    {
        self.0 == 0
    }
}

/// Mask of the negation flag of a `LiteralId`.
pub const NEGATION_BIT: u32 = 0x8000_0000u32;

/// Mask of the symbol part of a `LiteralId`.
pub const SYMBOL_MASK: u32 = 0x7fff_ffffu32;

/// The symbol part of a raw literal id.
pub open spec fn raw_symbol(raw: u32) -> u32 {
    raw & 0x7fff_ffffu32
}

/// The negation flag of a raw literal id.
pub open spec fn raw_negated(raw: u32) -> bool {
    raw & 0x8000_0000u32 != 0
}

/// A symbol with a negation flag, packed in one `u32`.
///
/// The high bit is the negation flag; the low 31 bits are the symbol.
#[derive(Clone, Copy, PartialEq, Eq, Structural, Hash, Default, Debug)]
pub struct LiteralId(pub u32);

impl LiteralId {
    /// The symbol part, as a spec value.
    pub open spec fn spec_symbol(self) -> u32 {
        raw_symbol(self.0)
    }

    /// The negation flag, as a spec value.
    pub open spec fn spec_negated(self) -> bool {
        raw_negated(self.0)
    }

    /// A positive literal id over `symbol` (its high bit is dropped).
    pub fn positive(symbol: SymbolId) -> (r: Self)
        ensures
            r.spec_symbol() == raw_symbol(symbol.0),
            !r.spec_negated(),
    {
        let raw = symbol.0 & SYMBOL_MASK;
        proof {
            let s = symbol.0;
            assert((s & 0x7fff_ffffu32) & 0x7fff_ffffu32 == s & 0x7fff_ffffu32) by (bit_vector);
            assert((s & 0x7fff_ffffu32) & 0x8000_0000u32 == 0) by (bit_vector);
        }
        LiteralId(raw)
    }

    /// A negated literal id over `symbol` (its high bit is dropped).
    pub fn negated(symbol: SymbolId) -> (r: Self)
        ensures
            r.spec_symbol() == raw_symbol(symbol.0),
            r.spec_negated(),
    {
        let raw = (symbol.0 & SYMBOL_MASK) | NEGATION_BIT;
        proof {
            let s = symbol.0;
            assert(((s & 0x7fff_ffffu32) | 0x8000_0000u32) & 0x7fff_ffffu32 == s & 0x7fff_ffffu32)
                by (bit_vector);
            assert(((s & 0x7fff_ffffu32) | 0x8000_0000u32) & 0x8000_0000u32 != 0) by (bit_vector);
        }
        LiteralId(raw)
    }

    /// A literal id over `symbol` with the given negation flag.
    pub fn new(symbol: SymbolId, negated: bool) -> (r: Self)
        ensures
            r.spec_symbol() == raw_symbol(symbol.0),
            r.spec_negated() == negated,
    {
        if negated {
            Self::negated(symbol)
        } else {
            Self::positive(symbol)
        }
    }

    /// The symbol part.
    pub fn symbol(self) -> (r: SymbolId)
        ensures
            r.0 == self.spec_symbol(),
    {
        SymbolId(self.0 & SYMBOL_MASK)
    }

    /// Whether the negation flag is set.
    pub fn is_negated(self) -> (r: bool)
        ensures
            r == self.spec_negated(),
    {
        (self.0 & NEGATION_BIT) != 0
    }

    /// Whether the negation flag is clear.
    pub fn is_positive(self) -> (r: bool)
        ensures
            r == !self.spec_negated(),
    {
        !self.is_negated()
    }

    /// The same symbol with the negation flag flipped.
    pub fn complement(self) -> (r: Self)
        ensures
            r.spec_symbol() == self.spec_symbol(),
            r.spec_negated() == !self.spec_negated(),
            r.0 == self.0 ^ 0x8000_0000u32,
    {
        proof {
            let x = self.0;
            assert((x ^ 0x8000_0000u32) & 0x7fff_ffffu32 == x & 0x7fff_ffffu32) by (bit_vector);
            assert(((x ^ 0x8000_0000u32) & 0x8000_0000u32 != 0) == !(x & 0x8000_0000u32 != 0))
                by (bit_vector);
        }
        LiteralId(self.0 ^ NEGATION_BIT)
    }

    /// The raw value.
    pub fn as_raw(self) -> (r: u32)
        ensures
            r == self.0,
    {
        self.0
    }

    /// A literal id from its raw value.
    pub fn from_raw(value: u32) -> (r: Self)
        ensures
            r.0 == value,
    {
        LiteralId(value)
    }

    /// Whether this is the empty literal id.
    pub fn is_empty(self) -> (r: bool)
        ensures
            r == (self.0 == 0),
    {
        self.0 == 0
    }
}

/// Complementing twice gives back the same literal id.
pub proof fn lemma_literal_id_complement_involutive(id: LiteralId)
    ensures
        (id.0 ^ 0x8000_0000u32) ^ 0x8000_0000u32 == id.0,
{
    let x = id.0;
    assert((x ^ 0x8000_0000u32) ^ 0x8000_0000u32 == x) by (bit_vector);
}

/// Two literal ids are equal iff their symbols and negation flags agree.
pub proof fn lemma_literal_id_parts_determine(a: LiteralId, b: LiteralId)
    ensures
        (a.spec_symbol() == b.spec_symbol() && a.spec_negated() == b.spec_negated()) <==> a == b,
{
    let x = a.0;
    let y = b.0;
    assert(((x & 0x7fff_ffffu32) == (y & 0x7fff_ffffu32) && ((x & 0x8000_0000u32 != 0) == (
    y & 0x8000_0000u32 != 0))) <==> x == y) by (bit_vector);
}

#[verifier::external_type_specification]
#[verifier::external_body]
pub struct ExFxBuildHasher(FxBuildHasher);

/// What an `FxHashMap` from strings to raw symbols holds, keyed by the
/// strings' characters.
pub uninterp spec fn fx_table_contents(m: FxHashMap<String, u32>) -> Map<Seq<char>, u32>;

/// `FxHashMap::default`: an empty map.
#[verifier::external_body]
fn fx_table_new() -> (r: FxHashMap<String, u32>)
    ensures
        fx_table_contents(r).dom().is_empty(),
{
    FxHashMap::default()
}

/// `HashMap::get` on an `FxHashMap`: the value stored under the key with the
/// characters of `s`, if any.
#[verifier::external_body]
fn fx_table_get(m: &FxHashMap<String, u32>, s: &str) -> (r: Option<u32>)
    ensures
        r == (if fx_table_contents(*m).dom().contains(s@) {
            Some(fx_table_contents(*m)[s@])
        } else {
            None::<u32>
        }),
{
    m.get(s).copied()
}

/// `HashMap::insert` on an `FxHashMap`: binds the key to the value.
#[verifier::external_body]
fn fx_table_insert(m: &mut FxHashMap<String, u32>, k: String, v: u32)
    ensures
        fx_table_contents(*final(m)) == fx_table_contents(*old(m)).insert(k@, v),
{
    m.insert(k, v);
}

/// A string interner: a table from strings to symbols and back.
pub struct Interner {
    map: FxHashMap<String, u32>,
    strings: Vec<String>,
}

impl Interner {
    /// The strings held, by symbol index.
    pub closed spec fn names(&self) -> Seq<Seq<char>> {
        self.strings@.map_values(|s: String| s@)
    }

    /// The table is consistent: index 0 is the empty string, names are
    /// distinct, and the map sends each name to its index.
    pub closed spec fn wf(&self) -> bool {
        &&& self.strings@.len() >= 1
        &&& self.strings@.len() <= u32::MAX
        &&& self.strings@[0]@ == Seq::<char>::empty()
        &&& forall|i: int, j: int|
            0 <= i < self.strings@.len() && 0 <= j < self.strings@.len() && i != j
                ==> #[trigger] self.strings@[i]@ != #[trigger] self.strings@[j]@
        &&& forall|k: Seq<char>| #[trigger]
            fx_table_contents(self.map).dom().contains(k) ==> {
                let v = fx_table_contents(self.map)[k];
                &&& 0 <= v < self.strings@.len()
                &&& self.strings@[v as int]@ == k
            }
        &&& forall|i: int|
            0 <= i < self.strings@.len() ==> #[trigger] fx_table_contents(self.map).dom().contains(
                self.strings@[i]@,
            )
    }

    /// Interning is stable: in a well-formed interner two ids that resolve
    /// to the same name are the same id, so a name interned again gets the id
    /// it got the first time.
    pub proof fn law_same_name_same_id(&self, a: int, b: int)
        requires
            self.wf(),
            0 <= a < self.names().len(),
            0 <= b < self.names().len(),
            self.names()[a] == self.names()[b],
        ensures
            a == b,
    {
        assert(self.names()[a] == self.strings@[a]@);
        assert(self.names()[b] == self.strings@[b]@);
    }

    /// In an interner in use the empty string is symbol 0: it is the first
    /// name held, and looking it up gives 0.
    pub proof fn law_empty_is_symbol_zero(&self)
        requires
            self.wf(),
        ensures
            self.names().len() >= 1,
            self.names()[0] == Seq::<char>::empty(),
            self.spec_lookup(Seq::<char>::empty()) == Some(0u32),
    {
        assert(self.names()[0] == self.strings@[0]@);
        let i = choose|i: int| 0 <= i < self.names().len() && self.names()[i] == Seq::<char>::empty();
        assert(self.names()[i] == self.strings@[i]@);
    }

    /// The symbol of a name, if the name is interned.
    pub open spec fn spec_lookup(&self, s: Seq<char>) -> Option<u32> {
        if exists|i: int| 0 <= i < self.names().len() && self.names()[i] == s {
            Some((choose|i: int| 0 <= i < self.names().len() && self.names()[i] == s) as u32)
        } else {
            None
        }
    }

    /// A fresh interner holding only the empty string at symbol 0.
    pub fn new() -> (r: Self)
        ensures
            r.wf(),
            r.names() =~= seq![Seq::<char>::empty()],
    {
        let mut map = fx_table_new();
        let mut strings: Vec<String> = Vec::new();
        let empty = String::new();
        strings.push(empty.clone());
        fx_table_insert(&mut map, empty, 0);
        let r = Interner { map, strings };
        proof {
            assert(r.strings@[0]@ == Seq::<char>::empty());
        }
        r
    }

    /// Intern `s`: return its symbol, adding it if it is new.
    pub fn intern(&mut self, s: &str) -> (r: SymbolId)
        requires
            old(self).wf(),
            old(self).names().len() < u32::MAX,
        ensures
            final(self).wf(),
            0 <= r.0 < final(self).names().len(),
            final(self).names()[r.0 as int] == s@,
            old(self).names().is_prefix_of(final(self).names()),
            old(self).names().contains(s@) ==> final(self).names() == old(self).names(),
            !old(self).names().contains(s@) ==> final(self).names() == old(self).names().push(s@)
                && r.0 == old(self).names().len(),
    {
        match fx_table_get(&self.map, s) {
            Some(id) => {
                proof {
                    assert(self.names()[id as int] == s@);
                }
                SymbolId(id)
            },
            None => {
                let id = self.strings.len() as u32;
                proof {
                    if self.names().contains(s@) {
                        let i = choose|i: int| 0 <= i < self.names().len() && self.names()[i] == s@;
                        assert(fx_table_contents(self.map).dom().contains(self.strings@[i]@));
                    }
                }
                let owned = s.to_owned();
                self.strings.push(owned.clone());
                fx_table_insert(&mut self.map, owned, id);
                proof {
                    assert(self.names() =~= old(self).names().push(s@));
                    assert forall|i: int, j: int|
                        0 <= i < self.strings@.len() && 0 <= j < self.strings@.len() && i != j
                            implies #[trigger] self.strings@[i]@ != #[trigger] self.strings@[j]@ by {
                        if i < old(self).strings@.len() && j < old(self).strings@.len() {
                        } else if i == id {
                            assert(old(self).names()[j] == self.strings@[j]@);
                        } else {
                            assert(old(self).names()[i] == self.strings@[i]@);
                        }
                    }
                    assert forall|i: int| 0 <= i < self.strings@.len() implies #[trigger]
                        fx_table_contents(self.map).dom().contains(self.strings@[i]@) by {
                        if i < old(self).strings@.len() {
                            assert(fx_table_contents(old(self).map).dom().contains(
                                old(self).strings@[i]@,
                            ));
                        }
                    }
                }
                SymbolId(id)
            },
        }
    }

    /// The string of a symbol, or the empty string for an unknown symbol.
    pub fn resolve(&self, id: SymbolId) -> (r: &str)
        requires
            self.wf(),
        ensures
            (id.0 as int) < self.names().len() ==> r@ == self.names()[id.0 as int],
            (id.0 as int) >= self.names().len() ==> r@ == Seq::<char>::empty(),
    {
        let i = id.0 as usize;
        if i < self.strings.len() {
            self.strings[i].as_str()
        } else {
            self.strings[0].as_str()
        }
    }

    /// The number of interned strings (the empty string included).
    pub fn len(&self) -> (r: usize)
        ensures
            r == self.names().len(),
    {
        self.strings.len()
    }
}

/// Intern `s` in `interner` (see [`Interner::intern`]).
pub fn intern(interner: &mut Interner, s: &str) -> (r: SymbolId)
    requires
        old(interner).wf(),
        old(interner).names().len() < u32::MAX,
    ensures
        final(interner).wf(),
        0 <= r.0 < final(interner).names().len(),
        final(interner).names()[r.0 as int] == s@,
        old(interner).names().is_prefix_of(final(interner).names()),
        old(interner).names().contains(s@) ==> final(interner).names() == old(interner).names(),
        !old(interner).names().contains(s@) ==> final(interner).names() == old(
            interner,
        ).names().push(s@) && r.0 == old(interner).names().len(),
{
    interner.intern(s)
}

/// The string of a symbol in `interner` (see [`Interner::resolve`]).
pub fn resolve(interner: &Interner, id: SymbolId) -> (r: &str)
    requires
        interner.wf(),
    ensures
        (id.0 as int) < interner.names().len() ==> r@ == interner.names()[id.0 as int],
        (id.0 as int) >= interner.names().len() ==> r@ == Seq::<char>::empty(),
{
    interner.resolve(id)
}

/// The number of strings held by `interner`.
pub fn interned_count(interner: &Interner) -> (r: usize)
    ensures
        r == interner.names().len(),
{
    interner.len()
}

/// Whether `s` starts with the negation marker `~`.
pub open spec fn has_tilde(s: Seq<char>) -> bool {
    s.len() > 0 && s[0] == '~'
}

/// `s` without a leading `~`.
pub open spec fn strip_tilde(s: Seq<char>) -> Seq<char> {
    if has_tilde(s) { s.drop_first() } else { s }
}

/// The string of symbol `sym`, or the empty string for an unknown symbol.
pub open spec fn name_text(names: Seq<Seq<char>>, sym: u32) -> Seq<char> {
    if (sym as int) < names.len() {
        names[sym as int]
    } else {
        Seq::empty()
    }
}

/// Intern a literal name; a leading `~` sets the negation flag.
pub fn intern_literal(interner: &mut Interner, s: &str) -> (r: LiteralId)
    requires
        old(interner).wf(),
        old(interner).names().len() < 0x7fff_ffff,
    ensures
        final(interner).wf(),
        0 <= r.spec_symbol() < final(interner).names().len(),
        final(interner).names()[r.spec_symbol() as int] == strip_tilde(s@),
        r.spec_negated() == has_tilde(s@),
        final(interner).names().len() <= old(interner).names().len() + 1,
        old(interner).names().is_prefix_of(final(interner).names()),
{
    let n = s.unicode_len();
    if n > 0 && s.get_char(0) == '~' {
        let rest = s.substring_char(1, n);
        proof {
            assert(rest@ =~= s@.drop_first());
        }
        let sym = interner.intern(rest);
        proof {
            let v = sym.0;
            assert(v < 0x7fff_ffffu32 ==> v & 0x7fff_ffffu32 == v) by (bit_vector);
        }
        LiteralId::negated(sym)
    } else {
        let sym = interner.intern(s);
        proof {
            let v = sym.0;
            assert(v < 0x7fff_ffffu32 ==> v & 0x7fff_ffffu32 == v) by (bit_vector);
        }
        LiteralId::positive(sym)
    }
}

/// The canonical text of a literal id: its name, prefixed by `~` when negated.
pub fn resolve_literal(interner: &Interner, id: LiteralId) -> (r: String)
    requires
        interner.wf(),
    ensures
        r@ == (if id.spec_negated() {
            seq!['~'] + name_text(interner.names(), id.spec_symbol())
        } else {
            name_text(interner.names(), id.spec_symbol())
        }),
{
    let name = interner.resolve(id.symbol());
    if id.is_negated() {
        let mut out = String::from_str("~");
        proof {
            reveal_strlit("~");
        }
        out.append(name);
        out
    } else {
        name.to_owned()
    }
}


impl SymbolId {
    /// The display text of the symbol: its string in `interner`, or the
    /// empty string for an unknown symbol.
    pub fn to_text(self, interner: &Interner) -> (r: String)
        requires
            interner.wf(),
        ensures
            (self.0 as int) < interner.names().len() ==> r@ == interner.names()[self.0 as int],
            (self.0 as int) >= interner.names().len() ==> r@ == Seq::<char>::empty(),
    {
        String::from_str(interner.resolve(self))
    }
}

impl LiteralId {
    /// The display text of the literal: its name, after `~` when negated.
    pub fn to_text(self, interner: &Interner) -> (r: String)
        requires
            interner.wf(),
        ensures
            r@ == (if self.spec_negated() {
                seq!['~'] + name_text(interner.names(), self.spec_symbol())
            } else {
                name_text(interner.names(), self.spec_symbol())
            }),
    {
        resolve_literal(interner, self)
    }
}

/// What `{:?}` writes for a string: the string quoted, with `std`'s escapes.
pub uninterp spec fn debug_quote(s: Seq<char>) -> Seq<char>;

/// `<str as Debug>::fmt` through `format!("{:?}", ..)`: the string quoted,
/// with its escapes.
#[verifier::external_body]
fn debug_quoted(s: &str) -> (r: String)
    ensures
        r@ == debug_quote(s@),
{
    format!("{:?}", s)
}

impl SymbolId {
    /// The debugging text of the symbol: `SymbolId(` its number `: ` its
    /// string quoted `)`.
    pub fn debug_text(self, interner: &Interner) -> (r: String)
        requires
            interner.wf(),
        ensures
            r@ == "SymbolId("@ + decimal(self.0 as nat) + ": "@ + debug_quote(name_text(interner.names(), self.0))
                + ")"@,
    {
        let mut out = String::from_str("SymbolId(");
        push_decimal(&mut out, self.0 as u64);
        out.append(": ");
        let q = debug_quoted(interner.resolve(self));
        out.append(q.as_str());
        out.append(")");
        out
    }
}

impl LiteralId {
    /// The debugging text of the literal id: `LiteralId(` its name, after
    /// `~` when negated, `)`.
    pub fn debug_text(self, interner: &Interner) -> (r: String)
        requires
            interner.wf(),
        ensures
            r@ == "LiteralId("@ + (if self.spec_negated() {
                "~"@
            } else {
                Seq::<char>::empty()
            }) + name_text(interner.names(), self.spec_symbol()) + ")"@,
    {
        let mut out = String::from_str("LiteralId(");
        if self.is_negated() {
            out.append("~");
        }
        out.append(interner.resolve(self.symbol()));
        out.append(")");
        out
    }
}

} // verus!
