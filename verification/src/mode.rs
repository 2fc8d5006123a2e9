//! Modal operators for deontic logic: obligation `[O]`, permission `[P]`,
//! forbidden `[F]`.

use vstd::prelude::*;
use vstd::std_specs::cmp::PartialEqSpecImpl;

verus! {

/// A modal operator; the empty mode carries no name.
#[derive(Debug, Hash)]
pub struct Mode {
    /// The mode name (e.g. "O" for obligation), if any.
    pub name: Option<String>,
    /// Whether the mode is negated.
    pub negation: bool,
}

/// The view of an optional string.
pub open spec fn opt_view(o: Option<String>) -> Option<Seq<char>> {
    match o {
        Some(s) => Some(s@),
        None => None,
    }
}

/// Copy an optional string.
pub fn clone_opt_string(o: &Option<String>) -> (r: Option<String>)
    ensures
        r == *o,
{
    match o {
        Some(s) => Some(s.clone()),
        None => None,
    }
}

/// Compare two optional strings by their characters.
pub fn opt_string_eq(a: &Option<String>, b: &Option<String>) -> (r: bool)
    ensures
        r == (opt_view(*a) == opt_view(*b)),
{
    match (a, b) {
        (Some(x), Some(y)) => x.eq(y),
        (None, None) => true,
        _ => false,
    }
}

impl View for Mode {
    type V = (Option<Seq<char>>, bool);

    open spec fn view(&self) -> (Option<Seq<char>>, bool) {
        (opt_view(self.name), self.negation)
    }
}

impl Clone for Mode {
    fn clone(&self) -> (r: Self)
        ensures
            r == *self,
    {
        Mode { name: clone_opt_string(&self.name), negation: self.negation }
    }
}

impl PartialEq for Mode {
    fn eq(&self, other: &Self) -> (r: bool) {
        self.same(other)
    }
}

impl PartialEqSpecImpl for Mode {
    open spec fn obeys_eq_spec() -> bool {
        true
    }

    open spec fn eq_spec(&self, other: &Self) -> bool {
        self@ == other@
    }
}

impl Eq for Mode {
}

impl Default for Mode {
    fn default() -> (r: Self)
        ensures
            r@ == (None::<Seq<char>>, false),
    {
        Mode::empty()
    }
}

impl Mode {
    /// The empty (non-modal) mode.
    pub fn empty() -> (r: Self)
        ensures
            r@ == (None::<Seq<char>>, false),
    {
        Mode { name: None, negation: false }
    }

    /// A mode with the given name.
    pub fn new(name: &str) -> (r: Self)
        ensures
            r@ == (Some(name@), false),
    {
        Mode { name: Some(name.to_owned()), negation: false }
    }

    /// Obligation, `[O]`.
    pub fn obligation() -> (r: Self)
        ensures
            r@ == (Some(seq!['O']), false),
    {
        proof {
            reveal_strlit("O");
        }
        Self::new("O")
    }

    /// Permission, `[P]`.
    pub fn permission() -> (r: Self)
        ensures
            r@ == (Some(seq!['P']), false),
    {
        proof {
            reveal_strlit("P");
        }
        Self::new("P")
    }

    /// Forbidden, `[F]`.
    pub fn forbidden() -> (r: Self)
        ensures
            r@ == (Some(seq!['F']), false),
    {
        proof {
            reveal_strlit("F");
        }
        Self::new("F")
    }

    /// Whether this is the empty (non-modal) mode.
    pub fn is_empty(&self) -> (r: bool)
        ensures
            r == self.name.is_none(),
    {
        self.name.is_none()
    }

    /// The same mode with its negation flipped.
    pub fn complement(&self) -> (r: Self)
        ensures
            r@ == (self@.0, !self@.1),
    {
        Mode { name: clone_opt_string(&self.name), negation: !self.negation }
    }

    /// Whether two modes have the same name and negation.
    pub fn same(&self, other: &Self) -> (r: bool)
        ensures
            r == (self@ == other@),
    {
        opt_string_eq(&self.name, &other.name) && self.negation == other.negation
    }

    /// The display text: `[name]`, `[-name]`, or nothing for the empty mode.
    pub open spec fn spec_text(self) -> Seq<char> {
        match opt_view(self.name) {
            Some(n) => if self.negation {
                seq!['[', '-'] + n + seq![']']
            } else {
                seq!['['] + n + seq![']']
            },
            None => Seq::empty(),
        }
    }

    /// Render the mode as display text.
    pub fn to_text(&self) -> (r: String)
        ensures
            r@ == self.spec_text(),
    {
        match &self.name {
            Some(n) => {
                let mut out = String::new();
                proof {
                    reveal_strlit("[-");
                    reveal_strlit("[");
                    reveal_strlit("]");
                }
                if self.negation {
                    out.append("[-");
                } else {
                    out.append("[");
                }
                out.append(n.as_str());
                out.append("]");
                proof {
                    assert(out@ =~= self.spec_text());
                }
                out
            },
            None => String::new(),
        }
    }
}

} // verus!
