//! Predicate identity: an interned functor and an argument count.

use vstd::prelude::*;
use crate::intern::{Interner, SymbolId};
use crate::text::{decimal, push_decimal};

verus! {

/// A predicate's interned functor and argument count.
///
/// Argument values, negation, modality and temporal bounds are not part of
/// it. Ordering follows symbol ids, then arity.
#[derive(Clone, Copy, Debug, PartialEq, Eq, Structural, Hash, PartialOrd, Ord)]
pub struct PredicateKey {
    functor: SymbolId,
    arity: usize,
}

impl PredicateKey {
    /// The functor symbol, as a spec value.
    pub closed spec fn spec_functor(self) -> SymbolId {
        self.functor
    }

    /// The argument count, as a spec value.
    pub closed spec fn spec_arity(self) -> usize {
        self.arity
    }

    /// A key from a functor and an argument count.
    pub fn new(functor: SymbolId, arity: usize) -> (r: Self)
        ensures
            r.spec_functor() == functor,
            r.spec_arity() == arity,
    {
        PredicateKey { functor, arity }
    }

    /// The functor symbol.
    pub fn functor_id(self) -> (r: SymbolId)
        ensures
            r == self.spec_functor(),
    {
        self.functor
    }

    /// The functor name, resolved in `interner`.
    pub fn functor(self, interner: &Interner) -> (r: &str)
        requires
            interner.wf(),
        ensures
            (self.spec_functor().0 as int) < interner.names().len() ==> r@ == interner.names()[self.spec_functor().0 as int],
    {
        interner.resolve(self.functor)
    }

    /// The argument count.
    pub fn arity(self) -> (r: usize)
        ensures
            r == self.spec_arity(),
    {
        self.arity
    }

    /// The diagnostic text `functor/arity`.
    pub fn to_text(self, interner: &Interner) -> (r: String)
        requires
            interner.wf(),
        ensures
            (self.spec_functor().0 as int) < interner.names().len() ==> r@ == interner.names()[self.spec_functor().0 as int] + seq!['/']
                + decimal(self.spec_arity() as nat),
    {
        let mut out = String::new();
        out.append(interner.resolve(self.functor));
        proof {
            reveal_strlit("/");
        }
        out.append("/");
        push_decimal(&mut out, self.arity as u64);
        proof {
            if (self.spec_functor().0 as int) < interner.names().len() {
                assert(out@ =~= interner.names()[self.spec_functor().0 as int] + seq!['/'] + decimal(self.spec_arity() as nat));
            }
        }
        out
    }
}

} // verus!
