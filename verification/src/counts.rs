//! Per-rule counters of the reasoning engine, held in `FxHashMap`s keyed by
//! rule number: how many body literals of each rule are still missing, and
//! whether some body literal of each rule was refuted.

use vstd::prelude::*;
use rustc_hash::FxHashMap;

verus! {

/// What an `FxHashMap` from rule numbers to counts holds.
pub uninterp spec fn fx_count_contents(m: FxHashMap<usize, usize>) -> Map<usize, usize>;

/// What an `FxHashMap` from rule numbers to flags holds.
pub uninterp spec fn fx_flag_contents(m: FxHashMap<usize, bool>) -> Map<usize, bool>;

/// `FxHashMap::default`: an empty map of counts.
#[verifier::external_body]
fn fx_count_new() -> (r: FxHashMap<usize, usize>)
    ensures
        fx_count_contents(r).dom().is_empty(),
{
    FxHashMap::default()
}

/// `HashMap::get` on an `FxHashMap` of counts: the count stored under the
/// key, if any.
#[verifier::external_body]
fn fx_count_get(m: &FxHashMap<usize, usize>, k: usize) -> (r: Option<usize>)
    ensures
        r == (if fx_count_contents(*m).dom().contains(k) {
            Some(fx_count_contents(*m)[k])
        } else {
            None::<usize>
        }),
{
    m.get(&k).copied()
}

/// `HashMap::insert` on an `FxHashMap` of counts: binds the key to the count.
#[verifier::external_body]
fn fx_count_insert(m: &mut FxHashMap<usize, usize>, k: usize, v: usize)
    ensures
        fx_count_contents(*final(m)) == fx_count_contents(*old(m)).insert(k, v),
{
    m.insert(k, v);
}

/// `FxHashMap::default`: an empty map of flags.
#[verifier::external_body]
fn fx_flag_new() -> (r: FxHashMap<usize, bool>)
    ensures
        fx_flag_contents(r).dom().is_empty(),
{
    FxHashMap::default()
}

/// `HashMap::get` on an `FxHashMap` of flags: the flag stored under the key,
/// if any.
#[verifier::external_body]
fn fx_flag_get(m: &FxHashMap<usize, bool>, k: usize) -> (r: Option<bool>)
    ensures
        r == (if fx_flag_contents(*m).dom().contains(k) {
            Some(fx_flag_contents(*m)[k])
        } else {
            None::<bool>
        }),
{
    m.get(&k).copied()
}

/// `HashMap::insert` on an `FxHashMap` of flags: binds the key to the flag.
#[verifier::external_body]
fn fx_flag_insert(m: &mut FxHashMap<usize, bool>, k: usize, v: bool)
    ensures
        fx_flag_contents(*final(m)) == fx_flag_contents(*old(m)).insert(k, v),
{
    m.insert(k, v);
}

/// A count for each of the rules `0..len`, in a map keyed by rule number.
pub struct RuleCounts {
    map: FxHashMap<usize, usize>,
    len: usize,
}

impl View for RuleCounts {
    type V = Seq<usize>;

    /// The counts, by rule number (zero where none is stored).
    closed spec fn view(&self) -> Seq<usize> {
        Seq::new(
            self.len as nat,
            |r: int| if fx_count_contents(self.map).dom().contains(r as usize) { fx_count_contents(self.map)[r as usize] } else { 0 },
        )
    }
}

impl RuleCounts {
    /// No rules yet.
    pub fn new() -> (r: Self)
        ensures
            r@ == Seq::<usize>::empty(),
    {
        let r = RuleCounts { map: fx_count_new(), len: 0 };
        proof {
            assert(r@ =~= Seq::<usize>::empty());
        }
        r
    }

    /// The number of rules counted.
    pub fn len(&self) -> (r: usize)
        ensures
            r == self@.len(),
    {
        self.len
    }

    /// Count one more rule, with count `v`.
    pub fn push(&mut self, v: usize)
        requires
            old(self)@.len() < usize::MAX,
        ensures
            final(self)@ == old(self)@.push(v),
    {
        let ghost before = self@;
        fx_count_insert(&mut self.map, self.len, v);
        self.len = self.len + 1;
        proof {
            assert(self@ =~= before.push(v));
        }
    }

    /// The count of rule `r`.
    pub fn get(&self, r: usize) -> (v: usize)
        requires
            r < self@.len(),
        ensures
            v == self@[r as int],
    {
        match fx_count_get(&self.map, r) {
            Some(v) => v,
            None => 0,
        }
    }

    /// Set the count of rule `r` to `v`.
    pub fn set(&mut self, r: usize, v: usize)
        requires
            r < old(self)@.len(),
        ensures
            final(self)@ == old(self)@.update(r as int, v),
    {
        let ghost before = self@;
        fx_count_insert(&mut self.map, r, v);
        proof {
            assert(self@ =~= before.update(r as int, v));
        }
    }
}

/// A flag for each of the rules `0..len`, in a map keyed by rule number.
pub struct RuleFlags {
    map: FxHashMap<usize, bool>,
    len: usize,
}

impl View for RuleFlags {
    type V = Seq<bool>;

    /// The flags, by rule number (unset where none is stored).
    closed spec fn view(&self) -> Seq<bool> {
        Seq::new(
            self.len as nat,
            |r: int| fx_flag_contents(self.map).dom().contains(r as usize) && fx_flag_contents(self.map)[r as usize],
        )
    }
}

impl RuleFlags {
    /// No rules yet.
    pub fn new() -> (r: Self)
        ensures
            r@ == Seq::<bool>::empty(),
    {
        let r = RuleFlags { map: fx_flag_new(), len: 0 };
        proof {
            assert(r@ =~= Seq::<bool>::empty());
        }
        r
    }

    /// The number of rules flagged.
    pub fn len(&self) -> (r: usize)
        ensures
            r == self@.len(),
    {
        self.len
    }

    /// Flag one more rule, with flag `v`.
    pub fn push(&mut self, v: bool)
        requires
            old(self)@.len() < usize::MAX,
        ensures
            final(self)@ == old(self)@.push(v),
    {
        let ghost before = self@;
        fx_flag_insert(&mut self.map, self.len, v);
        self.len = self.len + 1;
        proof {
            assert(self@ =~= before.push(v));
        }
    }

    /// The flag of rule `r`.
    pub fn get(&self, r: usize) -> (v: bool)
        requires
            r < self@.len(),
        ensures
            v == self@[r as int],
    {
        match fx_flag_get(&self.map, r) {
            Some(v) => v,
            None => false,
        }
    }

    /// Set the flag of rule `r` to `v`.
    pub fn set(&mut self, r: usize, v: bool)
        requires
            r < old(self)@.len(),
        ensures
            final(self)@ == old(self)@.update(r as int, v),
    {
        let ghost before = self@;
        fx_flag_insert(&mut self.map, r, v);
        proof {
            assert(self@ =~= before.update(r as int, v));
        }
    }
}

} // verus!
