//! A map from backend handles to positions, held in the fast integer-keyed
//! hash map of the `rustc-hash` crate.

use vstd::prelude::*;

use rustc_hash::FxHashMap;

verus! {

/// The hasher factory of the `rustc-hash` crate. Nothing is claimed of it but
/// that it is there.
#[verifier::external_type_specification]
#[verifier::external_body]
pub struct ExFxBuildHasher(rustc_hash::FxBuildHasher);

/// `FxHashMap::default`: a map without entries.
#[verifier::external_body]
fn fx_new() -> (m: FxHashMap<usize, usize>)
    ensures
        forall|k: usize| !m@.contains_key(k),
{
    FxHashMap::default()
}

/// `FxHashMap::get`: the value stored under a key, if there is one.
#[verifier::external_body]
fn fx_get(m: &FxHashMap<usize, usize>, key: usize) -> (r: Option<usize>)
    ensures
        r == (if m@.contains_key(key) {
            Some(m@[key])
        } else {
            None::<usize>
        }),
{
    m.get(&key).copied()
}

/// `FxHashMap::insert`: stores a value under a key, replacing what was there.
#[verifier::external_body]
fn fx_insert(m: &mut FxHashMap<usize, usize>, key: usize, value: usize)
    ensures
        final(m)@ == old(m)@.insert(key, value),
{
    m.insert(key, value);
}

/// A map from handles to positions.
pub struct HandleMap {
    map: FxHashMap<usize, usize>,
}

impl View for HandleMap {
    type V = Map<usize, usize>;

    closed spec fn view(&self) -> Map<usize, usize> {
        self.map@
    }
}

impl HandleMap {
    pub fn new() -> (m: HandleMap)
        ensures
            m@ == Map::<usize, usize>::empty(),
    {
        let m: HandleMap = HandleMap { map: fx_new() };
        assert(m@ =~= Map::<usize, usize>::empty());
        m
    }

    pub fn get(&self, handle: usize) -> (r: Option<usize>)
        ensures
            r == (if self@.contains_key(handle) {
                Some(self@[handle])
            } else {
                None::<usize>
            }),
    {
        fx_get(&self.map, handle)
    }

    pub fn insert(&mut self, handle: usize, at: usize)
        ensures
            final(self)@ == old(self)@.insert(handle, at),
    {
        fx_insert(&mut self.map, handle, at);
    }
}

} // verus!
