//! The names that are in scope, each with the value that it stands for.

use rustc_hash::FxHashMap;
use vstd::prelude::*;

verus! {

/// `rustc_hash::FxBuildHasher`, the hasher of an `FxHashMap`.
#[verifier::external_type_specification]
#[verifier::external_body]
pub struct ExFxBuildHasher(rustc_hash::FxBuildHasher);

/// What an `FxHashMap` holds, each key by its characters.
pub uninterp spec fn entries(m: FxHashMap<String, usize>) -> Map<Seq<char>, usize>;

/// Calls `FxHashMap::default`, which makes a map without entries.
#[verifier::external_body]
fn empty_map() -> (m: FxHashMap<String, usize>)
    ensures
        entries(m).dom() == Set::<Seq<char>>::empty(),
{
    FxHashMap::default()
}

/// Calls `FxHashMap::insert`, which stores a value under a key in place of what
/// was there, and leaves the other entries as they were.
#[verifier::external_body]
fn insert_entry(m: &mut FxHashMap<String, usize>, key: String, value: usize)
    ensures
        entries(*final(m)) == entries(*old(m)).insert(key@, value),
{
    m.insert(key, value);
}

/// Calls `FxHashMap::get`, which finds the value under a key, where there is one.
#[verifier::external_body]
fn get_entry(m: &FxHashMap<String, usize>, key: &str) -> (r: Option<usize>)
    ensures
        r == (if entries(*m).dom().contains(key@) {
            Some(entries(*m)[key@])
        } else {
            None
        }),
{
    m.get(key).copied()
}

/// The names that are in scope, each with the value that it stands for.
pub struct Scope {
    map: FxHashMap<String, usize>,
}

impl View for Scope {
    type V = Map<Seq<char>, usize>;

    closed spec fn view(&self) -> Map<Seq<char>, usize> {
        entries(self.map)
    }
}

impl Scope {
    /// A scope without names.
    pub fn new() -> (r: Self)
        ensures
            r@ == Map::<Seq<char>, usize>::empty(),
    {
        let map = empty_map();
        assert(entries(map) =~= Map::<Seq<char>, usize>::empty());
        Scope { map }
    }

    /// Lets a name stand for a value, whatever it stood for before.
    pub fn insert(&mut self, name: String, value: usize)
        ensures
            final(self)@ == old(self)@.insert(name@, value),
    {
        insert_entry(&mut self.map, name, value);
    }

    /// The value that a name stands for.
    pub fn get(&self, name: &str) -> (r: Option<usize>)
        ensures
            r == (if self@.dom().contains(name@) {
                Some(self@[name@])
            } else {
                None
            }),
    {
        get_entry(&self.map, name)
    }
}

} // verus!
