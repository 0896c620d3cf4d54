//! Attributes: the non-SSA data of an operation.

use crate::ir::types::TypeHandle;
use vstd::prelude::*;

verus! {

/// The attribute names that the dialects read.
#[derive(Clone, Copy, PartialEq, Eq, Structural, Debug, Hash)]
pub enum AttrKey {
    /// `builtin_sym_name`
    BuiltinSymName,
    /// `sym_name`
    SymName,
    /// `name`
    Name,
    /// `initialState`
    InitialState,
    /// `function_type`
    FunctionType,
    /// `arg_names`
    ArgNames,
    /// `arg_attrs`
    ArgAttrs,
    /// `res_names`
    ResNames,
    /// `res_attrs`
    ResAttrs,
    /// `nextState`
    NextState,
    /// `initValue`
    InitValue,
    /// `machine`
    Machine,
}

/// An attribute, as far as the dialects look into it.
pub enum Attribute {
    /// An identifier.
    Identifier(String),
    /// A string.
    String(String),
    /// A type.
    Type(TypeHandle),
    /// A list, of which only the length is read.
    Vec(usize),
    /// A dictionary, of which only the size is read.
    Dict(usize),
    /// An integer of the given width.
    Integer { width: u32, value: u64 },
    /// Anything else.
    Other,
}

/// Whether `s` is an identifier: a letter or an underscore, then letters,
/// digits and underscores, all of them ASCII.
pub open spec fn is_identifier(s: Seq<char>) -> bool {
    &&& s.len() > 0
    &&& !('0' <= s[0] <= '9')
    &&& forall|i: int|
        0 <= i < s.len() ==> 'a' <= #[trigger] s[i] <= 'z' || 'A' <= s[i] <= 'Z' || '0' <= s[i]
            <= '9' || s[i] == '_'
}

/// Calls `pliron::identifier::Identifier::try_from`, which accepts a string
/// exactly where it is an identifier.
#[verifier::external_body]
pub(crate) fn identifier_accepts(s: &str) -> (r: bool)
    ensures
        r == is_identifier(s@),
{
    pliron::identifier::Identifier::try_from(s).is_ok()
}

/// The attributes of one operation, each under its name.
pub struct AttributeDict {
    pub entries: Vec<(AttrKey, Attribute)>,
}

impl AttributeDict {
    /// No name occurs twice, and what is stored as an identifier is one.
    pub open spec fn wf(&self) -> bool {
        &&& forall|i: int, j: int|
            0 <= i < j < self.entries@.len() ==> (#[trigger] self.entries@[i]).0 != (
            #[trigger] self.entries@[j]).0
        &&& forall|i: int|
            0 <= i < self.entries@.len() ==> ((#[trigger] self.entries@[i]).1 matches Attribute::Identifier(s)
                ==> is_identifier(s@))
    }

    /// Whether `key` is present.
    pub open spec fn has(&self, key: AttrKey) -> bool {
        exists|i: int| 0 <= i < self.entries@.len() && (#[trigger] self.entries@[i]).0 == key
    }

    /// The attribute stored under `key`, where there is one.
    pub open spec fn at(&self, key: AttrKey) -> Option<Attribute> {
        if self.has(key) {
            let i = choose|i: int| 0 <= i < self.entries@.len() && (#[trigger] self.entries@[i]).0 == key;
            Some(self.entries@[i].1)
        } else {
            None
        }
    }

    /// A dictionary without entries.
    pub fn new() -> (r: Self)
        ensures
            r.wf(),
            forall|key: AttrKey| r.at(key) is None,
    {
        AttributeDict { entries: Vec::new() }
    }

    /// Where a name occurs once, it is found at its place.
    proof fn lemma_at(&self, i: int)
        requires
            self.wf(),
            0 <= i < self.entries@.len(),
        ensures
            self.at(self.entries@[i].0) == Some(self.entries@[i].1),
    {
        let key = self.entries@[i].0;
        let j = choose|j: int| 0 <= j < self.entries@.len() && (#[trigger] self.entries@[j]).0 == key;
        assert(self.entries@[i].0 == key);
        assert(i == j) by {
            if i < j {
                assert(self.entries@[i].0 != self.entries@[j].0);
            } else if j < i {
                assert(self.entries@[j].0 != self.entries@[i].0);
            }
        }
    }

    /// An identifier attribute holds an identifier.
    pub proof fn lemma_identifier(&self, key: AttrKey)
        requires
            self.wf(),
        ensures
            self.at(key) matches Some(Attribute::Identifier(s)) ==> is_identifier(s@),
    {
    }

    /// The attribute stored under `key`.
    pub fn get(&self, key: AttrKey) -> (r: Option<&Attribute>)
        requires
            self.wf(),
        ensures
            r is Some <==> self.at(key) is Some,
            r matches Some(a) ==> self.at(key) == Some(*a),
    {
        let mut i: usize = 0;
        while i < self.entries.len()
            invariant
                i <= self.entries@.len(),
                self.wf(),
                forall|j: int| 0 <= j < i ==> (#[trigger] self.entries@[j]).0 != key,
            decreases self.entries@.len() - i,
        {
            if self.entries[i].0 == key {
                proof {
                    self.lemma_at(i as int);
                }
                return Some(&self.entries[i].1);
            }
            i += 1;
        }
        None
    }

    /// Stores `value` under `key`, in place of what was there.
    pub fn set(&mut self, key: AttrKey, value: Attribute)
        requires
            old(self).wf(),
            value matches Attribute::Identifier(s) ==> is_identifier(s@),
        ensures
            final(self).wf(),
            final(self).at(key) == Some(value),
            forall|other: AttrKey| other != key ==> final(self).at(other) == old(self).at(other),
    {
        let mut i: usize = 0;
        while i < self.entries.len()
            invariant
                i <= self.entries@.len(),
                *self == *old(self),
                self.wf(),
                value matches Attribute::Identifier(s) ==> is_identifier(s@),
                forall|j: int| 0 <= j < i ==> (#[trigger] self.entries@[j]).0 != key,
            decreases self.entries@.len() - i,
        {
            if self.entries[i].0 == key {
                self.entries.set(i, (key, value));
                proof {
                    assert forall|a: int, b: int| 0 <= a < b < self.entries@.len() implies (
                    #[trigger] self.entries@[a]).0 != (#[trigger] self.entries@[b]).0 by {
                        assert(old(self).entries@[a].0 != old(self).entries@[b].0);
                    }
                    assert(self.wf());
                    self.lemma_at(i as int);
                    assert forall|other: AttrKey| other != key implies self.at(other) == old(
                        self,
                    ).at(other) by {
                        Self::lemma_same_elsewhere(*old(self), *self, key, other);
                    }
                }
                return;
            }
            i += 1;
        }
        self.entries.push((key, value));
        proof {
            assert forall|a: int, b: int| 0 <= a < b < self.entries@.len() implies (
            #[trigger] self.entries@[a]).0 != (#[trigger] self.entries@[b]).0 by {
                if b < old(self).entries@.len() {
                    assert(old(self).entries@[a].0 != old(self).entries@[b].0);
                } else {
                    assert(old(self).entries@[a].0 != key);
                }
            }
            assert(self.wf());
            self.lemma_at(self.entries@.len() - 1);
            assert forall|other: AttrKey| other != key implies self.at(other) == old(self).at(
                other,
            ) by {
                Self::lemma_same_elsewhere(*old(self), *self, key, other);
            }
        }
    }

    /// Two dictionaries that agree but for the entry of `key` agree on every
    /// other name.
    proof fn lemma_same_elsewhere(before: Self, after: Self, key: AttrKey, other: AttrKey)
        requires
            before.wf(),
            after.wf(),
            other != key,
            before.entries@.len() <= after.entries@.len(),
            forall|i: int|
                0 <= i < before.entries@.len() ==> (#[trigger] after.entries@[i])
                    == before.entries@[i] || (after.entries@[i].0 == key && before.entries@[i].0 == key),
            forall|i: int|
                before.entries@.len() <= i < after.entries@.len() ==> (
                #[trigger] after.entries@[i]).0 == key,
        ensures
            after.at(other) == before.at(other),
    {
        if before.has(other) {
            let i = choose|i: int|
                0 <= i < before.entries@.len() && (#[trigger] before.entries@[i]).0 == other;
            assert(after.entries@[i] == before.entries@[i]);
            before.lemma_at(i);
            after.lemma_at(i);
        } else if after.has(other) {
            let i = choose|i: int|
                0 <= i < after.entries@.len() && (#[trigger] after.entries@[i]).0 == other;
            assert(before.entries@[i].0 == other);
        }
    }
}

} // verus!
