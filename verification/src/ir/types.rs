//! Types of values.

use vstd::prelude::*;

verus! {

/// Whether an integer type carries a sign.
#[derive(Clone, Copy, PartialEq, Eq, Structural, Debug, Hash)]
pub enum Signedness {
    Signed,
    Unsigned,
    Signless,
}

/// A type. A composite type is an entry of the type table of the context that
/// made it; entries are unique, so equal handles of one context are equal
/// types.
#[derive(Clone, Copy, PartialEq, Eq, Structural, Debug, Hash)]
pub enum TypeHandle {
    /// An integer of the given width.
    Integer { width: u32, signedness: Signedness },
    /// A clock.
    Clock,
    /// A reset.
    Reset,
    /// A finite state machine instance (`!fsm.instance`).
    Instance,
    /// The alternative spelling of an instance (`!fsm.instancetype`).
    InstanceAlias,
    /// A type that is made of others, by its place in the type table.
    Composite { id: usize },
}

/// Builtin integer types.
pub struct IntegerType;

impl IntegerType {
    /// The integer type of the given width and signedness.
    pub fn get(width: u32, signedness: Signedness) -> (r: TypeHandle)
        ensures
            r == (TypeHandle::Integer { width, signedness }),
    {
        TypeHandle::Integer { width, signedness }
    }
}

/// The signless one bit integer, the type of conditions.
pub open spec fn i1() -> TypeHandle {
    TypeHandle::Integer { width: 1, signedness: Signedness::Signless }
}

/// A named port of a module type.
pub struct Field {
    pub name: String,
    pub ty: TypeHandle,
}

/// What a composite type is made of.
pub enum Shape {
    /// A function type: what goes in and what comes out.
    Function { inputs: Vec<TypeHandle>, results: Vec<TypeHandle> },
    /// A module type: its named ports.
    Module { ins: Vec<Field>, outs: Vec<Field> },
    /// Any other type.
    Opaque,
}

/// An entry of the type table.
pub struct Composite {
    /// What the type is made of.
    pub shape: Shape,
    /// How the type is written.
    pub text: String,
}

/// The types of the given ports.
pub open spec fn field_types(fields: Seq<Field>) -> Seq<TypeHandle> {
    fields.map_values(|f: Field| f.ty)
}

/// The types of the given ports.
pub fn types_of_fields(fields: &Vec<Field>) -> (r: Vec<TypeHandle>)
    ensures
        r@ == field_types(fields@),
{
    let mut out: Vec<TypeHandle> = Vec::new();
    let mut i: usize = 0;
    while i < fields.len()
        invariant
            i <= fields@.len(),
            out@ == field_types(fields@).take(i as int),
        decreases fields@.len() - i,
    {
        out.push(fields[i].ty);
        i += 1;
    }
    assert(field_types(fields@).take(i as int) == field_types(fields@));
    out
}

/// A copy of a list of types.
pub fn copy_types(types: &Vec<TypeHandle>) -> (r: Vec<TypeHandle>)
    ensures
        r@ == types@,
{
    let mut out: Vec<TypeHandle> = Vec::new();
    let mut i: usize = 0;
    while i < types.len()
        invariant
            i <= types@.len(),
            out@ == types@.take(i as int),
        decreases types@.len() - i,
    {
        out.push(types[i]);
        i += 1;
    }
    out
}

/// Whether two lists of types are equal.
pub fn same_types(a: &Vec<TypeHandle>, b: &Vec<TypeHandle>) -> (r: bool)
    ensures
        r == (a@ == b@),
{
    if a.len() != b.len() {
        return false;
    }
    let mut i: usize = 0;
    while i < a.len()
        invariant
            i <= a@.len(),
            a@.len() == b@.len(),
            a@.take(i as int) == b@.take(i as int),
        decreases a@.len() - i,
    {
        if a[i] != b[i] {
            return false;
        }
        assert(a@.take(i + 1) == a@.take(i as int).push(a@[i as int]));
        assert(b@.take(i + 1) == b@.take(i as int).push(b@[i as int]));
        i += 1;
    }
    assert(a@.take(i as int) == a@);
    assert(b@.take(i as int) == b@);
    true
}

} // verus!
