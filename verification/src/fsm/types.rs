//! Types for the `fsm` dialect.

use crate::ir::context::Context;
use crate::ir::types::TypeHandle;
use vstd::prelude::*;

verus! {

/// An FSM instance handle type (`!fsm.instance`).
///
/// Represents an instance of a finite state machine.
#[derive(Debug, Clone, Copy, PartialEq, Eq, Structural, Hash)]
pub struct InstanceType;

/// An alternative spelling for FSM instance type (`!fsm.instancetype`).
#[derive(Debug, Clone, Copy, PartialEq, Eq, Structural, Hash)]
pub struct InstanceTypeType;

impl InstanceType {
    /// The handle of this type.
    pub fn get(_ctx: &Context) -> (r: TypeHandle)
        ensures
            r == TypeHandle::Instance,
    {
        TypeHandle::Instance
    }
}

impl InstanceTypeType {
    /// The handle of this type.
    pub fn get(_ctx: &Context) -> (r: TypeHandle)
        ensures
            r == TypeHandle::InstanceAlias,
    {
        TypeHandle::InstanceAlias
    }
}

/// Whether a type is one of the two spellings of an FSM instance.
pub open spec fn names_instance(ty: TypeHandle) -> bool {
    ty == TypeHandle::Instance || ty == TypeHandle::InstanceAlias
}

/// Check if a type handle represents an FSM instance type (`!fsm.instance` or
/// `!fsm.instancetype`).
pub fn is_instance_type(_ctx: &Context, ty: TypeHandle) -> (r: bool)
    ensures
        r == names_instance(ty),
{
    ty == TypeHandle::Instance || ty == TypeHandle::InstanceAlias
}

} // verus!
