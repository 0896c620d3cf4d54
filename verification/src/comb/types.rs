//! The integer types that combinational operations work on.

use crate::ir::context::{Context, OpPtr};
use crate::ir::error;
use crate::ir::error::VerifyError;
use crate::ir::types::TypeHandle;
use vstd::prelude::*;

verus! {

/// The width of an integer type; other types have none.
pub open spec fn integer_width(ty: TypeHandle) -> Option<u32> {
    match ty {
        TypeHandle::Integer { width, .. } => Some(width),
        _ => None,
    }
}

/// What is wrong with a type that is no integer.
pub open spec fn not_integer_text(ctx: &Context, ty: TypeHandle) -> Seq<char> {
    "expected an integer type, found "@ + ctx.type_text(ty)
}

/// What is wrong with a value that is to be an integer.
pub open spec fn integer_fault(ctx: &Context, op: OpPtr, ty: TypeHandle, what: Seq<char>) -> Option<
    (OpPtr, Seq<char>),
> {
    if integer_width(ty) is Some {
        None
    } else {
        Some((op, what + ": "@ + not_integer_text(ctx, ty)))
    }
}

/// What is wrong with a value that is to be a single bit.
pub open spec fn i1_fault(ctx: &Context, op: OpPtr, ty: TypeHandle, what: Seq<char>) -> Option<
    (OpPtr, Seq<char>),
> {
    if integer_width(ty) is None {
        integer_fault(ctx, op, ty, what)
    } else if integer_width(ty) != Some(1u32) {
        Some((op, what + ": expected i1, found "@ + ctx.type_text(ty)))
    } else {
        None
    }
}

/// The width of an integer type.
pub fn get_integer_width(ctx: &Context, ty: TypeHandle) -> (r: Result<u32, String>)
    ensures
        match r {
            Ok(w) => integer_width(ty) == Some(w),
            Err(e) => integer_width(ty) is None && e@ == not_integer_text(ctx, ty),
        },
{
    match ty {
        TypeHandle::Integer { width, .. } => Ok(width),
        _ => Err(
            "expected an integer type, found ".to_owned().concat(ctx.display_type(ty).as_str()),
        ),
    }
}

/// Checks that a value of an operation is an integer, and returns its width.
pub fn verify_integer_type(op: OpPtr, ctx: &Context, ty: TypeHandle, what: &str) -> (r: Result<
    u32,
    VerifyError,
>)
    ensures
        error::reported(r) == integer_fault(ctx, op, ty, what@),
        r matches Ok(w) ==> integer_width(ty) == Some(w),
{
    match get_integer_width(ctx, ty) {
        Ok(w) => Ok(w),
        Err(e) => Err(
            VerifyError { at: op, message: what.to_owned().concat(": ").concat(e.as_str()) },
        ),
    }
}

/// Checks that a value of an operation is a single bit.
pub fn verify_i1(op: OpPtr, ctx: &Context, ty: TypeHandle, what: &str) -> (r: Result<(), VerifyError>)
    ensures
        error::reported(r) == i1_fault(ctx, op, ty, what@),
{
    match verify_integer_type(op, ctx, ty, what) {
        Ok(w) => if w != 1 {
            Err(
                VerifyError {
                    at: op,
                    message: what.to_owned().concat(": expected i1, found ").concat(
                        ctx.display_type(ty).as_str(),
                    ),
                },
            )
        } else {
            Ok(())
        },
        Err(e) => Err(e),
    }
}

} // verus!
