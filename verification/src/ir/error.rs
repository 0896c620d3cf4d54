//! What a check reports.

use crate::ir::context::OpPtr;
use vstd::prelude::*;

verus! {

/// A fault that a check found: the operation at fault, and what is wrong.
#[derive(Debug)]
pub struct VerifyError {
    pub at: OpPtr,
    pub message: String,
}

impl View for VerifyError {
    type V = (OpPtr, Seq<char>);

    open spec fn view(&self) -> (OpPtr, Seq<char>) {
        (self.at, self.message@)
    }
}

/// The fault that a result reports.
pub open spec fn reported<T>(r: Result<T, VerifyError>) -> Option<(OpPtr, Seq<char>)> {
    match r {
        Ok(_) => None,
        Err(e) => Some(e@),
    }
}

/// A report of one piece of text.
pub fn fault(at: OpPtr, text: &str) -> (e: VerifyError)
    ensures
        e@ == (at, text@),
{
    VerifyError { at, message: text.to_owned() }
}

/// A report of three pieces of text.
pub fn fault3(at: OpPtr, a: &str, b: &str, c: &str) -> (e: VerifyError)
    ensures
        e@ == (at, a@ + b@ + c@),
{
    VerifyError { at, message: a.to_owned().concat(b).concat(c) }
}

/// A report of five pieces of text.
pub fn fault5(at: OpPtr, a: &str, b: &str, c: &str, d: &str, e: &str) -> (r: VerifyError)
    ensures
        r@ == (at, a@ + b@ + c@ + d@ + e@),
{
    VerifyError { at, message: a.to_owned().concat(b).concat(c).concat(d).concat(e) }
}

} // verus!
