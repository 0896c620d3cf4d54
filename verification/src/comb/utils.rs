//! Common verification helpers: operands and results that must agree in width.

use crate::comb::types;
use crate::comb::types::{get_integer_width, verify_i1, verify_integer_type};
use crate::ir::context::{Context, OpPtr, Value};
use crate::ir::error;
use crate::ir::error::VerifyError;
use crate::ir::types::TypeHandle;
use crate::text;
use crate::text::decimal_text;
use vstd::prelude::*;

verus! {

/// The type of an operand.
pub open spec fn operand_type(ctx: &Context, op: OpPtr, i: int) -> TypeHandle {
    ctx.value_type(ctx.op(op).operands@[i])
}

/// The width of an operand.
pub open spec fn operand_width(ctx: &Context, op: OpPtr, i: int) -> Option<u32> {
    types::integer_width(operand_type(ctx, op, i))
}

/// The text of a width that differs from what it should be.
pub open spec fn width_text(op_name: Seq<char>, expected: u32, found: u32) -> Seq<char> {
    op_name + " result width mismatch: expected width "@ + text::decimal(expected as nat)
        + ", found "@ + text::decimal(found as nat)
}

/// What is wrong with the result of an operation whose operands have the given
/// width.
pub open spec fn result_fault(ctx: &Context, op: OpPtr, op_name: Seq<char>, width: u32) -> Option<
    (OpPtr, Seq<char>),
> {
    let ty = ctx.op(op).results@[0];
    if types::integer_width(ty) is None {
        types::integer_fault(ctx, op, ty, op_name + " result"@)
    } else if types::integer_width(ty) != Some(width) {
        Some((op, width_text(op_name, width, types::integer_width(ty)->0)))
    } else {
        None
    }
}

/// The first fault of a binary arithmetic operation.
pub open spec fn binary_fault(ctx: &Context, op: OpPtr, op_name: Seq<char>) -> Option<
    (OpPtr, Seq<char>),
> {
    let lhs = operand_width(ctx, op, 0);
    let rhs = operand_width(ctx, op, 1);
    if lhs is None {
        types::integer_fault(ctx, op, operand_type(ctx, op, 0), op_name + " lhs"@)
    } else if rhs is None {
        types::integer_fault(ctx, op, operand_type(ctx, op, 1), op_name + " rhs"@)
    } else if lhs != rhs {
        Some(
            (
                op,
                op_name + " operand width mismatch: lhs has width "@ + text::decimal(
                    lhs->0 as nat,
                ) + ", rhs has width "@ + text::decimal(rhs->0 as nat),
            ),
        )
    } else {
        result_fault(ctx, op, op_name, lhs->0)
    }
}

/// The first fault of a unary operation.
pub open spec fn unary_fault(ctx: &Context, op: OpPtr, op_name: Seq<char>) -> Option<
    (OpPtr, Seq<char>),
> {
    let input = operand_width(ctx, op, 0);
    if input is None {
        types::integer_fault(ctx, op, operand_type(ctx, op, 0), op_name + " input"@)
    } else {
        result_fault(ctx, op, op_name, input->0)
    }
}

/// The first fault of a reduction.
pub open spec fn reduction_fault(ctx: &Context, op: OpPtr, op_name: Seq<char>) -> Option<
    (OpPtr, Seq<char>),
> {
    if operand_width(ctx, op, 0) is None {
        types::integer_fault(ctx, op, operand_type(ctx, op, 0), op_name + " input"@)
    } else {
        types::i1_fault(ctx, op, ctx.op(op).results@[0], op_name + " result"@)
    }
}

/// The first fault among the first `n` operands of an operation on any number
/// of operands of one width.
pub open spec fn operands_fault(ctx: &Context, op: OpPtr, op_name: Seq<char>, n: nat) -> Option<
    (OpPtr, Seq<char>),
>
    decreases n,
{
    if n == 0 {
        None
    } else {
        let i = (n - 1) as nat;
        let width = operand_width(ctx, op, i as int);
        let first = operand_width(ctx, op, 0);
        match operands_fault(ctx, op, op_name, i) {
            Some(f) => Some(f),
            None => if width is None {
                types::integer_fault(
                    ctx,
                    op,
                    operand_type(ctx, op, i as int),
                    op_name + " operand "@ + text::decimal(i),
                )
            } else if width != first {
                Some(
                    (
                        op,
                        op_name + " operand width mismatch: operand 0 has width "@ + text::decimal(
                            first->0 as nat,
                        ) + ", operand "@ + text::decimal(i) + " has width "@ + text::decimal(
                            width->0 as nat,
                        ),
                    ),
                )
            } else {
                None
            },
        }
    }
}

/// The first fault of a bitwise operation on any number of operands.
pub open spec fn variadic_fault(ctx: &Context, op: OpPtr, op_name: Seq<char>) -> Option<
    (OpPtr, Seq<char>),
> {
    let n = ctx.op(op).operands@.len();
    if n == 0 {
        Some((op, op_name + " requires at least one operand, found 0"@))
    } else if operands_fault(ctx, op, op_name, n) is Some {
        operands_fault(ctx, op, op_name, n)
    } else {
        result_fault(ctx, op, op_name, operand_width(ctx, op, 0)->0)
    }
}

/// The type of an operand.
fn type_of_operand(ctx: &Context, op: OpPtr, i: usize) -> (ty: TypeHandle)
    requires
        ctx.wf(),
        ctx.has_op(op),
        i < ctx.op(op).operands@.len(),
    ensures
        ty == operand_type(ctx, op, i as int),
{
    assert(ctx.op_ok(op.idx as int));
    assert(ctx.has_value(ctx.op(op).operands@[i as int]));
    ctx.get_type(ctx.ops[op.idx].operands[i])
}

/// A name with something behind it.
fn named(op_name: &str, what: &str) -> (r: String)
    ensures
        r@ == op_name@ + what@,
{
    op_name.to_owned().concat(what)
}

/// The text of a width that differs from what it should be.
fn width_message(op_name: &str, expected: u32, found: u32) -> (r: String)
    ensures
        r@ == width_text(op_name@, expected, found),
{
    op_name.to_owned().concat(" result width mismatch: expected width ").concat(
        decimal_text(expected as u64).as_str(),
    ).concat(", found ").concat(decimal_text(found as u64).as_str())
}

/// Checks that the result of an operation has the given width.
fn verify_result(op: OpPtr, ctx: &Context, op_name: &str, width: u32) -> (r: Result<(), VerifyError>)
    requires
        ctx.wf(),
        ctx.has_op(op),
        ctx.op(op).results@.len() >= 1,
    ensures
        error::reported(r) == result_fault(ctx, op, op_name@, width),
{
    let what = named(op_name, " result");
    match verify_integer_type(op, ctx, ctx.ops[op.idx].results[0], what.as_str()) {
        Err(e) => Err(e),
        Ok(w) => if w != width {
            Err(VerifyError { at: op, message: width_message(op_name, width, w) })
        } else {
            Ok(())
        },
    }
}

/// Checks a binary arithmetic operation: two operands and a result, all of them
/// integers of one width.
pub fn verify_binary_arithmetic(op: OpPtr, ctx: &Context, op_name: &str) -> (r: Result<
    (),
    VerifyError,
>)
    requires
        ctx.wf(),
        ctx.has_op(op),
        ctx.op(op).operands@.len() >= 1,
        operand_width(ctx, op, 0) is Some ==> ctx.op(op).operands@.len() >= 2,
        operand_width(ctx, op, 0) is Some && operand_width(ctx, op, 0) == operand_width(ctx, op, 1)
            ==> ctx.op(op).results@.len() >= 1,
    ensures
        error::reported(r) == binary_fault(ctx, op, op_name@),
{
    let lhs_what = named(op_name, " lhs");
    let lhs_w: u32 = match verify_integer_type(
        op,
        ctx,
        type_of_operand(ctx, op, 0),
        lhs_what.as_str(),
    ) {
        Ok(w) => w,
        Err(e) => {
            return Err(e);
        },
    };
    let rhs_what = named(op_name, " rhs");
    let rhs_w: u32 = match verify_integer_type(
        op,
        ctx,
        type_of_operand(ctx, op, 1),
        rhs_what.as_str(),
    ) {
        Ok(w) => w,
        Err(e) => {
            return Err(e);
        },
    };
    if lhs_w != rhs_w {
        return Err(
            VerifyError {
                at: op,
                message: op_name.to_owned().concat(" operand width mismatch: lhs has width ").concat(
                    decimal_text(lhs_w as u64).as_str(),
                ).concat(", rhs has width ").concat(decimal_text(rhs_w as u64).as_str()),
            },
        );
    }
    verify_result(op, ctx, op_name, lhs_w)
}

/// Checks a unary operation: an operand and a result, integers of one width.
pub fn verify_unary(op: OpPtr, ctx: &Context, op_name: &str) -> (r: Result<(), VerifyError>)
    requires
        ctx.wf(),
        ctx.has_op(op),
        ctx.op(op).operands@.len() >= 1,
        operand_width(ctx, op, 0) is Some ==> ctx.op(op).results@.len() >= 1,
    ensures
        error::reported(r) == unary_fault(ctx, op, op_name@),
{
    let what = named(op_name, " input");
    match verify_integer_type(op, ctx, type_of_operand(ctx, op, 0), what.as_str()) {
        Ok(w) => verify_result(op, ctx, op_name, w),
        Err(e) => Err(e),
    }
}

/// Checks a reduction: an integer operand and a single bit as the result.
pub fn verify_reduction(op: OpPtr, ctx: &Context, op_name: &str) -> (r: Result<(), VerifyError>)
    requires
        ctx.wf(),
        ctx.has_op(op),
        ctx.op(op).operands@.len() >= 1,
        operand_width(ctx, op, 0) is Some ==> ctx.op(op).results@.len() >= 1,
    ensures
        error::reported(r) == reduction_fault(ctx, op, op_name@),
{
    let what = named(op_name, " input");
    match verify_integer_type(op, ctx, type_of_operand(ctx, op, 0), what.as_str()) {
        Ok(_) => {
            let result = named(op_name, " result");
            verify_i1(op, ctx, ctx.ops[op.idx].results[0], result.as_str())
        },
        Err(e) => Err(e),
    }
}

/// A fault among the first operands is the first of all of them.
proof fn lemma_operands_fault(ctx: &Context, op: OpPtr, op_name: Seq<char>, i: nat, n: nat)
    requires
        i <= n,
        operands_fault(ctx, op, op_name, i) is Some,
    ensures
        operands_fault(ctx, op, op_name, n) == operands_fault(ctx, op, op_name, i),
    decreases n,
{
    if i < n {
        lemma_operands_fault(ctx, op, op_name, i, (n - 1) as nat);
    }
}

/// Checks a bitwise operation on any number of operands: at least one, and all
/// of them and the result integers of one width.
pub fn verify_variadic_bitwise(op: OpPtr, ctx: &Context, op_name: &str) -> (r: Result<
    (),
    VerifyError,
>)
    requires
        ctx.wf(),
        ctx.has_op(op),
        ctx.op(op).operands@.len() > 0 && operands_fault(
            ctx,
            op,
            op_name@,
            ctx.op(op).operands@.len(),
        ) is None ==> ctx.op(op).results@.len() >= 1,
    ensures
        error::reported(r) == variadic_fault(ctx, op, op_name@),
{
    let n: usize = ctx.ops[op.idx].operands.len();
    if n == 0 {
        return Err(
            VerifyError {
                at: op,
                message: op_name.to_owned().concat(" requires at least one operand, found 0"),
            },
        );
    }
    proof {
        reveal_with_fuel(operands_fault, 2);
    }
    let first_what = op_name.to_owned().concat(" operand ").concat(decimal_text(0).as_str());
    let first_w: u32 = match verify_integer_type(
        op,
        ctx,
        type_of_operand(ctx, op, 0),
        first_what.as_str(),
    ) {
        Ok(w) => w,
        Err(e) => {
            proof {
                lemma_operands_fault(ctx, op, op_name@, 1, n as nat);
            }
            return Err(e);
        },
    };
    let mut i: usize = 1;
    while i < n
        invariant
            ctx.wf(),
            ctx.has_op(op),
            n == ctx.op(op).operands@.len(),
            1 <= i <= n,
            operand_width(ctx, op, 0) == Some(first_w),
            operands_fault(ctx, op, op_name@, i as nat) is None,
        decreases n - i,
    {
        let what = op_name.to_owned().concat(" operand ").concat(decimal_text(i as u64).as_str());
        match verify_integer_type(op, ctx, type_of_operand(ctx, op, i), what.as_str()) {
            Ok(opd_w) => {
                if opd_w != first_w {
                    proof {
                        lemma_operands_fault(ctx, op, op_name@, (i + 1) as nat, n as nat);
                    }
                    return Err(
                        VerifyError {
                            at: op,
                            message: op_name.to_owned().concat(
                                " operand width mismatch: operand 0 has width ",
                            ).concat(decimal_text(first_w as u64).as_str()).concat(
                                ", operand ",
                            ).concat(decimal_text(i as u64).as_str()).concat(" has width ").concat(
                                decimal_text(opd_w as u64).as_str(),
                            ),
                        },
                    );
                }
            },
            Err(e) => {
                proof {
                    lemma_operands_fault(ctx, op, op_name@, (i + 1) as nat, n as nat);
                }
                return Err(e);
            },
        }
        i += 1;
    }
    verify_result(op, ctx, op_name, first_w)
}

/// The text of a value that is no integer.
pub open spec fn type_error_text(ctx: &Context, what: Seq<char>, ty: TypeHandle) -> Seq<char> {
    what + " type error: "@ + types::not_integer_text(ctx, ty)
}

/// The width of a value.
pub open spec fn value_width(ctx: &Context, v: Value) -> Option<u32> {
    types::integer_width(ctx.value_type(v))
}

/// The first of the first `n` values that is no integer.
pub open spec fn first_non_integer(ctx: &Context, values: Seq<Value>, n: nat) -> Option<nat>
    decreases n,
{
    if n == 0 {
        None
    } else {
        match first_non_integer(ctx, values, (n - 1) as nat) {
            Some(i) => Some(i),
            None => if value_width(ctx, values[n - 1]) is None {
                Some((n - 1) as nat)
            } else {
                None
            },
        }
    }
}

/// The first of the first `n` values whose width is not that of the first value.
pub open spec fn first_other_width(ctx: &Context, values: Seq<Value>, n: nat) -> Option<nat>
    decreases n,
{
    if n == 0 {
        None
    } else {
        match first_other_width(ctx, values, (n - 1) as nat) {
            Some(i) => Some(i),
            None => if value_width(ctx, values[n - 1]) != value_width(ctx, values[0]) {
                Some((n - 1) as nat)
            } else {
                None
            },
        }
    }
}

proof fn lemma_first_non_integer(ctx: &Context, values: Seq<Value>, i: nat, n: nat)
    requires
        i <= n,
        first_non_integer(ctx, values, i) is Some,
    ensures
        first_non_integer(ctx, values, n) == first_non_integer(ctx, values, i),
    decreases n,
{
    if i < n {
        lemma_first_non_integer(ctx, values, i, (n - 1) as nat);
    }
}

proof fn lemma_first_other_width(ctx: &Context, values: Seq<Value>, i: nat, n: nat)
    requires
        i <= n,
        first_other_width(ctx, values, i) is Some,
    ensures
        first_other_width(ctx, values, n) == first_other_width(ctx, values, i),
    decreases n,
{
    if i < n {
        lemma_first_other_width(ctx, values, i, (n - 1) as nat);
    }
}

/// What is wrong with a result that is to have a given width.
pub open spec fn result_refusal(
    ctx: &Context,
    res_ty: TypeHandle,
    op_name: Seq<char>,
    width: u32,
) -> Option<Seq<char>> {
    if types::integer_width(res_ty) is None {
        Some(type_error_text(ctx, op_name + " result"@, res_ty))
    } else if types::integer_width(res_ty) != Some(width) {
        Some(width_text(op_name, width, types::integer_width(res_ty)->0))
    } else {
        None
    }
}

/// What a result of a check without a place says.
pub open spec fn refusal(r: Result<(), String>) -> Option<Seq<char>> {
    match r {
        Ok(_) => None,
        Err(e) => Some(e@),
    }
}

/// What is wrong with the arguments and the result type of an arithmetic
/// operation that is to be built.
pub open spec fn binary_refusal(
    ctx: &Context,
    args: Seq<Value>,
    res_ty: TypeHandle,
    op_name: Seq<char>,
) -> Option<Seq<char>> {
    let alien = first_non_integer(ctx, args, args.len());
    let other = first_other_width(ctx, args, args.len());
    let first = value_width(ctx, args[0])->0;
    if alien is Some {
        Some(
            type_error_text(
                ctx,
                op_name + " arg "@ + text::decimal(alien->0),
                ctx.value_type(args[alien->0 as int]),
            ),
        )
    } else if other is Some {
        Some(
            op_name + " operand width mismatch: arg "@ + text::decimal(other->0) + " has width "@
                + text::decimal(value_width(ctx, args[other->0 as int])->0 as nat)
                + ", first arg has width "@ + text::decimal(first as nat),
        )
    } else {
        result_refusal(ctx, res_ty, op_name, first)
    }
}

/// The text of a value that is no integer.
fn type_error(what: &str, e: &str) -> (r: String)
    ensures
        r@ == what@ + " type error: "@ + e@,
{
    what.to_owned().concat(" type error: ").concat(e)
}

/// Checks that a result type has a given width.
fn assert_result(ctx: &Context, res_ty: TypeHandle, op_name: &str, width: u32) -> (r: Result<
    (),
    String,
>)
    ensures
        refusal(r) == result_refusal(ctx, res_ty, op_name@, width),
{
    match get_integer_width(ctx, res_ty) {
        Err(e) => Err(type_error(named(op_name, " result").as_str(), e.as_str())),
        Ok(w) => if w != width {
            Err(width_message(op_name, width, w))
        } else {
            Ok(())
        },
    }
}

/// Checks the arguments and the result type of an arithmetic operation before it
/// is built: integers of one width.
pub fn assert_binary_arithmetic(
    ctx: &Context,
    args: &[Value],
    res_ty: TypeHandle,
    op_name: &str,
) -> (r: Result<(), String>)
    requires
        args@.len() > 0,
        forall|i: int| 0 <= i < args@.len() ==> ctx.has_value(#[trigger] args@[i]),
    ensures
        refusal(r) == binary_refusal(ctx, args@, res_ty, op_name@),
{
    let n: usize = args.len();
    let mut widths: Vec<u32> = Vec::new();
    let mut i: usize = 0;
    while i < n
        invariant
            n == args@.len(),
            i <= n,
            forall|j: int| 0 <= j < args@.len() ==> ctx.has_value(#[trigger] args@[j]),
            first_non_integer(ctx, args@, i as nat) is None,
            widths@.len() == i,
            forall|j: int|
                0 <= j < i ==> value_width(ctx, args@[j]) == Some(#[trigger] widths@[j]),
        decreases n - i,
    {
        match get_integer_width(ctx, ctx.get_type(args[i])) {
            Ok(w) => {
                widths.push(w);
            },
            Err(e) => {
                proof {
                    lemma_first_non_integer(ctx, args@, (i + 1) as nat, n as nat);
                }
                let what = op_name.to_owned().concat(" arg ").concat(
                    decimal_text(i as u64).as_str(),
                );
                return Err(type_error(what.as_str(), e.as_str()));
            },
        }
        i += 1;
    }
    let first_w: u32 = widths[0];
    let mut k: usize = 0;
    while k < n
        invariant
            n == args@.len(),
            n > 0,
            k <= n,
            first_non_integer(ctx, args@, n as nat) is None,
            widths@.len() == n,
            first_w == widths@[0],
            forall|j: int|
                0 <= j < n ==> value_width(ctx, args@[j]) == Some(#[trigger] widths@[j]),
            first_other_width(ctx, args@, k as nat) is None,
        decreases n - k,
    {
        let w: u32 = widths[k];
        if w != first_w {
            proof {
                lemma_first_other_width(ctx, args@, (k + 1) as nat, n as nat);
            }
            return Err(
                op_name.to_owned().concat(" operand width mismatch: arg ").concat(
                    decimal_text(k as u64).as_str(),
                ).concat(" has width ").concat(decimal_text(w as u64).as_str()).concat(
                    ", first arg has width ",
                ).concat(decimal_text(first_w as u64).as_str()),
            );
        }
        k += 1;
    }
    assert_result(ctx, res_ty, op_name, first_w)
}

/// What is wrong with the input and the result type of a unary operation that is
/// to be built.
pub open spec fn unary_refusal(
    ctx: &Context,
    val: Value,
    res_ty: TypeHandle,
    op_name: Seq<char>,
) -> Option<Seq<char>> {
    match value_width(ctx, val) {
        None => Some(type_error_text(ctx, op_name + " input"@, ctx.value_type(val))),
        Some(w) => result_refusal(ctx, res_ty, op_name, w),
    }
}

/// Checks the input and the result type of a unary operation before it is built:
/// integers of one width.
pub fn assert_unary(ctx: &Context, val: Value, res_ty: TypeHandle, op_name: &str) -> (r: Result<
    (),
    String,
>)
    requires
        ctx.has_value(val),
    ensures
        refusal(r) == unary_refusal(ctx, val, res_ty, op_name@),
{
    match get_integer_width(ctx, ctx.get_type(val)) {
        Err(e) => Err(type_error(named(op_name, " input").as_str(), e.as_str())),
        Ok(w) => assert_result(ctx, res_ty, op_name, w),
    }
}

/// What is wrong with the input and the result type of a reduction that is to be
/// built.
pub open spec fn reduction_refusal(
    ctx: &Context,
    val: Value,
    i1_ty: TypeHandle,
    op_name: Seq<char>,
) -> Option<Seq<char>> {
    if value_width(ctx, val) is None {
        Some(type_error_text(ctx, op_name + " input"@, ctx.value_type(val)))
    } else {
        match types::integer_width(i1_ty) {
            None => Some(type_error_text(ctx, op_name + " result"@, i1_ty)),
            Some(w) => if w != 1 {
                Some(op_name + " result must be i1, found width "@ + text::decimal(w as nat))
            } else {
                None
            },
        }
    }
}

/// Checks the input and the result type of a reduction before it is built: an
/// integer and a single bit.
pub fn assert_reduction(ctx: &Context, val: Value, i1_ty: TypeHandle, op_name: &str) -> (r: Result<
    (),
    String,
>)
    requires
        ctx.has_value(val),
    ensures
        refusal(r) == reduction_refusal(ctx, val, i1_ty, op_name@),
{
    if let Err(e) = get_integer_width(ctx, ctx.get_type(val)) {
        return Err(type_error(named(op_name, " input").as_str(), e.as_str()));
    }
    match get_integer_width(ctx, i1_ty) {
        Err(e) => Err(type_error(named(op_name, " result").as_str(), e.as_str())),
        Ok(w) => if w != 1 {
            Err(
                op_name.to_owned().concat(" result must be i1, found width ").concat(
                    decimal_text(w as u64).as_str(),
                ),
            )
        } else {
            Ok(())
        },
    }
}

/// What is wrong among the first `n` inputs of a bitwise operation that is to be
/// built.
pub open spec fn inputs_refusal(
    ctx: &Context,
    inputs: Seq<Value>,
    op_name: Seq<char>,
    n: nat,
) -> Option<Seq<char>>
    decreases n,
{
    if n == 0 {
        None
    } else {
        let i = (n - 1) as nat;
        let width = value_width(ctx, inputs[i as int]);
        let first = value_width(ctx, inputs[0]);
        match inputs_refusal(ctx, inputs, op_name, i) {
            Some(f) => Some(f),
            None => if width is None {
                Some(
                    type_error_text(
                        ctx,
                        op_name + " input "@ + text::decimal(i),
                        ctx.value_type(inputs[i as int]),
                    ),
                )
            } else if width != first {
                Some(
                    op_name + " input "@ + text::decimal(i) + " width ("@ + text::decimal(
                        width->0 as nat,
                    ) + ") != input 0 width ("@ + text::decimal(first->0 as nat) + ")"@,
                )
            } else {
                None
            },
        }
    }
}

/// What is wrong with the inputs and the result type of a bitwise operation on
/// any number of inputs that is to be built.
pub open spec fn variadic_refusal(
    ctx: &Context,
    inputs: Seq<Value>,
    res_ty: TypeHandle,
    op_name: Seq<char>,
) -> Option<Seq<char>> {
    if inputs.len() == 0 {
        Some(op_name + " requires at least one input"@)
    } else if inputs_refusal(ctx, inputs, op_name, inputs.len()) is Some {
        inputs_refusal(ctx, inputs, op_name, inputs.len())
    } else {
        let first = value_width(ctx, inputs[0])->0;
        match types::integer_width(res_ty) {
            None => Some(type_error_text(ctx, op_name + " result"@, res_ty)),
            Some(w) => if w != first {
                Some(
                    op_name + " result width ("@ + text::decimal(w as nat) + ") != input width ("@
                        + text::decimal(first as nat) + ")"@,
                )
            } else {
                None
            },
        }
    }
}

proof fn lemma_inputs_refusal(ctx: &Context, inputs: Seq<Value>, op_name: Seq<char>, i: nat, n: nat)
    requires
        i <= n,
        inputs_refusal(ctx, inputs, op_name, i) is Some,
    ensures
        inputs_refusal(ctx, inputs, op_name, n) == inputs_refusal(ctx, inputs, op_name, i),
    decreases n,
{
    if i < n {
        lemma_inputs_refusal(ctx, inputs, op_name, i, (n - 1) as nat);
    }
}

/// Checks the inputs and the result type of a bitwise operation on any number of
/// inputs before it is built: at least one input, and integers of one width.
pub fn assert_variadic_bitwise(
    ctx: &Context,
    inputs: &[Value],
    res_ty: TypeHandle,
    op_name: &str,
) -> (r: Result<(), String>)
    requires
        forall|i: int| 0 <= i < inputs@.len() ==> ctx.has_value(#[trigger] inputs@[i]),
    ensures
        refusal(r) == variadic_refusal(ctx, inputs@, res_ty, op_name@),
{
    let n: usize = inputs.len();
    if n == 0 {
        return Err(op_name.to_owned().concat(" requires at least one input"));
    }
    let mut first_w: u32 = 0;
    let mut i: usize = 0;
    while i < n
        invariant
            n == inputs@.len(),
            i <= n,
            n > 0,
            forall|j: int| 0 <= j < inputs@.len() ==> ctx.has_value(#[trigger] inputs@[j]),
            inputs_refusal(ctx, inputs@, op_name@, i as nat) is None,
            i > 0 ==> value_width(ctx, inputs@[0]) == Some(first_w),
        decreases n - i,
    {
        match get_integer_width(ctx, ctx.get_type(inputs[i])) {
            Err(e) => {
                proof {
                    lemma_inputs_refusal(ctx, inputs@, op_name@, (i + 1) as nat, n as nat);
                }
                let what = op_name.to_owned().concat(" input ").concat(
                    decimal_text(i as u64).as_str(),
                );
                return Err(type_error(what.as_str(), e.as_str()));
            },
            Ok(w) => {
                if i == 0 {
                    first_w = w;
                } else if w != first_w {
                    proof {
                        lemma_inputs_refusal(ctx, inputs@, op_name@, (i + 1) as nat, n as nat);
                    }
                    return Err(
                        op_name.to_owned().concat(" input ").concat(
                            decimal_text(i as u64).as_str(),
                        ).concat(" width (").concat(decimal_text(w as u64).as_str()).concat(
                            ") != input 0 width (",
                        ).concat(decimal_text(first_w as u64).as_str()).concat(")"),
                    );
                }
            },
        }
        i += 1;
    }
    match get_integer_width(ctx, res_ty) {
        Err(e) => Err(type_error(named(op_name, " result").as_str(), e.as_str())),
        Ok(w) => if w != first_w {
            Err(
                op_name.to_owned().concat(" result width (").concat(
                    decimal_text(w as u64).as_str(),
                ).concat(") != input width (").concat(decimal_text(first_w as u64).as_str()).concat(
                    ")",
                ),
            )
        } else {
            Ok(())
        },
    }
}

} // verus!
