//! Laws of the checks on combinational operations.

use crate::comb::types;
use crate::comb::utils;
use crate::ir::context::{Context, OpPtr};
use vstd::prelude::*;

verus! {

/// The first `n` operands are without fault exactly where each is an integer of
/// the width of the first one.
proof fn lemma_operands_faultless(ctx: &Context, op: OpPtr, op_name: Seq<char>, n: nat)
    ensures
        utils::operands_fault(ctx, op, op_name, n) is None <==> forall|i: int|
            0 <= i < n ==> (#[trigger] utils::operand_width(ctx, op, i)) is Some
                && utils::operand_width(ctx, op, i) == utils::operand_width(ctx, op, 0),
    decreases n,
{
    if n > 0 {
        lemma_operands_faultless(ctx, op, op_name, (n - 1) as nat);
        let w = utils::operand_width(ctx, op, n - 1);
        if utils::operands_fault(ctx, op, op_name, n) is None {
            assert forall|i: int| 0 <= i < n implies (#[trigger] utils::operand_width(ctx, op, i))
                is Some && utils::operand_width(ctx, op, i) == utils::operand_width(ctx, op, 0) by {
                if i < n - 1 {
                    assert(utils::operands_fault(ctx, op, op_name, (n - 1) as nat) is None);
                }
            }
        }
    }
}

/// A bitwise operation passes its check exactly where it has operands, and they
/// and its result are integers of one width.
pub proof fn bitwise_operations_have_one_width(ctx: &Context, op: OpPtr, op_name: Seq<char>)
    ensures
        utils::variadic_fault(ctx, op, op_name) is None <==> ctx.op(op).operands@.len() > 0
            && types::integer_width(ctx.op(op).results@[0]) is Some && forall|i: int|
            0 <= i < ctx.op(op).operands@.len() ==> #[trigger] utils::operand_width(ctx, op, i)
                == types::integer_width(ctx.op(op).results@[0]),
{
    let n = ctx.op(op).operands@.len();
    let w = types::integer_width(ctx.op(op).results@[0]);
    lemma_operands_faultless(ctx, op, op_name, n);
    if n > 0 {
        let first = utils::operand_width(ctx, op, 0);
        if utils::variadic_fault(ctx, op, op_name) is None {
            assert(first is Some);
            assert forall|i: int| 0 <= i < n implies #[trigger] utils::operand_width(ctx, op, i)
                == w by {
                assert(utils::operand_width(ctx, op, i) == first);
            }
        }
        if w is Some && forall|i: int|
            0 <= i < n ==> #[trigger] utils::operand_width(ctx, op, i) == w {
            assert(first == w);
            assert(utils::operands_fault(ctx, op, op_name, n) is None);
        }
    }
}

/// On two operands the check of a bitwise operation passes exactly where that of
/// a binary arithmetic operation does.
pub proof fn two_operands_are_checked_alike(
    ctx: &Context,
    op: OpPtr,
    bitwise: Seq<char>,
    arithmetic: Seq<char>,
)
    requires
        ctx.op(op).operands@.len() == 2,
    ensures
        utils::variadic_fault(ctx, op, bitwise) is None <==> utils::binary_fault(
            ctx,
            op,
            arithmetic,
        ) is None,
{
    bitwise_operations_have_one_width(ctx, op, bitwise);
    let w = types::integer_width(ctx.op(op).results@[0]);
    let lhs = utils::operand_width(ctx, op, 0);
    let rhs = utils::operand_width(ctx, op, 1);
    if utils::binary_fault(ctx, op, arithmetic) is None {
        assert(w is Some && lhs == w && rhs == w);
        assert forall|i: int| 0 <= i < 2 implies #[trigger] utils::operand_width(ctx, op, i)
            == w by {
            if i == 0 {
            } else {
                assert(i == 1);
            }
        }
    }
}

/// On one operand the check of a bitwise operation passes exactly where that of
/// a unary operation does.
pub proof fn one_operand_is_checked_alike(
    ctx: &Context,
    op: OpPtr,
    bitwise: Seq<char>,
    unary: Seq<char>,
)
    requires
        ctx.op(op).operands@.len() == 1,
    ensures
        utils::variadic_fault(ctx, op, bitwise) is None <==> utils::unary_fault(ctx, op, unary)
            is None,
{
    bitwise_operations_have_one_width(ctx, op, bitwise);
    let w = types::integer_width(ctx.op(op).results@[0]);
    if utils::unary_fault(ctx, op, unary) is None {
        assert(w is Some && utils::operand_width(ctx, op, 0) == w);
        assert forall|i: int| 0 <= i < 1 implies #[trigger] utils::operand_width(ctx, op, i)
            == w by {
            assert(i == 0);
        }
    }
}

/// Values are all integers exactly where none is the first that is not one, and
/// are all of the width of the first exactly where none is the first that is not.
proof fn lemma_arguments(ctx: &Context, op: OpPtr, n: nat)
    ensures
        utils::first_non_integer(ctx, ctx.op(op).operands@, n) is None <==> forall|i: int|
            0 <= i < n ==> (#[trigger] utils::operand_width(ctx, op, i)) is Some,
        utils::first_other_width(ctx, ctx.op(op).operands@, n) is None <==> forall|i: int|
            0 <= i < n ==> #[trigger] utils::operand_width(ctx, op, i) == utils::operand_width(
                ctx,
                op,
                0,
            ),
    decreases n,
{
    if n > 0 {
        lemma_arguments(ctx, op, (n - 1) as nat);
        let args = ctx.op(op).operands@;
        assert(utils::operand_width(ctx, op, n - 1) == utils::value_width(ctx, args[n - 1]));
        assert(utils::operand_width(ctx, op, 0) == utils::value_width(ctx, args[0]));
        if utils::first_non_integer(ctx, args, n) is None {
            assert(utils::first_non_integer(ctx, args, (n - 1) as nat) is None);
            assert forall|i: int| 0 <= i < n implies (#[trigger] utils::operand_width(ctx, op, i))
                is Some by {
                if i == n - 1 {
                }
            }
        }
        if utils::first_other_width(ctx, args, n) is None {
            assert(utils::first_other_width(ctx, args, (n - 1) as nat) is None);
            assert forall|i: int| 0 <= i < n implies #[trigger] utils::operand_width(ctx, op, i)
                == utils::operand_width(ctx, op, 0) by {
                if i == n - 1 {
                }
            }
        }
    }
}

/// An arithmetic operation on two operands passes its check exactly where its
/// operands and its result type were fit to build it from.
pub proof fn arithmetic_is_checked_as_it_is_built(
    ctx: &Context,
    op: OpPtr,
    op_name: Seq<char>,
    built: Seq<char>,
)
    requires
        ctx.op(op).operands@.len() == 2,
    ensures
        utils::binary_fault(ctx, op, op_name) is None <==> utils::binary_refusal(
            ctx,
            ctx.op(op).operands@,
            ctx.op(op).results@[0],
            built,
        ) is None,
{
    let args = ctx.op(op).operands@;
    lemma_arguments(ctx, op, 2);
    assert(utils::operand_width(ctx, op, 0) == utils::value_width(ctx, args[0]));
    assert(utils::operand_width(ctx, op, 1) == utils::value_width(ctx, args[1]));
    if utils::binary_fault(ctx, op, op_name) is None {
        assert forall|i: int| 0 <= i < 2 implies (#[trigger] utils::operand_width(ctx, op, i))
            is Some && utils::operand_width(ctx, op, i) == utils::operand_width(ctx, op, 0) by {
            if i != 0 {
                assert(i == 1);
            }
        }
    }
}

/// A unary operation passes its check exactly where its operand and its result
/// type were fit to build it from.
pub proof fn unary_is_checked_as_it_is_built(
    ctx: &Context,
    op: OpPtr,
    op_name: Seq<char>,
    built: Seq<char>,
)
    requires
        ctx.op(op).operands@.len() == 1,
    ensures
        utils::unary_fault(ctx, op, op_name) is None <==> utils::unary_refusal(
            ctx,
            ctx.op(op).operands@[0],
            ctx.op(op).results@[0],
            built,
        ) is None,
{
}

/// A reduction passes its check exactly where its operand and its result type
/// were fit to build it from.
pub proof fn reduction_is_checked_as_it_is_built(
    ctx: &Context,
    op: OpPtr,
    op_name: Seq<char>,
    built: Seq<char>,
)
    requires
        ctx.op(op).operands@.len() == 1,
    ensures
        utils::reduction_fault(ctx, op, op_name) is None <==> utils::reduction_refusal(
            ctx,
            ctx.op(op).operands@[0],
            ctx.op(op).results@[0],
            built,
        ) is None,
{
}

/// The first `n` operands are without fault exactly where they were fit to build
/// an operation from.
proof fn lemma_inputs(ctx: &Context, op: OpPtr, op_name: Seq<char>, built: Seq<char>, n: nat)
    ensures
        utils::operands_fault(ctx, op, op_name, n) is None <==> utils::inputs_refusal(
            ctx,
            ctx.op(op).operands@,
            built,
            n,
        ) is None,
    decreases n,
{
    if n > 0 {
        lemma_inputs(ctx, op, op_name, built, (n - 1) as nat);
    }
}

/// A bitwise operation passes its check exactly where its operands and its result
/// type were fit to build it from.
pub proof fn bitwise_is_checked_as_it_is_built(
    ctx: &Context,
    op: OpPtr,
    op_name: Seq<char>,
    built: Seq<char>,
)
    ensures
        utils::variadic_fault(ctx, op, op_name) is None <==> utils::variadic_refusal(
            ctx,
            ctx.op(op).operands@,
            ctx.op(op).results@[0],
            built,
        ) is None,
{
    lemma_inputs(ctx, op, op_name, built, ctx.op(op).operands@.len());
}

} // verus!
