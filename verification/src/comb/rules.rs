//! What the checks on combinational operations accept, said of the types of the
//! operands and of the result.

use crate::comb::types;
use crate::comb::utils;
use crate::ir::context::{Context, OpPtr, Value};
use crate::ir::types::TypeHandle;
use crate::text;
use vstd::prelude::*;

verus! {

/// Whether a type is an integer of a width, signed or not.
pub open spec fn is_integer(ty: TypeHandle, width: u32) -> bool {
    ty matches TypeHandle::Integer { width: w, .. } && w == width
}

/// Whether some values and a result type are all integers of one width.
pub open spec fn of_one_width(ctx: &Context, values: Seq<Value>, result: TypeHandle) -> bool {
    exists|width: u32|
        {
            &&& #[trigger] is_integer(result, width)
            &&& forall|i: int|
                0 <= i < values.len() ==> is_integer(ctx.value_type(#[trigger] values[i]), width)
        }
}

/// The width of a type is the one it is an integer of; only integers have one.
pub proof fn only_integers_have_a_width(ty: TypeHandle, width: u32)
    ensures
        types::integer_width(ty) == Some(width) <==> is_integer(ty, width),
        types::integer_width(ty) is None <==> !(ty is Integer),
{
}

/// A value passes as an integer exactly where it is one, and as a single bit
/// exactly where it is an integer of width one.
pub proof fn single_bits_are_integers_of_width_one(
    ctx: &Context,
    op: OpPtr,
    ty: TypeHandle,
    what: Seq<char>,
)
    ensures
        types::integer_fault(ctx, op, ty, what) is None <==> ty is Integer,
        types::i1_fault(ctx, op, ty, what) is None <==> is_integer(ty, 1),
{
}

/// A binary operation passes its check exactly where both of its operands and
/// its result are integers of one width.
pub proof fn binary_operations_have_one_width(ctx: &Context, op: OpPtr, op_name: Seq<char>)
    requires
        ctx.op(op).operands@.len() == 2,
    ensures
        utils::binary_fault(ctx, op, op_name) is None <==> of_one_width(
            ctx,
            ctx.op(op).operands@,
            ctx.op(op).results@[0],
        ),
{
    let values = ctx.op(op).operands@;
    let result = ctx.op(op).results@[0];
    if utils::binary_fault(ctx, op, op_name) is None {
        let w = types::integer_width(result)->0;
        assert(is_integer(result, w));
    }
    if of_one_width(ctx, values, result) {
        let w = choose|width: u32|
            {
                &&& #[trigger] is_integer(result, width)
                &&& forall|i: int|
                    0 <= i < values.len() ==> is_integer(
                        ctx.value_type(#[trigger] values[i]),
                        width,
                    )
            };
        assert(is_integer(ctx.value_type(values[0]), w));
        assert(is_integer(ctx.value_type(values[1]), w));
    }
}

/// A unary operation passes its check exactly where its operand and its result
/// are integers of one width, and so do the values it is to be built from.
pub proof fn unary_operations_keep_the_width(ctx: &Context, op: OpPtr, op_name: Seq<char>)
    requires
        ctx.op(op).operands@.len() == 1,
    ensures
        utils::unary_fault(ctx, op, op_name) is None <==> of_one_width(
            ctx,
            ctx.op(op).operands@,
            ctx.op(op).results@[0],
        ),
        utils::unary_refusal(ctx, ctx.op(op).operands@[0], ctx.op(op).results@[0], op_name) is None
            <==> of_one_width(ctx, ctx.op(op).operands@, ctx.op(op).results@[0]),
{
    let values = ctx.op(op).operands@;
    let result = ctx.op(op).results@[0];
    if types::integer_width(result) is Some {
        let w = types::integer_width(result)->0;
        assert(is_integer(result, w));
        if types::integer_width(ctx.value_type(values[0])) == Some(w) {
            assert(of_one_width(ctx, values, result));
        }
    }
    if of_one_width(ctx, values, result) {
        let w = choose|width: u32|
            {
                &&& #[trigger] is_integer(result, width)
                &&& forall|i: int|
                    0 <= i < values.len() ==> is_integer(
                        ctx.value_type(#[trigger] values[i]),
                        width,
                    )
            };
        assert(is_integer(ctx.value_type(values[0]), w));
    }
}

/// A reduction passes its check exactly where its operand is an integer and its
/// result a single bit, and so do the values it is to be built from.
pub proof fn reductions_give_one_bit(
    ctx: &Context,
    op: OpPtr,
    val: Value,
    ty: TypeHandle,
    op_name: Seq<char>,
)
    ensures
        utils::reduction_fault(ctx, op, op_name) is None <==> ctx.value_type(
            ctx.op(op).operands@[0],
        ) is Integer && is_integer(ctx.op(op).results@[0], 1),
        utils::reduction_refusal(ctx, val, ty, op_name) is None <==> ctx.value_type(val) is Integer
            && is_integer(ty, 1),
{
}

proof fn lemma_all_integers(ctx: &Context, values: Seq<Value>, n: nat)
    requires
        n <= values.len(),
    ensures
        utils::first_non_integer(ctx, values, n) is None <==> forall|i: int|
            0 <= i < n ==> ctx.value_type(#[trigger] values[i]) is Integer,
        utils::first_other_width(ctx, values, n) is None <==> forall|i: int|
            0 <= i < n ==> types::integer_width(ctx.value_type(#[trigger] values[i]))
                == types::integer_width(ctx.value_type(values[0])),
    decreases n,
{
    if n > 0 {
        lemma_all_integers(ctx, values, (n - 1) as nat);
        assert(utils::value_width(ctx, values[n - 1]) is Some <==> ctx.value_type(values[n - 1])
            is Integer);
    }
}

/// The arguments and the result type of an arithmetic operation are fit to build
/// it from exactly where they are all integers of one width.
pub proof fn arithmetic_is_built_of_one_width(
    ctx: &Context,
    args: Seq<Value>,
    result: TypeHandle,
    op_name: Seq<char>,
)
    requires
        args.len() > 0,
    ensures
        utils::binary_refusal(ctx, args, result, op_name) is None <==> of_one_width(
            ctx,
            args,
            result,
        ),
{
    lemma_all_integers(ctx, args, args.len());
    let first = types::integer_width(ctx.value_type(args[0]));
    if utils::binary_refusal(ctx, args, result, op_name) is None {
        assert(ctx.value_type(args[0]) is Integer);
        let w = first->0;
        assert(is_integer(result, w));
        assert forall|i: int| 0 <= i < args.len() implies is_integer(
            ctx.value_type(#[trigger] args[i]),
            w,
        ) by {
            assert(types::integer_width(ctx.value_type(args[i])) == first);
        }
    }
    if of_one_width(ctx, args, result) {
        let w = choose|width: u32|
            {
                &&& #[trigger] is_integer(result, width)
                &&& forall|i: int|
                    0 <= i < args.len() ==> is_integer(ctx.value_type(#[trigger] args[i]), width)
            };
        assert(is_integer(ctx.value_type(args[0]), w));
        assert forall|i: int| 0 <= i < args.len() implies ctx.value_type(#[trigger] args[i])
            is Integer && types::integer_width(ctx.value_type(args[i])) == first by {
            assert(is_integer(ctx.value_type(args[i]), w));
        }
    }
}

proof fn lemma_operands(ctx: &Context, op: OpPtr, op_name: Seq<char>, n: nat)
    requires
        n <= ctx.op(op).operands@.len(),
    ensures
        utils::operands_fault(ctx, op, op_name, n) is None <==> forall|i: int|
            0 <= i < n ==> ctx.value_type(#[trigger] ctx.op(op).operands@[i]) is Integer
                && types::integer_width(ctx.value_type(ctx.op(op).operands@[i]))
                == types::integer_width(ctx.value_type(ctx.op(op).operands@[0])),
    decreases n,
{
    if n > 0 {
        lemma_operands(ctx, op, op_name, (n - 1) as nat);
        let values = ctx.op(op).operands@;
        assert(utils::operand_width(ctx, op, n - 1) == types::integer_width(
            ctx.value_type(values[n - 1]),
        ));
        assert(utils::operand_width(ctx, op, 0) == types::integer_width(ctx.value_type(values[0])));
    }
}

/// A bitwise operation passes its check exactly where it has operands, and they
/// and its result are all integers of one width.
pub proof fn bitwise_operands_have_one_width(ctx: &Context, op: OpPtr, op_name: Seq<char>)
    ensures
        utils::variadic_fault(ctx, op, op_name) is None <==> ctx.op(op).operands@.len() > 0
            && of_one_width(ctx, ctx.op(op).operands@, ctx.op(op).results@[0]),
{
    let values = ctx.op(op).operands@;
    let result = ctx.op(op).results@[0];
    lemma_operands(ctx, op, op_name, values.len());
    if values.len() > 0 {
        let first = types::integer_width(ctx.value_type(values[0]));
        assert(utils::operand_width(ctx, op, 0) == first);
        if utils::variadic_fault(ctx, op, op_name) is None {
            assert(ctx.value_type(values[0]) is Integer);
            let w = first->0;
            assert(is_integer(result, w));
            assert forall|i: int| 0 <= i < values.len() implies is_integer(
                ctx.value_type(#[trigger] values[i]),
                w,
            ) by {
                assert(types::integer_width(ctx.value_type(values[i])) == first);
            }
        }
        if of_one_width(ctx, values, result) {
            let w = choose|width: u32|
                {
                    &&& #[trigger] is_integer(result, width)
                    &&& forall|i: int|
                        0 <= i < values.len() ==> is_integer(
                            ctx.value_type(#[trigger] values[i]),
                            width,
                        )
                };
            assert(is_integer(ctx.value_type(values[0]), w));
            assert forall|i: int| 0 <= i < values.len() implies ctx.value_type(
                #[trigger] values[i],
            ) is Integer && types::integer_width(ctx.value_type(values[i])) == first by {
                assert(is_integer(ctx.value_type(values[i]), w));
            }
        }
    }
}

/// The words for a value that is to be an integer and is none.
pub open spec fn no_integer(ctx: &Context, what: Seq<char>, ty: TypeHandle) -> Seq<char> {
    what + ": expected an integer type, found "@ + ctx.type_text(ty)
}

/// A result is reported first for being no integer, then for its width.
pub proof fn result_faults_come_in_order(ctx: &Context, op: OpPtr, op_name: Seq<char>, width: u32)
    ensures
        ({
            let fault = utils::result_fault(ctx, op, op_name, width);
            match ctx.op(op).results@[0] {
                TypeHandle::Integer { width: w, .. } => if w == width {
                    fault is None
                } else {
                    fault == Some(
                        (
                            op,
                            op_name + " result width mismatch: expected width "@ + text::decimal(
                                width as nat,
                            ) + ", found "@ + text::decimal(w as nat),
                        ),
                    )
                },
                ty => fault matches Some(f) && f.0 == op && f.1 =~= no_integer(
                    ctx,
                    op_name + " result"@,
                    ty,
                ),
            }
        }),
{
    lemma_words(ctx, op_name + " result"@, ctx.op(op).results@[0]);
}

proof fn lemma_words(ctx: &Context, what: Seq<char>, ty: TypeHandle)
    ensures
        what + ": "@ + types::not_integer_text(ctx, ty) == no_integer(ctx, what, ty),
{
    reveal_strlit(": ");
    reveal_strlit("expected an integer type, found ");
    reveal_strlit(": expected an integer type, found ");
    assert(": "@ + "expected an integer type, found "@ =~= ": expected an integer type, found "@);
    assert(what + ": "@ + ("expected an integer type, found "@ + ctx.type_text(ty)) =~= what + (
    ": "@ + "expected an integer type, found "@) + ctx.type_text(ty));
}

/// A binary operation is reported first for its left operand, then for its right
/// one, then for their widths, and last for its result, which is to have the
/// width of the operands.
pub proof fn binary_faults_come_in_order(ctx: &Context, op: OpPtr, op_name: Seq<char>)
    ensures
        ({
            let fault = utils::binary_fault(ctx, op, op_name);
            let lhs = ctx.value_type(ctx.op(op).operands@[0]);
            let rhs = ctx.value_type(ctx.op(op).operands@[1]);
            match (lhs, rhs) {
                (TypeHandle::Integer { width: a, .. }, TypeHandle::Integer { width: b, .. }) => if a
                    != b {
                    fault == Some(
                        (
                            op,
                            op_name + " operand width mismatch: lhs has width "@ + text::decimal(
                                a as nat,
                            ) + ", rhs has width "@ + text::decimal(b as nat),
                        ),
                    )
                } else {
                    fault == utils::result_fault(ctx, op, op_name, a)
                },
                (TypeHandle::Integer { .. }, _) => fault == Some(
                    (op, no_integer(ctx, op_name + " rhs"@, rhs)),
                ),
                _ => fault == Some((op, no_integer(ctx, op_name + " lhs"@, lhs))),
            }
        }),
{
    lemma_words(ctx, op_name + " lhs"@, ctx.value_type(ctx.op(op).operands@[0]));
    lemma_words(ctx, op_name + " rhs"@, ctx.value_type(ctx.op(op).operands@[1]));
}

/// A unary operation and a reduction are reported first for their operand, then
/// for their result: of the width of the operand, or of a single bit.
pub proof fn unary_and_reduction_faults_come_in_order(ctx: &Context, op: OpPtr, op_name: Seq<char>)
    ensures
        ({
            let input = ctx.value_type(ctx.op(op).operands@[0]);
            let result = ctx.op(op).results@[0];
            let unary = utils::unary_fault(ctx, op, op_name);
            let reduction = utils::reduction_fault(ctx, op, op_name);
            match input {
                TypeHandle::Integer { width, .. } => {
                    &&& unary == utils::result_fault(ctx, op, op_name, width)
                    &&& !(result is Integer) ==> reduction == Some(
                        (op, no_integer(ctx, op_name + " result"@, result)),
                    )
                    &&& result is Integer && !is_integer(result, 1) ==> reduction == Some(
                        (
                            op,
                            op_name + " result"@ + ": expected i1, found "@ + ctx.type_text(result),
                        ),
                    )
                },
                _ => {
                    &&& unary == Some((op, no_integer(ctx, op_name + " input"@, input)))
                    &&& reduction == unary
                },
            }
        }),
{
    lemma_words(ctx, op_name + " input"@, ctx.value_type(ctx.op(op).operands@[0]));
    lemma_words(ctx, op_name + " result"@, ctx.op(op).results@[0]);
}

/// Of the operands of a bitwise operation the first that is no integer, or has
/// another width than the first one, is reported by its place.
pub proof fn bitwise_faults_name_the_first_operand(
    ctx: &Context,
    op: OpPtr,
    op_name: Seq<char>,
    k: nat,
)
    requires
        k < ctx.op(op).operands@.len(),
        utils::operands_fault(ctx, op, op_name, k) is None,
    ensures
        ({
            let fault = utils::variadic_fault(ctx, op, op_name);
            let ty = ctx.value_type(ctx.op(op).operands@[k as int]);
            let first = ctx.value_type(ctx.op(op).operands@[0]);
            &&& !(ty is Integer) ==> fault == Some(
                (op, no_integer(ctx, op_name + " operand "@ + text::decimal(k), ty)),
            )
            &&& ty is Integer && types::integer_width(ty) != types::integer_width(first) ==> fault
                == Some(
                (
                    op,
                    op_name + " operand width mismatch: operand 0 has width "@ + text::decimal(
                        width_of(first),
                    ) + ", operand "@ + text::decimal(k) + " has width "@ + text::decimal(
                        width_of(ty),
                    ),
                ),
            )
        }),
{
    lemma_words(
        ctx,
        op_name + " operand "@ + text::decimal(k),
        ctx.value_type(ctx.op(op).operands@[k as int]),
    );
    lemma_operands(ctx, op, op_name, k);
    if k > 0 {
        assert(ctx.value_type(ctx.op(op).operands@[0]) is Integer);
    }
    if utils::operands_fault(ctx, op, op_name, k + 1) is Some {
        lemma_operands_keep(ctx, op, op_name, k + 1, ctx.op(op).operands@.len());
    }
}

proof fn lemma_operands_keep(ctx: &Context, op: OpPtr, op_name: Seq<char>, i: nat, n: nat)
    requires
        i <= n,
        utils::operands_fault(ctx, op, op_name, i) is Some,
    ensures
        utils::operands_fault(ctx, op, op_name, n) == utils::operands_fault(ctx, op, op_name, i),
    decreases n,
{
    if i < n {
        lemma_operands_keep(ctx, op, op_name, i, (n - 1) as nat);
    }
}

/// The words for a value that an operation is to be built from and that is no
/// integer.
pub open spec fn unfit(ctx: &Context, what: Seq<char>, ty: TypeHandle) -> Seq<char> {
    what + " type error: "@ + ("expected an integer type, found "@ + ctx.type_text(ty))
}

/// The width of an integer type.
pub open spec fn width_of(ty: TypeHandle) -> nat {
    match ty {
        TypeHandle::Integer { width, .. } => width as nat,
        _ => 0,
    }
}

/// Whether the values before place `k` are integers of the width of the first
/// one, or of any width.
pub open spec fn sound_before(ctx: &Context, values: Seq<Value>, k: int, one_width: bool) -> bool {
    forall|i: int|
        0 <= i < k ==> ctx.value_type(#[trigger] values[i]) is Integer && (one_width ==> width_of(
            ctx.value_type(values[i]),
        ) == width_of(ctx.value_type(values[0])))
}

/// An arithmetic operation is refused for the first of its arguments that is no
/// integer; where all are, for the first one of another width than the first;
/// and last for its result.
pub proof fn arithmetic_refusals_come_in_order(
    ctx: &Context,
    args: Seq<Value>,
    result: TypeHandle,
    op_name: Seq<char>,
    k: int,
)
    requires
        0 <= k < args.len(),
    ensures
        ({
            let refusal = utils::binary_refusal(ctx, args, result, op_name);
            let ty = ctx.value_type(args[k]);
            let first = width_of(ctx.value_type(args[0]));
            &&& sound_before(ctx, args, k, false) && !(ty is Integer) ==> refusal == Some(
                unfit(ctx, op_name + " arg "@ + text::decimal(k as nat), ty),
            )
            &&& sound_before(ctx, args, args.len() as int, false) && sound_before(
                ctx,
                args,
                k,
                true,
            ) && width_of(ty) != first ==> refusal == Some(
                op_name + " operand width mismatch: arg "@ + text::decimal(k as nat)
                    + " has width "@ + text::decimal(width_of(ty)) + ", first arg has width "@
                    + text::decimal(first),
            )
            &&& sound_before(ctx, args, args.len() as int, true) ==> {
                &&& !(result is Integer) ==> refusal == Some(
                    unfit(ctx, op_name + " result"@, result),
                )
                &&& result is Integer && width_of(result) != first ==> refusal == Some(
                    op_name + " result width mismatch: expected width "@ + text::decimal(first)
                        + ", found "@ + text::decimal(width_of(result)),
                )
            }
        }),
{
    let n = args.len();
    lemma_all_integers(ctx, args, n);
    lemma_all_integers(ctx, args, k as nat);
    let ty = ctx.value_type(args[k]);
    if sound_before(ctx, args, k, false) && !(ty is Integer) {
        assert forall|i: int| 0 <= i < k implies ctx.value_type(#[trigger] args[i]) is Integer by {}
        assert(utils::first_non_integer(ctx, args, (k + 1) as nat) == Some(k as nat));
        lemma_first_stays(ctx, args, (k + 1) as nat, n);
    }
    if sound_before(ctx, args, n as int, false) && sound_before(ctx, args, k, true) && width_of(ty)
        != width_of(ctx.value_type(args[0])) {
        assert forall|i: int| 0 <= i < n implies ctx.value_type(#[trigger] args[i]) is Integer by {}
        assert forall|i: int| 0 <= i < k implies types::integer_width(
            ctx.value_type(#[trigger] args[i]),
        ) == types::integer_width(ctx.value_type(args[0])) by {
            assert(ctx.value_type(args[0]) is Integer);
        }
        assert(ctx.value_type(args[k]) is Integer && ctx.value_type(args[0]) is Integer);
        assert(utils::first_other_width(ctx, args, (k + 1) as nat) == Some(k as nat));
        lemma_first_stays(ctx, args, (k + 1) as nat, n);
    }
    if sound_before(ctx, args, n as int, true) {
        assert(ctx.value_type(args[0]) is Integer);
        assert forall|i: int| 0 <= i < n implies ctx.value_type(#[trigger] args[i]) is Integer
            && types::integer_width(ctx.value_type(args[i])) == types::integer_width(
            ctx.value_type(args[0]),
        ) by {}
    }
}

proof fn lemma_first_stays(ctx: &Context, values: Seq<Value>, i: nat, n: nat)
    requires
        i <= n,
    ensures
        utils::first_non_integer(ctx, values, i) is Some ==> utils::first_non_integer(
            ctx,
            values,
            n,
        ) == utils::first_non_integer(ctx, values, i),
        utils::first_other_width(ctx, values, i) is Some ==> utils::first_other_width(
            ctx,
            values,
            n,
        ) == utils::first_other_width(ctx, values, i),
    decreases n,
{
    if i < n {
        lemma_first_stays(ctx, values, i, (n - 1) as nat);
    }
}

/// A unary operation and a reduction are refused first for their input, then for
/// their result type.
pub proof fn unary_and_reduction_refusals_come_in_order(
    ctx: &Context,
    val: Value,
    result: TypeHandle,
    op_name: Seq<char>,
)
    ensures
        ({
            let unary = utils::unary_refusal(ctx, val, result, op_name);
            let reduction = utils::reduction_refusal(ctx, val, result, op_name);
            let input = ctx.value_type(val);
            &&& !(input is Integer) ==> unary == Some(unfit(ctx, op_name + " input"@, input))
                && reduction == unary
            &&& input is Integer && !(result is Integer) ==> unary == Some(
                unfit(ctx, op_name + " result"@, result),
            ) && reduction == unary
            &&& input is Integer && result is Integer && width_of(input) != width_of(result)
                ==> unary == Some(
                op_name + " result width mismatch: expected width "@ + text::decimal(
                    width_of(input),
                ) + ", found "@ + text::decimal(width_of(result)),
            )
            &&& input is Integer && result is Integer && width_of(result) != 1 ==> reduction
                == Some(
                op_name + " result must be i1, found width "@ + text::decimal(width_of(result)),
            )
        }),
{
}

/// A bitwise operation is refused without inputs; then for the first input that
/// is no integer or has another width than the first one; and last for its
/// result type.
pub proof fn bitwise_refusals_come_in_order(
    ctx: &Context,
    inputs: Seq<Value>,
    result: TypeHandle,
    op_name: Seq<char>,
    k: int,
)
    ensures
        ({
            let refusal = utils::variadic_refusal(ctx, inputs, result, op_name);
            let ty = ctx.value_type(inputs[k]);
            let first = width_of(ctx.value_type(inputs[0]));
            &&& inputs.len() == 0 ==> refusal == Some(op_name + " requires at least one input"@)
            &&& 0 <= k < inputs.len() && sound_before(ctx, inputs, k, true) && !(ty is Integer)
                ==> refusal == Some(unfit(ctx, op_name + " input "@ + text::decimal(k as nat), ty))
            &&& 0 <= k < inputs.len() && sound_before(ctx, inputs, k, true) && ty is Integer
                && width_of(ty) != first ==> refusal == Some(
                op_name + " input "@ + text::decimal(k as nat) + " width ("@ + text::decimal(
                    width_of(ty),
                ) + ") != input 0 width ("@ + text::decimal(first) + ")"@,
            )
            &&& inputs.len() > 0 && sound_before(ctx, inputs, inputs.len() as int, true) ==> {
                &&& !(result is Integer) ==> refusal == Some(
                    unfit(ctx, op_name + " result"@, result),
                )
                &&& result is Integer && width_of(result) != first ==> refusal == Some(
                    op_name + " result width ("@ + text::decimal(width_of(result))
                        + ") != input width ("@ + text::decimal(first) + ")"@,
                )
                &&& result is Integer && width_of(result) == first ==> refusal is None
            }
        }),
{
    let n = inputs.len();
    if 0 <= k < n && sound_before(ctx, inputs, k, true) {
        lemma_inputs(ctx, inputs, op_name, k as nat);
        if k > 0 {
            assert(ctx.value_type(inputs[0]) is Integer);
        }
        if utils::inputs_refusal(ctx, inputs, op_name, (k + 1) as nat) is Some {
            lemma_inputs_keep(ctx, inputs, op_name, (k + 1) as nat, n);
        }
    }
    if n > 0 && sound_before(ctx, inputs, n as int, true) {
        assert(ctx.value_type(inputs[0]) is Integer);
        lemma_inputs(ctx, inputs, op_name, n);
    }
}

proof fn lemma_inputs(ctx: &Context, inputs: Seq<Value>, op_name: Seq<char>, n: nat)
    requires
        n <= inputs.len(),
        sound_before(ctx, inputs, n as int, true),
    ensures
        utils::inputs_refusal(ctx, inputs, op_name, n) is None,
    decreases n,
{
    if n > 0 {
        assert(ctx.value_type(inputs[n - 1]) is Integer);
        assert(ctx.value_type(inputs[0]) is Integer);
        assert(sound_before(ctx, inputs, n - 1, true));
        lemma_inputs(ctx, inputs, op_name, (n - 1) as nat);
    }
}

proof fn lemma_inputs_keep(ctx: &Context, inputs: Seq<Value>, op_name: Seq<char>, i: nat, n: nat)
    requires
        i <= n,
        utils::inputs_refusal(ctx, inputs, op_name, i) is Some,
    ensures
        utils::inputs_refusal(ctx, inputs, op_name, n) == utils::inputs_refusal(
            ctx,
            inputs,
            op_name,
            i,
        ),
    decreases n,
{
    if i < n {
        lemma_inputs_keep(ctx, inputs, op_name, i, (n - 1) as nat);
    }
}

/// What is built is not refused, and what is refused is so with the words of the
/// error.
pub proof fn refusals_are_the_words_of_the_error(r: Result<(), String>)
    ensures
        match r {
            Ok(_) => utils::refusal(r) is None,
            Err(e) => utils::refusal(r) == Some(e@),
        },
{
}

} // verus!
