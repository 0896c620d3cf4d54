use pliron_circt::comb::types::{get_integer_width, verify_i1, verify_integer_type};
use pliron_circt::comb::utils::{
    assert_binary_arithmetic, assert_reduction, assert_unary, assert_variadic_bitwise,
    verify_binary_arithmetic, verify_reduction, verify_unary, verify_variadic_bitwise,
};
use pliron_circt::ir::context::{Context, OpKind, OpPtr, Value};
use pliron_circt::ir::error::VerifyError;
use pliron_circt::ir::types::{IntegerType, Signedness, TypeHandle};

fn bits(width: u32) -> TypeHandle {
    IntegerType::get(width, Signedness::Signless)
}

/// A context with one value of each type.
fn values(types: &[TypeHandle]) -> (Context, Vec<Value>) {
    let mut ctx = Context::new();
    let op = ctx.new_operation(OpKind::Other, vec![], vec![], 1);
    let region = ctx.ops[op.idx].regions[0];
    let block = ctx.add_block(region, types.to_vec());
    let vals = (0..types.len()).map(|idx| Value::BlockArgument { block, idx }).collect();
    (ctx, vals)
}

fn operation(types: &[TypeHandle], result: TypeHandle) -> (Context, OpPtr) {
    let (mut ctx, vals) = values(types);
    let op = ctx.new_operation(OpKind::Other, vec![result], vals, 0);
    (ctx, op)
}

fn text(r: Result<(), VerifyError>) -> String {
    match r {
        Ok(()) => "ok".to_string(),
        Err(e) => e.message,
    }
}

fn said(r: Result<(), String>) -> String {
    match r {
        Ok(()) => "ok".to_string(),
        Err(e) => e,
    }
}

#[test]
fn widths_are_those_of_integers() {
    let ctx = Context::new();
    assert_eq!(get_integer_width(&ctx, bits(7)), Ok(7));
    assert!(get_integer_width(&ctx, TypeHandle::Clock).is_err());
    let op = OpPtr { idx: 0 };
    match verify_integer_type(op, &ctx, bits(9), "x") {
        Ok(w) => assert_eq!(w, 9),
        Err(e) => panic!("{}", e.message),
    }
    match verify_integer_type(op, &ctx, TypeHandle::Clock, "x") {
        Ok(_) => panic!("no integer"),
        Err(e) => assert_eq!(e.message, "x: expected an integer type, found seq.clock "),
    }
    assert_eq!(text(verify_i1(op, &ctx, bits(1), "x")), "ok");
    assert_eq!(text(verify_i1(op, &ctx, bits(2), "x")), "x: expected i1, found builtin.integer i2");
}

#[test]
fn binary_operations_agree_in_width() {
    let (ctx, op) = operation(&[bits(8), bits(8)], bits(8));
    assert_eq!(text(verify_binary_arithmetic(op, &ctx, "comb.add")), "ok");
    let (ctx, op) = operation(&[bits(8), bits(4)], bits(8));
    assert_eq!(
        text(verify_binary_arithmetic(op, &ctx, "comb.add")),
        "comb.add operand width mismatch: lhs has width 8, rhs has width 4"
    );
    let (ctx, op) = operation(&[bits(8), bits(8)], bits(9));
    assert_eq!(
        text(verify_binary_arithmetic(op, &ctx, "comb.add")),
        "comb.add result width mismatch: expected width 8, found 9"
    );
    let (ctx, op) = operation(&[TypeHandle::Clock, bits(8)], bits(8));
    assert_eq!(
        text(verify_binary_arithmetic(op, &ctx, "comb.add")),
        "comb.add lhs: expected an integer type, found seq.clock "
    );
    let (ctx, op) = operation(&[bits(8), TypeHandle::Reset], bits(8));
    assert_eq!(
        text(verify_binary_arithmetic(op, &ctx, "comb.add")),
        "comb.add rhs: expected an integer type, found seq.reset "
    );
    let (ctx, op) = operation(&[bits(8), bits(8)], TypeHandle::Reset);
    assert_eq!(
        text(verify_binary_arithmetic(op, &ctx, "comb.add")),
        "comb.add result: expected an integer type, found seq.reset "
    );
}

#[test]
fn unary_operations_and_reductions_are_checked() {
    let (ctx, op) = operation(&[bits(8)], bits(8));
    assert_eq!(text(verify_unary(op, &ctx, "not")), "ok");
    assert_eq!(
        text(verify_reduction(op, &ctx, "xor")),
        "xor result: expected i1, found builtin.integer i8"
    );
    let (ctx, op) = operation(&[bits(8)], bits(1));
    assert_eq!(
        text(verify_unary(op, &ctx, "not")),
        "not result width mismatch: expected width 8, found 1"
    );
    assert_eq!(text(verify_reduction(op, &ctx, "xor")), "ok");
    let (ctx, op) = operation(&[TypeHandle::Clock], bits(1));
    assert_eq!(
        text(verify_unary(op, &ctx, "not")),
        "not input: expected an integer type, found seq.clock "
    );
    assert_eq!(
        text(verify_reduction(op, &ctx, "xor")),
        "xor input: expected an integer type, found seq.clock "
    );
}

#[test]
fn bitwise_operations_take_any_number_of_operands() {
    let (ctx, op) = operation(&[], bits(8));
    assert_eq!(
        text(verify_variadic_bitwise(op, &ctx, "and")),
        "and requires at least one operand, found 0"
    );
    let (ctx, op) = operation(&[bits(8), bits(8), bits(8)], bits(8));
    assert_eq!(text(verify_variadic_bitwise(op, &ctx, "and")), "ok");
    let (ctx, op) = operation(&[bits(8), bits(8), bits(3)], bits(8));
    assert_eq!(
        text(verify_variadic_bitwise(op, &ctx, "and")),
        "and operand width mismatch: operand 0 has width 8, operand 2 has width 3"
    );
    let (ctx, op) = operation(&[bits(8), TypeHandle::Clock], bits(8));
    assert_eq!(
        text(verify_variadic_bitwise(op, &ctx, "and")),
        "and operand 1: expected an integer type, found seq.clock "
    );
    let (ctx, op) = operation(&[TypeHandle::Clock], bits(8));
    assert_eq!(
        text(verify_variadic_bitwise(op, &ctx, "and")),
        "and operand 0: expected an integer type, found seq.clock "
    );
    let (ctx, op) = operation(&[bits(8)], bits(7));
    assert_eq!(
        text(verify_variadic_bitwise(op, &ctx, "and")),
        "and result width mismatch: expected width 8, found 7"
    );
}

#[test]
fn checks_agree_with_each_other() {
    let types = [bits(8), bits(4), TypeHandle::Clock];
    for a in types {
        for b in types {
            for r in types {
                let (ctx, op) = operation(&[a, b], r);
                let args = ctx.ops[op.idx].operands.clone();
                let checked = verify_binary_arithmetic(op, &ctx, "add").is_ok();
                assert_eq!(checked, verify_variadic_bitwise(op, &ctx, "and").is_ok());
                assert_eq!(checked, assert_binary_arithmetic(&ctx, &args, r, "add").is_ok());
                assert_eq!(checked, assert_variadic_bitwise(&ctx, &args, r, "and").is_ok());
            }
        }
        for r in [bits(8), bits(1), TypeHandle::Clock] {
            let (ctx, op) = operation(&[a], r);
            let arg = ctx.ops[op.idx].operands[0];
            let checked = verify_unary(op, &ctx, "not").is_ok();
            assert_eq!(checked, verify_variadic_bitwise(op, &ctx, "and").is_ok());
            assert_eq!(checked, assert_unary(&ctx, arg, r, "not").is_ok());
            assert_eq!(
                verify_reduction(op, &ctx, "xor").is_ok(),
                assert_reduction(&ctx, arg, r, "xor").is_ok()
            );
        }
    }
}

#[test]
fn arguments_are_refused_with_a_reason() {
    let (ctx, v) = values(&[bits(8), bits(4), TypeHandle::Clock]);
    assert_eq!(
        said(assert_binary_arithmetic(&ctx, &[v[0], v[1]], bits(8), "add")),
        "add operand width mismatch: arg 1 has width 4, first arg has width 8"
    );
    assert_eq!(
        said(assert_binary_arithmetic(&ctx, &[v[0], v[2]], bits(8), "add")),
        "add arg 1 type error: expected an integer type, found seq.clock "
    );
    assert_eq!(
        said(assert_binary_arithmetic(&ctx, &[v[0]], bits(4), "add")),
        "add result width mismatch: expected width 8, found 4"
    );
    assert_eq!(
        said(assert_binary_arithmetic(&ctx, &[v[0]], TypeHandle::Reset, "add")),
        "add result type error: expected an integer type, found seq.reset "
    );
    assert_eq!(
        said(assert_unary(&ctx, v[2], bits(8), "not")),
        "not input type error: expected an integer type, found seq.clock "
    );
    assert_eq!(
        said(assert_reduction(&ctx, v[0], bits(2), "or")),
        "or result must be i1, found width 2"
    );
    assert_eq!(
        said(assert_variadic_bitwise(&ctx, &[], bits(2), "or")),
        "or requires at least one input"
    );
    assert_eq!(
        said(assert_variadic_bitwise(&ctx, &[v[0], v[0], v[1]], bits(8), "or")),
        "or input 2 width (4) != input 0 width (8)"
    );
    assert_eq!(
        said(assert_variadic_bitwise(&ctx, &[v[0], v[2]], bits(8), "or")),
        "or input 1 type error: expected an integer type, found seq.clock "
    );
    assert_eq!(
        said(assert_variadic_bitwise(&ctx, &[v[0]], bits(4), "or")),
        "or result width (4) != input width (8)"
    );
    assert_eq!(said(assert_variadic_bitwise(&ctx, &[v[1], v[1]], bits(4), "or")), "ok");
}
