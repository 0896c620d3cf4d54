use pliron_circt::fsm::canonicalization::{
    compute_reachable_states, eliminate_unreachable_states, find_unreachable_states,
};
use pliron_circt::fsm::lowering::{plan_fsm_lowering, FsmLoweringPlan, StateEncoding};
use pliron_circt::fsm::ops::{
    clean_symbol_ref, find_machine, get_function_signature, get_op_symbol_or_name,
    set_op_symbol_and_name, HWInstanceOp, InstanceOp, MachineOp, OutputOp, ReturnOp, StateOp,
    TransitionOp, TriggerOp, UpdateOp, VariableOp,
};
use pliron_circt::fsm::types::InstanceType;
use pliron_circt::ir::attributes::{AttrKey, Attribute};
use pliron_circt::ir::context::{BlockPtr, Context, OpKind, OpPtr, Value};
use pliron_circt::ir::error::VerifyError;
use pliron_circt::ir::types::{IntegerType, Signedness, TypeHandle};
use pliron_circt::sv::lower::int_attr;

fn bits(width: u32) -> TypeHandle {
    IntegerType::get(width, Signedness::Signless)
}

fn report(r: Result<(), VerifyError>) -> Option<(OpPtr, String)> {
    match r {
        Ok(()) => None,
        Err(e) => Some((e.at, e.message)),
    }
}

fn at(op: OpPtr, message: &str) -> Option<(OpPtr, String)> {
    Some((op, message.to_string()))
}

/// An operation that is none of the dialect's, with one block inside.
fn around(ctx: &mut Context, args: Vec<TypeHandle>) -> (OpPtr, BlockPtr) {
    let op = ctx.new_operation(OpKind::Other, vec![], vec![], 1);
    let region = ctx.ops[op.idx].regions[0];
    let body = ctx.add_block(region, args);
    (op, body)
}

fn add_state(ctx: &mut Context, machine: &MachineOp, name: &str, next: &[&str]) -> StateOp {
    let state = StateOp::new(ctx, name);
    let body = machine.get_body(ctx);
    ctx.insert_at_back(state.get_operation(), body);
    let block = state.ensure_transitions_block(ctx);
    for target in next {
        let t = TransitionOp::new(ctx, target);
        ctx.insert_at_back(t.get_operation(), block);
    }
    state
}

#[test]
fn symbol_references_are_cleaned() {
    assert_eq!(clean_symbol_ref("@top"), "top");
    assert_eq!(clean_symbol_ref("@@top@"), "top@");
    assert_eq!(clean_symbol_ref("top"), "top");
    assert_eq!(clean_symbol_ref(""), "");
    assert_eq!(clean_symbol_ref("@"), "");
}

#[test]
fn names_are_read_back() {
    let mut ctx = Context::new();
    let s = StateOp::new(&mut ctx, "@S0");
    assert_eq!(s.state_name(&ctx), "S0");
    set_op_symbol_and_name(s.op, &mut ctx, "@@idle");
    assert_eq!(get_op_symbol_or_name(s.op, &ctx), Some("idle".to_string()));
    // Not an identifier: the earlier symbol stays.
    set_op_symbol_and_name(s.op, &mut ctx, "no identifier");
    assert_eq!(get_op_symbol_or_name(s.op, &ctx), Some("idle".to_string()));
    // Not an identifier, and no earlier symbol.
    let t = StateOp::new(&mut ctx, "a-b");
    assert_eq!(t.state_name(&ctx), "a-b");
    let plain = ctx.new_operation(OpKind::State, vec![], vec![], 2);
    assert_eq!(get_op_symbol_or_name(plain, &ctx), None);
    assert_eq!(StateOp { op: plain }.state_name(&ctx), "unnamed_state");
    ctx.set_attribute(plain, AttrKey::Name, Attribute::String("@named".to_string()));
    assert_eq!(get_op_symbol_or_name(plain, &ctx), Some("named".to_string()));
    ctx.set_attribute(plain, AttrKey::SymName, Attribute::Identifier("other".to_string()));
    assert_eq!(get_op_symbol_or_name(plain, &ctx), Some("other".to_string()));
}

#[test]
fn machines_are_found_outwards() {
    let mut ctx = Context::new();
    let (top, top_body) = around(&mut ctx, vec![]);
    let (inner, inner_body) = around(&mut ctx, vec![]);
    let far = MachineOp::new(&mut ctx, "m", "A", vec![], vec![]);
    let near = MachineOp::new(&mut ctx, "m", "B", vec![], vec![]);
    let only = MachineOp::new(&mut ctx, "only", "C", vec![], vec![]);
    ctx.insert_at_back(far.op, top_body);
    ctx.insert_at_back(only.op, top_body);
    ctx.insert_at_back(inner, top_body);
    ctx.insert_at_back(near.op, inner_body);
    let user = ctx.new_operation(OpKind::Other, vec![], vec![], 0);
    ctx.insert_at_back(user, inner_body);
    assert_eq!(find_machine(user, &ctx, "@m").map(|m| m.op), Some(near.op));
    assert_eq!(find_machine(user, &ctx, "only").map(|m| m.op), Some(only.op));
    assert_eq!(find_machine(inner, &ctx, "m").map(|m| m.op), Some(far.op));
    assert!(find_machine(user, &ctx, "none").is_none());
    assert!(find_machine(top, &ctx, "m").is_none());
}

#[test]
fn signatures_are_read() {
    let mut ctx = Context::new();
    let m = MachineOp::new(&mut ctx, "m", "A", vec![bits(1), bits(2)], vec![bits(3)]);
    assert_eq!(m.get_function_signature(&ctx), Some((vec![bits(1), bits(2)], vec![bits(3)])));
    assert_eq!(get_function_signature(&ctx, bits(8)), None);
    let ty = ctx.function_type(vec![bits(4)], vec![]);
    let copy = MachineOp::new_with_function_type(&mut ctx, "copy", "@A", ty);
    assert_eq!(copy.get_function_signature(&ctx), Some((vec![bits(4)], vec![])));
    assert_eq!(copy.num_inputs(&ctx), 1);
    assert_eq!(copy.initial_state(&ctx), "A");
    let n = MachineOp::new(&mut ctx, "n", "A", vec![], vec![]);
    ctx.set_attribute(n.op, AttrKey::FunctionType, Attribute::Type(bits(8)));
    assert_eq!(n.get_function_signature(&ctx), None);
    assert_eq!(n.input_types(&ctx), vec![]);
    assert_eq!(n.num_inputs(&ctx), 0);
    assert_eq!(
        report(n.verify(&ctx)),
        at(n.op, "fsm.machine requires a valid function_type attribute")
    );
}

#[test]
fn machines_must_be_complete() {
    let mut ctx = Context::new();
    let nameless = MachineOp::new(&mut ctx, "", "A", vec![], vec![]);
    assert_eq!(
        report(nameless.verify(&ctx)),
        at(nameless.op, "fsm.machine requires a non-empty symbol name")
    );
    let aimless = MachineOp::new(&mut ctx, "m", "@", vec![], vec![]);
    assert_eq!(
        report(aimless.verify(&ctx)),
        at(aimless.op, "fsm.machine requires an initialState attribute")
    );
    let twice = MachineOp::new(&mut ctx, "m", "A", vec![], vec![]);
    add_state(&mut ctx, &twice, "A", &[]);
    add_state(&mut ctx, &twice, "B", &[]);
    add_state(&mut ctx, &twice, "@A", &[]);
    assert_eq!(
        report(twice.verify(&ctx)),
        at(twice.op, "duplicate state name 'A' in fsm.machine 'm'")
    );
    let lost = MachineOp::new(&mut ctx, "m", "Z", vec![], vec![]);
    add_state(&mut ctx, &lost, "A", &[]);
    assert_eq!(
        report(lost.verify(&ctx)),
        at(lost.op, "Can not find initial state: 'Z' in machine 'm'")
    );
}

#[test]
fn machine_arguments_must_agree_with_the_signature() {
    let mut ctx = Context::new();
    let m = MachineOp::new(&mut ctx, "m", "A", vec![bits(1), bits(4)], vec![]);
    add_state(&mut ctx, &m, "A", &[]);
    assert_eq!(report(m.verify(&ctx)), None);
    let body = m.get_body(&ctx);
    ctx.blocks[body.idx].args[1] = bits(5);
    assert_eq!(
        report(m.verify(&ctx)),
        at(m.op, "fsm.machine argument 1 type mismatch: expected builtin.integer i4, got builtin.integer i5")
    );
    ctx.blocks[body.idx].args.pop();
    assert_eq!(
        report(m.verify(&ctx)),
        at(m.op, "fsm.machine entry block has 1 arguments but function_type expects 2")
    );
}

#[test]
fn machine_attributes_come_in_pairs() {
    let mut ctx = Context::new();
    let m = MachineOp::new(&mut ctx, "m", "A", vec![], vec![]);
    add_state(&mut ctx, &m, "A", &[]);
    ctx.set_attribute(m.op, AttrKey::ArgNames, Attribute::Vec(2));
    assert_eq!(
        report(m.verify(&ctx)),
        at(m.op, "arg_attrs must be consistent with arg_names")
    );
    ctx.set_attribute(m.op, AttrKey::ArgAttrs, Attribute::Dict(1));
    assert_eq!(
        report(m.verify(&ctx)),
        at(m.op, "The number of arg_attrs and arg_names should be the same")
    );
    ctx.set_attribute(m.op, AttrKey::ArgAttrs, Attribute::Dict(2));
    assert_eq!(report(m.verify(&ctx)), None);
    ctx.set_attribute(m.op, AttrKey::ResAttrs, Attribute::Vec(0));
    assert_eq!(
        report(m.verify(&ctx)),
        at(m.op, "res_attrs must be consistent with res_names")
    );
    ctx.set_attribute(m.op, AttrKey::ResNames, Attribute::Vec(3));
    assert_eq!(
        report(m.verify(&ctx)),
        at(m.op, "The number of res_attrs and res_names should be the same")
    );
}

#[test]
fn states_of_a_machine_with_results_must_output() {
    let mut ctx = Context::new();
    let m = MachineOp::new(&mut ctx, "m", "A", vec![bits(1)], vec![bits(1)]);
    let s = add_state(&mut ctx, &m, "A", &[]);
    let text = "State must have a non-empty output region when the machine has results";
    assert_eq!(report(m.verify(&ctx)), at(s.op, text));
    assert_eq!(report(s.verify(&ctx)), at(s.op, text));
    let block = s.ensure_output_block(&mut ctx);
    let input = m.get_input(&ctx, 0);
    let o = OutputOp::new(&mut ctx, vec![input]);
    ctx.insert_at_back(o.op, block);
    assert_eq!(report(m.verify(&ctx)), None);
    assert_eq!(report(s.verify(&ctx)), None);
    assert_eq!(report(o.verify(&ctx)), None);
    assert_eq!(o.outputs(&ctx), vec![input]);
    assert_eq!(o.num_outputs(&ctx), 1);
    assert_eq!(s.output_op(&ctx).map(|x| x.op), Some(o.op));
}

#[test]
fn states_must_be_in_order() {
    let mut ctx = Context::new();
    let nameless = StateOp::new(&mut ctx, "");
    assert_eq!(
        report(nameless.verify(&ctx)),
        at(nameless.op, "fsm.state requires a non-empty symbol name")
    );
    let s = StateOp::new(&mut ctx, "S");
    let outputs = s.ensure_output_block(&mut ctx);
    let other = ctx.new_operation(OpKind::Other, vec![], vec![], 0);
    ctx.insert_at_back(other, outputs);
    assert_eq!(
        report(s.verify(&ctx)),
        at(s.op, "fsm.state 'S' output region must terminate with an fsm.output")
    );
    let t = TransitionOp::new(&mut ctx, "S");
    ctx.insert_at_back(t.op, outputs);
    assert_eq!(
        report(s.verify(&ctx)),
        at(t.op, "Transition must be located in a transitions region")
    );
    assert_eq!(
        report(t.verify(&ctx)),
        at(t.op, "Transition must be located in a transitions region")
    );
    let q = StateOp::new(&mut ctx, "Q");
    let block = q.ensure_output_block(&mut ctx);
    let first = ctx.new_operation(OpKind::Other, vec![], vec![], 0);
    ctx.insert_at_back(first, block);
    let output = OutputOp::new(&mut ctx, vec![]);
    ctx.insert_at_back(output.op, block);
    assert!(q.verify(&ctx).is_ok());
    let behind = ctx.new_operation(OpKind::Other, vec![], vec![], 0);
    ctx.insert_at_back(behind, block);
    assert_eq!(
        report(q.verify(&ctx)),
        at(q.op, "fsm.state 'Q' output region must terminate with an fsm.output")
    );
    let r = StateOp::new(&mut ctx, "R");
    let transitions = r.ensure_transitions_block(&mut ctx);
    let o = OutputOp::new(&mut ctx, vec![]);
    ctx.insert_at_back(o.op, transitions);
    assert_eq!(
        report(r.verify(&ctx)),
        at(o.op, "Transition regions should not output any value")
    );
    assert_eq!(
        report(o.verify(&ctx)),
        at(o.op, "Transition regions should not output any value")
    );
}

#[test]
fn outputs_must_fit_the_machine() {
    let mut ctx = Context::new();
    let (_, body) = around(&mut ctx, vec![]);
    let stray = OutputOp::new(&mut ctx, vec![]);
    assert_eq!(report(stray.verify(&ctx)), None);
    ctx.insert_at_back(stray.op, body);
    assert_eq!(
        report(stray.verify(&ctx)),
        at(stray.op, "fsm.output parent must be an fsm.state")
    );
    let m = MachineOp::new(&mut ctx, "m", "A", vec![bits(1)], vec![bits(2)]);
    let s = add_state(&mut ctx, &m, "A", &[]);
    let block = s.ensure_output_block(&mut ctx);
    let input = m.get_input(&ctx, 0);
    let o = OutputOp::new(&mut ctx, vec![input]);
    ctx.insert_at_back(o.op, block);
    assert_eq!(
        report(o.verify(&ctx)),
        at(o.op, "OutputOp output type must be consistent with the machine \"m\"")
    );
}

#[test]
fn transitions_must_be_in_order() {
    let mut ctx = Context::new();
    let loose = TransitionOp::new(&mut ctx, "");
    assert_eq!(report(loose.verify(&ctx)), None);
    let m = MachineOp::new(&mut ctx, "m", "A", vec![bits(1)], vec![]);
    let s = add_state(&mut ctx, &m, "A", &["A"]);
    let block = s.ensure_transitions_block(&mut ctx);
    ctx.insert_at_back(loose.op, block);
    assert_eq!(
        report(loose.verify(&ctx)),
        at(loose.op, "fsm.transition requires nextState attribute")
    );
    let wrong = TransitionOp::new(&mut ctx, "@B");
    ctx.insert_at_back(wrong.op, block);
    assert_eq!(report(wrong.verify(&ctx)), at(wrong.op, "Can not find next state: 'B'"));
    let t = TransitionOp::new(&mut ctx, "A");
    ctx.insert_at_back(t.op, block);
    assert_eq!(report(t.verify(&ctx)), None);
    let guard = t.ensure_guard_block(&mut ctx);
    assert!(!t.has_guard(&ctx));
    let other = ctx.new_operation(OpKind::Other, vec![], vec![], 0);
    ctx.insert_at_back(other, guard);
    assert!(t.has_guard(&ctx));
    assert_eq!(
        report(t.verify(&ctx)),
        at(t.op, "Guard region must terminate with ReturnOp")
    );
    let input = m.get_input(&ctx, 0);
    let r = ReturnOp::new(&mut ctx, Some(input));
    ctx.insert_at_back(r.op, guard);
    assert_eq!(report(t.verify(&ctx)), None);
    assert_eq!(t.guard_return_op(&ctx).map(|x| x.op), Some(r.op));
    let action = t.ensure_action_block(&mut ctx);
    let o = OutputOp::new(&mut ctx, vec![]);
    ctx.insert_at_back(o.op, action);
    assert_eq!(
        report(t.verify(&ctx)),
        at(o.op, "Transition regions should not output any value")
    );
    assert_eq!(s.transitions(&ctx).len(), 4);
}

#[test]
fn returns_must_give_one_bit() {
    let mut ctx = Context::new();
    let (_, body) = around(&mut ctx, vec![bits(2), bits(1)]);
    let wide = Value::BlockArgument { block: body, idx: 0 };
    let stray = ReturnOp::new(&mut ctx, None);
    assert_eq!(report(stray.verify(&ctx)), None);
    assert_eq!(stray.value(&ctx), None);
    ctx.insert_at_back(stray.op, body);
    assert_eq!(
        report(stray.verify(&ctx)),
        at(stray.op, "fsm.return parent must be an fsm.transition")
    );
    let t = TransitionOp::new(&mut ctx, "A");
    let guard = t.ensure_guard_block(&mut ctx);
    let r = ReturnOp::new(&mut ctx, Some(wide));
    ctx.insert_at_back(r.op, guard);
    assert_eq!(r.value(&ctx), Some(wide));
    assert_eq!(
        report(r.verify(&ctx)),
        at(r.op, "fsm.return condition operand must be i1, got builtin.integer i2")
    );
    let signed = IntegerType::get(1, Signedness::Signed);
    ctx.blocks[body.idx].args[0] = signed;
    assert!(report(r.verify(&ctx)).is_some());
    ctx.blocks[body.idx].args[0] = bits(1);
    assert_eq!(report(r.verify(&ctx)), None);
}

#[test]
fn variables_must_be_named_and_initialised() {
    let mut ctx = Context::new();
    let v = VariableOp::new(&mut ctx, "v", int_attr(8, 1), bits(8));
    assert_eq!(report(v.verify(&ctx)), None);
    assert_eq!(v.variable_name(&ctx), "v");
    let nameless = VariableOp::new(&mut ctx, "", int_attr(8, 1), bits(8));
    assert_eq!(
        report(nameless.verify(&ctx)),
        at(nameless.op, "fsm.variable requires a non-empty name")
    );
    let op = ctx.new_operation(OpKind::Variable, vec![bits(8)], vec![], 0);
    set_op_symbol_and_name(op, &mut ctx, "w");
    assert_eq!(
        report(VariableOp { op }.verify(&ctx)),
        at(op, "fsm.variable 'w' requires an initValue attribute")
    );
}

#[test]
fn updates_must_be_in_order() {
    let mut ctx = Context::new();
    let v = VariableOp::new(&mut ctx, "v", int_attr(8, 1), bits(8));
    let w = VariableOp::new(&mut ctx, "w", int_attr(4, 1), bits(4));
    let (to, from) = (v.result(&ctx), w.result(&ctx));
    let u = UpdateOp::new(&mut ctx, to, from);
    assert_eq!(u.variable(&ctx), to);
    assert_eq!(u.value(&ctx), from);
    let misplaced = "Update must only be located in the action region of a transition";
    assert_eq!(report(u.verify(&ctx)), at(u.op, misplaced));
    let t = TransitionOp::new(&mut ctx, "A");
    let guard = t.ensure_guard_block(&mut ctx);
    let x = UpdateOp::new(&mut ctx, to, to);
    ctx.insert_at_back(x.op, guard);
    assert_eq!(report(x.verify(&ctx)), at(x.op, misplaced));
    let action = t.ensure_action_block(&mut ctx);
    ctx.insert_at_back(u.op, action);
    assert_eq!(
        report(u.verify(&ctx)),
        at(u.op, "fsm.update variable and value must have the same type")
    );
    let y = UpdateOp::new(&mut ctx, to, to);
    ctx.insert_at_back(y.op, action);
    assert_eq!(report(y.verify(&ctx)), None);
}

#[test]
fn instances_must_name_a_machine() {
    let mut ctx = Context::new();
    let handle = InstanceType::get(&ctx);
    let i = InstanceOp::new(&mut ctx, "i", "m", handle);
    assert_eq!(report(i.verify(&ctx)), None);
    assert_eq!(i.instance_name(&ctx), "i");
    assert_eq!(i.machine(&ctx), "m");
    let (_, body) = around(&mut ctx, vec![]);
    ctx.insert_at_back(i.op, body);
    assert_eq!(report(i.verify(&ctx)), at(i.op, "Machine definition does not exist"));
    let m = MachineOp::new(&mut ctx, "m", "A", vec![], vec![]);
    ctx.insert_at_back(m.op, body);
    assert_eq!(report(i.verify(&ctx)), None);
    let j = InstanceOp::new(&mut ctx, "j", "", handle);
    assert_eq!(report(j.verify(&ctx)), at(j.op, "fsm.instance requires machine attribute"));
    let k = InstanceOp::new(&mut ctx, "k", "m", bits(1));
    assert_eq!(report(k.verify(&ctx)), at(k.op, "The instance operand must be Instance"));
}

#[test]
fn triggers_must_fit_the_machine() {
    let mut ctx = Context::new();
    let handle = InstanceType::get(&ctx);
    let (_, body) = around(&mut ctx, vec![bits(1), handle]);
    let sig = Value::BlockArgument { block: body, idx: 0 };
    let fake = Value::BlockArgument { block: body, idx: 1 };
    let i = InstanceOp::new(&mut ctx, "i", "m", handle);
    let inst = i.result(&ctx);
    let loose = TriggerOp::new(&mut ctx, inst, vec![], vec![]);
    assert_eq!(report(loose.verify(&ctx)), None);
    ctx.insert_at_back(loose.op, body);
    assert_eq!(report(loose.verify(&ctx)), at(loose.op, "Machine definition does not exist"));
    let m = MachineOp::new(&mut ctx, "m", "A", vec![bits(1)], vec![bits(2)]);
    ctx.insert_at_back(m.op, body);
    assert_eq!(
        report(loose.verify(&ctx)),
        at(loose.op, "TriggerOp input types must be consistent with the machine \"m\"")
    );
    let t = TriggerOp::new(&mut ctx, inst, vec![sig], vec![bits(1)]);
    ctx.insert_at_back(t.op, body);
    assert_eq!(
        report(t.verify(&ctx)),
        at(t.op, "TriggerOp output types must be consistent with the machine \"m\"")
    );
    let good = TriggerOp::new(&mut ctx, inst, vec![sig], vec![bits(2)]);
    ctx.insert_at_back(good.op, body);
    assert_eq!(report(good.verify(&ctx)), None);
    let forged = TriggerOp::new(&mut ctx, fake, vec![], vec![]);
    assert_eq!(
        report(forged.verify(&ctx)),
        at(forged.op, "The instance operand must be Instance")
    );
    let wrong = TriggerOp::new(&mut ctx, sig, vec![], vec![]);
    assert_eq!(
        report(wrong.verify(&ctx)),
        at(wrong.op, "The instance operand must be Instance")
    );
    let op = ctx.new_operation(OpKind::Trigger, vec![], vec![], 0);
    assert_eq!(
        report(TriggerOp { op }.verify(&ctx)),
        at(op, "fsm.trigger requires at least 1 operand (the instance)")
    );
}

#[test]
fn hardware_instances_must_fit_the_machine() {
    let mut ctx = Context::new();
    let (_, body) = around(&mut ctx, vec![bits(1), TypeHandle::Clock, TypeHandle::Reset]);
    let sig = Value::BlockArgument { block: body, idx: 0 };
    let clk = Value::BlockArgument { block: body, idx: 1 };
    let rst = Value::BlockArgument { block: body, idx: 2 };
    let h = HWInstanceOp::new(&mut ctx, "h", "m", vec![], clk, rst, vec![]);
    assert_eq!(report(h.verify(&ctx)), None);
    ctx.insert_at_back(h.op, body);
    assert_eq!(report(h.verify(&ctx)), at(h.op, "Machine definition does not exist"));
    let m = MachineOp::new(&mut ctx, "m", "A", vec![bits(1)], vec![bits(2)]);
    ctx.insert_at_back(m.op, body);
    assert_eq!(
        report(h.verify(&ctx)),
        at(h.op, "HWInstanceOp \"h\" input type must be consistent with the machine \"m\"")
    );
    let g = HWInstanceOp::new(&mut ctx, "g", "m", vec![sig], clk, rst, vec![bits(1)]);
    ctx.insert_at_back(g.op, body);
    assert_eq!(
        report(g.verify(&ctx)),
        at(g.op, "HWInstanceOp \"g\" output type must be consistent with the machine \"m\"")
    );
    let good = HWInstanceOp::new(&mut ctx, "", "m", vec![sig], clk, rst, vec![bits(2)]);
    ctx.insert_at_back(good.op, body);
    assert_eq!(report(good.verify(&ctx)), None);
    let nameless = HWInstanceOp::new(&mut ctx, "n", "", vec![], clk, rst, vec![]);
    assert_eq!(
        report(nameless.verify(&ctx)),
        at(nameless.op, "fsm.hw_instance requires machine attribute")
    );
    let op = ctx.new_operation(OpKind::HwInstance, vec![], vec![clk], 0);
    assert_eq!(
        report(HWInstanceOp { op }.verify(&ctx)),
        at(op, "fsm.hw_instance requires at least clock and reset operands")
    );
}

#[test]
fn elimination_keeps_what_can_be_reached() {
    let mut ctx = Context::new();
    let m = MachineOp::new(&mut ctx, "m", "A", vec![], vec![]);
    add_state(&mut ctx, &m, "A", &["B", "gone"]);
    add_state(&mut ctx, &m, "B", &["B"]);
    add_state(&mut ctx, &m, "C", &["A", "D"]);
    add_state(&mut ctx, &m, "D", &["C"]);
    let reachable = compute_reachable_states(&ctx, &m);
    assert_eq!(reachable.len(), 3);
    assert!(reachable.contains("A") && reachable.contains("B") && reachable.contains("gone"));
    assert_eq!(find_unreachable_states(&ctx, &m), vec!["C", "D"]);
    assert_eq!(report(m.verify(&ctx)), None);
    match eliminate_unreachable_states(&mut ctx, &m) {
        Ok(n) => assert_eq!(n, 2),
        Err(e) => panic!("{}", e.message),
    }
    let names: Vec<String> = m.states(&ctx).iter().map(|s| s.state_name(&ctx)).collect();
    assert_eq!(names, vec!["A", "B"]);
    assert_eq!(report(m.verify(&ctx)), None);
    assert_eq!(m.initial_state(&ctx), "A");
    let a = match m.get_state(&ctx, "A") {
        Some(s) => s,
        None => panic!("the initial state stays"),
    };
    let targets: Vec<String> = a.transitions(&ctx).iter().map(|t| t.next_state(&ctx)).collect();
    assert_eq!(targets, vec!["B", "gone"]);
    assert_eq!(find_unreachable_states(&ctx, &m), Vec::<String>::new());
    match eliminate_unreachable_states(&mut ctx, &m) {
        Ok(n) => assert_eq!(n, 0),
        Err(e) => panic!("{}", e.message),
    }
}

#[test]
fn elimination_keeps_variables_outputs_and_transitions() {
    let mut ctx = Context::new();
    let m = MachineOp::new(&mut ctx, "m", "A", vec![], vec![]);
    let v = VariableOp::new(&mut ctx, "v", int_attr(8, 1), bits(8));
    let body = m.get_body(&ctx);
    add_state(&mut ctx, &m, "X", &["A"]);
    ctx.insert_at_back(v.op, body);
    let a = add_state(&mut ctx, &m, "A", &["B", "A"]);
    add_state(&mut ctx, &m, "Y", &["X"]);
    add_state(&mut ctx, &m, "B", &["A"]);
    let block = a.ensure_output_block(&mut ctx);
    let o = OutputOp::new(&mut ctx, vec![]);
    ctx.insert_at_back(o.op, block);
    let faults = |ctx: &Context| -> usize {
        m.states(ctx)
            .iter()
            .flat_map(|s| s.transitions(ctx))
            .filter(|t| t.verify(ctx).is_err())
            .count()
    };
    assert_eq!((report(m.verify(&ctx)), faults(&ctx)), (None, 0));
    let transitions: Vec<OpPtr> = a.transitions(&ctx).iter().map(|t| t.op).collect();
    let reachable = compute_reachable_states(&ctx, &m).len();
    let before = m.states(&ctx).len();
    match eliminate_unreachable_states(&mut ctx, &m) {
        Ok(n) => assert_eq!((n, before - m.states(&ctx).len()), (2, 2)),
        Err(e) => panic!("{}", e.message),
    }
    let variables: Vec<OpPtr> = m.variables(&ctx).iter().map(|x| x.op).collect();
    assert_eq!(variables, vec![v.op]);
    let after: Vec<OpPtr> = a.transitions(&ctx).iter().map(|t| t.op).collect();
    assert_eq!(after, transitions);
    assert_eq!(a.output_op(&ctx).map(|x| x.op), Some(o.op));
    assert_eq!(compute_reachable_states(&ctx, &m).len(), reachable);
    assert_eq!((report(m.verify(&ctx)), faults(&ctx)), (None, 0));
}

#[test]
fn without_an_initial_state_nothing_can_be_reached() {
    let mut ctx = Context::new();
    let m = MachineOp::new(&mut ctx, "m", "", vec![], vec![]);
    add_state(&mut ctx, &m, "A", &["A"]);
    assert_eq!(compute_reachable_states(&ctx, &m).len(), 0);
    assert_eq!(find_unreachable_states(&ctx, &m), vec!["A"]);
}

fn plan(n: usize, encoding: StateEncoding) -> FsmLoweringPlan {
    let mut ctx = Context::new();
    let m = MachineOp::new(&mut ctx, "m", "S0", vec![bits(1), bits(2)], vec![bits(3)]);
    for k in 0..n {
        add_state(&mut ctx, &m, &format!("S{}", k), &[]);
    }
    let v = VariableOp::new(&mut ctx, "v", int_attr(8, 1), bits(8));
    let body = m.get_body(&ctx);
    ctx.insert_at_back(v.op, body);
    match plan_fsm_lowering(&ctx, &m, encoding) {
        Ok(p) => p,
        Err(e) => panic!("{}", e.message),
    }
}

#[test]
fn state_registers_are_wide_enough() {
    let widths: Vec<(usize, u32)> =
        vec![(1, 0), (2, 1), (3, 2), (4, 2), (5, 3), (8, 3), (9, 4), (64, 6), (65, 7), (200, 8)];
    for (n, width) in widths {
        let p = plan(n, StateEncoding::Binary);
        assert_eq!((p.num_states, p.state_width), (n, width));
        let last = format!("S{}", n - 1);
        assert_eq!(p.state_map.get(last.as_str()), Some(&((n - 1) as u64)));
        assert_eq!(p.state_map.get(p.initial_state.as_str()), Some(&0));
    }
    let p = plan(64, StateEncoding::OneHot);
    assert_eq!(p.state_width, 64);
    assert_eq!(p.state_map.get("S0"), Some(&1));
    assert_eq!(p.state_map.get("S63"), Some(&(1u64 << 63)));
    assert_eq!(p.machine_name, "m");
    assert_eq!(p.encoding, StateEncoding::OneHot);
    assert_eq!((p.num_variables, p.num_inputs, p.num_outputs), (1, 2, 1));
}

#[test]
fn a_machine_without_states_has_no_plan() {
    let mut ctx = Context::new();
    let m = MachineOp::new(&mut ctx, "m", "A", vec![], vec![]);
    match plan_fsm_lowering(&ctx, &m, StateEncoding::Binary) {
        Ok(_) => panic!("no plan"),
        Err(e) => {
            assert_eq!(e.at, m.op);
            assert_eq!(e.message, "cannot lower fsm.machine with zero states");
        }
    }
}
