use pliron_circt::fsm::canonicalization::{
    compute_reachable_states, eliminate_unreachable_states, find_unreachable_states,
};
use pliron_circt::fsm::lowering::{plan_fsm_lowering, StateEncoding};
use pliron_circt::fsm::ops::{
    HWInstanceOp, InstanceOp, MachineOp, OutputOp, ReturnOp, StateOp, TransitionOp, TriggerOp,
    UpdateOp, VariableOp,
};
use pliron_circt::fsm::types::{is_instance_type, InstanceType, InstanceTypeType};
use pliron_circt::ir::attributes::Attribute;
use pliron_circt::ir::context::{BlockPtr, Context, OpKind, OpPtr, Value};
use pliron_circt::ir::error::VerifyError;
use pliron_circt::ir::types::{IntegerType, Signedness, TypeHandle};
use pliron_circt::sv::lower::int_attr;

/// Checks an operation after everything inside it.
fn verify_op(op: OpPtr, ctx: &Context) -> Result<(), VerifyError> {
    for region in &ctx.ops[op.idx].regions {
        for block in &ctx.regions[region.idx].blocks {
            for inner in &ctx.blocks[block.idx].ops {
                verify_op(*inner, ctx)?;
            }
        }
    }
    match ctx.ops[op.idx].kind {
        OpKind::Machine => MachineOp { op }.verify(ctx),
        OpKind::State => StateOp { op }.verify(ctx),
        OpKind::Output => OutputOp { op }.verify(ctx),
        OpKind::Transition => TransitionOp { op }.verify(ctx),
        OpKind::Return => ReturnOp { op }.verify(ctx),
        OpKind::Variable => VariableOp { op }.verify(ctx),
        OpKind::Update => UpdateOp { op }.verify(ctx),
        OpKind::Instance => InstanceOp { op }.verify(ctx),
        OpKind::Trigger => TriggerOp { op }.verify(ctx),
        OpKind::HwInstance => HWInstanceOp { op }.verify(ctx),
        OpKind::Other => Ok(()),
    }
}

/// A module with the given inputs, and its body.
fn new_module(ctx: &mut Context, inputs: Vec<TypeHandle>) -> (OpPtr, BlockPtr) {
    let op = ctx.new_operation(OpKind::Other, vec![], vec![], 1);
    let region = ctx.ops[op.idx].regions[0];
    let body = ctx.add_block(region, inputs);
    (op, body)
}

fn signless(width: u32) -> TypeHandle {
    IntegerType::get(width, Signedness::Signless)
}

#[test]
fn test_fsm_types() {
    let ctx = Context::new();

    let inst_ty: TypeHandle = InstanceType::get(&ctx);
    let xdsl_inst_ty: TypeHandle = InstanceTypeType::get(&ctx);
    let clock_ty: TypeHandle = TypeHandle::Clock;
    let i1_ty: TypeHandle = signless(1);

    assert!(is_instance_type(&ctx, inst_ty));
    assert!(is_instance_type(&ctx, xdsl_inst_ty));
    assert!(!is_instance_type(&ctx, clock_ty));
    assert!(!is_instance_type(&ctx, i1_ty));
}

#[test]
fn test_fsm_machine_creation_and_structure() {
    let mut ctx = Context::new();

    let i1_ty = signless(1);
    let i16_ty = signless(16);

    // Create an FSM: in %arg0: i1, %arg1: i16 -> out %res: i16, initial state "IDLE"
    let machine = MachineOp::new(
        &mut ctx,
        "traffic_light",
        "IDLE",
        vec![i1_ty, i16_ty],
        vec![i16_ty],
    );
    let body = machine.get_body(&ctx);

    // Variable "cnt" : i16
    let cnt_init = int_attr(16, 0);
    let var_cnt = VariableOp::new(&mut ctx, "cnt", cnt_init, i16_ty);
    ctx.insert_at_back(var_cnt.get_operation(), body);
    let cnt_val = var_cnt.result(&ctx);

    // State "IDLE"
    let idle_state = StateOp::new(&mut ctx, "IDLE");
    ctx.insert_at_back(idle_state.get_operation(), body);

    let idle_out_block = idle_state.ensure_output_block(&mut ctx);
    let idle_out = OutputOp::new(&mut ctx, vec![cnt_val]);
    ctx.insert_at_back(idle_out.get_operation(), idle_out_block);

    let idle_trans_block = idle_state.ensure_transitions_block(&mut ctx);
    let trans_idle_to_busy = TransitionOp::new(&mut ctx, "BUSY");
    ctx.insert_at_back(trans_idle_to_busy.get_operation(), idle_trans_block);

    // State "BUSY"
    let busy_state = StateOp::new(&mut ctx, "BUSY");
    ctx.insert_at_back(busy_state.get_operation(), body);

    let busy_out_block = busy_state.ensure_output_block(&mut ctx);
    let busy_out = OutputOp::new(&mut ctx, vec![cnt_val]);
    ctx.insert_at_back(busy_out.get_operation(), busy_out_block);

    let busy_trans_block = busy_state.ensure_transitions_block(&mut ctx);
    let trans_busy_to_idle = TransitionOp::new(&mut ctx, "IDLE");
    ctx.insert_at_back(trans_busy_to_idle.get_operation(), busy_trans_block);

    // Verify machine
    verify_op(machine.get_operation(), &ctx).expect("machine should verify");

    // Inspect accessors
    assert_eq!(machine.machine_name(&ctx), "traffic_light");
    assert_eq!(machine.initial_state(&ctx), "IDLE");
    assert_eq!(machine.num_inputs(&ctx), 2);
    assert_eq!(machine.input_types(&ctx), vec![i1_ty, i16_ty]);
    assert_eq!(machine.result_types(&ctx), vec![i16_ty]);
    assert_eq!(machine.states(&ctx).len(), 2);
    assert!(machine.get_state(&ctx, "IDLE").is_some());
    assert!(machine.get_state(&ctx, "BUSY").is_some());
    assert!(machine.get_state(&ctx, "NON_EXISTENT").is_none());
    assert!(machine.get_variable(&ctx, "cnt").is_some());
}

#[test]
fn test_fsm_guards_actions_and_updates() {
    let mut ctx = Context::new();

    let i1_ty = signless(1);
    let i16_ty = signless(16);

    let machine = MachineOp::new(&mut ctx, "guarded_fsm", "S0", vec![i1_ty], vec![i1_ty]);
    let body = machine.get_body(&ctx);
    let in_flag = machine.get_input(&ctx, 0);

    let v0_init = int_attr(16, 100);
    let var0 = VariableOp::new(&mut ctx, "v0", v0_init, i16_ty);
    ctx.insert_at_back(var0.get_operation(), body);

    let s0 = StateOp::new(&mut ctx, "S0");
    ctx.insert_at_back(s0.get_operation(), body);

    let s0_out_block = s0.ensure_output_block(&mut ctx);
    let s0_out = OutputOp::new(&mut ctx, vec![in_flag]);
    ctx.insert_at_back(s0_out.get_operation(), s0_out_block);

    let s0_trans_block = s0.ensure_transitions_block(&mut ctx);
    let trans = TransitionOp::new(&mut ctx, "S0");

    // Guard: returns in_flag (i1)
    let guard_block = trans.ensure_guard_block(&mut ctx);
    let ret_op = ReturnOp::new(&mut ctx, Some(in_flag));
    ctx.insert_at_back(ret_op.get_operation(), guard_block);

    // Action: updates v0 with new value
    let action_block = trans.ensure_action_block(&mut ctx);
    let v0_res = var0.result(&ctx);
    let update = UpdateOp::new(&mut ctx, v0_res, v0_res);
    ctx.insert_at_back(update.get_operation(), action_block);

    ctx.insert_at_back(trans.get_operation(), s0_trans_block);

    assert!(trans.has_guard(&ctx));
    assert!(trans.has_action(&ctx));
    assert_eq!(trans.updates(&ctx).len(), 1);

    verify_op(machine.get_operation(), &ctx).expect("guarded FSM should verify");
}

#[test]
fn test_fsm_sw_instance_and_trigger() {
    let mut ctx = Context::new();

    let i1_ty = signless(1);
    let inst_ty = InstanceType::get(&ctx);

    let (root_mod, mod_body) = new_module(&mut ctx, vec![i1_ty]);
    let in_sig = Value::BlockArgument { block: mod_body, idx: 0 };

    // Define machine inside top
    let machine = MachineOp::new(&mut ctx, "counter", "A", vec![i1_ty], vec![i1_ty]);
    let m_body = machine.get_body(&ctx);
    let st_a = StateOp::new(&mut ctx, "A");
    ctx.insert_at_back(st_a.get_operation(), m_body);
    let st_a_out_block = st_a.ensure_output_block(&mut ctx);
    let out = OutputOp::new(&mut ctx, vec![in_sig]);
    ctx.insert_at_back(out.get_operation(), st_a_out_block);

    let st_a_trans = st_a.ensure_transitions_block(&mut ctx);
    let tr = TransitionOp::new(&mut ctx, "A");
    ctx.insert_at_back(tr.get_operation(), st_a_trans);

    ctx.insert_at_back(machine.get_operation(), mod_body);

    // Instantiate with fsm.instance
    let instance = InstanceOp::new(&mut ctx, "c_inst", "counter", inst_ty);
    ctx.insert_at_back(instance.get_operation(), mod_body);
    let inst_handle = instance.result(&ctx);

    // Trigger with fsm.trigger
    let trigger = TriggerOp::new(&mut ctx, inst_handle, vec![in_sig], vec![i1_ty]);
    ctx.insert_at_back(trigger.get_operation(), mod_body);

    assert_eq!(trigger.inputs(&ctx).len(), 1);
    assert_eq!(trigger.outputs(&ctx).len(), 1);
    assert_eq!(trigger.instance(&ctx), inst_handle);

    verify_op(root_mod, &ctx).expect("module with fsm.instance and trigger should verify");
}

#[test]
fn test_fsm_hw_instance() {
    let mut ctx = Context::new();

    let i1_ty = signless(1);
    let clock_ty = TypeHandle::Clock;

    let (root_mod, mod_body) = new_module(&mut ctx, vec![i1_ty, clock_ty, i1_ty]);
    let in_sig = Value::BlockArgument { block: mod_body, idx: 0 };
    let clk = Value::BlockArgument { block: mod_body, idx: 1 };
    let rst = Value::BlockArgument { block: mod_body, idx: 2 };

    let machine = MachineOp::new(&mut ctx, "hw_fsm", "ST0", vec![i1_ty], vec![i1_ty]);
    let m_body = machine.get_body(&ctx);
    let st0 = StateOp::new(&mut ctx, "ST0");
    ctx.insert_at_back(st0.get_operation(), m_body);
    let st0_out_block = st0.ensure_output_block(&mut ctx);
    let out = OutputOp::new(&mut ctx, vec![in_sig]);
    ctx.insert_at_back(out.get_operation(), st0_out_block);

    let st0_trans = st0.ensure_transitions_block(&mut ctx);
    let tr = TransitionOp::new(&mut ctx, "ST0");
    ctx.insert_at_back(tr.get_operation(), st0_trans);

    ctx.insert_at_back(machine.get_operation(), mod_body);

    // Instantiate with fsm.hw_instance
    let hw_inst = HWInstanceOp::new(
        &mut ctx,
        "hw_inst_0",
        "hw_fsm",
        vec![in_sig],
        clk,
        rst,
        vec![i1_ty],
    );
    ctx.insert_at_back(hw_inst.get_operation(), mod_body);

    assert_eq!(hw_inst.instance_name(&ctx), "hw_inst_0");
    assert_eq!(hw_inst.machine(&ctx), "hw_fsm");
    assert_eq!(hw_inst.clock(&ctx), clk);
    assert_eq!(hw_inst.reset(&ctx), rst);
    assert_eq!(hw_inst.inputs(&ctx).len(), 1);
    assert_eq!(hw_inst.outputs(&ctx).len(), 1);

    verify_op(root_mod, &ctx).expect("hw_instance in module should verify");
}

#[test]
fn test_fsm_rejects_missing_initial_state() {
    let mut ctx = Context::new();

    // Initial state "GHOST" does not exist in machine
    let machine = MachineOp::new(&mut ctx, "bad_fsm", "GHOST", vec![], vec![]);
    let body = machine.get_body(&ctx);
    let s0 = StateOp::new(&mut ctx, "REAL");
    ctx.insert_at_back(s0.get_operation(), body);

    let err = verify_op(machine.get_operation(), &ctx).unwrap_err().message;
    assert!(
        err.contains("Can not find initial state"),
        "error should report missing initial state, got: {}",
        err
    );
}

#[test]
fn test_fsm_rejects_missing_next_state() {
    let mut ctx = Context::new();

    let machine = MachineOp::new(&mut ctx, "bad_trans_fsm", "S0", vec![], vec![]);
    let body = machine.get_body(&ctx);
    let s0 = StateOp::new(&mut ctx, "S0");
    ctx.insert_at_back(s0.get_operation(), body);

    let trans_block = s0.ensure_transitions_block(&mut ctx);
    // Transition points to non-existent state "NON_EXISTENT"
    let trans = TransitionOp::new(&mut ctx, "NON_EXISTENT");
    ctx.insert_at_back(trans.get_operation(), trans_block);

    let err = verify_op(machine.get_operation(), &ctx).unwrap_err().message;
    assert!(
        err.contains("Can not find next state"),
        "error should report missing next state, got: {}",
        err
    );
}

#[test]
fn test_fsm_rejects_multiple_updates_to_same_variable() {
    let mut ctx = Context::new();

    let i16_ty = signless(16);
    let machine = MachineOp::new(&mut ctx, "dup_update_fsm", "A", vec![], vec![]);
    let body = machine.get_body(&ctx);

    let v_init = int_attr(16, 0);
    let var = VariableOp::new(&mut ctx, "v", v_init, i16_ty);
    ctx.insert_at_back(var.get_operation(), body);

    let state = StateOp::new(&mut ctx, "A");
    ctx.insert_at_back(state.get_operation(), body);

    let trans_block = state.ensure_transitions_block(&mut ctx);
    let trans = TransitionOp::new(&mut ctx, "A");
    let action_block = trans.ensure_action_block(&mut ctx);

    // Two updates targeting the same variable var.result()
    let v_res = var.result(&ctx);
    let u1 = UpdateOp::new(&mut ctx, v_res, v_res);
    let u2 = UpdateOp::new(&mut ctx, v_res, v_res);
    ctx.insert_at_back(u1.get_operation(), action_block);
    ctx.insert_at_back(u2.get_operation(), action_block);

    ctx.insert_at_back(trans.get_operation(), trans_block);

    let err = verify_op(machine.get_operation(), &ctx).unwrap_err().message;
    assert!(
        err.contains(
            "Multiple updates to the same variable within a single action region is disallowed"
        ),
        "error should report disallowed multiple updates, got: {}",
        err
    );
}

#[test]
fn test_fsm_rejects_update_destination_not_variable() {
    let mut ctx = Context::new();

    let i16_ty = signless(16);
    let machine = MachineOp::new(&mut ctx, "bad_dest_fsm", "A", vec![i16_ty], vec![]);
    let body = machine.get_body(&ctx);
    let arg0 = machine.get_input(&ctx, 0);

    let state = StateOp::new(&mut ctx, "A");
    ctx.insert_at_back(state.get_operation(), body);

    let trans_block = state.ensure_transitions_block(&mut ctx);
    let trans = TransitionOp::new(&mut ctx, "A");
    let action_block = trans.ensure_action_block(&mut ctx);

    // arg0 is a block argument, not defined by fsm.variable!
    let update = UpdateOp::new(&mut ctx, arg0, arg0);
    ctx.insert_at_back(update.get_operation(), action_block);
    ctx.insert_at_back(trans.get_operation(), trans_block);

    let err = verify_op(machine.get_operation(), &ctx).unwrap_err().message;
    assert!(
        err.contains("Destination is not a variable operation"),
        "error should report destination not a variable, got: {}",
        err
    );
}

#[test]
fn test_fsm_canonicalization_and_reachability() {
    let mut ctx = Context::new();

    // Machine with reachable states A -> B, and unreachable state ORPHAN
    let machine = MachineOp::new(&mut ctx, "reach_fsm", "A", vec![], vec![]);
    let body = machine.get_body(&ctx);

    let state_a = StateOp::new(&mut ctx, "A");
    ctx.insert_at_back(state_a.get_operation(), body);
    let a_trans_block = state_a.ensure_transitions_block(&mut ctx);
    let tr_a = TransitionOp::new(&mut ctx, "B");
    ctx.insert_at_back(tr_a.get_operation(), a_trans_block);

    let state_b = StateOp::new(&mut ctx, "B");
    ctx.insert_at_back(state_b.get_operation(), body);
    let b_trans_block = state_b.ensure_transitions_block(&mut ctx);
    let tr_b = TransitionOp::new(&mut ctx, "A");
    ctx.insert_at_back(tr_b.get_operation(), b_trans_block);

    let state_orphan = StateOp::new(&mut ctx, "ORPHAN");
    ctx.insert_at_back(state_orphan.get_operation(), body);

    verify_op(machine.get_operation(), &ctx)
        .expect("machine with orphan state is structurally valid");

    let reachable = compute_reachable_states(&ctx, &machine);
    assert_eq!(reachable.len(), 2);
    assert!(reachable.contains("A"));
    assert!(reachable.contains("B"));
    assert!(!reachable.contains("ORPHAN"));

    let unreachable = find_unreachable_states(&ctx, &machine);
    assert_eq!(unreachable, vec!["ORPHAN"]);

    let eliminated =
        eliminate_unreachable_states(&mut ctx, &machine).expect("elimination succeeds");
    assert_eq!(eliminated, 1);
    assert_eq!(machine.states(&ctx).len(), 2);
    assert!(machine.get_state(&ctx, "ORPHAN").is_none());
}

#[test]
fn test_fsm_lowering_plan() {
    let mut ctx = Context::new();

    let i1_ty = signless(1);
    let i8_ty = signless(8);

    let machine = MachineOp::new(&mut ctx, "plan_fsm", "S0", vec![i1_ty], vec![i8_ty]);
    let body = machine.get_body(&ctx);

    for name in &["S0", "S1", "S2"] {
        let s = StateOp::new(&mut ctx, name);
        ctx.insert_at_back(s.get_operation(), body);
        let out_block = s.ensure_output_block(&mut ctx);
        let val: Attribute = int_attr(8, 42);
        let var = VariableOp::new(&mut ctx, &format!("v_{}", name), val, i8_ty);
        ctx.insert_at_back(var.get_operation(), body);
        let v_res = var.result(&ctx);
        let out = OutputOp::new(&mut ctx, vec![v_res]);
        ctx.insert_at_back(out.get_operation(), out_block);

        let trans_block = s.ensure_transitions_block(&mut ctx);
        let tr = TransitionOp::new(&mut ctx, "S0");
        ctx.insert_at_back(tr.get_operation(), trans_block);
    }

    let plan_bin = match plan_fsm_lowering(&ctx, &machine, StateEncoding::Binary) {
        Ok(plan) => plan,
        Err(e) => panic!("binary plan succeeds, got: {}", e.message),
    };
    assert_eq!(plan_bin.num_states, 3);
    assert_eq!(plan_bin.state_width, 2); // ceil(log2(3)) = 2 bits
    assert_eq!(plan_bin.state_map.get("S0"), Some(&0));
    assert_eq!(plan_bin.state_map.get("S1"), Some(&1));
    assert_eq!(plan_bin.state_map.get("S2"), Some(&2));

    let plan_onehot = match plan_fsm_lowering(&ctx, &machine, StateEncoding::OneHot) {
        Ok(plan) => plan,
        Err(e) => panic!("onehot plan succeeds, got: {}", e.message),
    };
    assert_eq!(plan_onehot.state_width, 3);
    assert_eq!(plan_onehot.state_map.get("S0"), Some(&1));
    assert_eq!(plan_onehot.state_map.get("S1"), Some(&2));
    assert_eq!(plan_onehot.state_map.get("S2"), Some(&4));
}
