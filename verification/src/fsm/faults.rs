//! Which fault of several an operation is reported with, and in which words.

use crate::fsm::model;
use crate::fsm::rules;
use crate::fsm::search;
use crate::fsm::types;
use crate::ir::attributes::{AttrKey, Attribute};
use crate::ir::context::{Context, OpKind, OpPtr, Value};
use crate::text;
use vstd::prelude::*;

verus! {

/// Whether `p` is the first of `ops` of a kind.
pub open spec fn first_of_kind(ctx: &Context, ops: Seq<OpPtr>, kind: OpKind, p: OpPtr) -> bool {
    exists|i: int|
        0 <= i < ops.len() && #[trigger] ops[i] == p && ctx.op(p).kind == kind && forall|j: int|
            0 <= j < i ==> ctx.op(#[trigger] ops[j]).kind != kind
}

proof fn lemma_first_of_kind(ctx: &Context, ops: Seq<OpPtr>, kind: OpKind)
    ensures
        match search::first_where(ops, |p: OpPtr| model::is_kind(ctx, p, kind)) {
            Some(p) => first_of_kind(ctx, ops, kind, p) && rules::has_kind(ctx, ops, kind),
            None => !rules::has_kind(ctx, ops, kind),
        },
{
    let want = |p: OpPtr| model::is_kind(ctx, p, kind);
    search::lemma_first_where(ops, want);
    match search::first_where(ops, want) {
        Some(p) => {
            let i = choose|i: int|
                0 <= i < ops.len() && #[trigger] ops[i] == p && forall|j: int|
                    0 <= j < i ==> !want(#[trigger] ops[j]);
            assert forall|j: int| 0 <= j < i implies ctx.op(#[trigger] ops[j]).kind != kind by {
                assert(!want(ops[j]));
            }
            assert(ctx.op(ops[i]).kind == kind);
        },
        None => {
            if rules::has_kind(ctx, ops, kind) {
                let i = choose|i: int| 0 <= i < ops.len() && ctx.op(#[trigger] ops[i]).kind == kind;
                assert(!want(ops[i]));
            }
        },
    }
}

/// A state is reported first for its name; then for the first transition among
/// its outputs, which is reported itself; then for an output region that does
/// not end in an output; then for the first output among its transitions, which
/// is reported itself; and last for an output that its machine asks for.
pub proof fn state_faults_come_in_order(ctx: &Context, s: OpPtr)
    ensures
        ({
            let fault = model::state_fault(ctx, s);
            let first = rules::region_ops(ctx, s, 0);
            let second = rules::region_ops(ctx, s, 1);
            if !rules::goes_by_a_name(ctx, s) {
                fault == Some((s, "fsm.state requires a non-empty symbol name"@))
            } else if rules::has_kind(ctx, first, OpKind::Transition) {
                fault matches Some(f) && first_of_kind(ctx, first, OpKind::Transition, f.0) && f.1
                    == "Transition must be located in a transitions region"@
            } else if first.len() > 0 && ctx.op(first[first.len() - 1]).kind != OpKind::Output {
                fault == Some(
                    (
                        s,
                        "fsm.state '"@ + model::state_name(ctx, s)
                            + "' output region must terminate with an fsm.output"@,
                    ),
                )
            } else if rules::has_kind(ctx, second, OpKind::Output) {
                fault matches Some(f) && first_of_kind(ctx, second, OpKind::Output, f.0) && f.1
                    == "Transition regions should not output any value"@
            } else {
                fault matches Some(f) ==> f == (
                    s,
                    "State must have a non-empty output region when the machine has results"@,
                )
            }
        }),
{
    let first = rules::region_ops(ctx, s, 0);
    let second = rules::region_ops(ctx, s, 1);
    assert(first == model::first_region_ops(ctx, s));
    assert(second == model::second_region_ops(ctx, s));
    lemma_named(ctx, s);
    lemma_first_of_kind(ctx, first, OpKind::Transition);
    lemma_first_of_kind(ctx, second, OpKind::Output);
}

proof fn lemma_named(ctx: &Context, p: OpPtr)
    ensures
        rules::goes_by_a_name(ctx, p) <==> model::is_named(model::symbol_or_name(ctx, p)),
{
    if model::symbol_or_name(ctx, p) is Some {
        let name = model::symbol_or_name(ctx, p)->0;
        assert(model::symbol_or_name(ctx, p) == Some(name));
    }
}

/// An output is reported first for where it stands, then for its types.
pub proof fn output_faults_come_in_order(ctx: &Context, o: OpPtr, s: OpPtr)
    requires
        ctx.parent_op(o) == Some(s),
    ensures
        ({
            let fault = model::output_fault(ctx, o);
            if ctx.op(s).kind != OpKind::State {
                fault == Some((o, "fsm.output parent must be an fsm.state"@))
            } else if ctx.parent_region(o) == Some(ctx.op(s).regions@[1]) {
                fault == Some((o, "Transition regions should not output any value"@))
            } else {
                fault matches Some(f) ==> ctx.parent_op(s) matches Some(m) && f == (
                    o,
                    "OutputOp output type must be consistent with the machine \""@
                        + model::machine_name(ctx, m) + "\""@,
                )
            }
        }),
{
}

/// A transition is reported first for where it stands, then for a missing next
/// state, then for one that its machine does not have, and then for its guard;
/// what is wrong in its action comes last.
pub proof fn transition_faults_come_in_order(ctx: &Context, t: OpPtr, s: OpPtr, next: Seq<char>)
    requires
        ctx.parent_op(t) == Some(s),
    ensures
        ({
            let fault = model::transition_fault(ctx, t);
            let guard = rules::region_ops(ctx, t, 0);
            let placed = ctx.op(s).kind == OpKind::State && ctx.parent_region(t) == Some(
                ctx.op(s).regions@[1],
            );
            &&& !placed ==> fault == Some(
                (t, "Transition must be located in a transitions region"@),
            )
            &&& placed && !rules::says_a_name(ctx, t, AttrKey::NextState) ==> fault == Some(
                (t, "fsm.transition requires nextState attribute"@),
            )
            &&& placed && rules::says(ctx, t, AttrKey::NextState, next) && next.len() > 0 ==> {
                let lost = ctx.parent_op(s) matches Some(m) && ctx.op(m).kind == OpKind::Machine
                    && model::state_named(ctx, m, next) is None;
                let open = guard.len() > 0 && ctx.op(guard[guard.len() - 1]).kind != OpKind::Return;
                if lost {
                    fault == Some((t, "Can not find next state: '"@ + next + "'"@))
                } else if open {
                    fault == Some((t, "Guard region must terminate with ReturnOp"@))
                } else {
                    fault == model::action_fault(ctx, rules::region_ops(ctx, t, 1))
                }
            }
        }),
{
    lemma_stored(ctx, t, AttrKey::NextState, next);
    assert(rules::region_ops(ctx, t, 0) == model::first_region_ops(ctx, t));
    assert(rules::region_ops(ctx, t, 1) == model::second_region_ops(ctx, t));
}

proof fn lemma_stored(ctx: &Context, p: OpPtr, key: AttrKey, name: Seq<char>)
    ensures
        rules::says_a_name(ctx, p, key) <==> model::is_named(
            model::symbol_at(ctx.op(p).attributes, key),
        ),
        rules::says(ctx, p, key, name) ==> model::symbol_at(ctx.op(p).attributes, key) == Some(name),
{
    let read = model::symbol_at(ctx.op(p).attributes, key);
    rules::stored_names_are_read(ctx, p, key, name);
    if read is Some {
        rules::stored_names_are_read(ctx, p, key, read->0);
    }
    if rules::says_a_name(ctx, p, key) {
        let n = choose|n: Seq<char>| #[trigger] rules::says(ctx, p, key, n) && n.len() > 0;
        rules::stored_names_are_read(ctx, p, key, n);
    }
}

/// An action is reported for the first operation in it that is an output or that
/// updates a variable a second time, and that operation is reported.
pub proof fn action_faults_name_the_first_offender(ctx: &Context, ops: Seq<OpPtr>, k: int)
    requires
        0 <= k < ops.len(),
        model::action_fault(ctx, ops.take(k)) is None,
    ensures
        ({
            let fault = model::action_fault(ctx, ops);
            let again = ctx.op(ops[k]).kind == OpKind::Update && exists|a: int|
                0 <= a < k && ctx.op(#[trigger] ops[a]).kind == OpKind::Update && ctx.op(
                    ops[a],
                ).operands@[0] == ctx.op(ops[k]).operands@[0];
            &&& again ==> fault == Some(
                (
                    ops[k],
                    "Multiple updates to the same variable within a single action region is disallowed"@,
                ),
            )
            &&& ctx.op(ops[k]).kind == OpKind::Output ==> fault == Some(
                (ops[k], "Transition regions should not output any value"@),
            )
        }),
{
    let upto = ops.take(k + 1);
    assert(upto.drop_last() =~= ops.take(k));
    assert(upto.last() == ops[k]);
    rules::actions_write_each_variable_once(ctx, ops.take(k));
    rules::actions_write_each_variable_once(ctx, upto);
    if ctx.op(ops[k]).kind == OpKind::Update && exists|a: int|
        0 <= a < k && ctx.op(#[trigger] ops[a]).kind == OpKind::Update && ctx.op(
            ops[a],
        ).operands@[0] == ctx.op(ops[k]).operands@[0] {
        let a = choose|a: int|
            0 <= a < k && ctx.op(#[trigger] ops[a]).kind == OpKind::Update && ctx.op(
                ops[a],
            ).operands@[0] == ctx.op(ops[k]).operands@[0];
        assert(upto[a] == ops[a] && upto[k] == ops[k]);
        assert(!rules::updates_differ(ctx, upto));
    }
    if ctx.op(ops[k]).kind == OpKind::Output {
        assert(ctx.op(upto[k]).kind == OpKind::Output);
    }
    if model::action_fault(ctx, upto) is Some {
        lemma_action_prefix(ctx, ops, k + 1);
    }
}

proof fn lemma_action_prefix(ctx: &Context, ops: Seq<OpPtr>, n: int)
    requires
        0 <= n <= ops.len(),
        model::action_fault(ctx, ops.take(n)) is Some,
    ensures
        model::action_fault(ctx, ops) == model::action_fault(ctx, ops.take(n)),
    decreases ops.len(),
{
    if n == ops.len() {
        assert(ops.take(n) =~= ops);
    } else {
        assert(ops.drop_last().take(n) =~= ops.take(n));
        lemma_action_prefix(ctx, ops.drop_last(), n);
    }
}

/// A return is reported first for where it stands, then for its type.
pub proof fn return_faults_come_in_order(ctx: &Context, r: OpPtr, t: OpPtr)
    requires
        ctx.parent_op(r) == Some(t),
    ensures
        ({
            let fault = model::return_fault(ctx, r);
            let operands = ctx.op(r).operands@;
            if ctx.op(t).kind != OpKind::Transition {
                fault == Some((r, "fsm.return parent must be an fsm.transition"@))
            } else {
                fault matches Some(f) ==> f == (
                    r,
                    "fsm.return condition operand must be i1, got "@ + ctx.type_text(
                        ctx.value_type(operands[0]),
                    ),
                )
            }
        }),
{
}

/// A variable is reported first for its name, then for its initial value; an
/// update first for where it stands, then for what it writes to, and last for
/// the types.
pub proof fn variable_and_update_faults_come_in_order(ctx: &Context, p: OpPtr)
    ensures
        ({
            let fault = model::variable_fault(ctx, p);
            if !rules::goes_by_a_name(ctx, p) {
                fault == Some((p, "fsm.variable requires a non-empty name"@))
            } else {
                fault matches Some(f) ==> f == (
                    p,
                    "fsm.variable '"@ + model::variable_name(ctx, p)
                        + "' requires an initValue attribute"@,
                )
            }
        }),
        ({
            let fault = model::update_fault(ctx, p);
            let placed = ctx.parent_op(p) matches Some(t) && ctx.op(t).kind == OpKind::Transition
                && ctx.parent_region(p) == Some(ctx.op(t).regions@[1]);
            let writes = ctx.op(p).operands@[0] matches Value::OpResult { op, .. } && ctx.op(op).kind
                == OpKind::Variable;
            if !placed {
                fault == Some(
                    (p, "Update must only be located in the action region of a transition"@),
                )
            } else if !writes {
                fault == Some((p, "Destination is not a variable operation"@))
            } else {
                fault matches Some(f) ==> f == (
                    p,
                    "fsm.update variable and value must have the same type"@,
                )
            }
        }),
{
    lemma_named(ctx, p);
}

/// An instance is reported first for its type, then for a missing machine, and
/// last for one that is not found.
pub proof fn instance_faults_come_in_order(ctx: &Context, i: OpPtr)
    ensures
        ({
            let fault = model::instance_fault(ctx, i);
            if !types::names_instance(ctx.op(i).results@[0]) {
                fault == Some((i, "The instance operand must be Instance"@))
            } else if !rules::says_a_name(ctx, i, AttrKey::Machine) {
                fault == Some((i, "fsm.instance requires machine attribute"@))
            } else {
                fault matches Some(f) ==> f == (i, "Machine definition does not exist"@)
            }
        }),
{
    lemma_stored(ctx, i, AttrKey::Machine, Seq::empty());
}

/// A trigger is reported first for having no operand, then for a last operand
/// that is no instance, then for a machine that is not found, then for its
/// inputs, and last for its results.
pub proof fn trigger_faults_come_in_order(ctx: &Context, t: OpPtr)
    ensures
        ({
            let fault = model::trigger_fault(ctx, t);
            let operands = ctx.op(t).operands@;
            let handle = operands[operands.len() - 1];
            let instance = handle->op;
            let name = model::machine_ref(ctx, instance);
            if operands.len() == 0 {
                fault == Some((t, "fsm.trigger requires at least 1 operand (the instance)"@))
            } else if !(types::names_instance(ctx.value_type(handle)) && handle is OpResult && ctx.op(
                instance,
            ).kind == OpKind::Instance) {
                fault == Some((t, "The instance operand must be Instance"@))
            } else {
                match model::machine_for(ctx, t, name) {
                    None => fault matches Some(f) ==> f == (t, "Machine definition does not exist"@),
                    Some(m) => if !rules::operands_have(ctx, t, model::input_types(ctx, m), 1) {
                        fault == Some(
                            (
                                t,
                                "TriggerOp input types must be consistent with the machine \""@
                                    + name + "\""@,
                            ),
                        )
                    } else {
                        fault matches Some(f) ==> f == (
                            t,
                            "TriggerOp output types must be consistent with the machine \""@ + name
                                + "\""@,
                        )
                    },
                }
            }
        }),
{
    let operands = ctx.op(t).operands@;
    if operands.len() > 0 {
        let all = model::operand_types(ctx, t);
        assert(all.drop_last() == all.take(operands.len() - 1));
        let name = model::machine_ref(ctx, operands.last()->op);
        match model::machine_for(ctx, t, name) {
            Some(m) => {
                rules::lemma_operand_types(ctx, t, model::input_types(ctx, m), 1);
            },
            None => {},
        }
    }
}

/// A hardware instance is reported first for a missing clock or reset, then for
/// a missing machine, then for one that is not found, then for its inputs, and
/// last for its results.
pub proof fn hardware_instance_faults_come_in_order(ctx: &Context, i: OpPtr, name: Seq<char>)
    ensures
        ({
            let fault = model::hw_instance_fault(ctx, i);
            let clocked = ctx.op(i).operands@.len() >= 2;
            let own = model::hw_instance_name(ctx, i);
            &&& !clocked ==> fault == Some(
                (i, "fsm.hw_instance requires at least clock and reset operands"@),
            )
            &&& clocked && !rules::says_a_name(ctx, i, AttrKey::Machine) ==> fault == Some(
                (i, "fsm.hw_instance requires machine attribute"@),
            )
            &&& clocked && rules::says(ctx, i, AttrKey::Machine, name) && name.len() > 0
                ==> match model::machine_for(ctx, i, name) {
                None => fault matches Some(f) ==> f == (i, "Machine definition does not exist"@),
                Some(m) => if !rules::operands_have(ctx, i, model::input_types(ctx, m), 2) {
                    fault == Some(
                        (
                            i,
                            "HWInstanceOp \""@ + own
                                + "\" input type must be consistent with the machine \""@ + name
                                + "\""@,
                        ),
                    )
                } else {
                    fault matches Some(f) ==> f == (
                        i,
                        "HWInstanceOp \""@ + own
                            + "\" output type must be consistent with the machine \""@ + name
                            + "\""@,
                    )
                },
            }
        }),
{
    lemma_stored(ctx, i, AttrKey::Machine, name);
    if ctx.op(i).operands@.len() >= 2 {
        match model::machine_for(ctx, i, name) {
            Some(m) => {
                rules::lemma_operand_types(ctx, i, model::input_types(ctx, m), 2);
            },
            None => {},
        }
    }
}

/// A machine is reported first for its name, then for its initial state, then
/// for its function type, then for the number of its arguments, and then for the
/// first argument whose type differs.
pub proof fn machine_faults_begin_with_its_header(ctx: &Context, m: OpPtr, k: int)
    ensures
        ({
            let fault = model::machine_fault(ctx, m);
            let args = ctx.block(ctx.region(ctx.op(m).regions@[0]).blocks@[0]).args@;
            let inputs = model::input_types(ctx, m);
            let typed = ctx.op(m).attributes.at(AttrKey::FunctionType) matches Some(
                Attribute::Type(ty),
            ) && ctx.type_signature(ty) is Some;
            if !rules::goes_by_a_name(ctx, m) {
                fault == Some((m, "fsm.machine requires a non-empty symbol name"@))
            } else if !rules::says_a_name(ctx, m, AttrKey::InitialState) {
                fault == Some((m, "fsm.machine requires an initialState attribute"@))
            } else if !typed {
                fault == Some((m, "fsm.machine requires a valid function_type attribute"@))
            } else if args.len() != inputs.len() {
                fault == Some(
                    (
                        m,
                        "fsm.machine entry block has "@ + text::decimal(args.len())
                            + " arguments but function_type expects "@ + text::decimal(
                            inputs.len(),
                        ),
                    ),
                )
            } else {
                0 <= k < args.len() && args[k] != inputs[k] && (forall|j: int|
                    0 <= j < k ==> #[trigger] args[j] == inputs[j]) ==> fault == Some(
                    (
                        m,
                        "fsm.machine argument "@ + text::decimal(k as nat)
                            + " type mismatch: expected "@ + ctx.type_text(inputs[k]) + ", got "@
                            + ctx.type_text(args[k]),
                    ),
                )
            }
        }),
{
    let args = ctx.block(ctx.region(ctx.op(m).regions@[0]).blocks@[0]).args@;
    let inputs = model::input_types(ctx, m);
    lemma_named(ctx, m);
    lemma_stored(ctx, m, AttrKey::InitialState, Seq::empty());
    if args.len() == inputs.len() && 0 <= k < args.len() && args[k] != inputs[k] && forall|j: int|
        0 <= j < k ==> #[trigger] args[j] == inputs[j] {
        search::lemma_agreement_at(args, inputs, k);
    }
}

/// A machine with a sound header is reported for the first state that repeats a
/// name; then for an initial state that it does not have; then for argument
/// names and attributes, then for result names and attributes, that are not
/// given together or not in the same number; and last for the first state
/// without the output that its results ask for, which is reported itself.
pub proof fn machine_faults_end_with_its_states(ctx: &Context, m: OpPtr, k: int, initial: Seq<char>)
    requires
        rules::goes_by_a_name(ctx, m),
        rules::says(ctx, m, AttrKey::InitialState, initial),
        initial.len() > 0,
        model::signature(ctx, m) is Some,
        ctx.block(model::body(ctx, m)).args@ == model::input_types(ctx, m),
    ensures
        ({
            let fault = model::machine_fault(ctx, m);
            let all = model::states(ctx, m);
            let names = model::state_names(ctx, m);
            let repeats = 0 <= k < names.len() && names.take(k).no_duplicates() && names.take(
                k,
            ).contains(names[k]);
            let arg_names = rules::entries(ctx, m, AttrKey::ArgNames);
            let arg_attrs = rules::entries(ctx, m, AttrKey::ArgAttrs);
            let res_names = rules::entries(ctx, m, AttrKey::ResNames);
            let res_attrs = rules::entries(ctx, m, AttrKey::ResAttrs);
            &&& repeats ==> fault == Some(
                (
                    m,
                    "duplicate state name '"@ + names[k] + "' in fsm.machine '"@
                        + model::machine_name(ctx, m) + "'"@,
                ),
            )
            &&& names.no_duplicates() ==> if !names.contains(initial) {
                fault == Some(
                    (
                        m,
                        "Can not find initial state: '"@ + initial + "' in machine '"@
                            + model::machine_name(ctx, m) + "'"@,
                    ),
                )
            } else if (arg_names is Some) != (arg_attrs is Some) {
                fault == Some((m, "arg_attrs must be consistent with arg_names"@))
            } else if arg_names != arg_attrs {
                fault == Some((m, "The number of arg_attrs and arg_names should be the same"@))
            } else if (res_names is Some) != (res_attrs is Some) {
                fault == Some((m, "res_attrs must be consistent with res_names"@))
            } else if res_names != res_attrs {
                fault == Some((m, "The number of res_attrs and res_names should be the same"@))
            } else {
                fault matches Some(f) ==> f.1
                    == "State must have a non-empty output region when the machine has results"@
                    && exists|i: int|
                    0 <= i < all.len() && #[trigger] all[i] == f.0 && model::output_op(ctx, f.0)
                        is None && forall|j: int|
                        0 <= j < i ==> model::output_op(ctx, #[trigger] all[j]) is Some
            }
        }),
{
    let all = model::states(ctx, m);
    let names = model::state_names(ctx, m);
    lemma_named(ctx, m);
    lemma_stored(ctx, m, AttrKey::InitialState, initial);
    search::lemma_no_repeat(names);
    if 0 <= k < names.len() && names.take(k).no_duplicates() && names.take(k).contains(names[k]) {
        search::lemma_no_repeat(names.take(k));
        search::lemma_first_repeat_step(names, k);
    }
    let silent = |s: OpPtr| model::output_op(ctx, s) is None;
    search::lemma_first_where(all, silent);
    if search::first_where(all, silent) is Some {
        let p = search::first_where(all, silent)->0;
        let i = choose|i: int|
            0 <= i < all.len() && #[trigger] all[i] == p && forall|j: int|
                0 <= j < i ==> !silent(#[trigger] all[j]);
        assert forall|j: int| 0 <= j < i implies model::output_op(ctx, #[trigger] all[j]) is Some by {
            assert(!silent(all[j]));
        }
        assert(all[i] == p);
    }
}

} // verus!
