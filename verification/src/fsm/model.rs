//! What the operations of the dialect mean: names, members of a machine, and
//! the first fault that each operation has.

use crate::fsm::search;
use crate::fsm::types;
use crate::ir::attributes::{AttrKey, Attribute, AttributeDict};
use crate::ir::context::{BlockPtr, Context, OpKind, OpPtr, RegionPtr, Value};
use crate::ir::types::TypeHandle;
use crate::text;
use vstd::prelude::*;

verus! {

/// A symbol reference without its leading `@` characters.
pub open spec fn clean(s: Seq<char>) -> Seq<char> {
    text::strip_leading(s, seq!['@'])
}

/// A clean symbol reference stays as it is.
pub proof fn lemma_clean_twice(s: Seq<char>)
    ensures
        clean(clean(s)) == clean(s),
{
    let at = seq!['@'];
    text::lemma_prefix_in(s, at);
    let n = text::prefix_in(s, at) as int;
    let t = clean(s);
    if t.len() > 0 {
        assert(t[0] == s[n]);
    }
    text::lemma_prefix_in_unique(t, at, 0);
    assert(t.skip(0) == t);
}

/// The symbol that an attribute refers to, where it is a string or an
/// identifier.
pub open spec fn symbol_at(attrs: AttributeDict, key: AttrKey) -> Option<Seq<char>> {
    match attrs.at(key) {
        Some(Attribute::String(s)) => Some(clean(s@)),
        Some(Attribute::Identifier(s)) => Some(clean(s@)),
        _ => None,
    }
}

/// The name of an operation: its symbol, or else its `sym_name`, or else its
/// `name`.
pub open spec fn symbol_or_name(ctx: &Context, p: OpPtr) -> Option<Seq<char>> {
    let attrs = ctx.op(p).attributes;
    match attrs.at(AttrKey::BuiltinSymName) {
        Some(Attribute::Identifier(s)) => Some(s@),
        _ => match symbol_at(attrs, AttrKey::SymName) {
            Some(s) => Some(s),
            None => symbol_at(attrs, AttrKey::Name),
        },
    }
}

/// `name`, or `default` where there is none.
pub open spec fn or_else(name: Option<Seq<char>>, default: Seq<char>) -> Seq<char> {
    match name {
        Some(s) => s,
        None => default,
    }
}

/// The length of a list or dictionary attribute.
pub open spec fn length_at(attrs: AttributeDict, key: AttrKey) -> Option<usize> {
    match attrs.at(key) {
        Some(Attribute::Vec(n)) => Some(n),
        Some(Attribute::Dict(n)) => Some(n),
        _ => None,
    }
}

/// Whether an operation is of the given kind.
pub open spec fn is_kind(ctx: &Context, p: OpPtr, kind: OpKind) -> bool {
    ctx.op(p).kind == kind
}

/// The operations of a kind among `ops`, in order.
pub open spec fn of_kind(ctx: &Context, ops: Seq<OpPtr>, kind: OpKind) -> Seq<OpPtr> {
    ops.filter(|p: OpPtr| ctx.op(p).kind == kind)
}

/// The body of a machine.
pub open spec fn body(ctx: &Context, m: OpPtr) -> BlockPtr {
    ctx.region(ctx.op(m).regions@[0]).blocks@[0]
}

/// The states of a machine, in order.
pub open spec fn states(ctx: &Context, m: OpPtr) -> Seq<OpPtr> {
    of_kind(ctx, ctx.block(body(ctx, m)).ops@, OpKind::State)
}

/// The variables of a machine, in order.
pub open spec fn variables(ctx: &Context, m: OpPtr) -> Seq<OpPtr> {
    of_kind(ctx, ctx.block(body(ctx, m)).ops@, OpKind::Variable)
}

/// The name of a machine.
pub open spec fn machine_name(ctx: &Context, m: OpPtr) -> Seq<char> {
    or_else(symbol_or_name(ctx, m), "unnamed_machine"@)
}

/// The name of a state.
pub open spec fn state_name(ctx: &Context, s: OpPtr) -> Seq<char> {
    or_else(symbol_or_name(ctx, s), "unnamed_state"@)
}

/// The name of a variable.
pub open spec fn variable_name(ctx: &Context, v: OpPtr) -> Seq<char> {
    or_else(symbol_or_name(ctx, v), ""@)
}

/// The name of an instance.
pub open spec fn instance_name(ctx: &Context, i: OpPtr) -> Seq<char> {
    or_else(symbol_or_name(ctx, i), ""@)
}

/// The name of a hardware instance.
pub open spec fn hw_instance_name(ctx: &Context, i: OpPtr) -> Seq<char> {
    or_else(symbol_or_name(ctx, i), "unnamed_hw_inst"@)
}

/// The names of the states of a machine, in order.
pub open spec fn state_names(ctx: &Context, m: OpPtr) -> Seq<Seq<char>> {
    states(ctx, m).map_values(|s: OpPtr| state_name(ctx, s))
}

/// The initial state that a machine names.
pub open spec fn initial_state(ctx: &Context, m: OpPtr) -> Seq<char> {
    or_else(symbol_at(ctx.op(m).attributes, AttrKey::InitialState), ""@)
}

/// The target that a transition names.
pub open spec fn next_state(ctx: &Context, t: OpPtr) -> Seq<char> {
    or_else(symbol_at(ctx.op(t).attributes, AttrKey::NextState), ""@)
}

/// The machine that an instance names.
pub open spec fn machine_ref(ctx: &Context, i: OpPtr) -> Seq<char> {
    or_else(symbol_at(ctx.op(i).attributes, AttrKey::Machine), ""@)
}

/// The inputs and results that a machine declares.
pub open spec fn signature(ctx: &Context, m: OpPtr) -> Option<(Seq<TypeHandle>, Seq<TypeHandle>)> {
    match ctx.op(m).attributes.at(AttrKey::FunctionType) {
        Some(Attribute::Type(ty)) => ctx.type_signature(ty),
        _ => None,
    }
}

/// The input types that a machine declares.
pub open spec fn input_types(ctx: &Context, m: OpPtr) -> Seq<TypeHandle> {
    match signature(ctx, m) {
        Some(sig) => sig.0,
        None => Seq::empty(),
    }
}

/// The result types that a machine declares.
pub open spec fn result_types(ctx: &Context, m: OpPtr) -> Seq<TypeHandle> {
    match signature(ctx, m) {
        Some(sig) => sig.1,
        None => Seq::empty(),
    }
}

/// The state of a machine that goes by a name: the first one, where there are
/// several.
pub open spec fn state_named(ctx: &Context, m: OpPtr, name: Seq<char>) -> Option<OpPtr> {
    search::first_where(states(ctx, m), |s: OpPtr| clean(state_name(ctx, s)) == clean(name))
}

/// The variable of a machine that goes by a name: the first one, where there
/// are several.
pub open spec fn variable_named(ctx: &Context, m: OpPtr, name: Seq<char>) -> Option<OpPtr> {
    search::first_where(variables(ctx, m), |v: OpPtr| clean(variable_name(ctx, v)) == clean(name))
}

/// The operations of the output region of a state, or of the guard region of a
/// transition.
pub open spec fn first_region_ops(ctx: &Context, s: OpPtr) -> Seq<OpPtr> {
    ctx.entry_ops(ctx.op(s).regions@[0])
}

/// The operations of the transitions region of a state, or of the action
/// region of a transition.
pub open spec fn second_region_ops(ctx: &Context, s: OpPtr) -> Seq<OpPtr> {
    ctx.entry_ops(ctx.op(s).regions@[1])
}

/// The output operation of a state.
pub open spec fn output_op(ctx: &Context, s: OpPtr) -> Option<OpPtr> {
    search::first_where(first_region_ops(ctx, s), |p: OpPtr| is_kind(ctx, p, OpKind::Output))
}

/// The transitions out of a state, in order.
pub open spec fn transitions(ctx: &Context, s: OpPtr) -> Seq<OpPtr> {
    of_kind(ctx, second_region_ops(ctx, s), OpKind::Transition)
}

/// The updates in the action of a transition, in order.
pub open spec fn updates(ctx: &Context, t: OpPtr) -> Seq<OpPtr> {
    of_kind(ctx, second_region_ops(ctx, t), OpKind::Update)
}

/// The return that ends the guard of a transition.
pub open spec fn guard_return(ctx: &Context, t: OpPtr) -> Option<OpPtr> {
    let ops = first_region_ops(ctx, t);
    if ops.len() > 0 && is_kind(ctx, ops.last(), OpKind::Return) {
        Some(ops.last())
    } else {
        None
    }
}

/// The types of the operands of an operation.
pub open spec fn operand_types(ctx: &Context, p: OpPtr) -> Seq<TypeHandle> {
    ctx.op(p).operands@.map_values(|v: Value| ctx.value_type(v))
}

/// The operations in some blocks, in order.
pub open spec fn ops_of_blocks(ctx: &Context, blocks: Seq<BlockPtr>) -> Seq<OpPtr>
    decreases blocks.len(),
{
    if blocks.len() == 0 {
        Seq::empty()
    } else {
        ops_of_blocks(ctx, blocks.drop_last()) + ctx.block(blocks.last()).ops@
    }
}

/// The operations in some regions, in order.
pub open spec fn ops_of_regions(ctx: &Context, regions: Seq<RegionPtr>) -> Seq<OpPtr>
    decreases regions.len(),
{
    if regions.len() == 0 {
        Seq::empty()
    } else {
        ops_of_regions(ctx, regions.drop_last()) + ops_of_blocks(
            ctx,
            ctx.region(regions.last()).blocks@,
        )
    }
}

/// The operations that stand immediately inside `p`, in order.
pub open spec fn children(ctx: &Context, p: OpPtr) -> Seq<OpPtr> {
    ops_of_regions(ctx, ctx.op(p).regions@)
}

/// Whether `p` is a machine that goes by the name `target`.
pub open spec fn machine_named(ctx: &Context, p: OpPtr, target: Seq<char>) -> bool {
    is_kind(ctx, p, OpKind::Machine) && clean(machine_name(ctx, p)) == clean(target)
}

/// The machine immediately inside `p` that goes by the name `target`.
pub open spec fn machine_inside(ctx: &Context, p: OpPtr, target: Seq<char>) -> Option<OpPtr> {
    search::first_where(children(ctx, p), |q: OpPtr| machine_named(ctx, q, target))
}

/// The machine that goes by the name `target` inside the nearest of the `n`
/// operations around `start` that holds one.
pub open spec fn machine_within(ctx: &Context, start: OpPtr, target: Seq<char>, n: nat) -> Option<
    OpPtr,
>
    decreases n,
{
    if n == 0 {
        None
    } else {
        match machine_within(ctx, start, target, (n - 1) as nat) {
            Some(m) => Some(m),
            None => match ctx.ancestor(start, n) {
                Some(p) => machine_inside(ctx, p, target),
                None => None,
            },
        }
    }
}

/// The number of operations from `p` outwards.
pub open spec fn depth(ctx: &Context, p: OpPtr) -> nat {
    choose|n: nat| #[trigger] ctx.ancestor(p, n) is None
}

/// The machine that the name `target` refers to at `start`: the one inside the
/// nearest enclosing operation that holds one of that name.
pub open spec fn machine_for(ctx: &Context, start: OpPtr, target: Seq<char>) -> Option<OpPtr> {
    machine_within(ctx, start, target, depth(ctx, start))
}

/// Searching further than to the outermost operation finds nothing more.
pub proof fn lemma_machine_within(ctx: &Context, start: OpPtr, target: Seq<char>, n: nat, m: nat)
    requires
        ctx.ancestor(start, n) is None,
        n <= m,
    ensures
        machine_within(ctx, start, target, m) == machine_within(ctx, start, target, n),
        ctx.ancestor(start, m) is None,
    decreases m,
{
    if n < m {
        lemma_machine_within(ctx, start, target, n, (m - 1) as nat);
    }
}

/// The search outwards may stop at any distance at which nothing is left.
pub proof fn lemma_machine_for(ctx: &Context, start: OpPtr, target: Seq<char>, n: nat)
    requires
        ctx.ancestor(start, n) is None,
    ensures
        machine_for(ctx, start, target) == machine_within(ctx, start, target, n),
{
    let d = depth(ctx, start);
    if d <= n {
        lemma_machine_within(ctx, start, target, d, n);
    } else {
        lemma_machine_within(ctx, start, target, n, d);
    }
}

/// The machine that immediately encloses `p`.
pub open spec fn parent_of_kind(ctx: &Context, p: OpPtr, kind: OpKind) -> Option<OpPtr> {
    match ctx.parent_op(p) {
        Some(q) => if is_kind(ctx, q, kind) {
            Some(q)
        } else {
            None
        },
        None => None,
    }
}

/// Where an operation is at fault, and how.
pub type Fault = (OpPtr, Seq<char>);

/// Whether a name is there and not empty.
pub open spec fn is_named(name: Option<Seq<char>>) -> bool {
    name matches Some(s) && s.len() > 0
}

/// The fault of a pair of attributes that must come together and agree in
/// length.
pub open spec fn pair_fault(
    names: Option<usize>,
    attrs: Option<usize>,
    inconsistent: Seq<char>,
    different: Seq<char>,
) -> Option<Seq<char>> {
    if (names is Some) != (attrs is Some) {
        Some(inconsistent)
    } else if names != attrs {
        Some(different)
    } else {
        None
    }
}

/// The first fault of a machine.
pub open spec fn machine_fault(ctx: &Context, m: OpPtr) -> Option<Fault> {
    let attrs = ctx.op(m).attributes;
    let name = symbol_or_name(ctx, m);
    let initial = symbol_at(attrs, AttrKey::InitialState);
    if !is_named(name) {
        Some((m, "fsm.machine requires a non-empty symbol name"@))
    } else if !is_named(initial) {
        Some((m, "fsm.machine requires an initialState attribute"@))
    } else if signature(ctx, m) is None {
        Some((m, "fsm.machine requires a valid function_type attribute"@))
    } else {
        let inputs = input_types(ctx, m);
        let args = ctx.block(body(ctx, m)).args@;
        let agree = search::agreement(args, inputs) as int;
        let names = state_names(ctx, m);
        if args.len() != inputs.len() {
            Some(
                (
                    m,
                    "fsm.machine entry block has "@ + text::decimal(args.len())
                        + " arguments but function_type expects "@ + text::decimal(inputs.len()),
                ),
            )
        } else if args != inputs {
            Some(
                (
                    m,
                    "fsm.machine argument "@ + text::decimal(agree as nat)
                        + " type mismatch: expected "@ + ctx.type_text(inputs[agree]) + ", got "@
                        + ctx.type_text(args[agree]),
                ),
            )
        } else if search::first_repeat(names) is Some {
            Some(
                (
                    m,
                    "duplicate state name '"@ + names[search::first_repeat(names)->0]
                        + "' in fsm.machine '"@ + name->0 + "'"@,
                ),
            )
        } else if !names.contains(initial->0) {
            Some(
                (
                    m,
                    "Can not find initial state: '"@ + initial->0 + "' in machine '"@ + name->0
                        + "'"@,
                ),
            )
        } else {
            machine_attribute_fault(ctx, m)
        }
    }
}

/// The first fault of a machine whose name, signature and states are in order.
pub open spec fn machine_attribute_fault(ctx: &Context, m: OpPtr) -> Option<Fault> {
    let attrs = ctx.op(m).attributes;
    let arg_fault = pair_fault(
        length_at(attrs, AttrKey::ArgNames),
        length_at(attrs, AttrKey::ArgAttrs),
        "arg_attrs must be consistent with arg_names"@,
        "The number of arg_attrs and arg_names should be the same"@,
    );
    let res_fault = pair_fault(
        length_at(attrs, AttrKey::ResNames),
        length_at(attrs, AttrKey::ResAttrs),
        "res_attrs must be consistent with res_names"@,
        "The number of res_attrs and res_names should be the same"@,
    );
    let silent = search::first_where(states(ctx, m), |s: OpPtr| output_op(ctx, s) is None);
    if arg_fault is Some {
        Some((m, arg_fault->0))
    } else if res_fault is Some {
        Some((m, res_fault->0))
    } else if result_types(ctx, m).len() > 0 && silent is Some {
        Some(
            (
                silent->0,
                "State must have a non-empty output region when the machine has results"@,
            ),
        )
    } else {
        None
    }
}

/// The first fault of a state.
pub open spec fn state_fault(ctx: &Context, s: OpPtr) -> Option<Fault> {
    let name = symbol_or_name(ctx, s);
    let machine = parent_of_kind(ctx, s, OpKind::Machine);
    let misplaced = search::first_where(
        first_region_ops(ctx, s),
        |p: OpPtr| is_kind(ctx, p, OpKind::Transition),
    );
    let output = search::first_where(
        second_region_ops(ctx, s),
        |p: OpPtr| is_kind(ctx, p, OpKind::Output),
    );
    if !is_named(name) {
        Some((s, "fsm.state requires a non-empty symbol name"@))
    } else if misplaced is Some {
        Some((misplaced->0, "Transition must be located in a transitions region"@))
    } else if first_region_ops(ctx, s).len() > 0 && !is_kind(
        ctx,
        first_region_ops(ctx, s).last(),
        OpKind::Output,
    ) {
        Some(
            (
                s,
                "fsm.state '"@ + name->0 + "' output region must terminate with an fsm.output"@,
            ),
        )
    } else if output is Some {
        Some((output->0, "Transition regions should not output any value"@))
    } else if machine is Some && result_types(ctx, machine->0).len() > 0 && output_op(ctx, s) is None {
        Some((s, "State must have a non-empty output region when the machine has results"@))
    } else {
        None
    }
}

/// The first fault of an output.
pub open spec fn output_fault(ctx: &Context, o: OpPtr) -> Option<Fault> {
    match ctx.parent_op(o) {
        None => None,
        Some(s) => {
            let machine = parent_of_kind(ctx, s, OpKind::Machine);
            if !is_kind(ctx, s, OpKind::State) {
                Some((o, "fsm.output parent must be an fsm.state"@))
            } else if ctx.parent_region(o) == Some(ctx.op(s).regions@[1]) {
                Some((o, "Transition regions should not output any value"@))
            } else if machine is Some && operand_types(ctx, o) != result_types(ctx, machine->0) {
                Some(
                    (
                        o,
                        "OutputOp output type must be consistent with the machine \""@
                            + machine_name(ctx, machine->0) + "\""@,
                    ),
                )
            } else {
                None
            }
        },
    }
}

/// The first fault inside the action of a transition: the second update of a
/// variable, or an output.
pub open spec fn action_fault(ctx: &Context, ops: Seq<OpPtr>) -> Option<Fault>
    decreases ops.len(),
{
    if ops.len() == 0 {
        None
    } else {
        match action_fault(ctx, ops.drop_last()) {
            Some(f) => Some(f),
            None => {
                let p = ops.last();
                if is_kind(ctx, p, OpKind::Update) && updated(ctx, ops.drop_last()).contains(
                    ctx.op(p).operands@[0],
                ) {
                    Some(
                        (
                            p,
                            "Multiple updates to the same variable within a single action region is disallowed"@,
                        ),
                    )
                } else if is_kind(ctx, p, OpKind::Output) {
                    Some((p, "Transition regions should not output any value"@))
                } else {
                    None
                }
            },
        }
    }
}

/// The variables that the updates among `ops` write, in order.
pub open spec fn updated(ctx: &Context, ops: Seq<OpPtr>) -> Seq<Value> {
    of_kind(ctx, ops, OpKind::Update).map_values(|u: OpPtr| ctx.op(u).operands@[0])
}

/// The first fault of a transition.
pub open spec fn transition_fault(ctx: &Context, t: OpPtr) -> Option<Fault> {
    match ctx.parent_op(t) {
        None => None,
        Some(s) => {
            let next = symbol_at(ctx.op(t).attributes, AttrKey::NextState);
            let machine = parent_of_kind(ctx, s, OpKind::Machine);
            if !is_kind(ctx, s, OpKind::State) || ctx.parent_region(t) != Some(
                ctx.op(s).regions@[1],
            ) {
                Some((t, "Transition must be located in a transitions region"@))
            } else if !is_named(next) {
                Some((t, "fsm.transition requires nextState attribute"@))
            } else if machine is Some && state_named(ctx, machine->0, next->0) is None {
                Some((t, "Can not find next state: '"@ + next->0 + "'"@))
            } else if first_region_ops(ctx, t).len() > 0 && guard_return(ctx, t) is None {
                Some((t, "Guard region must terminate with ReturnOp"@))
            } else {
                action_fault(ctx, second_region_ops(ctx, t))
            }
        },
    }
}

/// The first fault of a return.
pub open spec fn return_fault(ctx: &Context, r: OpPtr) -> Option<Fault> {
    let types = operand_types(ctx, r);
    match ctx.parent_op(r) {
        None => None,
        Some(t) => if !is_kind(ctx, t, OpKind::Transition) {
            Some((r, "fsm.return parent must be an fsm.transition"@))
        } else if types.len() > 0 && types[0] != crate::ir::types::i1() {
            Some(
                (
                    r,
                    "fsm.return condition operand must be i1, got "@ + ctx.type_text(types[0]),
                ),
            )
        } else {
            None
        },
    }
}

/// The first fault of a variable.
pub open spec fn variable_fault(ctx: &Context, v: OpPtr) -> Option<Fault> {
    let name = symbol_or_name(ctx, v);
    if !is_named(name) {
        Some((v, "fsm.variable requires a non-empty name"@))
    } else if ctx.op(v).attributes.at(AttrKey::InitValue) is None {
        Some((v, "fsm.variable '"@ + name->0 + "' requires an initValue attribute"@))
    } else {
        None
    }
}

/// The first fault of an update.
pub open spec fn update_fault(ctx: &Context, u: OpPtr) -> Option<Fault> {
    let trans = parent_of_kind(ctx, u, OpKind::Transition);
    let operands = ctx.op(u).operands@;
    if trans is None || ctx.parent_region(u) != Some(ctx.op(trans->0).regions@[1]) {
        Some((u, "Update must only be located in the action region of a transition"@))
    } else if operands[0].spec_defining_op() is None || !is_kind(
        ctx,
        operands[0].spec_defining_op()->0,
        OpKind::Variable,
    ) {
        Some((u, "Destination is not a variable operation"@))
    } else if ctx.value_type(operands[0]) != ctx.value_type(operands[1]) {
        Some((u, "fsm.update variable and value must have the same type"@))
    } else {
        None
    }
}

/// The first fault of an instance.
pub open spec fn instance_fault(ctx: &Context, i: OpPtr) -> Option<Fault> {
    let machine = symbol_at(ctx.op(i).attributes, AttrKey::Machine);
    if !types::names_instance(ctx.op(i).results@[0]) {
        Some((i, "The instance operand must be Instance"@))
    } else if !is_named(machine) {
        Some((i, "fsm.instance requires machine attribute"@))
    } else if ctx.parent_op(i) is Some && machine_for(ctx, i, machine->0) is None {
        Some((i, "Machine definition does not exist"@))
    } else {
        None
    }
}

/// The first fault of a trigger.
pub open spec fn trigger_fault(ctx: &Context, t: OpPtr) -> Option<Fault> {
    let operands = ctx.op(t).operands@;
    let instance = operands.last().spec_defining_op();
    if operands.len() < 1 {
        Some((t, "fsm.trigger requires at least 1 operand (the instance)"@))
    } else if !types::names_instance(ctx.value_type(operands.last())) || instance is None
        || !is_kind(ctx, instance->0, OpKind::Instance) {
        Some((t, "The instance operand must be Instance"@))
    } else {
        let name = machine_ref(ctx, instance->0);
        match machine_for(ctx, t, name) {
            Some(m) => if operand_types(ctx, t).drop_last() != input_types(ctx, m) {
                Some(
                    (
                        t,
                        "TriggerOp input types must be consistent with the machine \""@ + name
                            + "\""@,
                    ),
                )
            } else if ctx.op(t).results@ != result_types(ctx, m) {
                Some(
                    (
                        t,
                        "TriggerOp output types must be consistent with the machine \""@ + name
                            + "\""@,
                    ),
                )
            } else {
                None
            },
            None => if ctx.parent_op(t) is Some {
                Some((t, "Machine definition does not exist"@))
            } else {
                None
            },
        }
    }
}

/// The first fault of a hardware instance.
pub open spec fn hw_instance_fault(ctx: &Context, i: OpPtr) -> Option<Fault> {
    let operands = ctx.op(i).operands@;
    let machine = symbol_at(ctx.op(i).attributes, AttrKey::Machine);
    let own = hw_instance_name(ctx, i);
    if operands.len() < 2 {
        Some((i, "fsm.hw_instance requires at least clock and reset operands"@))
    } else if !is_named(machine) {
        Some((i, "fsm.hw_instance requires machine attribute"@))
    } else {
        match machine_for(ctx, i, machine->0) {
            Some(m) => if operand_types(ctx, i).take(operands.len() - 2) != input_types(ctx, m) {
                Some(
                    (
                        i,
                        "HWInstanceOp \""@ + own
                            + "\" input type must be consistent with the machine \""@ + machine->0
                            + "\""@,
                    ),
                )
            } else if ctx.op(i).results@ != result_types(ctx, m) {
                Some(
                    (
                        i,
                        "HWInstanceOp \""@ + own
                            + "\" output type must be consistent with the machine \""@ + machine->0
                            + "\""@,
                    ),
                )
            } else {
                None
            },
            None => if ctx.parent_op(i) is Some {
                Some((i, "Machine definition does not exist"@))
            } else {
                None
            },
        }
    }
}

} // verus!
