//! The checks of the operations of the dialect. Each reports the first fault
//! of its operation, and succeeds where there is none.

use crate::fsm::model;
use crate::fsm::ops::{
    find_machine, first_in_region, get_op_symbol_or_name, HWInstanceOp, InstanceOp, MachineOp,
    OutputOp, ReturnOp, StateOp, TransitionOp, TriggerOp, UpdateOp, VariableOp,
};
use crate::fsm::search;
use crate::fsm::types::is_instance_type;
use crate::ir::attributes::{AttrKey, Attribute};
use crate::ir::context::{Context, OpKind, OpPtr, RegionPtr, Value};
use crate::ir::error;
use crate::ir::error::{fault, fault3, fault5, VerifyError};
use crate::ir::types::{same_types, IntegerType, Signedness, TypeHandle};
use crate::text::decimal_text;
use vstd::hash_set::StringHashSet;
use vstd::prelude::*;

verus! {

/// The name of an operation, where it has one that is not empty.
fn given_name(op: OpPtr, ctx: &Context) -> (r: Option<String>)
    requires
        ctx.wf(),
        ctx.has_op(op),
    ensures
        r is Some <==> model::is_named(model::symbol_or_name(ctx, op)),
        r matches Some(s) ==> model::symbol_or_name(ctx, op) == Some(s@),
{
    match get_op_symbol_or_name(op, ctx) {
        Some(s) => non_empty(s),
        None => None,
    }
}

/// A string that is not empty.
fn non_empty(s: String) -> (r: Option<String>)
    ensures
        r is Some <==> s@.len() > 0,
        r matches Some(t) ==> t@ == s@,
{
    if s.as_str().unicode_len() > 0 {
        Some(s)
    } else {
        None
    }
}

/// The length of a list or dictionary attribute.
fn attribute_length(op: OpPtr, ctx: &Context, key: AttrKey) -> (r: Option<usize>)
    requires
        ctx.wf(),
        ctx.has_op(op),
    ensures
        r == model::length_at(ctx.op(op).attributes, key),
{
    assert(ctx.op_ok(op.idx as int));
    match ctx.ops[op.idx].attributes.get(key) {
        Some(Attribute::Vec(n)) => Some(*n),
        Some(Attribute::Dict(n)) => Some(*n),
        _ => None,
    }
}

/// The fault of a pair of attributes that must come together and agree in
/// length.
fn check_pair<'a>(
    names: Option<usize>,
    attrs: Option<usize>,
    inconsistent: &'a str,
    different: &'a str,
) -> (r: Option<&'a str>)
    ensures
        r is Some <==> model::pair_fault(names, attrs, inconsistent@, different@) is Some,
        r matches Some(s) ==> model::pair_fault(names, attrs, inconsistent@, different@) == Some(s@),
{
    match (names, attrs) {
        (Some(n), Some(a)) => if n != a {
            Some(different)
        } else {
            None
        },
        (None, None) => None,
        _ => Some(inconsistent),
    }
}

/// The operation that immediately encloses another, where it is of a kind.
fn get_parent_of_kind(ctx: &Context, p: OpPtr, kind: OpKind) -> (r: Option<OpPtr>)
    requires
        ctx.wf(),
        ctx.has_op(p),
    ensures
        r == model::parent_of_kind(ctx, p, kind),
        r matches Some(q) ==> ctx.has_op(q) && ctx.op(q).kind == kind,
{
    match ctx.get_parent_op(p) {
        Some(q) => if ctx.ops[q.idx].kind == kind {
            Some(q)
        } else {
            None
        },
        None => None,
    }
}

/// Whether an operation stands in a region.
fn stands_in(ctx: &Context, p: OpPtr, r: RegionPtr) -> (b: bool)
    requires
        ctx.wf(),
        ctx.has_op(p),
    ensures
        b == (ctx.parent_region(p) == Some(r)),
{
    match ctx.get_parent_region(p) {
        Some(q) => q == r,
        None => false,
    }
}

/// The types of the first `n` operands of an operation.
fn operand_types(ctx: &Context, p: OpPtr, n: usize) -> (r: Vec<TypeHandle>)
    requires
        ctx.wf(),
        ctx.has_op(p),
        n <= ctx.op(p).operands@.len(),
    ensures
        r@ == model::operand_types(ctx, p).take(n as int),
{
    assert(ctx.op_ok(p.idx as int));
    let mut out: Vec<TypeHandle> = Vec::new();
    let mut i: usize = 0;
    while i < n
        invariant
            ctx.has_op(p),
            ctx.op_ok(p.idx as int),
            i <= n <= ctx.op(p).operands@.len(),
            out@ == model::operand_types(ctx, p).take(i as int),
        decreases n - i,
    {
        assert(ctx.has_value(ctx.op(p).operands@[i as int]));
        out.push(ctx.get_type(ctx.ops[p.idx].operands[i]));
        i += 1;
    }
    out
}

impl MachineOp {
    /// Checks the machine: its name, its initial state, its signature, and that
    /// its states are distinct and drive what the machine returns.
    pub fn verify(&self, ctx: &Context) -> (r: Result<(), VerifyError>)
        requires
            self.valid(ctx),
        ensures
            error::reported(r) == model::machine_fault(ctx, self.op),
    {
        let name = match given_name(self.op, ctx) {
            Some(n) => n,
            None => {
                return Err(fault(self.op, "fsm.machine requires a non-empty symbol name"));
            },
        };
        let initial_state = match self.get_initial_state(ctx) {
            Some(s) => match non_empty(s) {
                Some(s) => s,
                None => {
                    return Err(fault(self.op, "fsm.machine requires an initialState attribute"));
                },
            },
            None => {
                return Err(fault(self.op, "fsm.machine requires an initialState attribute"));
            },
        };
        let (inputs, results) = match self.get_function_signature(ctx) {
            Some(sig) => sig,
            None => {
                return Err(fault(self.op, "fsm.machine requires a valid function_type attribute"));
            },
        };
        let block = self.get_body(ctx);
        let ghost args = ctx.block(block).args@;
        let num_args: usize = ctx.blocks[block.idx].args.len();
        if num_args != inputs.len() {
            return Err(
                VerifyError {
                    at: self.op,
                    message: "fsm.machine entry block has ".to_owned().concat(
                        decimal_text(num_args as u64).as_str(),
                    ).concat(" arguments but function_type expects ").concat(
                        decimal_text(inputs.len() as u64).as_str(),
                    ),
                },
            );
        }
        let mut i: usize = 0;
        while i < inputs.len()
            invariant
                self.valid(ctx),
                ctx.has_block(block),
                block == model::body(ctx, self.op),
                args == ctx.block(block).args@,
                args.len() == inputs@.len(),
                inputs@ == model::input_types(ctx, self.op),
                model::is_named(model::symbol_or_name(ctx, self.op)),
                model::is_named(
                    model::symbol_at(ctx.op(self.op).attributes, AttrKey::InitialState),
                ),
                model::signature(ctx, self.op) is Some,
                i <= inputs@.len(),
                forall|j: int| 0 <= j < i ==> #[trigger] args[j] == inputs@[j],
            decreases inputs@.len() - i,
        {
            let actual = ctx.blocks[block.idx].args[i];
            if actual != inputs[i] {
                proof {
                    search::lemma_agreement_at(args, inputs@, i as int);
                }
                return Err(
                    VerifyError {
                        at: self.op,
                        message: "fsm.machine argument ".to_owned().concat(
                            decimal_text(i as u64).as_str(),
                        ).concat(" type mismatch: expected ").concat(
                            ctx.display_type(inputs[i]).as_str(),
                        ).concat(", got ").concat(ctx.display_type(actual).as_str()),
                    },
                );
            }
            i += 1;
        }
        assert(args =~= inputs@);
        self.verify_states(ctx, name, initial_state, results)
    }

    /// The checks of the machine that come after those of its name and its
    /// signature.
    fn verify_states(
        &self,
        ctx: &Context,
        name: String,
        initial_state: String,
        results: Vec<TypeHandle>,
    ) -> (r: Result<(), VerifyError>)
        requires
            self.valid(ctx),
            model::symbol_or_name(ctx, self.op) == Some(name@),
            model::symbol_at(ctx.op(self.op).attributes, AttrKey::InitialState) == Some(
                initial_state@,
            ),
            name@.len() > 0,
            initial_state@.len() > 0,
            model::signature(ctx, self.op) is Some,
            results@ == model::result_types(ctx, self.op),
            ctx.block(model::body(ctx, self.op)).args@ == model::input_types(ctx, self.op),
        ensures
            error::reported(r) == model::machine_fault(ctx, self.op),
    {
        let states = self.states(ctx);
        let ghost names = model::state_names(ctx, self.op);
        let mut seen = StringHashSet::new();
        let mut found: bool = false;
        let mut i: usize = 0;
        assert(names.take(0).to_set() =~= Set::<Seq<char>>::empty());
        while i < states.len()
            invariant
                self.valid(ctx),
                names == model::state_names(ctx, self.op),
                states@.len() == names.len(),
                forall|j: int|
                    0 <= j < states@.len() ==> (#[trigger] states@[j]).op == model::states(
                        ctx,
                        self.op,
                    )[j] && states@[j].valid(ctx),
                model::symbol_or_name(ctx, self.op) == Some(name@),
                model::symbol_at(ctx.op(self.op).attributes, AttrKey::InitialState) == Some(
                    initial_state@,
                ),
                name@.len() > 0,
                initial_state@.len() > 0,
                model::signature(ctx, self.op) is Some,
                ctx.block(model::body(ctx, self.op)).args@ == model::input_types(ctx, self.op),
                i <= states@.len(),
                seen@ == names.take(i as int).to_set(),
                found == names.take(i as int).contains(initial_state@),
                search::first_repeat(names.take(i as int)) is None,
            decreases states@.len() - i,
        {
            let state_name = states[i].state_name(ctx);
            let ghost before = names.take(i as int);
            let ghost more = names.take(i + 1);
            proof {
                assert(state_name@ == names[i as int]);
                search::lemma_first_repeat_step(names, i as int);
                assert(more =~= before.push(names[i as int]));
                assert(more.to_set() =~= before.to_set().insert(names[i as int])) by {
                    assert forall|x: Seq<char>| more.to_set().contains(x) <==> before.to_set().insert(
                        names[i as int],
                    ).contains(x) by {
                        if before.contains(x) {
                            let j = before.index_of(x);
                            assert(more[j] == x);
                        }
                        if x == names[i as int] {
                            assert(more[i as int] == x);
                        }
                        if more.contains(x) {
                            let j = more.index_of(x);
                            if j < i {
                                assert(before[j] == x);
                            }
                        }
                    }
                }
            }
            if !seen.insert(state_name.clone()) {
                return Err(
                    fault5(
                        self.op,
                        "duplicate state name '",
                        state_name.as_str(),
                        "' in fsm.machine '",
                        name.as_str(),
                        "'",
                    ),
                );
            }
            proof {
                assert(more.contains(initial_state@) <==> more.to_set().contains(initial_state@));
                assert(before.contains(initial_state@) <==> before.to_set().contains(
                    initial_state@,
                ));
            }
            if state_name == initial_state {
                found = true;
            }
            i += 1;
        }
        assert(names.take(i as int) == names);
        if !found {
            return Err(
                fault5(
                    self.op,
                    "Can not find initial state: '",
                    initial_state.as_str(),
                    "' in machine '",
                    name.as_str(),
                    "'",
                ),
            );
        }
        if let Some(text) = check_pair(
            attribute_length(self.op, ctx, AttrKey::ArgNames),
            attribute_length(self.op, ctx, AttrKey::ArgAttrs),
            "arg_attrs must be consistent with arg_names",
            "The number of arg_attrs and arg_names should be the same",
        ) {
            return Err(fault(self.op, text));
        }
        if let Some(text) = check_pair(
            attribute_length(self.op, ctx, AttrKey::ResNames),
            attribute_length(self.op, ctx, AttrKey::ResAttrs),
            "res_attrs must be consistent with res_names",
            "The number of res_attrs and res_names should be the same",
        ) {
            return Err(fault(self.op, text));
        }
        if results.len() > 0 {
            let ghost ops = model::states(ctx, self.op);
            let ghost silent = |s: OpPtr| model::output_op(ctx, s) is None;
            let mut k: usize = 0;
            while k < states.len()
                invariant
                    self.valid(ctx),
                    ops == model::states(ctx, self.op),
                    states@.len() == ops.len(),
                    forall|j: int|
                        0 <= j < states@.len() ==> (#[trigger] states@[j]).op == ops[j]
                            && states@[j].valid(ctx),
                    silent == (|s: OpPtr| model::output_op(ctx, s) is None),
                    k <= states@.len(),
                    search::first_where(ops.take(k as int), silent) is None,
                    model::result_types(ctx, self.op).len() > 0,
                    model::machine_fault(ctx, self.op) == (match search::first_where(ops, silent) {
                        Some(s) => Some(
                            (
                                s,
                                "State must have a non-empty output region when the machine has results"@,
                            ),
                        ),
                        None => None,
                    }),
                decreases states@.len() - k,
            {
                proof {
                    search::lemma_first_where_step(ops, silent, k as int);
                }
                if states[k].output_op(ctx).is_none() {
                    return Err(
                        fault(
                            states[k].op,
                            "State must have a non-empty output region when the machine has results",
                        ),
                    );
                }
                k += 1;
            }
            assert(ops.take(k as int) == ops);
        }
        Ok(())
    }
}

impl StateOp {
    /// Checks the state: its name, what its two regions hold, and that it
    /// drives an output where the machine has results.
    pub fn verify(&self, ctx: &Context) -> (r: Result<(), VerifyError>)
        requires
            self.valid(ctx),
        ensures
            error::reported(r) == model::state_fault(ctx, self.op),
    {
        let name = match given_name(self.op, ctx) {
            Some(n) => n,
            None => {
                return Err(fault(self.op, "fsm.state requires a non-empty symbol name"));
            },
        };
        let output_region = self.output_region(ctx);
        if let Some(t) = first_in_region(ctx, output_region, OpKind::Transition) {
            return Err(fault(t, "Transition must be located in a transitions region"));
        }
        if let Some(b) = ctx.get_entry_block(output_region) {
            let n: usize = ctx.blocks[b.idx].ops.len();
            if n > 0 {
                assert(ctx.block_ok(b.idx as int));
                assert(ctx.has_op(ctx.block(b).ops@[n - 1]));
            }
            if n > 0 && ctx.ops[ctx.blocks[b.idx].ops[n - 1].idx].kind != OpKind::Output {
                return Err(
                    fault3(
                        self.op,
                        "fsm.state '",
                        name.as_str(),
                        "' output region must terminate with an fsm.output",
                    ),
                );
            }
        }
        if let Some(o) = first_in_region(ctx, self.transitions_region(ctx), OpKind::Output) {
            return Err(fault(o, "Transition regions should not output any value"));
        }
        if let Some(m) = get_parent_of_kind(ctx, self.op, OpKind::Machine) {
            let machine = MachineOp { op: m };
            if machine.result_types(ctx).len() > 0 && self.output_op(ctx).is_none() {
                return Err(
                    fault(
                        self.op,
                        "State must have a non-empty output region when the machine has results",
                    ),
                );
            }
        }
        Ok(())
    }
}

impl OutputOp {
    /// Checks the output: where it stands, and that it drives what the machine
    /// returns.
    pub fn verify(&self, ctx: &Context) -> (r: Result<(), VerifyError>)
        requires
            self.valid(ctx),
        ensures
            error::reported(r) == model::output_fault(ctx, self.op),
    {
        let parent = match ctx.get_parent_op(self.op) {
            Some(p) => p,
            None => {
                return Ok(());
            },
        };
        if ctx.ops[parent.idx].kind != OpKind::State {
            return Err(fault(self.op, "fsm.output parent must be an fsm.state"));
        }
        let state = StateOp { op: parent };
        if stands_in(ctx, self.op, state.transitions_region(ctx)) {
            return Err(fault(self.op, "Transition regions should not output any value"));
        }
        if let Some(m) = get_parent_of_kind(ctx, parent, OpKind::Machine) {
            let machine = MachineOp { op: m };
            let expected = machine.result_types(ctx);
            let actual = operand_types(ctx, self.op, self.num_outputs(ctx));
            assert(actual@ =~= model::operand_types(ctx, self.op));
            if !same_types(&actual, &expected) {
                return Err(
                    fault3(
                        self.op,
                        "OutputOp output type must be consistent with the machine \"",
                        machine.machine_name(ctx).as_str(),
                        "\"",
                    ),
                );
            }
        }
        Ok(())
    }
}

/// Whether a value is among some others.
fn contains_value(values: &Vec<Value>, v: Value) -> (r: bool)
    ensures
        r == values@.contains(v),
{
    let mut i: usize = 0;
    while i < values.len()
        invariant
            i <= values@.len(),
            forall|j: int| 0 <= j < i ==> values@[j] != v,
        decreases values@.len() - i,
    {
        if values[i] == v {
            assert(values@[i as int] == v);
            return true;
        }
        i += 1;
    }
    false
}

/// A fault in the first operations of an action is the first of all of them.
proof fn lemma_action_fault_prefix(ctx: &Context, ops: Seq<OpPtr>, n: int)
    requires
        0 <= n <= ops.len(),
    ensures
        model::action_fault(ctx, ops.take(n)) is Some ==> model::action_fault(ctx, ops)
            == model::action_fault(ctx, ops.take(n)),
    decreases ops.len(),
{
    if n == ops.len() {
        assert(ops.take(n) == ops);
    } else {
        lemma_action_fault_prefix(ctx, ops.drop_last(), n);
        assert(ops.drop_last().take(n) == ops.take(n));
    }
}

impl TransitionOp {
    /// Checks the transition: where it stands, that its target exists, that its
    /// guard ends in a return, and that its action updates each variable at
    /// most once.
    pub fn verify(&self, ctx: &Context) -> (r: Result<(), VerifyError>)
        requires
            self.valid(ctx),
        ensures
            error::reported(r) == model::transition_fault(ctx, self.op),
    {
        let parent = match ctx.get_parent_op(self.op) {
            Some(p) => p,
            None => {
                return Ok(());
            },
        };
        if ctx.ops[parent.idx].kind != OpKind::State {
            return Err(fault(self.op, "Transition must be located in a transitions region"));
        }
        let state = StateOp { op: parent };
        if !stands_in(ctx, self.op, state.transitions_region(ctx)) {
            return Err(fault(self.op, "Transition must be located in a transitions region"));
        }
        let next_state = match self.get_next_state_name(ctx) {
            Some(s) => match non_empty(s) {
                Some(s) => s,
                None => {
                    return Err(fault(self.op, "fsm.transition requires nextState attribute"));
                },
            },
            None => {
                return Err(fault(self.op, "fsm.transition requires nextState attribute"));
            },
        };
        if let Some(m) = get_parent_of_kind(ctx, parent, OpKind::Machine) {
            let machine = MachineOp { op: m };
            if machine.get_state(ctx, next_state.as_str()).is_none() {
                return Err(
                    fault3(self.op, "Can not find next state: '", next_state.as_str(), "'"),
                );
            }
        }
        if self.has_guard(ctx) && self.guard_return_op(ctx).is_none() {
            return Err(fault(self.op, "Guard region must terminate with ReturnOp"));
        }
        self.verify_action(ctx)
    }

    /// The checks of the action of the transition.
    fn verify_action(&self, ctx: &Context) -> (r: Result<(), VerifyError>)
        requires
            self.valid(ctx),
        ensures
            error::reported(r) == model::action_fault(
                ctx,
                model::second_region_ops(ctx, self.op),
            ),
    {
        let b = match ctx.get_entry_block(self.action_region(ctx)) {
            Some(b) => b,
            None => {
                return Ok(());
            },
        };
        let ghost ops = model::second_region_ops(ctx, self.op);
        let mut updated: Vec<Value> = Vec::new();
        let mut i: usize = 0;
        proof {
            reveal(Seq::filter);
            assert(ctx.block_ok(b.idx as int));
            assert(updated@ =~= model::updated(ctx, ops.take(0)));
        }
        while i < ctx.blocks[b.idx].ops.len()
            invariant
                self.valid(ctx),
                ctx.has_block(b),
                ctx.block_ok(b.idx as int),
                ops == ctx.block(b).ops@,
                ops == model::second_region_ops(ctx, self.op),
                i <= ops.len(),
                updated@ == model::updated(ctx, ops.take(i as int)),
                model::action_fault(ctx, ops.take(i as int)) is None,
            decreases ops.len() - i,
        {
            let p = ctx.blocks[b.idx].ops[i];
            let ghost before = ops.take(i as int);
            let ghost more = ops.take(i + 1);
            proof {
                reveal(Seq::filter);
                assert(more.drop_last() =~= before);
                assert(more.last() == p);
                assert(ctx.has_op(ops[i as int]));
                lemma_action_fault_prefix(ctx, ops, i + 1);
            }
            if ctx.ops[p.idx].kind == OpKind::Update {
                let variable = UpdateOp { op: p }.variable(ctx);
                if contains_value(&updated, variable) {
                    return Err(
                        fault(
                            p,
                            "Multiple updates to the same variable within a single action region is disallowed",
                        ),
                    );
                }
                updated.push(variable);
            }
            assert(updated@ =~= model::updated(ctx, more));
            if ctx.ops[p.idx].kind == OpKind::Output {
                return Err(fault(p, "Transition regions should not output any value"));
            }
            i += 1;
        }
        assert(ops.take(i as int) == ops);
        Ok(())
    }
}

impl ReturnOp {
    /// Checks the return: where it stands, and that its condition is an `i1`.
    pub fn verify(&self, ctx: &Context) -> (r: Result<(), VerifyError>)
        requires
            self.valid(ctx),
        ensures
            error::reported(r) == model::return_fault(ctx, self.op),
    {
        let parent = match ctx.get_parent_op(self.op) {
            Some(p) => p,
            None => {
                return Ok(());
            },
        };
        if ctx.ops[parent.idx].kind != OpKind::Transition {
            return Err(fault(self.op, "fsm.return parent must be an fsm.transition"));
        }
        if ctx.ops[self.op.idx].operands.len() > 0 {
            let ty = operand_types(ctx, self.op, 1)[0];
            if ty != IntegerType::get(1, Signedness::Signless) {
                return Err(
                    VerifyError {
                        at: self.op,
                        message: "fsm.return condition operand must be i1, got ".to_owned().concat(
                            ctx.display_type(ty).as_str(),
                        ),
                    },
                );
            }
        }
        Ok(())
    }
}

impl VariableOp {
    /// Checks the variable: that it has a name and an initial value.
    pub fn verify(&self, ctx: &Context) -> (r: Result<(), VerifyError>)
        requires
            self.valid(ctx),
        ensures
            error::reported(r) == model::variable_fault(ctx, self.op),
    {
        let name = match given_name(self.op, ctx) {
            Some(n) => n,
            None => {
                return Err(fault(self.op, "fsm.variable requires a non-empty name"));
            },
        };
        assert(ctx.op_ok(self.op.idx as int));
        if ctx.ops[self.op.idx].attributes.get(AttrKey::InitValue).is_none() {
            return Err(
                fault3(
                    self.op,
                    "fsm.variable '",
                    name.as_str(),
                    "' requires an initValue attribute",
                ),
            );
        }
        Ok(())
    }
}

impl UpdateOp {
    /// Checks the update: where it stands, and that it writes a variable with a
    /// value of the variable's type.
    pub fn verify(&self, ctx: &Context) -> (r: Result<(), VerifyError>)
        requires
            self.valid(ctx),
        ensures
            error::reported(r) == model::update_fault(ctx, self.op),
    {
        let trans = match get_parent_of_kind(ctx, self.op, OpKind::Transition) {
            Some(t) => TransitionOp { op: t },
            None => {
                return Err(
                    fault(
                        self.op,
                        "Update must only be located in the action region of a transition",
                    ),
                );
            },
        };
        if !stands_in(ctx, self.op, trans.action_region(ctx)) {
            return Err(
                fault(
                    self.op,
                    "Update must only be located in the action region of a transition",
                ),
            );
        }
        let variable = self.variable(ctx);
        match variable.defining_op() {
            Some(d) => if ctx.ops[d.idx].kind != OpKind::Variable {
                return Err(fault(self.op, "Destination is not a variable operation"));
            },
            None => {
                return Err(fault(self.op, "Destination is not a variable operation"));
            },
        }
        if ctx.get_type(variable) != ctx.get_type(self.value(ctx)) {
            return Err(fault(self.op, "fsm.update variable and value must have the same type"));
        }
        Ok(())
    }
}

impl InstanceOp {
    /// Checks the instance: its type, and that the machine it names exists.
    pub fn verify(&self, ctx: &Context) -> (r: Result<(), VerifyError>)
        requires
            self.valid(ctx),
        ensures
            error::reported(r) == model::instance_fault(ctx, self.op),
    {
        assert(ctx.op_ok(self.op.idx as int));
        if !is_instance_type(ctx, ctx.ops[self.op.idx].results[0]) {
            return Err(fault(self.op, "The instance operand must be Instance"));
        }
        let machine_name = match self.get_machine_name(ctx) {
            Some(s) => match non_empty(s) {
                Some(s) => s,
                None => {
                    return Err(fault(self.op, "fsm.instance requires machine attribute"));
                },
            },
            None => {
                return Err(fault(self.op, "fsm.instance requires machine attribute"));
            },
        };
        if ctx.get_parent_op(self.op).is_some() && find_machine(
            self.op,
            ctx,
            machine_name.as_str(),
        ).is_none() {
            return Err(fault(self.op, "Machine definition does not exist"));
        }
        Ok(())
    }
}

impl TriggerOp {
    /// Checks the trigger: that it advances an instance, and that its inputs and
    /// outputs are those of the machine.
    pub fn verify(&self, ctx: &Context) -> (r: Result<(), VerifyError>)
        requires
            self.valid(ctx),
        ensures
            error::reported(r) == model::trigger_fault(ctx, self.op),
    {
        assert(ctx.op_ok(self.op.idx as int));
        let num_operands: usize = ctx.ops[self.op.idx].operands.len();
        if num_operands < 1 {
            return Err(
                fault(self.op, "fsm.trigger requires at least 1 operand (the instance)"),
            );
        }
        let instance = ctx.ops[self.op.idx].operands[num_operands - 1];
        assert(instance == ctx.op(self.op).operands@[num_operands - 1]);
        assert(ctx.has_value(instance));
        if !is_instance_type(ctx, ctx.get_type(instance)) {
            return Err(fault(self.op, "The instance operand must be Instance"));
        }
        let inst_op = match instance.defining_op() {
            Some(d) => {
                if ctx.ops[d.idx].kind != OpKind::Instance {
                    return Err(fault(self.op, "The instance operand must be Instance"));
                }
                InstanceOp { op: d }
            },
            None => {
                return Err(fault(self.op, "The instance operand must be Instance"));
            },
        };
        let machine_name = inst_op.machine(ctx);
        if let Some(machine) = find_machine(self.op, ctx, machine_name.as_str()) {
            let inputs = operand_types(ctx, self.op, num_operands - 1);
            assert(inputs@ =~= model::operand_types(ctx, self.op).drop_last());
            if !same_types(&inputs, &machine.input_types(ctx)) {
                return Err(
                    fault3(
                        self.op,
                        "TriggerOp input types must be consistent with the machine \"",
                        machine_name.as_str(),
                        "\"",
                    ),
                );
            }
            if !same_types(&ctx.ops[self.op.idx].results, &machine.result_types(ctx)) {
                return Err(
                    fault3(
                        self.op,
                        "TriggerOp output types must be consistent with the machine \"",
                        machine_name.as_str(),
                        "\"",
                    ),
                );
            }
        } else if ctx.get_parent_op(self.op).is_some() {
            return Err(fault(self.op, "Machine definition does not exist"));
        }
        Ok(())
    }
}

impl HWInstanceOp {
    /// Checks the hardware instance: that it has a clock and a reset, and that
    /// its inputs and outputs are those of the machine.
    pub fn verify(&self, ctx: &Context) -> (r: Result<(), VerifyError>)
        requires
            self.valid(ctx),
        ensures
            error::reported(r) == model::hw_instance_fault(ctx, self.op),
    {
        let num_operands: usize = ctx.ops[self.op.idx].operands.len();
        if num_operands < 2 {
            return Err(
                fault(self.op, "fsm.hw_instance requires at least clock and reset operands"),
            );
        }
        let machine_name = match self.get_machine_name(ctx) {
            Some(s) => match non_empty(s) {
                Some(s) => s,
                None => {
                    return Err(fault(self.op, "fsm.hw_instance requires machine attribute"));
                },
            },
            None => {
                return Err(fault(self.op, "fsm.hw_instance requires machine attribute"));
            },
        };
        let inst_name = self.instance_name(ctx);
        if let Some(machine) = find_machine(self.op, ctx, machine_name.as_str()) {
            let inputs = operand_types(ctx, self.op, num_operands - 2);
            if !same_types(&inputs, &machine.input_types(ctx)) {
                return Err(
                    fault5(
                        self.op,
                        "HWInstanceOp \"",
                        inst_name.as_str(),
                        "\" input type must be consistent with the machine \"",
                        machine_name.as_str(),
                        "\"",
                    ),
                );
            }
            if !same_types(&ctx.ops[self.op.idx].results, &machine.result_types(ctx)) {
                return Err(
                    fault5(
                        self.op,
                        "HWInstanceOp \"",
                        inst_name.as_str(),
                        "\" output type must be consistent with the machine \"",
                        machine_name.as_str(),
                        "\"",
                    ),
                );
            }
        } else if ctx.get_parent_op(self.op).is_some() {
            return Err(fault(self.op, "Machine definition does not exist"));
        }
        Ok(())
    }
}

} // verus!
