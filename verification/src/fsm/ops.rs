//! Operations for the `fsm` dialect.
//!
//! Models finite state machines with explicit states, transitions, guards,
//! actions, variables, and instantiations. Each handle names an operation of
//! its kind in a context.

use crate::fsm::model;
use crate::fsm::search;
use crate::ir::attributes;
use crate::ir::attributes::{identifier_accepts, AttrKey, Attribute, AttributeDict};
use crate::ir::context::{BlockPtr, Context, OpData, OpKind, OpPtr, RegionPtr, Value};
use crate::ir::types::{copy_types, types_of_fields, Shape, TypeHandle};
use crate::text;
use crate::text::same_text;
use vstd::prelude::*;

verus! {

/// Strip leading `@` from a symbol reference string.
pub fn clean_symbol_ref(s: &str) -> (r: &str)
    ensures
        r@ == model::clean(s@),
{
    let n: usize = s.unicode_len();
    let mut k: usize = 0;
    while k < n && s.get_char(k) == '@'
        invariant
            k <= n == s@.len(),
            forall|i: int| 0 <= i < k ==> #[trigger] s@[i] == '@',
        decreases n - k,
    {
        k += 1;
    }
    proof {
        let at = seq!['@'];
        assert forall|i: int| 0 <= i < k implies at.contains(#[trigger] s@[i]) by {
            assert(at[0] == s@[i]);
        }
        text::lemma_prefix_in_unique(s@, at, k as nat);
    }
    s.substring_char(k, n)
}

/// The symbol that an attribute of an operation refers to.
fn symbol_attribute(op: OpPtr, ctx: &Context, key: AttrKey) -> (r: Option<String>)
    requires
        ctx.wf(),
        ctx.has_op(op),
    ensures
        r is Some <==> model::symbol_at(ctx.op(op).attributes, key) is Some,
        r matches Some(s) ==> model::symbol_at(ctx.op(op).attributes, key) == Some(s@),
{
    assert(ctx.op_ok(op.idx as int));
    match ctx.ops[op.idx].attributes.get(key) {
        Some(Attribute::String(s)) => Some(clean_symbol_ref(s.as_str()).to_owned()),
        Some(Attribute::Identifier(s)) => Some(clean_symbol_ref(s.as_str()).to_owned()),
        _ => None,
    }
}

/// Retrieve the symbol name or `"sym_name"` / `"name"` attribute of an operation.
pub fn get_op_symbol_or_name(op: OpPtr, ctx: &Context) -> (r: Option<String>)
    requires
        ctx.wf(),
        ctx.has_op(op),
    ensures
        r is Some <==> model::symbol_or_name(ctx, op) is Some,
        r matches Some(s) ==> model::symbol_or_name(ctx, op) == Some(s@),
{
    assert(ctx.op_ok(op.idx as int));
    if let Some(Attribute::Identifier(s)) = ctx.ops[op.idx].attributes.get(AttrKey::BuiltinSymName) {
        return Some(s.clone());
    }
    if let Some(s) = symbol_attribute(op, ctx, AttrKey::SymName) {
        return Some(s);
    }
    symbol_attribute(op, ctx, AttrKey::Name)
}

/// The name of an operation, or `default` where it has none.
fn name_or(op: OpPtr, ctx: &Context, default: &str) -> (r: String)
    requires
        ctx.wf(),
        ctx.has_op(op),
    ensures
        r@ == model::or_else(model::symbol_or_name(ctx, op), default@),
{
    match get_op_symbol_or_name(op, ctx) {
        Some(s) => s,
        None => default.to_owned(),
    }
}

/// The symbol of an attribute, or the empty string where there is none.
fn symbol_or_empty(op: OpPtr, ctx: &Context, key: AttrKey) -> (r: String)
    requires
        ctx.wf(),
        ctx.has_op(op),
    ensures
        r@ == model::or_else(model::symbol_at(ctx.op(op).attributes, key), ""@),
{
    match symbol_attribute(op, ctx, key) {
        Some(s) => s,
        None => "".to_owned(),
    }
}

/// The context in which only the attributes of `op` differ from `before`.
pub open spec fn only_attributes(before: &Context, after: &Context, op: OpPtr) -> bool {
    &&& after.op(op) == (OpData { attributes: after.op(op).attributes, ..before.op(op) })
    &&& after.ops@ == before.ops@.update(op.idx as int, after.op(op))
    &&& after.blocks == before.blocks
    &&& after.regions == before.regions
    &&& after.types == before.types
}

/// Whether attributes hold nothing but what is under some keys.
pub open spec fn only_keys(attrs: AttributeDict, keys: Set<AttrKey>) -> bool {
    forall|key: AttrKey| !keys.contains(key) ==> #[trigger] attrs.at(key) is None
}

/// Whether attributes hold a string under a key.
pub open spec fn string_at(attrs: AttributeDict, key: AttrKey, text: Seq<char>) -> bool {
    attrs.at(key) matches Some(Attribute::String(s)) && s@ == text
}

/// Set both the symbol and the `"sym_name"` attribute of an operation. A name
/// that is no identifier becomes no symbol.
///
/// The name is then read back without its leading `@` characters, unless it is no
/// identifier and the operation has an earlier symbol.
pub fn set_op_symbol_and_name(op: OpPtr, ctx: &mut Context, name: &str)
    requires
        old(ctx).wf(),
        old(ctx).has_op(op),
    ensures
        final(ctx).wf(),
        only_attributes(old(ctx), final(ctx), op),
        final(ctx).op(op).attributes.at(AttrKey::SymName) matches Some(Attribute::String(s)) && s@
            == model::clean(name@),
        if attributes::is_identifier(model::clean(name@)) {
            final(ctx).op(op).attributes.at(AttrKey::BuiltinSymName) matches Some(
                Attribute::Identifier(s),
            ) && s@ == model::clean(name@)
        } else {
            final(ctx).op(op).attributes.at(AttrKey::BuiltinSymName) == old(ctx).op(
                op,
            ).attributes.at(AttrKey::BuiltinSymName)
        },
        forall|key: AttrKey|
            key != AttrKey::SymName && key != AttrKey::BuiltinSymName
                ==> #[trigger] final(ctx).op(op).attributes.at(key) == old(ctx).op(
                op,
            ).attributes.at(key),
        attributes::is_identifier(model::clean(name@)) || !(old(ctx).op(op).attributes.at(
            AttrKey::BuiltinSymName,
        ) matches Some(Attribute::Identifier(_))) ==> model::symbol_or_name(final(ctx), op) == Some(
            model::clean(name@),
        ),
{
    proof {
        model::lemma_clean_twice(name@);
    }
    let clean = clean_symbol_ref(name);
    if identifier_accepts(clean) {
        ctx.set_attribute(op, AttrKey::BuiltinSymName, Attribute::Identifier(clean.to_owned()));
    }
    ctx.set_attribute(op, AttrKey::SymName, Attribute::String(clean.to_owned()));
    assert(ctx.ops@ =~= old(ctx).ops@.update(op.idx as int, ctx.op(op)));
}

/// The operations of a kind in a block, in order.
fn ops_of_kind(ctx: &Context, b: BlockPtr, kind: OpKind) -> (r: Vec<OpPtr>)
    requires
        ctx.wf(),
        ctx.has_block(b),
    ensures
        r@ == model::of_kind(ctx, ctx.block(b).ops@, kind),
        forall|i: int| 0 <= i < r@.len() ==> ctx.has_op(#[trigger] r@[i]) && ctx.op(r@[i]).kind == kind,
{
    let ghost ops = ctx.block(b).ops@;
    let ghost want = |p: OpPtr| ctx.op(p).kind == kind;
    let mut out: Vec<OpPtr> = Vec::new();
    let mut i: usize = 0;
    proof {
        reveal(Seq::filter);
        assert(ctx.block_ok(b.idx as int));
        assert(ops.take(0).filter(want) == Seq::<OpPtr>::empty());
    }
    while i < ctx.blocks[b.idx].ops.len()
        invariant
            ctx.has_block(b),
            ctx.block_ok(b.idx as int),
            ops == ctx.block(b).ops@,
            i <= ops.len(),
            want == (|p: OpPtr| ctx.op(p).kind == kind),
            out@ == ops.take(i as int).filter(want),
            forall|j: int|
                0 <= j < out@.len() ==> ctx.has_op(#[trigger] out@[j]) && ctx.op(out@[j]).kind == kind,
        decreases ops.len() - i,
    {
        let p = ctx.blocks[b.idx].ops[i];
        proof {
            reveal(Seq::filter);
            assert(ops.take(i + 1).drop_last() == ops.take(i as int));
            assert(ctx.has_op(ops[i as int]));
        }
        if ctx.ops[p.idx].kind == kind {
            out.push(p);
        }
        i += 1;
    }
    assert(ops.take(i as int) == ops);
    out
}

/// The first operation of a kind in the entry block of a region.
pub(crate) fn first_in_region(ctx: &Context, r: RegionPtr, kind: OpKind) -> (p: Option<OpPtr>)
    requires
        ctx.wf(),
        ctx.has_region(r),
    ensures
        p == search::first_where(
            ctx.entry_ops(r),
            |q: OpPtr| model::is_kind(ctx, q, kind),
        ),
        p matches Some(q) ==> ctx.has_op(q) && ctx.op(q).kind == kind,
{
    let ghost want = |q: OpPtr| model::is_kind(ctx, q, kind);
    let ghost ops = ctx.entry_ops(r);
    match ctx.get_entry_block(r) {
        None => None,
        Some(b) => {
            let mut i: usize = 0;
            assert(ctx.block_ok(b.idx as int));
            assert(ops == ctx.block(b).ops@);
            while i < ctx.blocks[b.idx].ops.len()
                invariant
                    ctx.has_block(b),
                    ctx.block_ok(b.idx as int),
                    ops == ctx.block(b).ops@,
                    ops == ctx.entry_ops(r),
                    i <= ops.len(),
                    want == (|q: OpPtr| model::is_kind(ctx, q, kind)),
                    search::first_where(ops.take(i as int), want) is None,
                decreases ops.len() - i,
            {
                let p = ctx.blocks[b.idx].ops[i];
                proof {
                    search::lemma_first_where_step(ops, want, i as int);
                    assert(ctx.has_op(ops[i as int]));
                }
                if ctx.ops[p.idx].kind == kind {
                    return Some(p);
                }
                i += 1;
            }
            assert(ops.take(i as int) == ops);
            None
        },
    }
}

/// Extract input and result types from a function type handle.
pub fn get_function_signature(ctx: &Context, ty: TypeHandle) -> (r: Option<
    (Vec<TypeHandle>, Vec<TypeHandle>),
>)
    ensures
        r is Some <==> ctx.type_signature(ty) is Some,
        r matches Some(sig) ==> ctx.type_signature(ty) == Some((sig.0@, sig.1@)),
{
    if let TypeHandle::Composite { id } = ty {
        if id < ctx.types.len() {
            match &ctx.types[id].shape {
                Shape::Function { inputs, results } => {
                    return Some((copy_types(inputs), copy_types(results)));
                },
                Shape::Module { ins, outs } => {
                    return Some((types_of_fields(ins), types_of_fields(outs)));
                },
                Shape::Opaque => {},
            }
        }
    }
    None
}

/// Whether the operation goes by the name, as a machine.
fn is_machine_named(ctx: &Context, p: OpPtr, target: &str) -> (r: bool)
    requires
        ctx.wf(),
        ctx.has_op(p),
    ensures
        r == model::machine_named(ctx, p, target@),
{
    if ctx.ops[p.idx].kind == OpKind::Machine {
        let name = name_or(p, ctx, "unnamed_machine");
        same_text(clean_symbol_ref(name.as_str()), clean_symbol_ref(target))
    } else {
        false
    }
}

/// The machine of the given name immediately inside an operation.
fn find_machine_inside(ctx: &Context, p: OpPtr, target: &str) -> (r: Option<OpPtr>)
    requires
        ctx.wf(),
        ctx.has_op(p),
    ensures
        r == model::machine_inside(ctx, p, target@),
        r matches Some(m) ==> ctx.has_op(m) && ctx.op(m).kind == OpKind::Machine,
{
    let ghost want = |q: OpPtr| model::machine_named(ctx, q, target@);
    let ghost regions = ctx.op(p).regions@;
    let mut i: usize = 0;
    assert(ctx.op_ok(p.idx as int));
    while i < ctx.ops[p.idx].regions.len()
        invariant
            ctx.wf(),
            ctx.has_op(p),
            ctx.op_ok(p.idx as int),
            regions == ctx.op(p).regions@,
            i <= regions.len(),
            want == (|q: OpPtr| model::machine_named(ctx, q, target@)),
            search::first_where(model::ops_of_regions(ctx, regions.take(i as int)), want) is None,
        decreases regions.len() - i,
    {
        let r = ctx.ops[p.idx].regions[i];
        let ghost seen = model::ops_of_regions(ctx, regions.take(i as int));
        let ghost blocks = ctx.region(r).blocks@;
        let ghost inner = model::ops_of_blocks(ctx, blocks);
        proof {
            assert(ctx.has_region(regions[i as int]));
            assert(ctx.region_ok(r.idx as int));
            assert(regions.take(i + 1).drop_last() == regions.take(i as int));
            assert(model::ops_of_regions(ctx, regions.take(i + 1)) == seen + inner);
            search::lemma_first_where_append(seen, inner, want);
            lemma_regions_prefix(ctx, regions, i + 1);
        }
        let mut j: usize = 0;
        while j < ctx.regions[r.idx].blocks.len()
            invariant
                ctx.wf(),
                ctx.has_op(p),
                ctx.has_region(r),
                ctx.region_ok(r.idx as int),
                i < regions.len(),
                regions == ctx.op(p).regions@,
                blocks == ctx.region(r).blocks@,
                inner == model::ops_of_blocks(ctx, blocks),
                j <= blocks.len(),
                want == (|q: OpPtr| model::machine_named(ctx, q, target@)),
                search::first_where(model::ops_of_blocks(ctx, blocks.take(j as int)), want) is None,
                search::first_where(inner, want) is Some ==> model::machine_inside(ctx, p, target@)
                    == search::first_where(inner, want),
            decreases blocks.len() - j,
        {
            let b = ctx.regions[r.idx].blocks[j];
            let ghost before = model::ops_of_blocks(ctx, blocks.take(j as int));
            let ghost ops = ctx.block(b).ops@;
            proof {
                assert(ctx.has_block(blocks[j as int]));
                assert(ctx.block_ok(b.idx as int));
                assert(blocks.take(j + 1).drop_last() == blocks.take(j as int));
                assert(model::ops_of_blocks(ctx, blocks.take(j + 1)) == before + ops);
                search::lemma_first_where_append(before, ops, want);
                lemma_blocks_prefix(ctx, blocks, j + 1, want);
            }
            let mut k: usize = 0;
            while k < ctx.blocks[b.idx].ops.len()
                invariant
                    ctx.wf(),
                    ctx.has_op(p),
                    ctx.has_block(b),
                    ctx.block_ok(b.idx as int),
                    ops == ctx.block(b).ops@,
                    k <= ops.len(),
                    want == (|q: OpPtr| model::machine_named(ctx, q, target@)),
                    search::first_where(ops.take(k as int), want) is None,
                    search::first_where(ops, want) is Some ==> model::machine_inside(
                        ctx,
                        p,
                        target@,
                    ) == search::first_where(ops, want),
                decreases ops.len() - k,
            {
                let q = ctx.blocks[b.idx].ops[k];
                proof {
                    assert(ctx.has_op(ops[k as int]));
                    search::lemma_first_where_step(ops, want, k as int);
                }
                if is_machine_named(ctx, q, target) {
                    return Some(q);
                }
                k += 1;
            }
            assert(ops.take(k as int) == ops);
            j += 1;
        }
        assert(blocks.take(j as int) == blocks);
        i += 1;
    }
    assert(regions.take(i as int) == regions);
    None
}

/// What comes first in some of the blocks comes first in all of them.
proof fn lemma_blocks_prefix(
    ctx: &Context,
    blocks: Seq<BlockPtr>,
    n: int,
    want: spec_fn(OpPtr) -> bool,
)
    requires
        0 <= n <= blocks.len(),
    ensures
        search::first_where(model::ops_of_blocks(ctx, blocks.take(n)), want) is Some
            ==> search::first_where(model::ops_of_blocks(ctx, blocks), want)
            == search::first_where(model::ops_of_blocks(ctx, blocks.take(n)), want),
    decreases blocks.len(),
{
    if n == blocks.len() {
        assert(blocks.take(n) == blocks);
    } else {
        lemma_blocks_prefix(ctx, blocks.drop_last(), n, want);
        assert(blocks.drop_last().take(n) == blocks.take(n));
        search::lemma_first_where_append(
            model::ops_of_blocks(ctx, blocks.drop_last()),
            ctx.block(blocks.last()).ops@,
            want,
        );
    }
}

/// What comes first in some of the regions comes first in all of them.
proof fn lemma_regions_prefix(ctx: &Context, regions: Seq<RegionPtr>, n: int)
    requires
        0 <= n <= regions.len(),
    ensures
        forall|want: spec_fn(OpPtr) -> bool|
            #![trigger search::first_where(model::ops_of_regions(ctx, regions), want)]
            search::first_where(model::ops_of_regions(ctx, regions.take(n)), want) is Some
                ==> search::first_where(model::ops_of_regions(ctx, regions), want)
                == search::first_where(model::ops_of_regions(ctx, regions.take(n)), want),
    decreases regions.len(),
{
    if n == regions.len() {
        assert(regions.take(n) == regions);
    } else {
        lemma_regions_prefix(ctx, regions.drop_last(), n);
        assert(regions.drop_last().take(n) == regions.take(n));
        assert forall|want: spec_fn(OpPtr) -> bool|
            #![trigger search::first_where(model::ops_of_regions(ctx, regions), want)]
            search::first_where(
                model::ops_of_regions(ctx, regions.take(n)),
                want,
            ) is Some implies search::first_where(model::ops_of_regions(ctx, regions), want)
            == search::first_where(model::ops_of_regions(ctx, regions.take(n)), want) by {
            search::lemma_first_where_append(
                model::ops_of_regions(ctx, regions.drop_last()),
                model::ops_of_blocks(ctx, ctx.region(regions.last()).blocks@),
                want,
            );
        }
    }
}

/// Look up an `fsm.machine` by name in the enclosing module or hierarchy.
pub fn find_machine(start_op: OpPtr, ctx: &Context, target_name: &str) -> (r: Option<MachineOp>)
    requires
        ctx.wf(),
        ctx.has_op(start_op),
    ensures
        r is Some <==> model::machine_for(ctx, start_op, target_name@) is Some,
        r matches Some(m) ==> model::machine_for(ctx, start_op, target_name@) == Some(m.op)
            && m.valid(ctx),
{
    let mut cur = ctx.get_parent_op(start_op);
    let ghost mut n: nat = 1;
    let ghost d = model::depth(ctx, start_op);
    proof {
        assert(ctx.rooted(start_op));
        assert(ctx.ancestor(start_op, 0) == Some(start_op));
        assert(ctx.ancestor(start_op, 1) == ctx.parent_op(start_op));
        assert(model::machine_within(ctx, start_op, target_name@, 0) is None);
    }
    loop
        invariant
            ctx.wf(),
            ctx.has_op(start_op),
            n >= 1,
            cur == ctx.ancestor(start_op, n),
            cur matches Some(p) ==> ctx.has_op(p),
            model::machine_within(ctx, start_op, target_name@, (n - 1) as nat) is None,
            ctx.ancestor(start_op, d) is None,
            d == model::depth(ctx, start_op),
        decreases d + 1 - n,
    {
        match cur {
            None => {
                proof {
                    assert(model::machine_within(ctx, start_op, target_name@, n) is None);
                    model::lemma_machine_for(ctx, start_op, target_name@, n);
                }
                return None;
            },
            Some(parent) => {
                proof {
                    if d <= n {
                        model::lemma_machine_within(ctx, start_op, target_name@, d, n);
                    }
                }
                let found = find_machine_inside(ctx, parent, target_name);
                assert(found == model::machine_within(ctx, start_op, target_name@, n));
                if let Some(m) = found {
                    proof {
                        lemma_within_grows(ctx, start_op, target_name@, n, d);
                    }
                    return Some(MachineOp { op: m });
                }
                cur = ctx.get_parent_op(parent);
                proof {
                    n = n + 1;
                }
            },
        }
    }
}

/// What is found near stays found when the search goes further.
proof fn lemma_within_grows(ctx: &Context, start: OpPtr, target: Seq<char>, n: nat, m: nat)
    requires
        n <= m,
        model::machine_within(ctx, start, target, n) is Some,
    ensures
        model::machine_within(ctx, start, target, m) == model::machine_within(ctx, start, target, n),
    decreases m,
{
    if n < m {
        lemma_within_grows(ctx, start, target, n, (m - 1) as nat);
    }
}

/// Finite-state machine definition operation (`fsm.machine`).
///
/// Contains a single region body with states (`fsm.state`) and variables
/// (`fsm.variable`). Inputs to the state machine are bound to the entry block
/// arguments.
#[derive(Clone, Copy, PartialEq, Eq, Structural, Debug, Hash)]
pub struct MachineOp {
    pub op: OpPtr,
}

impl MachineOp {
    /// Whether the handle names a machine of the context.
    pub open spec fn valid(&self, ctx: &Context) -> bool {
        ctx.wf() && ctx.has_op(self.op) && ctx.op(self.op).kind == OpKind::Machine
    }

    /// The operation that the handle names.
    pub fn get_operation(&self) -> (r: OpPtr)
        ensures
            r == self.op,
    {
        self.op
    }

    /// Create a new `fsm.machine` with name, initial state, and input/result types.
    pub fn new(
        ctx: &mut Context,
        name: &str,
        initial_state: &str,
        input_types: Vec<TypeHandle>,
        result_types: Vec<TypeHandle>,
    ) -> (r: Self)
        requires
            old(ctx).wf(),
        ensures
            r.valid(final(ctx)),
            final(ctx).extends(old(ctx)),
            r.op.idx == old(ctx).ops@.len(),
            final(ctx).ops@.len() == old(ctx).ops@.len() + 1,
            final(ctx).regions@.len() == old(ctx).regions@.len() + 1,
            final(ctx).blocks@.len() == old(ctx).blocks@.len() + 1,
            final(ctx).op(r.op).parent is None,
            model::symbol_or_name(final(ctx), r.op) == Some(model::clean(name@)),
            model::initial_state(final(ctx), r.op) == model::clean(initial_state@),
            model::signature(final(ctx), r.op) == Some((input_types@, result_types@)),
            model::body(final(ctx), r.op).idx == old(ctx).blocks@.len(),
            final(ctx).block(model::body(final(ctx), r.op)).args@ == input_types@,
            final(ctx).block(model::body(final(ctx), r.op)).ops@.len() == 0,
            string_at(final(ctx).op(r.op).attributes, AttrKey::InitialState, initial_state@),
            only_keys(
                final(ctx).op(r.op).attributes,
                set![
                    AttrKey::BuiltinSymName,
                    AttrKey::SymName,
                    AttrKey::InitialState,
                    AttrKey::FunctionType,
                ],
            ),
    {
        let args = copy_types(&input_types);
        let fn_ty = ctx.function_type(input_types, result_types);
        let op = ctx.new_machine_operation(args);
        let ghost made = *ctx;
        set_op_symbol_and_name(op, ctx, name);
        ctx.set_attribute(op, AttrKey::InitialState, Attribute::String(initial_state.to_owned()));
        ctx.set_attribute(op, AttrKey::FunctionType, Attribute::Type(fn_ty));
        proof {
            assert(ctx.ops@ =~= made.ops@.update(op.idx as int, ctx.op(op)));
            model::lemma_clean_twice(name@);
        }
        MachineOp { op }
    }

    /// Create an `fsm.machine` using an existing function type.
    pub fn new_with_function_type(
        ctx: &mut Context,
        name: &str,
        initial_state: &str,
        function_type: TypeHandle,
    ) -> (r: Self)
        requires
            old(ctx).wf(),
            old(ctx).type_signature(function_type) is Some,
        ensures
            r.valid(final(ctx)),
            final(ctx).extends(old(ctx)),
            r.op.idx == old(ctx).ops@.len(),
            final(ctx).ops@.len() == old(ctx).ops@.len() + 1,
            final(ctx).op(r.op).parent is None,
            model::symbol_or_name(final(ctx), r.op) == Some(model::clean(name@)),
            model::initial_state(final(ctx), r.op) == model::clean(initial_state@),
            model::signature(final(ctx), r.op) == old(ctx).type_signature(function_type),
            string_at(final(ctx).op(r.op).attributes, AttrKey::InitialState, initial_state@),
            only_keys(
                final(ctx).op(r.op).attributes,
                set![
                    AttrKey::BuiltinSymName,
                    AttrKey::SymName,
                    AttrKey::InitialState,
                    AttrKey::FunctionType,
                ],
            ),
            final(ctx).regions@.len() == old(ctx).regions@.len() + 1,
            final(ctx).blocks@.len() == old(ctx).blocks@.len() + 1,
            final(ctx).block(model::body(final(ctx), r.op)).args@ == model::input_types(
                final(ctx),
                r.op,
            ),
            final(ctx).block(model::body(final(ctx), r.op)).ops@.len() == 0,
    {
        match get_function_signature(ctx, function_type) {
            Some((arg_types, res_types)) => Self::new(ctx, name, initial_state, arg_types, res_types),
            None => Self::new(ctx, name, initial_state, Vec::new(), Vec::new()),
        }
    }

    /// Machine symbol name.
    pub fn machine_name(&self, ctx: &Context) -> (r: String)
        requires
            self.valid(ctx),
        ensures
            r@ == model::machine_name(ctx, self.op),
    {
        name_or(self.op, ctx, "unnamed_machine")
    }

    /// Initial state name.
    pub fn initial_state(&self, ctx: &Context) -> (r: String)
        requires
            self.valid(ctx),
        ensures
            r@ == model::initial_state(ctx, self.op),
    {
        symbol_or_empty(self.op, ctx, AttrKey::InitialState)
    }

    /// The initial state that the machine names, where it names one.
    pub(crate) fn get_initial_state(&self, ctx: &Context) -> (r: Option<String>)
        requires
            self.valid(ctx),
        ensures
            r is Some <==> model::symbol_at(ctx.op(self.op).attributes, AttrKey::InitialState) is Some,
            r matches Some(s) ==> model::symbol_at(ctx.op(self.op).attributes, AttrKey::InitialState)
                == Some(s@),
    {
        symbol_attribute(self.op, ctx, AttrKey::InitialState)
    }

    /// Function signature (inputs, results).
    pub fn get_function_signature(&self, ctx: &Context) -> (r: Option<
        (Vec<TypeHandle>, Vec<TypeHandle>),
    >)
        requires
            self.valid(ctx),
        ensures
            r is Some <==> model::signature(ctx, self.op) is Some,
            r matches Some(sig) ==> model::signature(ctx, self.op) == Some((sig.0@, sig.1@)),
    {
        assert(ctx.op_ok(self.op.idx as int));
        match ctx.ops[self.op.idx].attributes.get(AttrKey::FunctionType) {
            Some(Attribute::Type(ty)) => get_function_signature(ctx, *ty),
            _ => None,
        }
    }

    /// Input types.
    pub fn input_types(&self, ctx: &Context) -> (r: Vec<TypeHandle>)
        requires
            self.valid(ctx),
        ensures
            r@ == model::input_types(ctx, self.op),
    {
        match self.get_function_signature(ctx) {
            Some((inputs, _)) => inputs,
            None => Vec::new(),
        }
    }

    /// Result types.
    pub fn result_types(&self, ctx: &Context) -> (r: Vec<TypeHandle>)
        requires
            self.valid(ctx),
        ensures
            r@ == model::result_types(ctx, self.op),
    {
        match self.get_function_signature(ctx) {
            Some((_, results)) => results,
            None => Vec::new(),
        }
    }

    /// Get entry body basic block.
    pub fn get_body(&self, ctx: &Context) -> (r: BlockPtr)
        requires
            self.valid(ctx),
        ensures
            r == model::body(ctx, self.op),
            ctx.has_block(r),
            ctx.block_owner(r) == Some(self.op),
    {
        assert(ctx.op_ok(self.op.idx as int));
        let r = ctx.ops[self.op.idx].regions[0];
        assert(ctx.has_region(r));
        assert(ctx.region_ok(r.idx as int));
        ctx.regions[r.idx].blocks[0]
    }

    /// Get input SSA value by index.
    pub fn get_input(&self, ctx: &Context, idx: usize) -> (r: Value)
        requires
            self.valid(ctx),
            idx < ctx.block(model::body(ctx, self.op)).args@.len(),
        ensures
            r == (Value::BlockArgument { block: model::body(ctx, self.op), idx }),
            ctx.has_value(r),
    {
        Value::BlockArgument { block: self.get_body(ctx), idx }
    }

    /// Number of inputs.
    pub fn num_inputs(&self, ctx: &Context) -> (r: usize)
        requires
            self.valid(ctx),
        ensures
            r == ctx.block(model::body(ctx, self.op)).args@.len(),
    {
        let b = self.get_body(ctx);
        ctx.blocks[b.idx].args.len()
    }

    /// All states defined in the machine.
    pub fn states(&self, ctx: &Context) -> (r: Vec<StateOp>)
        requires
            self.valid(ctx),
        ensures
            r@.len() == model::states(ctx, self.op).len(),
            forall|i: int|
                0 <= i < r@.len() ==> (#[trigger] r@[i]).op == model::states(ctx, self.op)[i] && r@[i].valid(ctx),
    {
        let ops = ops_of_kind(ctx, self.get_body(ctx), OpKind::State);
        let mut out: Vec<StateOp> = Vec::new();
        let mut i: usize = 0;
        while i < ops.len()
            invariant
                i <= ops@.len(),
                out@.len() == i,
                ctx.wf(),
                forall|j: int| 0 <= j < i ==> (#[trigger] out@[j]).op == ops@[j],
                forall|j: int|
                    0 <= j < ops@.len() ==> ctx.has_op(#[trigger] ops@[j]) && ctx.op(ops@[j]).kind
                        == OpKind::State,
            decreases ops@.len() - i,
        {
            out.push(StateOp { op: ops[i] });
            i += 1;
        }
        out
    }

    /// Find a state by name.
    pub fn get_state(&self, ctx: &Context, name: &str) -> (r: Option<StateOp>)
        requires
            self.valid(ctx),
        ensures
            r is Some <==> model::state_named(ctx, self.op, name@) is Some,
            r matches Some(s) ==> model::state_named(ctx, self.op, name@) == Some(s.op) && s.valid(ctx),
    {
        let target = clean_symbol_ref(name);
        let states = self.states(ctx);
        let ghost ops = model::states(ctx, self.op);
        let ghost want = |s: OpPtr| model::clean(model::state_name(ctx, s)) == model::clean(name@);
        let mut i: usize = 0;
        while i < states.len()
            invariant
                self.valid(ctx),
                target@ == model::clean(name@),
                ops == model::states(ctx, self.op),
                states@.len() == ops.len(),
                forall|j: int|
                    0 <= j < states@.len() ==> (#[trigger] states@[j]).op == ops[j] && states@[j].valid(
                        ctx,
                    ),
                want == (|s: OpPtr|
                    model::clean(model::state_name(ctx, s)) == model::clean(name@)),
                i <= states@.len(),
                search::first_where(ops.take(i as int), want) is None,
            decreases states@.len() - i,
        {
            let state_name = states[i].state_name(ctx);
            proof {
                search::lemma_first_where_step(ops, want, i as int);
            }
            if same_text(clean_symbol_ref(state_name.as_str()), target) {
                return Some(states[i]);
            }
            i += 1;
        }
        assert(ops.take(i as int) == ops);
        None
    }

    /// All variables declared in the machine.
    pub fn variables(&self, ctx: &Context) -> (r: Vec<VariableOp>)
        requires
            self.valid(ctx),
        ensures
            r@.len() == model::variables(ctx, self.op).len(),
            forall|i: int|
                0 <= i < r@.len() ==> (#[trigger] r@[i]).op == model::variables(ctx, self.op)[i] && r@[i].valid(ctx),
    {
        let ops = ops_of_kind(ctx, self.get_body(ctx), OpKind::Variable);
        let mut out: Vec<VariableOp> = Vec::new();
        let mut i: usize = 0;
        while i < ops.len()
            invariant
                i <= ops@.len(),
                out@.len() == i,
                ctx.wf(),
                forall|j: int| 0 <= j < i ==> (#[trigger] out@[j]).op == ops@[j],
                forall|j: int|
                    0 <= j < ops@.len() ==> ctx.has_op(#[trigger] ops@[j]) && ctx.op(ops@[j]).kind
                        == OpKind::Variable,
            decreases ops@.len() - i,
        {
            out.push(VariableOp { op: ops[i] });
            i += 1;
        }
        out
    }

    /// Find a variable by name.
    pub fn get_variable(&self, ctx: &Context, name: &str) -> (r: Option<VariableOp>)
        requires
            self.valid(ctx),
        ensures
            r is Some <==> model::variable_named(ctx, self.op, name@) is Some,
            r matches Some(v) ==> model::variable_named(ctx, self.op, name@) == Some(v.op) && v.valid(
                ctx,
            ),
    {
        let target = clean_symbol_ref(name);
        let variables = self.variables(ctx);
        let ghost ops = model::variables(ctx, self.op);
        let ghost want = |v: OpPtr|
            model::clean(model::variable_name(ctx, v)) == model::clean(name@);
        let mut i: usize = 0;
        while i < variables.len()
            invariant
                self.valid(ctx),
                target@ == model::clean(name@),
                ops == model::variables(ctx, self.op),
                variables@.len() == ops.len(),
                forall|j: int|
                    0 <= j < variables@.len() ==> (#[trigger] variables@[j]).op == ops[j]
                        && variables@[j].valid(ctx),
                want == (|v: OpPtr|
                    model::clean(model::variable_name(ctx, v)) == model::clean(name@)),
                i <= variables@.len(),
                search::first_where(ops.take(i as int), want) is None,
            decreases variables@.len() - i,
        {
            let variable_name = variables[i].variable_name(ctx);
            proof {
                search::lemma_first_where_step(ops, want, i as int);
            }
            if same_text(clean_symbol_ref(variable_name.as_str()), target) {
                return Some(variables[i]);
            }
            i += 1;
        }
        assert(ops.take(i as int) == ops);
        None
    }
}

/// What becomes of a context when the region `r` is made to have a block, which
/// is `b`.
pub open spec fn block_ensured(before: &Context, after: &Context, r: RegionPtr, b: BlockPtr) -> bool {
    &&& after.wf()
    &&& after.entry_block(r) == Some(b)
    &&& match before.entry_block(r) {
        Some(old_block) => b == old_block && after == before,
        None => {
            &&& b.idx == before.blocks@.len()
            &&& after.blocks@.len() == before.blocks@.len() + 1
            &&& before.blocks@.is_prefix_of(after.blocks@)
            &&& after.block(b).args@.len() == 0
            &&& after.block(b).ops@.len() == 0
            &&& after.block(b).parent == Some(r)
            &&& after.region(r).parent == before.region(r).parent
            &&& after.region(r).blocks@ == seq![b]
            &&& after.regions@ == before.regions@.update(r.idx as int, after.region(r))
            &&& after.ops@ == before.ops@
            &&& after.types@ == before.types@
        },
    }
}

/// The first block of a region, which is made where there is none.
fn ensure_block(ctx: &mut Context, r: RegionPtr) -> (b: BlockPtr)
    requires
        old(ctx).wf(),
        old(ctx).has_region(r),
    ensures
        block_ensured(old(ctx), final(ctx), r, b),
        final(ctx).has_block(b),
        final(ctx).block_owner(b) == Some(old(ctx).region(r).parent),
{
    assert(ctx.region_ok(r.idx as int));
    match ctx.get_entry_block(r) {
        Some(b) => {
            assert(ctx.region(r).blocks@[0] == b);
            b
        },
        None => {
            let b = ctx.add_block(r, Vec::new());
            assert(ctx.region(r).blocks@ =~= seq![b]);
            b
        },
    }
}

/// State definition operation (`fsm.state`).
///
/// Contains two regions:
/// - Region 0: `output` region, terminated by `fsm.output`.
/// - Region 1: `transitions` region, containing `fsm.transition` ops.
#[derive(Clone, Copy, PartialEq, Eq, Structural, Debug, Hash)]
pub struct StateOp {
    pub op: OpPtr,
}

impl StateOp {
    /// Whether the handle names a state of the context.
    pub open spec fn valid(&self, ctx: &Context) -> bool {
        ctx.wf() && ctx.has_op(self.op) && ctx.op(self.op).kind == OpKind::State
    }

    /// The operation that the handle names.
    pub fn get_operation(&self) -> (r: OpPtr)
        ensures
            r == self.op,
    {
        self.op
    }

    /// Create a new `fsm.state` with a name.
    pub fn new(ctx: &mut Context, name: &str) -> (r: Self)
        requires
            old(ctx).wf(),
        ensures
            r.valid(final(ctx)),
            final(ctx).extends(old(ctx)),
            r.op.idx == old(ctx).ops@.len(),
            final(ctx).ops@.len() == old(ctx).ops@.len() + 1,
            final(ctx).blocks@ == old(ctx).blocks@,
            final(ctx).types@ == old(ctx).types@,
            final(ctx).op(r.op).parent is None,
            model::symbol_or_name(final(ctx), r.op) == Some(model::clean(name@)),
            model::first_region_ops(final(ctx), r.op).len() == 0,
            model::second_region_ops(final(ctx), r.op).len() == 0,
            only_keys(
                final(ctx).op(r.op).attributes,
                set![AttrKey::BuiltinSymName, AttrKey::SymName],
            ),
            final(ctx).regions@.len() == old(ctx).regions@.len() + 2,
            final(ctx).op(r.op).regions@.len() == 2,
            forall|k: int|
                0 <= k < 2 ==> final(ctx).entry_block(
                    #[trigger] final(ctx).op(r.op).regions@[k],
                ) is None,
    {
        let op = ctx.new_operation(OpKind::State, Vec::new(), Vec::new(), 2);
        let ghost made = *ctx;
        set_op_symbol_and_name(op, ctx, name);
        proof {
            model::lemma_clean_twice(name@);
            assert(made.entry_block(made.op(op).regions@[0]) is None);
            assert(made.entry_block(made.op(op).regions@[1]) is None);
        }
        StateOp { op }
    }

    /// State symbol name.
    pub fn state_name(&self, ctx: &Context) -> (r: String)
        requires
            self.valid(ctx),
        ensures
            r@ == model::state_name(ctx, self.op),
    {
        name_or(self.op, ctx, "unnamed_state")
    }

    /// Output region (Region 0).
    pub fn output_region(&self, ctx: &Context) -> (r: RegionPtr)
        requires
            self.valid(ctx),
        ensures
            r == ctx.op(self.op).regions@[0],
            ctx.has_region(r),
    {
        assert(ctx.op_ok(self.op.idx as int));
        let r = ctx.ops[self.op.idx].regions[0];
        assert(ctx.has_region(ctx.op(self.op).regions@[0]));
        r
    }

    /// Transitions region (Region 1).
    pub fn transitions_region(&self, ctx: &Context) -> (r: RegionPtr)
        requires
            self.valid(ctx),
        ensures
            r == ctx.op(self.op).regions@[1],
            ctx.has_region(r),
    {
        assert(ctx.op_ok(self.op.idx as int));
        let r = ctx.ops[self.op.idx].regions[1];
        assert(ctx.has_region(ctx.op(self.op).regions@[1]));
        r
    }

    /// Ensure that the output region has a basic block and return it.
    pub fn ensure_output_block(&self, ctx: &mut Context) -> (b: BlockPtr)
        requires
            self.valid(old(ctx)),
        ensures
            self.valid(final(ctx)),
            block_ensured(old(ctx), final(ctx), old(ctx).op(self.op).regions@[0], b),
            final(ctx).has_block(b) && final(ctx).block_owner(b) == Some(self.op),
    {
        assert(ctx.op_ok(self.op.idx as int));
        let r = self.output_region(ctx);
        ensure_block(ctx, r)
    }

    /// Ensure that the transitions region has a basic block and return it.
    pub fn ensure_transitions_block(&self, ctx: &mut Context) -> (b: BlockPtr)
        requires
            self.valid(old(ctx)),
        ensures
            self.valid(final(ctx)),
            block_ensured(old(ctx), final(ctx), old(ctx).op(self.op).regions@[1], b),
            final(ctx).has_block(b) && final(ctx).block_owner(b) == Some(self.op),
    {
        assert(ctx.op_ok(self.op.idx as int));
        let r = self.transitions_region(ctx);
        ensure_block(ctx, r)
    }

    /// Get the `fsm.output` operation in the output region if present.
    pub fn output_op(&self, ctx: &Context) -> (r: Option<OutputOp>)
        requires
            self.valid(ctx),
        ensures
            r is Some <==> model::output_op(ctx, self.op) is Some,
            r matches Some(o) ==> model::output_op(ctx, self.op) == Some(o.op) && o.valid(ctx),
    {
        match first_in_region(ctx, self.output_region(ctx), OpKind::Output) {
            Some(op) => Some(OutputOp { op }),
            None => None,
        }
    }

    /// Get all transitions outgoing from this state.
    pub fn transitions(&self, ctx: &Context) -> (r: Vec<TransitionOp>)
        requires
            self.valid(ctx),
        ensures
            r@.len() == model::transitions(ctx, self.op).len(),
            forall|i: int|
                0 <= i < r@.len() ==> (#[trigger] r@[i]).op == model::transitions(ctx, self.op)[i] && r@[i].valid(ctx),
    {
        let ops = ops_in_region(ctx, self.transitions_region(ctx), OpKind::Transition);
        let mut out: Vec<TransitionOp> = Vec::new();
        let mut i: usize = 0;
        while i < ops.len()
            invariant
                i <= ops@.len(),
                out@.len() == i,
                ctx.wf(),
                forall|j: int| 0 <= j < i ==> (#[trigger] out@[j]).op == ops@[j],
                forall|j: int|
                    0 <= j < ops@.len() ==> ctx.has_op(#[trigger] ops@[j]) && ctx.op(ops@[j]).kind
                        == OpKind::Transition,
            decreases ops@.len() - i,
        {
            out.push(TransitionOp { op: ops[i] });
            i += 1;
        }
        out
    }
}

/// The operations of a kind in the entry block of a region, in order.
fn ops_in_region(ctx: &Context, r: RegionPtr, kind: OpKind) -> (v: Vec<OpPtr>)
    requires
        ctx.wf(),
        ctx.has_region(r),
    ensures
        v@ == model::of_kind(ctx, ctx.entry_ops(r), kind),
        forall|i: int| 0 <= i < v@.len() ==> ctx.has_op(#[trigger] v@[i]) && ctx.op(v@[i]).kind == kind,
{
    match ctx.get_entry_block(r) {
        Some(b) => ops_of_kind(ctx, b, kind),
        None => {
            proof {
                reveal(Seq::filter);
            }
            Vec::new()
        },
    }
}

/// A copy of some operands.
fn copy_values(values: &Vec<Value>, n: usize) -> (r: Vec<Value>)
    requires
        n <= values@.len(),
    ensures
        r@ == values@.take(n as int),
{
    let mut out: Vec<Value> = Vec::new();
    let mut i: usize = 0;
    while i < n
        invariant
            i <= n <= values@.len(),
            out@ == values@.take(i as int),
        decreases n - i,
    {
        out.push(values[i]);
        i += 1;
    }
    out
}

/// The results of an operation, in order.
pub open spec fn result_values(ctx: &Context, op: OpPtr) -> Seq<Value> {
    Seq::new(ctx.op(op).results@.len(), |i: int| Value::OpResult { op, idx: i as usize })
}

/// The results of an operation, in order.
fn results_of(ctx: &Context, op: OpPtr) -> (r: Vec<Value>)
    requires
        ctx.has_op(op),
    ensures
        r@ == result_values(ctx, op),
{
    let n: usize = ctx.ops[op.idx].results.len();
    let mut out: Vec<Value> = Vec::new();
    let mut i: usize = 0;
    while i < n
        invariant
            i <= n,
            n == ctx.op(op).results@.len(),
            out@ == result_values(ctx, op).take(i as int),
        decreases n - i,
    {
        out.push(Value::OpResult { op, idx: i });
        i += 1;
    }
    assert(result_values(ctx, op).take(i as int) == result_values(ctx, op));
    out
}

/// State output terminator operation (`fsm.output`).
///
/// Drives the values produced by the finite state machine while in this state.
#[derive(Clone, Copy, PartialEq, Eq, Structural, Debug, Hash)]
pub struct OutputOp {
    pub op: OpPtr,
}

impl OutputOp {
    /// Whether the handle names an output of the context.
    pub open spec fn valid(&self, ctx: &Context) -> bool {
        ctx.wf() && ctx.has_op(self.op) && ctx.op(self.op).kind == OpKind::Output
    }

    /// The operation that the handle names.
    pub fn get_operation(&self) -> (r: OpPtr)
        ensures
            r == self.op,
    {
        self.op
    }

    /// Create a new `fsm.output` with output values.
    pub fn new(ctx: &mut Context, outputs: Vec<Value>) -> (r: Self)
        requires
            old(ctx).wf(),
            forall|i: int| 0 <= i < outputs@.len() ==> old(ctx).has_value(#[trigger] outputs@[i]),
        ensures
            r.valid(final(ctx)),
            final(ctx).extends(old(ctx)),
            r.op.idx == old(ctx).ops@.len(),
            final(ctx).ops@.len() == old(ctx).ops@.len() + 1,
            final(ctx).blocks@ == old(ctx).blocks@,
            final(ctx).regions@ == old(ctx).regions@,
            final(ctx).types@ == old(ctx).types@,
            final(ctx).op(r.op).parent is None,
            final(ctx).op(r.op).operands@ == outputs@,
            only_keys(final(ctx).op(r.op).attributes, set![]),
    {
        let op = ctx.new_operation(OpKind::Output, Vec::new(), outputs, 0);
        assert(ctx.regions@ =~= old(ctx).regions@);
        OutputOp { op }
    }

    /// Driven output values.
    pub fn outputs(&self, ctx: &Context) -> (r: Vec<Value>)
        requires
            self.valid(ctx),
        ensures
            r@ == ctx.op(self.op).operands@,
    {
        let n: usize = ctx.ops[self.op.idx].operands.len();
        copy_values(&ctx.ops[self.op.idx].operands, n)
    }

    /// Number of driven output values.
    pub fn num_outputs(&self, ctx: &Context) -> (r: usize)
        requires
            self.valid(ctx),
        ensures
            r == ctx.op(self.op).operands@.len(),
    {
        ctx.ops[self.op.idx].operands.len()
    }
}

/// State transition definition operation (`fsm.transition`).
///
/// Contains two regions:
/// - Region 0: `guard` region (optional), terminated with `fsm.return`.
/// - Region 1: `action` region (optional), containing `fsm.update` operations.
#[derive(Clone, Copy, PartialEq, Eq, Structural, Debug, Hash)]
pub struct TransitionOp {
    pub op: OpPtr,
}

impl TransitionOp {
    /// Whether the handle names a transition of the context.
    pub open spec fn valid(&self, ctx: &Context) -> bool {
        ctx.wf() && ctx.has_op(self.op) && ctx.op(self.op).kind == OpKind::Transition
    }

    /// The operation that the handle names.
    pub fn get_operation(&self) -> (r: OpPtr)
        ensures
            r == self.op,
    {
        self.op
    }

    /// Create a new `fsm.transition` targeting `next_state`.
    pub fn new(ctx: &mut Context, next_state: &str) -> (r: Self)
        requires
            old(ctx).wf(),
        ensures
            r.valid(final(ctx)),
            final(ctx).extends(old(ctx)),
            r.op.idx == old(ctx).ops@.len(),
            final(ctx).ops@.len() == old(ctx).ops@.len() + 1,
            final(ctx).blocks@ == old(ctx).blocks@,
            final(ctx).types@ == old(ctx).types@,
            final(ctx).op(r.op).parent is None,
            model::next_state(final(ctx), r.op) == model::clean(next_state@),
            string_at(final(ctx).op(r.op).attributes, AttrKey::NextState, next_state@),
            only_keys(final(ctx).op(r.op).attributes, set![AttrKey::NextState]),
            final(ctx).regions@.len() == old(ctx).regions@.len() + 2,
            final(ctx).op(r.op).regions@.len() == 2,
            forall|k: int|
                0 <= k < 2 ==> final(ctx).entry_block(
                    #[trigger] final(ctx).op(r.op).regions@[k],
                ) is None,
    {
        let op = ctx.new_operation(OpKind::Transition, Vec::new(), Vec::new(), 2);
        let ghost made = *ctx;
        ctx.set_attribute(op, AttrKey::NextState, Attribute::String(next_state.to_owned()));
        proof {
            assert(made.entry_block(made.op(op).regions@[0]) is None);
            assert(made.entry_block(made.op(op).regions@[1]) is None);
        }
        TransitionOp { op }
    }

    /// Next state name.
    pub fn next_state(&self, ctx: &Context) -> (r: String)
        requires
            self.valid(ctx),
        ensures
            r@ == model::next_state(ctx, self.op),
    {
        symbol_or_empty(self.op, ctx, AttrKey::NextState)
    }

    /// The target that the transition names, where it names one.
    pub(crate) fn get_next_state_name(&self, ctx: &Context) -> (r: Option<String>)
        requires
            self.valid(ctx),
        ensures
            r is Some <==> model::symbol_at(ctx.op(self.op).attributes, AttrKey::NextState) is Some,
            r matches Some(s) ==> model::symbol_at(ctx.op(self.op).attributes, AttrKey::NextState)
                == Some(s@),
    {
        symbol_attribute(self.op, ctx, AttrKey::NextState)
    }

    /// Guard region (Region 0).
    pub fn guard_region(&self, ctx: &Context) -> (r: RegionPtr)
        requires
            self.valid(ctx),
        ensures
            r == ctx.op(self.op).regions@[0],
            ctx.has_region(r),
    {
        assert(ctx.op_ok(self.op.idx as int));
        let r = ctx.ops[self.op.idx].regions[0];
        assert(ctx.has_region(ctx.op(self.op).regions@[0]));
        r
    }

    /// Action region (Region 1).
    pub fn action_region(&self, ctx: &Context) -> (r: RegionPtr)
        requires
            self.valid(ctx),
        ensures
            r == ctx.op(self.op).regions@[1],
            ctx.has_region(r),
    {
        assert(ctx.op_ok(self.op.idx as int));
        let r = ctx.ops[self.op.idx].regions[1];
        assert(ctx.has_region(ctx.op(self.op).regions@[1]));
        r
    }

    /// Ensure guard region has a basic block and return it.
    pub fn ensure_guard_block(&self, ctx: &mut Context) -> (b: BlockPtr)
        requires
            self.valid(old(ctx)),
        ensures
            self.valid(final(ctx)),
            block_ensured(old(ctx), final(ctx), old(ctx).op(self.op).regions@[0], b),
            final(ctx).has_block(b) && final(ctx).block_owner(b) == Some(self.op),
    {
        assert(ctx.op_ok(self.op.idx as int));
        let r = self.guard_region(ctx);
        ensure_block(ctx, r)
    }

    /// Ensure action region has a basic block and return it.
    pub fn ensure_action_block(&self, ctx: &mut Context) -> (b: BlockPtr)
        requires
            self.valid(old(ctx)),
        ensures
            self.valid(final(ctx)),
            block_ensured(old(ctx), final(ctx), old(ctx).op(self.op).regions@[1], b),
            final(ctx).has_block(b) && final(ctx).block_owner(b) == Some(self.op),
    {
        assert(ctx.op_ok(self.op.idx as int));
        let r = self.action_region(ctx);
        ensure_block(ctx, r)
    }

    /// Whether this transition has a guard.
    pub fn has_guard(&self, ctx: &Context) -> (r: bool)
        requires
            self.valid(ctx),
        ensures
            r == (model::first_region_ops(ctx, self.op).len() > 0),
    {
        match ctx.get_entry_block(self.guard_region(ctx)) {
            Some(b) => ctx.blocks[b.idx].ops.len() > 0,
            None => false,
        }
    }

    /// Whether this transition has an action block with operations.
    pub fn has_action(&self, ctx: &Context) -> (r: bool)
        requires
            self.valid(ctx),
        ensures
            r == (model::second_region_ops(ctx, self.op).len() > 0),
    {
        match ctx.get_entry_block(self.action_region(ctx)) {
            Some(b) => ctx.blocks[b.idx].ops.len() > 0,
            None => false,
        }
    }

    /// Get `fsm.return` op from guard region if present.
    pub fn guard_return_op(&self, ctx: &Context) -> (r: Option<ReturnOp>)
        requires
            self.valid(ctx),
        ensures
            r is Some <==> model::guard_return(ctx, self.op) is Some,
            r matches Some(x) ==> model::guard_return(ctx, self.op) == Some(x.op) && x.valid(ctx),
    {
        match ctx.get_entry_block(self.guard_region(ctx)) {
            Some(b) => {
                assert(ctx.block_ok(b.idx as int));
                let n: usize = ctx.blocks[b.idx].ops.len();
                if n > 0 {
                    let last = ctx.blocks[b.idx].ops[n - 1];
                    assert(ctx.has_op(ctx.block(b).ops@[n - 1]));
                    if ctx.ops[last.idx].kind == OpKind::Return {
                        return Some(ReturnOp { op: last });
                    }
                }
                None
            },
            None => None,
        }
    }

    /// All update operations in the action region.
    pub fn updates(&self, ctx: &Context) -> (r: Vec<UpdateOp>)
        requires
            self.valid(ctx),
        ensures
            r@.len() == model::updates(ctx, self.op).len(),
            forall|i: int|
                0 <= i < r@.len() ==> (#[trigger] r@[i]).op == model::updates(ctx, self.op)[i] && r@[i].valid(ctx),
    {
        let ops = ops_in_region(ctx, self.action_region(ctx), OpKind::Update);
        let mut out: Vec<UpdateOp> = Vec::new();
        let mut i: usize = 0;
        while i < ops.len()
            invariant
                i <= ops@.len(),
                out@.len() == i,
                ctx.wf(),
                forall|j: int| 0 <= j < i ==> (#[trigger] out@[j]).op == ops@[j],
                forall|j: int|
                    0 <= j < ops@.len() ==> ctx.has_op(#[trigger] ops@[j]) && ctx.op(ops@[j]).kind
                        == OpKind::Update,
            decreases ops@.len() - i,
        {
            out.push(UpdateOp { op: ops[i] });
            i += 1;
        }
        out
    }
}

/// Region terminator operation (`fsm.return`).
///
/// Terminates `guard` or `action` regions of an `fsm.transition`.
/// In a guard region, returns an `i1` Boolean condition value.
#[derive(Clone, Copy, PartialEq, Eq, Structural, Debug, Hash)]
pub struct ReturnOp {
    pub op: OpPtr,
}

impl ReturnOp {
    /// Whether the handle names a return of the context.
    pub open spec fn valid(&self, ctx: &Context) -> bool {
        ctx.wf() && ctx.has_op(self.op) && ctx.op(self.op).kind == OpKind::Return
    }

    /// The operation that the handle names.
    pub fn get_operation(&self) -> (r: OpPtr)
        ensures
            r == self.op,
    {
        self.op
    }

    /// Create a new `fsm.return` operation, optionally returning a guard condition value.
    pub fn new(ctx: &mut Context, value: Option<Value>) -> (r: Self)
        requires
            old(ctx).wf(),
            value matches Some(v) ==> old(ctx).has_value(v),
        ensures
            r.valid(final(ctx)),
            final(ctx).extends(old(ctx)),
            r.op.idx == old(ctx).ops@.len(),
            final(ctx).ops@.len() == old(ctx).ops@.len() + 1,
            final(ctx).blocks@ == old(ctx).blocks@,
            final(ctx).regions@ == old(ctx).regions@,
            final(ctx).types@ == old(ctx).types@,
            final(ctx).op(r.op).parent is None,
            final(ctx).op(r.op).operands@ == (match value {
                Some(v) => seq![v],
                None => Seq::empty(),
            }),
            only_keys(final(ctx).op(r.op).attributes, set![]),
    {
        let mut operands: Vec<Value> = Vec::new();
        if let Some(v) = value {
            operands.push(v);
        }
        let op = ctx.new_operation(OpKind::Return, Vec::new(), operands, 0);
        assert(ctx.regions@ =~= old(ctx).regions@);
        ReturnOp { op }
    }

    /// Get returned condition value if present.
    pub fn value(&self, ctx: &Context) -> (r: Option<Value>)
        requires
            self.valid(ctx),
        ensures
            r == (if ctx.op(self.op).operands@.len() > 0 {
                Some(ctx.op(self.op).operands@[0])
            } else {
                None
            }),
    {
        if ctx.ops[self.op.idx].operands.len() > 0 {
            Some(ctx.ops[self.op.idx].operands[0])
        } else {
            None
        }
    }
}

/// State variable declaration operation (`fsm.variable`).
///
/// Declares persistent internal state with an initial value within an `fsm.machine`.
#[derive(Clone, Copy, PartialEq, Eq, Structural, Debug, Hash)]
pub struct VariableOp {
    pub op: OpPtr,
}

impl VariableOp {
    /// Whether the handle names a variable of the context.
    pub open spec fn valid(&self, ctx: &Context) -> bool {
        ctx.wf() && ctx.has_op(self.op) && ctx.op(self.op).kind == OpKind::Variable
    }

    /// The operation that the handle names.
    pub fn get_operation(&self) -> (r: OpPtr)
        ensures
            r == self.op,
    {
        self.op
    }

    /// Create a new `fsm.variable`.
    pub fn new(ctx: &mut Context, name: &str, init_value: Attribute, ty: TypeHandle) -> (r: Self)
        requires
            old(ctx).wf(),
            init_value matches Attribute::Identifier(s) ==> attributes::is_identifier(s@),
        ensures
            r.valid(final(ctx)),
            final(ctx).extends(old(ctx)),
            r.op.idx == old(ctx).ops@.len(),
            final(ctx).ops@.len() == old(ctx).ops@.len() + 1,
            final(ctx).blocks@ == old(ctx).blocks@,
            final(ctx).regions@ == old(ctx).regions@,
            final(ctx).types@ == old(ctx).types@,
            final(ctx).op(r.op).parent is None,
            final(ctx).op(r.op).results@ == seq![ty],
            model::symbol_or_name(final(ctx), r.op) == Some(model::clean(name@)),
            final(ctx).op(r.op).attributes.at(AttrKey::InitValue) == Some(init_value),
            string_at(final(ctx).op(r.op).attributes, AttrKey::Name, name@),
            only_keys(final(ctx).op(r.op).attributes, set![AttrKey::Name, AttrKey::InitValue]),
    {
        let mut results: Vec<TypeHandle> = Vec::new();
        results.push(ty);
        let op = ctx.new_operation(OpKind::Variable, results, Vec::new(), 0);
        ctx.set_attribute(op, AttrKey::Name, Attribute::String(name.to_owned()));
        ctx.set_attribute(op, AttrKey::InitValue, init_value);
        assert(ctx.regions@ =~= old(ctx).regions@);
        VariableOp { op }
    }

    /// Variable name.
    pub fn variable_name(&self, ctx: &Context) -> (r: String)
        requires
            self.valid(ctx),
        ensures
            r@ == model::variable_name(ctx, self.op),
    {
        name_or(self.op, ctx, "")
    }

    /// Stored variable SSA result.
    pub fn result(&self, ctx: &Context) -> (r: Value)
        requires
            self.valid(ctx),
        ensures
            r == (Value::OpResult { op: self.op, idx: 0 }),
            ctx.has_value(r),
    {
        assert(ctx.op_ok(self.op.idx as int));
        Value::OpResult { op: self.op, idx: 0 }
    }
}

/// State variable update operation (`fsm.update`).
///
/// Modifies an `fsm.variable` during a transition in its action region.
#[derive(Clone, Copy, PartialEq, Eq, Structural, Debug, Hash)]
pub struct UpdateOp {
    pub op: OpPtr,
}

impl UpdateOp {
    /// Whether the handle names an update of the context.
    pub open spec fn valid(&self, ctx: &Context) -> bool {
        ctx.wf() && ctx.has_op(self.op) && ctx.op(self.op).kind == OpKind::Update
    }

    /// The operation that the handle names.
    pub fn get_operation(&self) -> (r: OpPtr)
        ensures
            r == self.op,
    {
        self.op
    }

    /// Create a new `fsm.update`.
    pub fn new(ctx: &mut Context, variable: Value, value: Value) -> (r: Self)
        requires
            old(ctx).wf(),
            old(ctx).has_value(variable),
            old(ctx).has_value(value),
        ensures
            r.valid(final(ctx)),
            final(ctx).extends(old(ctx)),
            r.op.idx == old(ctx).ops@.len(),
            final(ctx).ops@.len() == old(ctx).ops@.len() + 1,
            final(ctx).blocks@ == old(ctx).blocks@,
            final(ctx).regions@ == old(ctx).regions@,
            final(ctx).types@ == old(ctx).types@,
            final(ctx).op(r.op).parent is None,
            final(ctx).op(r.op).operands@ == seq![variable, value],
            only_keys(final(ctx).op(r.op).attributes, set![]),
    {
        let mut operands: Vec<Value> = Vec::new();
        operands.push(variable);
        operands.push(value);
        let op = ctx.new_operation(OpKind::Update, Vec::new(), operands, 0);
        assert(ctx.regions@ =~= old(ctx).regions@);
        UpdateOp { op }
    }

    /// Variable being updated.
    pub fn variable(&self, ctx: &Context) -> (r: Value)
        requires
            self.valid(ctx),
        ensures
            r == ctx.op(self.op).operands@[0],
            ctx.has_value(r),
    {
        assert(ctx.op_ok(self.op.idx as int));
        let v = ctx.ops[self.op.idx].operands[0];
        assert(ctx.has_value(ctx.op(self.op).operands@[0]));
        v
    }

    /// Next value assigned to variable.
    pub fn value(&self, ctx: &Context) -> (r: Value)
        requires
            self.valid(ctx),
        ensures
            r == ctx.op(self.op).operands@[1],
            ctx.has_value(r),
    {
        assert(ctx.op_ok(self.op.idx as int));
        let v = ctx.ops[self.op.idx].operands[1];
        assert(ctx.has_value(ctx.op(self.op).operands@[1]));
        v
    }
}

/// Software/generic finite-state machine instance (`fsm.instance`).
///
/// Produces an instance handle (`!fsm.instance`) that can be advanced via `fsm.trigger`.
#[derive(Clone, Copy, PartialEq, Eq, Structural, Debug, Hash)]
pub struct InstanceOp {
    pub op: OpPtr,
}

impl InstanceOp {
    /// Whether the handle names an instance of the context.
    pub open spec fn valid(&self, ctx: &Context) -> bool {
        ctx.wf() && ctx.has_op(self.op) && ctx.op(self.op).kind == OpKind::Instance
    }

    /// The operation that the handle names.
    pub fn get_operation(&self) -> (r: OpPtr)
        ensures
            r == self.op,
    {
        self.op
    }

    /// Create a new `fsm.instance`.
    pub fn new(ctx: &mut Context, name: &str, machine: &str, res_ty: TypeHandle) -> (r: Self)
        requires
            old(ctx).wf(),
        ensures
            r.valid(final(ctx)),
            final(ctx).extends(old(ctx)),
            r.op.idx == old(ctx).ops@.len(),
            final(ctx).ops@.len() == old(ctx).ops@.len() + 1,
            final(ctx).blocks@ == old(ctx).blocks@,
            final(ctx).regions@ == old(ctx).regions@,
            final(ctx).types@ == old(ctx).types@,
            final(ctx).op(r.op).parent is None,
            final(ctx).op(r.op).results@ == seq![res_ty],
            model::symbol_or_name(final(ctx), r.op) == Some(model::clean(name@)),
            model::machine_ref(final(ctx), r.op) == model::clean(machine@),
            string_at(final(ctx).op(r.op).attributes, AttrKey::Machine, machine@),
            only_keys(
                final(ctx).op(r.op).attributes,
                set![AttrKey::BuiltinSymName, AttrKey::SymName, AttrKey::Machine],
            ),
    {
        let mut results: Vec<TypeHandle> = Vec::new();
        results.push(res_ty);
        let op = ctx.new_operation(OpKind::Instance, results, Vec::new(), 0);
        set_op_symbol_and_name(op, ctx, name);
        ctx.set_attribute(op, AttrKey::Machine, Attribute::String(machine.to_owned()));
        proof {
            model::lemma_clean_twice(name@);
            assert(ctx.regions@ =~= old(ctx).regions@);
        }
        InstanceOp { op }
    }

    /// Instance name.
    pub fn instance_name(&self, ctx: &Context) -> (r: String)
        requires
            self.valid(ctx),
        ensures
            r@ == model::instance_name(ctx, self.op),
    {
        name_or(self.op, ctx, "")
    }

    /// Referenced machine name.
    pub fn machine(&self, ctx: &Context) -> (r: String)
        requires
            self.valid(ctx),
        ensures
            r@ == model::machine_ref(ctx, self.op),
    {
        symbol_or_empty(self.op, ctx, AttrKey::Machine)
    }

    /// The machine that the instance names, where it names one.
    pub(crate) fn get_machine_name(&self, ctx: &Context) -> (r: Option<String>)
        requires
            self.valid(ctx),
        ensures
            r is Some <==> model::symbol_at(ctx.op(self.op).attributes, AttrKey::Machine) is Some,
            r matches Some(s) ==> model::symbol_at(ctx.op(self.op).attributes, AttrKey::Machine)
                == Some(s@),
    {
        symbol_attribute(self.op, ctx, AttrKey::Machine)
    }

    /// Stored instance handle value.
    pub fn result(&self, ctx: &Context) -> (r: Value)
        requires
            self.valid(ctx),
        ensures
            r == (Value::OpResult { op: self.op, idx: 0 }),
            ctx.has_value(r),
    {
        assert(ctx.op_ok(self.op.idx as int));
        Value::OpResult { op: self.op, idx: 0 }
    }
}

/// State machine trigger operation (`fsm.trigger`).
///
/// Advances an `fsm.instance` given a list of input arguments, producing output results.
/// Operands are `(inputs..., instance)` where the last operand is the instance handle.
#[derive(Clone, Copy, PartialEq, Eq, Structural, Debug, Hash)]
pub struct TriggerOp {
    pub op: OpPtr,
}

impl TriggerOp {
    /// Whether the handle names a trigger of the context.
    pub open spec fn valid(&self, ctx: &Context) -> bool {
        ctx.wf() && ctx.has_op(self.op) && ctx.op(self.op).kind == OpKind::Trigger
    }

    /// The operation that the handle names.
    pub fn get_operation(&self) -> (r: OpPtr)
        ensures
            r == self.op,
    {
        self.op
    }

    /// Create a new `fsm.trigger` operation.
    pub fn new(
        ctx: &mut Context,
        instance: Value,
        inputs: Vec<Value>,
        output_types: Vec<TypeHandle>,
    ) -> (r: Self)
        requires
            old(ctx).wf(),
            old(ctx).has_value(instance),
            forall|i: int| 0 <= i < inputs@.len() ==> old(ctx).has_value(#[trigger] inputs@[i]),
        ensures
            r.valid(final(ctx)),
            final(ctx).extends(old(ctx)),
            r.op.idx == old(ctx).ops@.len(),
            final(ctx).ops@.len() == old(ctx).ops@.len() + 1,
            final(ctx).blocks@ == old(ctx).blocks@,
            final(ctx).regions@ == old(ctx).regions@,
            final(ctx).types@ == old(ctx).types@,
            final(ctx).op(r.op).parent is None,
            final(ctx).op(r.op).operands@ == inputs@.push(instance),
            final(ctx).op(r.op).results@ == output_types@,
            only_keys(final(ctx).op(r.op).attributes, set![]),
    {
        let mut operands = inputs;
        operands.push(instance);
        let op = ctx.new_operation(OpKind::Trigger, output_types, operands, 0);
        assert(ctx.regions@ =~= old(ctx).regions@);
        TriggerOp { op }
    }

    /// Instance handle operand.
    pub fn instance(&self, ctx: &Context) -> (r: Value)
        requires
            self.valid(ctx),
            ctx.op(self.op).operands@.len() >= 1,
        ensures
            r == ctx.op(self.op).operands@.last(),
    {
        let n: usize = ctx.ops[self.op.idx].operands.len();
        ctx.ops[self.op.idx].operands[n - 1]
    }

    /// Inputs driven to state machine.
    pub fn inputs(&self, ctx: &Context) -> (r: Vec<Value>)
        requires
            self.valid(ctx),
            ctx.op(self.op).operands@.len() >= 1,
        ensures
            r@ == ctx.op(self.op).operands@.drop_last(),
    {
        let n: usize = ctx.ops[self.op.idx].operands.len();
        copy_values(&ctx.ops[self.op.idx].operands, n - 1)
    }

    /// Outputs produced by trigger step.
    pub fn outputs(&self, ctx: &Context) -> (r: Vec<Value>)
        requires
            self.valid(ctx),
        ensures
            r@ == result_values(ctx, self.op),
    {
        results_of(ctx, self.op)
    }
}

/// Hardware-style finite-state machine instance (`fsm.hw_instance`).
///
/// Instantiates an `fsm.machine` in an RTL context connected to a clock and reset.
/// Operands are `(inputs..., clock, reset)`.
#[derive(Clone, Copy, PartialEq, Eq, Structural, Debug, Hash)]
pub struct HWInstanceOp {
    pub op: OpPtr,
}

impl HWInstanceOp {
    /// Whether the handle names a hardware instance of the context.
    pub open spec fn valid(&self, ctx: &Context) -> bool {
        ctx.wf() && ctx.has_op(self.op) && ctx.op(self.op).kind == OpKind::HwInstance
    }

    /// The operation that the handle names.
    pub fn get_operation(&self) -> (r: OpPtr)
        ensures
            r == self.op,
    {
        self.op
    }

    /// Create a new `fsm.hw_instance`.
    pub fn new(
        ctx: &mut Context,
        name: &str,
        machine: &str,
        inputs: Vec<Value>,
        clock: Value,
        reset: Value,
        output_types: Vec<TypeHandle>,
    ) -> (r: Self)
        requires
            old(ctx).wf(),
            old(ctx).has_value(clock),
            old(ctx).has_value(reset),
            forall|i: int| 0 <= i < inputs@.len() ==> old(ctx).has_value(#[trigger] inputs@[i]),
        ensures
            r.valid(final(ctx)),
            final(ctx).extends(old(ctx)),
            r.op.idx == old(ctx).ops@.len(),
            final(ctx).ops@.len() == old(ctx).ops@.len() + 1,
            final(ctx).blocks@ == old(ctx).blocks@,
            final(ctx).regions@ == old(ctx).regions@,
            final(ctx).types@ == old(ctx).types@,
            final(ctx).op(r.op).parent is None,
            final(ctx).op(r.op).operands@ == inputs@.push(clock).push(reset),
            final(ctx).op(r.op).results@ == output_types@,
            model::symbol_or_name(final(ctx), r.op) == Some(model::clean(name@)),
            model::machine_ref(final(ctx), r.op) == model::clean(machine@),
            string_at(final(ctx).op(r.op).attributes, AttrKey::Machine, machine@),
            only_keys(
                final(ctx).op(r.op).attributes,
                set![AttrKey::BuiltinSymName, AttrKey::SymName, AttrKey::Machine],
            ),
    {
        let mut operands = inputs;
        operands.push(clock);
        operands.push(reset);
        let op = ctx.new_operation(OpKind::HwInstance, output_types, operands, 0);
        set_op_symbol_and_name(op, ctx, name);
        ctx.set_attribute(op, AttrKey::Machine, Attribute::String(machine.to_owned()));
        proof {
            model::lemma_clean_twice(name@);
            assert(ctx.regions@ =~= old(ctx).regions@);
        }
        HWInstanceOp { op }
    }

    /// Instance symbol/name.
    pub fn instance_name(&self, ctx: &Context) -> (r: String)
        requires
            self.valid(ctx),
        ensures
            r@ == model::hw_instance_name(ctx, self.op),
    {
        name_or(self.op, ctx, "unnamed_hw_inst")
    }

    /// Referenced machine name.
    pub fn machine(&self, ctx: &Context) -> (r: String)
        requires
            self.valid(ctx),
        ensures
            r@ == model::machine_ref(ctx, self.op),
    {
        symbol_or_empty(self.op, ctx, AttrKey::Machine)
    }

    /// The machine that the instance names, where it names one.
    pub(crate) fn get_machine_name(&self, ctx: &Context) -> (r: Option<String>)
        requires
            self.valid(ctx),
        ensures
            r is Some <==> model::symbol_at(ctx.op(self.op).attributes, AttrKey::Machine) is Some,
            r matches Some(s) ==> model::symbol_at(ctx.op(self.op).attributes, AttrKey::Machine)
                == Some(s@),
    {
        symbol_attribute(self.op, ctx, AttrKey::Machine)
    }

    /// Inputs driven to hardware instance.
    pub fn inputs(&self, ctx: &Context) -> (r: Vec<Value>)
        requires
            self.valid(ctx),
        ensures
            r@ == (if ctx.op(self.op).operands@.len() >= 2 {
                ctx.op(self.op).operands@.take(ctx.op(self.op).operands@.len() - 2)
            } else {
                Seq::empty()
            }),
    {
        let n: usize = ctx.ops[self.op.idx].operands.len();
        if n >= 2 {
            copy_values(&ctx.ops[self.op.idx].operands, n - 2)
        } else {
            Vec::new()
        }
    }

    /// Clock operand.
    pub fn clock(&self, ctx: &Context) -> (r: Value)
        requires
            self.valid(ctx),
            ctx.op(self.op).operands@.len() >= 2,
        ensures
            r == ctx.op(self.op).operands@[ctx.op(self.op).operands@.len() - 2],
    {
        let n: usize = ctx.ops[self.op.idx].operands.len();
        ctx.ops[self.op.idx].operands[n - 2]
    }

    /// Reset operand.
    pub fn reset(&self, ctx: &Context) -> (r: Value)
        requires
            self.valid(ctx),
            ctx.op(self.op).operands@.len() >= 1,
        ensures
            r == ctx.op(self.op).operands@.last(),
    {
        let n: usize = ctx.ops[self.op.idx].operands.len();
        ctx.ops[self.op.idx].operands[n - 1]
    }

    /// Outputs produced by hardware instance.
    pub fn outputs(&self, ctx: &Context) -> (r: Vec<Value>)
        requires
            self.valid(ctx),
        ensures
            r@ == result_values(ctx, self.op),
    {
        results_of(ctx, self.op)
    }
}

} // verus!
