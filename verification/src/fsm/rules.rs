//! What the checks of the dialect accept, said of the operations themselves:
//! their attributes, operands, results and places.

use crate::fsm::canonicalization;
use crate::fsm::lowering;
use crate::fsm::lowering::{FsmLoweringPlan, StateEncoding};
use crate::fsm::model;
use crate::fsm::ops;
use crate::fsm::search;
use crate::fsm::types;
use crate::ir::attributes::{AttrKey, Attribute};
use crate::ir::context::{BlockPtr, Context, OpKind, OpPtr, RegionPtr, Value};
use crate::ir::types::{Signedness, TypeHandle};
use crate::text;
use vstd::arithmetic::power2::pow2;
use vstd::prelude::*;

verus! {

/// Whether `s` is `name` behind some `@` signs, and `name` begins with none.
pub open spec fn sigil_before(s: Seq<char>, name: Seq<char>) -> bool {
    let k = s.len() - name.len();
    &&& k >= 0
    &&& forall|i: int| 0 <= i < k ==> #[trigger] s[i] == '@'
    &&& forall|i: int| 0 <= i < name.len() ==> #[trigger] name[i] == s[k + i]
    &&& name.len() > 0 ==> name[0] != '@'
}

/// A cleaned name is all that stands behind the `@` signs that a name begins
/// with.
pub proof fn cleaning_takes_the_sigils(s: Seq<char>, name: Seq<char>)
    ensures
        model::clean(s) == name <==> sigil_before(s, name),
{
    let at = seq!['@'];
    text::lemma_prefix_in(s, at);
    let n = text::prefix_in(s, at);
    assert(at.contains('@')) by {
        assert(at[0] == '@');
    }
    assert forall|i: int| 0 <= i < n implies #[trigger] s[i] == '@' by {
        assert(at.contains(s[i]));
    }
    if model::clean(s) == name {
        assert(s.len() - name.len() == n);
        if name.len() > 0 {
            assert(name[0] == s[n as int]);
        }
    }
    if sigil_before(s, name) {
        let k = s.len() - name.len();
        assert forall|i: int| 0 <= i < k implies at.contains(#[trigger] s[i]) by {
            assert(s[i] == '@');
        }
        if k < s.len() {
            assert(name[0] == s[k + 0]);
        }
        text::lemma_prefix_in_unique(s, at, k as nat);
        assert(model::clean(s) =~= name);
    }
}

/// Whether the text stored under `key` is `name`, behind `@` signs or not.
pub open spec fn says(ctx: &Context, p: OpPtr, key: AttrKey, name: Seq<char>) -> bool {
    match ctx.op(p).attributes.at(key) {
        Some(Attribute::String(s)) => sigil_before(s@, name),
        Some(Attribute::Identifier(s)) => sigil_before(s@, name),
        _ => false,
    }
}

/// Whether no text is stored under `key`.
pub open spec fn says_nothing(ctx: &Context, p: OpPtr, key: AttrKey) -> bool {
    match ctx.op(p).attributes.at(key) {
        Some(Attribute::String(_)) => false,
        Some(Attribute::Identifier(_)) => false,
        _ => true,
    }
}

/// What is read under a key is the stored text without its sigils.
pub proof fn stored_names_are_read(ctx: &Context, p: OpPtr, key: AttrKey, name: Seq<char>)
    ensures
        model::symbol_at(ctx.op(p).attributes, key) == Some(name) <==> says(ctx, p, key, name),
        model::symbol_at(ctx.op(p).attributes, key) is None <==> says_nothing(ctx, p, key),
{
    match ctx.op(p).attributes.at(key) {
        Some(Attribute::String(s)) => {
            cleaning_takes_the_sigils(s@, name);
        },
        Some(Attribute::Identifier(s)) => {
            cleaning_takes_the_sigils(s@, name);
        },
        _ => {},
    }
}

/// An operation goes by the identifier under `builtin.sym_name`; without one,
/// by its `sym_name`; without that, by its `name`.
pub proof fn names_are_looked_up_in_order(ctx: &Context, p: OpPtr, name: Seq<char>)
    ensures
        ({
            let own = model::symbol_or_name(ctx, p);
            match ctx.op(p).attributes.at(AttrKey::BuiltinSymName) {
                Some(Attribute::Identifier(s)) => own == Some(s@),
                _ => {
                    &&& says(ctx, p, AttrKey::SymName, name) ==> own == Some(name)
                    &&& says_nothing(ctx, p, AttrKey::SymName) ==> (own == Some(name) <==> says(
                        ctx,
                        p,
                        AttrKey::Name,
                        name,
                    ))
                    &&& own is None <==> says_nothing(ctx, p, AttrKey::SymName) && says_nothing(
                        ctx,
                        p,
                        AttrKey::Name,
                    )
                },
            }
        }),
{
    stored_names_are_read(ctx, p, AttrKey::SymName, name);
    stored_names_are_read(ctx, p, AttrKey::Name, name);
}

/// A name that is there is the one an operation goes by; without one, each kind
/// of operation has its own stand-in.
pub proof fn missing_names_have_stand_ins(ctx: &Context, p: OpPtr, name: Seq<char>)
    ensures
        model::symbol_or_name(ctx, p) == Some(name) ==> {
            &&& model::machine_name(ctx, p) == name
            &&& model::state_name(ctx, p) == name
            &&& model::variable_name(ctx, p) == name
            &&& model::instance_name(ctx, p) == name
            &&& model::hw_instance_name(ctx, p) == name
        },
        model::symbol_or_name(ctx, p) is None ==> {
            &&& model::machine_name(ctx, p) == "unnamed_machine"@
            &&& model::state_name(ctx, p) == "unnamed_state"@
            &&& model::variable_name(ctx, p).len() == 0
            &&& model::instance_name(ctx, p).len() == 0
            &&& model::hw_instance_name(ctx, p) == "unnamed_hw_inst"@
        },
{
    reveal_strlit("");
}

/// The initial state of a machine, the next state of a transition and the
/// machine of an instance are the names stored for them; without one they are
/// empty.
pub proof fn references_are_stored_names(ctx: &Context, p: OpPtr, name: Seq<char>)
    ensures
        says(ctx, p, AttrKey::InitialState, name) ==> model::initial_state(ctx, p) == name,
        says(ctx, p, AttrKey::NextState, name) ==> model::next_state(ctx, p) == name,
        says(ctx, p, AttrKey::Machine, name) ==> model::machine_ref(ctx, p) == name,
        says_nothing(ctx, p, AttrKey::InitialState) ==> model::initial_state(ctx, p).len() == 0,
        says_nothing(ctx, p, AttrKey::NextState) ==> model::next_state(ctx, p).len() == 0,
        says_nothing(ctx, p, AttrKey::Machine) ==> model::machine_ref(ctx, p).len() == 0,
{
    reveal_strlit("");
    stored_names_are_read(ctx, p, AttrKey::InitialState, name);
    stored_names_are_read(ctx, p, AttrKey::NextState, name);
    stored_names_are_read(ctx, p, AttrKey::Machine, name);
}

/// Whether `part` lists, in the order of `ops`, exactly those of them that are
/// of a kind.
pub open spec fn lists_the_kind(
    ctx: &Context,
    ops: Seq<OpPtr>,
    kind: OpKind,
    part: Seq<OpPtr>,
) -> bool {
    &&& forall|i: int|
        0 <= i < ops.len() && ctx.op(#[trigger] ops[i]).kind == kind ==> part.contains(ops[i])
    &&& forall|a: int|
        0 <= a < part.len() ==> ctx.op(#[trigger] part[a]).kind == kind && ops.contains(part[a])
    &&& forall|a: int, b: int|
        0 <= a < b < part.len() ==> before(ops, #[trigger] part[a], #[trigger] part[b])
}

/// Whether `p` stands before `q` in `ops`.
pub open spec fn before(ops: Seq<OpPtr>, p: OpPtr, q: OpPtr) -> bool {
    exists|i: int, j: int|
        0 <= i < j < ops.len() && #[trigger] ops[i] == p && #[trigger] ops[j] == q
}

/// Filtering by kind keeps every operation of the kind, in order, and no other.
proof fn lemma_of_kind(ctx: &Context, ops: Seq<OpPtr>, kind: OpKind)
    ensures
        lists_the_kind(ctx, ops, kind, model::of_kind(ctx, ops, kind)),
    decreases ops.len(),
{
    reveal(Seq::filter);
    let part = model::of_kind(ctx, ops, kind);
    if ops.len() > 0 {
        let init = ops.drop_last();
        let last = ops.last();
        let some = model::of_kind(ctx, init, kind);
        lemma_of_kind(ctx, init, kind);
        assert(part == if ctx.op(last).kind == kind { some.push(last) } else { some });
        assert forall|i: int|
            0 <= i < ops.len() && ctx.op(#[trigger] ops[i]).kind == kind implies part.contains(
            ops[i],
        ) by {
            if i < init.len() {
                assert(init[i] == ops[i]);
                let a = choose|a: int| 0 <= a < some.len() && some[a] == ops[i];
                assert(part[a] == ops[i]);
            } else {
                assert(part[some.len() as int] == last);
            }
        }
        assert forall|a: int| 0 <= a < part.len() implies ctx.op(#[trigger] part[a]).kind == kind
            && ops.contains(part[a]) by {
            if a < some.len() {
                assert(part[a] == some[a]);
                let i = choose|i: int| 0 <= i < init.len() && init[i] == some[a];
                assert(ops[i] == part[a]);
            } else {
                assert(ops[ops.len() - 1] == part[a]);
            }
        }
        assert forall|a: int, b: int| 0 <= a < b < part.len() implies before(
            ops,
            #[trigger] part[a],
            #[trigger] part[b],
        ) by {
            assert(part[a] == some[a]);
            if b < some.len() {
                assert(part[b] == some[b]);
                assert(before(init, some[a], some[b]));
                let (i, j) = choose|i: int, j: int|
                    0 <= i < j < init.len() && #[trigger] init[i] == some[a] && #[trigger] init[j]
                        == some[b];
                assert(ops[i] == part[a] && ops[j] == part[b]);
            } else {
                let i = choose|i: int| 0 <= i < init.len() && init[i] == some[a];
                assert(ops[i] == part[a] && ops[ops.len() - 1] == part[b]);
            }
        }
    }
}

/// The states and the variables of a machine, the transitions of a state and
/// the updates of a transition are all there are of them, in order: in the
/// first block of the machine, in the second region of the state, and in the
/// second region of the transition.
pub proof fn members_are_listed_in_order(ctx: &Context, p: OpPtr)
    ensures
        ({
            let first = ctx.block(ctx.region(ctx.op(p).regions@[0]).blocks@[0]).ops@;
            let second = ctx.entry_ops(ctx.op(p).regions@[1]);
            &&& lists_the_kind(ctx, first, OpKind::State, model::states(ctx, p))
            &&& lists_the_kind(ctx, first, OpKind::Variable, model::variables(ctx, p))
            &&& lists_the_kind(ctx, second, OpKind::Transition, model::transitions(ctx, p))
            &&& lists_the_kind(ctx, second, OpKind::Update, model::updates(ctx, p))
        }),
{
    let first = ctx.block(ctx.region(ctx.op(p).regions@[0]).blocks@[0]).ops@;
    let second = ctx.entry_ops(ctx.op(p).regions@[1]);
    lemma_of_kind(ctx, first, OpKind::State);
    lemma_of_kind(ctx, first, OpKind::Variable);
    lemma_of_kind(ctx, second, OpKind::Transition);
    lemma_of_kind(ctx, second, OpKind::Update);
}

/// The names of the states are the names of the listed states, one by one.
pub proof fn state_names_go_with_the_states(ctx: &Context, m: OpPtr)
    ensures
        model::state_names(ctx, m).len() == model::states(ctx, m).len(),
        forall|i: int|
            0 <= i < model::states(ctx, m).len() ==> #[trigger] model::state_names(ctx, m)[i]
                == model::state_name(ctx, model::states(ctx, m)[i]),
{
}

/// Whether `p` is the first of `ops` that is of a kind and goes by a name.
pub open spec fn first_named(
    ctx: &Context,
    ops: Seq<OpPtr>,
    names: spec_fn(OpPtr) -> Seq<char>,
    name: Seq<char>,
    p: OpPtr,
) -> bool {
    exists|i: int|
        0 <= i < ops.len() && #[trigger] ops[i] == p && model::clean(names(p)) == model::clean(name)
            && forall|j: int|
            0 <= j < i ==> model::clean(names(#[trigger] ops[j])) != model::clean(name)
}

/// A state or a variable that is looked up by name is the first one in the
/// machine that goes by it, and nothing is found only where none does.
pub proof fn lookups_find_the_first(ctx: &Context, m: OpPtr, name: Seq<char>)
    ensures
        match model::state_named(ctx, m, name) {
            Some(s) => first_named(
                ctx,
                model::states(ctx, m),
                |p: OpPtr| model::state_name(ctx, p),
                name,
                s,
            ),
            None => forall|s: OpPtr| #[trigger]
                model::states(ctx, m).contains(s) ==> model::clean(model::state_name(ctx, s))
                    != model::clean(name),
        },
        match model::variable_named(ctx, m, name) {
            Some(v) => first_named(
                ctx,
                model::variables(ctx, m),
                |p: OpPtr| model::variable_name(ctx, p),
                name,
                v,
            ),
            None => forall|v: OpPtr| #[trigger]
                model::variables(ctx, m).contains(v) ==> model::clean(model::variable_name(ctx, v))
                    != model::clean(name),
        },
{
    search::lemma_first_where(
        model::states(ctx, m),
        |s: OpPtr| model::clean(model::state_name(ctx, s)) == model::clean(name),
    );
    search::lemma_first_where(
        model::variables(ctx, m),
        |v: OpPtr| model::clean(model::variable_name(ctx, v)) == model::clean(name),
    );
}

/// Whether an operation of a kind is among `ops`.
pub open spec fn has_kind(ctx: &Context, ops: Seq<OpPtr>, kind: OpKind) -> bool {
    exists|i: int| 0 <= i < ops.len() && ctx.op(#[trigger] ops[i]).kind == kind
}

/// The operations in the first block of the region at place `k`.
pub open spec fn region_ops(ctx: &Context, p: OpPtr, k: int) -> Seq<OpPtr> {
    let blocks = ctx.region(ctx.op(p).regions@[k]).blocks@;
    if blocks.len() > 0 {
        ctx.block(blocks[0]).ops@
    } else {
        Seq::empty()
    }
}

/// The output of a state is the first one in its first region, and the guard of
/// a transition ends in a return exactly where the last operation of its first
/// region is one.
pub proof fn outputs_and_guards_are_in_the_first_region(ctx: &Context, p: OpPtr)
    ensures
        ({
            let ops = region_ops(ctx, p, 0);
            &&& match model::output_op(ctx, p) {
                Some(o) => exists|i: int|
                    0 <= i < ops.len() && #[trigger] ops[i] == o && ctx.op(o).kind == OpKind::Output
                        && !has_kind(ctx, ops.take(i), OpKind::Output),
                None => !has_kind(ctx, ops, OpKind::Output),
            }
            &&& match model::guard_return(ctx, p) {
                Some(r) => ops.len() > 0 && ops[ops.len() - 1] == r && ctx.op(r).kind
                    == OpKind::Return,
                None => ops.len() == 0 || ctx.op(ops[ops.len() - 1]).kind != OpKind::Return,
            }
        }),
{
    let ops = region_ops(ctx, p, 0);
    assert(ops == model::first_region_ops(ctx, p));
    search::lemma_first_where(ops, |q: OpPtr| model::is_kind(ctx, q, OpKind::Output));
    if model::output_op(ctx, p) is Some {
        let o = model::output_op(ctx, p)->0;
        let i = choose|i: int|
            0 <= i < ops.len() && #[trigger] ops[i] == o && forall|j: int|
                0 <= j < i ==> !model::is_kind(ctx, #[trigger] ops[j], OpKind::Output);
        if has_kind(ctx, ops.take(i), OpKind::Output) {
            let j = choose|j: int|
                0 <= j < i && ctx.op(#[trigger] ops.take(i)[j]).kind == OpKind::Output;
            assert(model::is_kind(ctx, ops[j], OpKind::Output));
        }
    }
}

/// The types of the inputs and of the results of a machine are those of the
/// function type that it carries.
pub proof fn machines_have_the_types_of_their_function_type(
    ctx: &Context,
    m: OpPtr,
    ty: TypeHandle,
    inputs: Seq<TypeHandle>,
    results: Seq<TypeHandle>,
)
    requires
        ctx.op(m).attributes.at(AttrKey::FunctionType) == Some(Attribute::Type(ty)),
        ctx.type_signature(ty) == Some((inputs, results)),
    ensures
        model::signature(ctx, m) == Some((inputs, results)),
        model::input_types(ctx, m) == inputs,
        model::result_types(ctx, m) == results,
{
}

/// Whether a machine among the members of `p` goes by `target`.
pub open spec fn holds_machine(ctx: &Context, p: OpPtr, m: OpPtr, target: Seq<char>) -> bool {
    &&& exists|r: int, b: int|
        0 <= r < ctx.op(p).regions@.len() && 0 <= b < ctx.region(
            ctx.op(p).regions@[r],
        ).blocks@.len() && (#[trigger] ctx.block(
            ctx.region(ctx.op(p).regions@[r]).blocks@[b],
        )).ops@.contains(m)
    &&& ctx.op(m).kind == OpKind::Machine
    &&& model::clean(model::machine_name(ctx, m)) == model::clean(target)
}

/// The operations of some blocks are those of each of them.
proof fn lemma_ops_of_blocks(
    ctx: &Context,
    blocks: Seq<BlockPtr>,
    q: OpPtr,
)
    ensures
        model::ops_of_blocks(ctx, blocks).contains(q) <==> exists|b: int|
            0 <= b < blocks.len() && (#[trigger] ctx.block(blocks[b])).ops@.contains(q),
    decreases blocks.len(),
{
    if blocks.len() > 0 {
        let init = blocks.drop_last();
        let some = model::ops_of_blocks(ctx, init);
        let rest = ctx.block(blocks.last()).ops@;
        let whole = model::ops_of_blocks(ctx, blocks);
        lemma_ops_of_blocks(ctx, init, q);
        if whole.contains(q) {
            let i = choose|i: int| 0 <= i < whole.len() && whole[i] == q;
            if i < some.len() {
                assert(some[i] == q);
                let b = choose|b: int|
                    0 <= b < init.len() && (#[trigger] ctx.block(init[b])).ops@.contains(q);
                assert(ctx.block(blocks[b]).ops@.contains(q));
            } else {
                assert(rest[i - some.len()] == q);
                assert(ctx.block(blocks[blocks.len() - 1]).ops@.contains(q));
            }
        }
        if exists|b: int| 0 <= b < blocks.len() && (#[trigger] ctx.block(blocks[b])).ops@.contains(q) {
            let b = choose|b: int|
                0 <= b < blocks.len() && (#[trigger] ctx.block(blocks[b])).ops@.contains(q);
            if b < init.len() {
                assert(ctx.block(init[b]).ops@.contains(q));
                let i = choose|i: int| 0 <= i < some.len() && some[i] == q;
                assert(whole[i] == q);
            } else {
                let i = choose|i: int| 0 <= i < rest.len() && rest[i] == q;
                assert(whole[some.len() + i] == q);
            }
        }
    }
}

/// The operations of some regions are those of each of their blocks.
proof fn lemma_ops_of_regions(
    ctx: &Context,
    regions: Seq<RegionPtr>,
    q: OpPtr,
)
    ensures
        model::ops_of_regions(ctx, regions).contains(q) <==> exists|r: int, b: int|
            0 <= r < regions.len() && 0 <= b < ctx.region(regions[r]).blocks@.len() && (
            #[trigger] ctx.block(ctx.region(regions[r]).blocks@[b])).ops@.contains(q),
    decreases regions.len(),
{
    if regions.len() > 0 {
        let init = regions.drop_last();
        let some = model::ops_of_regions(ctx, init);
        let blocks = ctx.region(regions.last()).blocks@;
        let rest = model::ops_of_blocks(ctx, blocks);
        let whole = model::ops_of_regions(ctx, regions);
        lemma_ops_of_regions(ctx, init, q);
        lemma_ops_of_blocks(ctx, blocks, q);
        if whole.contains(q) {
            let i = choose|i: int| 0 <= i < whole.len() && whole[i] == q;
            if i < some.len() {
                assert(some[i] == q);
                let (r, b) = choose|r: int, b: int|
                    0 <= r < init.len() && 0 <= b < ctx.region(init[r]).blocks@.len() && (
                    #[trigger] ctx.block(ctx.region(init[r]).blocks@[b])).ops@.contains(q);
                assert(ctx.block(ctx.region(regions[r]).blocks@[b]).ops@.contains(q));
            } else {
                assert(rest[i - some.len()] == q);
                let b = choose|b: int|
                    0 <= b < blocks.len() && (#[trigger] ctx.block(blocks[b])).ops@.contains(q);
                assert(ctx.block(
                    ctx.region(regions[regions.len() - 1]).blocks@[b],
                ).ops@.contains(q));
            }
        }
        if exists|r: int, b: int|
            0 <= r < regions.len() && 0 <= b < ctx.region(regions[r]).blocks@.len() && (
            #[trigger] ctx.block(ctx.region(regions[r]).blocks@[b])).ops@.contains(q) {
            let (r, b) = choose|r: int, b: int|
                0 <= r < regions.len() && 0 <= b < ctx.region(regions[r]).blocks@.len() && (
                #[trigger] ctx.block(ctx.region(regions[r]).blocks@[b])).ops@.contains(q);
            if r < init.len() {
                assert(ctx.block(ctx.region(init[r]).blocks@[b]).ops@.contains(q));
                let i = choose|i: int| 0 <= i < some.len() && some[i] == q;
                assert(whole[i] == q);
            } else {
                assert(ctx.block(blocks[b]).ops@.contains(q));
                let i = choose|i: int| 0 <= i < rest.len() && rest[i] == q;
                assert(whole[some.len() + i] == q);
            }
        }
    }
}

/// Where a machine is found inside an operation, it is a member of it that goes
/// by the name, and where none is found, no member does.
proof fn lemma_machine_inside(ctx: &Context, p: OpPtr, target: Seq<char>)
    ensures
        match model::machine_inside(ctx, p, target) {
            Some(m) => holds_machine(ctx, p, m, target),
            None => forall|m: OpPtr| !#[trigger] holds_machine(ctx, p, m, target),
        },
{
    let all = model::children(ctx, p);
    search::lemma_first_where(all, |q: OpPtr| model::machine_named(ctx, q, target));
    match model::machine_inside(ctx, p, target) {
        Some(m) => {
            assert(all.contains(m));
            lemma_ops_of_regions(ctx, ctx.op(p).regions@, m);
        },
        None => {
            assert forall|m: OpPtr| !#[trigger] holds_machine(ctx, p, m, target) by {
                if holds_machine(ctx, p, m, target) {
                    lemma_ops_of_regions(ctx, ctx.op(p).regions@, m);
                    let i = choose|i: int| 0 <= i < all.len() && all[i] == m;
                    assert(model::machine_named(ctx, all[i], target));
                }
            }
        },
    }
}

/// Whether none of the operations that enclose `start` at a distance below `n`
/// holds a machine that goes by `target`.
pub open spec fn none_nearer(ctx: &Context, start: OpPtr, target: Seq<char>, n: nat) -> bool {
    forall|k: nat, p: OpPtr, m: OpPtr|
        1 <= k < n && #[trigger] ctx.ancestor(start, k) == Some(p) ==> !#[trigger] holds_machine(
            ctx,
            p,
            m,
            target,
        )
}

/// What is found within a distance.
proof fn lemma_machine_within(ctx: &Context, start: OpPtr, target: Seq<char>, n: nat)
    ensures
        match model::machine_within(ctx, start, target, n) {
            Some(m) => exists|k: nat|
                1 <= k <= n && (#[trigger] ctx.ancestor(start, k) matches Some(p) && holds_machine(
                    ctx,
                    p,
                    m,
                    target,
                )) && none_nearer(ctx, start, target, k),
            None => none_nearer(ctx, start, target, n + 1),
        },
    decreases n,
{
    if n > 0 {
        lemma_machine_within(ctx, start, target, (n - 1) as nat);
        match ctx.ancestor(start, n) {
            Some(p) => {
                lemma_machine_inside(ctx, p, target);
            },
            None => {},
        }
    }
}

/// A reference to a machine stands for one that goes by its name and is a member
/// of the nearest enclosing operation that has such a member; nothing is found
/// only where no enclosing operation has one.
pub proof fn machines_are_found_in_the_nearest_scope(
    ctx: &Context,
    start: OpPtr,
    target: Seq<char>,
)
    requires
        ctx.rooted(start),
    ensures
        match model::machine_for(ctx, start, target) {
            Some(m) => exists|k: nat|
                1 <= k && (#[trigger] ctx.ancestor(start, k) matches Some(p) && holds_machine(
                    ctx,
                    p,
                    m,
                    target,
                )) && none_nearer(ctx, start, target, k),
            None => forall|k: nat| #[trigger] none_nearer(ctx, start, target, k),
        },
{
    let d = model::depth(ctx, start);
    lemma_machine_within(ctx, start, target, d);
    if model::machine_for(ctx, start, target) is None {
        assert forall|k: nat| #[trigger] none_nearer(ctx, start, target, k) by {
            if k > d {
                model::lemma_machine_within(ctx, start, target, d, k);
            }
            lemma_machine_within(ctx, start, target, k);
            if k < d {
                assert(none_nearer(ctx, start, target, d + 1));
            }
        }
    }
}

/// Whether the operands from the first on have the types `tys`, one by one, and
/// `rest` operands stand behind them.
pub open spec fn operands_have(ctx: &Context, p: OpPtr, tys: Seq<TypeHandle>, rest: int) -> bool {
    let operands = ctx.op(p).operands@;
    &&& operands.len() == tys.len() + rest
    &&& forall|k: int| 0 <= k < tys.len() ==> ctx.value_type(#[trigger] operands[k]) == tys[k]
}

/// Whether the results have the types `tys`, one by one.
pub open spec fn results_have(ctx: &Context, p: OpPtr, tys: Seq<TypeHandle>) -> bool {
    let results = ctx.op(p).results@;
    &&& results.len() == tys.len()
    &&& forall|k: int| 0 <= k < tys.len() ==> #[trigger] results[k] == tys[k]
}

/// Whether an operation has a name that is not empty.
pub open spec fn goes_by_a_name(ctx: &Context, p: OpPtr) -> bool {
    exists|name: Seq<char>| #[trigger] model::symbol_or_name(ctx, p) == Some(name) && name.len() > 0
}

/// Whether a name that is not empty is stored under a key.
pub open spec fn says_a_name(ctx: &Context, p: OpPtr, key: AttrKey) -> bool {
    exists|name: Seq<char>| #[trigger] says(ctx, p, key, name) && name.len() > 0
}

/// A name is stored exactly where reading it gives one that is not empty.
proof fn lemma_says_a_name(ctx: &Context, p: OpPtr, key: AttrKey)
    ensures
        says_a_name(ctx, p, key) <==> model::is_named(
            model::symbol_at(ctx.op(p).attributes, key),
        ),
        model::symbol_at(ctx.op(p).attributes, key) matches Some(s) ==> says(ctx, p, key, s),
        forall|name: Seq<char>| #[trigger]
            says(ctx, p, key, name) ==> model::symbol_at(ctx.op(p).attributes, key) == Some(name),
{
    let read = model::symbol_at(ctx.op(p).attributes, key);
    if read is Some {
        stored_names_are_read(ctx, p, key, read->0);
    }
    assert forall|name: Seq<char>| #[trigger] says(ctx, p, key, name) implies read == Some(name) by {
        stored_names_are_read(ctx, p, key, name);
    }
}

/// Types compared as a whole are compared one by one.
pub(crate) proof fn lemma_operand_types(ctx: &Context, p: OpPtr, tys: Seq<TypeHandle>, rest: int)
    requires
        0 <= rest <= ctx.op(p).operands@.len(),
    ensures
        model::operand_types(ctx, p).take(ctx.op(p).operands@.len() - rest) == tys
            <==> operands_have(ctx, p, tys, rest),
{
    let n = ctx.op(p).operands@.len() - rest;
    let part = model::operand_types(ctx, p).take(n);
    if part == tys {
        assert forall|k: int| 0 <= k < tys.len() implies ctx.value_type(
            #[trigger] ctx.op(p).operands@[k],
        ) == tys[k] by {
            assert(part[k] == tys[k]);
        }
    }
    if operands_have(ctx, p, tys, rest) {
        assert forall|k: int| 0 <= k < tys.len() implies part[k] == tys[k] by {
            assert(ctx.value_type(ctx.op(p).operands@[k]) == tys[k]);
        }
        assert(part =~= tys);
    }
}

/// A hardware instance is without fault exactly where it has a clock and a
/// reset, names a machine, and, where that machine is found, has before the
/// clock and the reset exactly the machine's inputs, type by type, and as
/// results exactly the machine's. Where the machine is not found, the instance
/// stands by itself.
pub proof fn hardware_instances_have_the_types_of_their_machine(ctx: &Context, i: OpPtr)
    ensures
        model::hw_instance_fault(ctx, i) is None <==> {
            &&& ctx.op(i).operands@.len() >= 2
            &&& exists|name: Seq<char>|
                {
                    &&& #[trigger] says(ctx, i, AttrKey::Machine, name)
                    &&& name.len() > 0
                    &&& match model::machine_for(ctx, i, name) {
                        Some(m) => operands_have(ctx, i, model::input_types(ctx, m), 2)
                            && results_have(ctx, i, model::result_types(ctx, m)),
                        None => ctx.parent_op(i) is None,
                    }
                }
        },
{
    lemma_says_a_name(ctx, i, AttrKey::Machine);
    let read = model::symbol_at(ctx.op(i).attributes, AttrKey::Machine);
    if ctx.op(i).operands@.len() >= 2 && read is Some {
        let name = read->0;
        assert(says(ctx, i, AttrKey::Machine, name));
        match model::machine_for(ctx, i, name) {
            Some(m) => {
                lemma_operand_types(ctx, i, model::input_types(ctx, m), 2);
                if results_have(ctx, i, model::result_types(ctx, m)) {
                    assert(ctx.op(i).results@ =~= model::result_types(ctx, m));
                }
            },
            None => {},
        }
    }
}

/// A trigger is without fault exactly where its last operand is the result of an
/// instance, and, where the machine of that instance is found, the operands
/// before it are exactly the machine's inputs, type by type, and its results
/// exactly the machine's. Where the machine is not found, the trigger stands by
/// itself.
pub proof fn triggers_have_the_types_of_their_machine(ctx: &Context, t: OpPtr)
    ensures
        model::trigger_fault(ctx, t) is None <==> {
            let operands = ctx.op(t).operands@;
            let handle = operands[operands.len() - 1];
            &&& operands.len() >= 1
            &&& types::names_instance(ctx.value_type(handle))
            &&& handle matches Value::OpResult { op, .. } && ctx.op(op).kind == OpKind::Instance
                && match model::machine_for(ctx, t, model::machine_ref(ctx, op)) {
                Some(m) => operands_have(ctx, t, model::input_types(ctx, m), 1) && results_have(
                    ctx,
                    t,
                    model::result_types(ctx, m),
                ),
                None => ctx.parent_op(t) is None,
            }
        },
{
    let operands = ctx.op(t).operands@;
    if operands.len() >= 1 {
        let all = model::operand_types(ctx, t);
        assert(all.drop_last() == all.take(operands.len() - 1));
        match operands.last() {
            Value::OpResult { op, .. } => {
                match model::machine_for(ctx, t, model::machine_ref(ctx, op)) {
                    Some(m) => {
                        lemma_operand_types(ctx, t, model::input_types(ctx, m), 1);
                        if results_have(ctx, t, model::result_types(ctx, m)) {
                            assert(ctx.op(t).results@ =~= model::result_types(ctx, m));
                        }
                    },
                    None => {},
                }
            },
            _ => {},
        }
    }
}

/// The types of an instance are the two instance types.
pub proof fn instances_have_an_instance_type(ty: TypeHandle)
    ensures
        types::names_instance(ty) <==> ty is Instance || ty is InstanceAlias,
{
}

/// An instance is without fault exactly where its result is of an instance type,
/// it names a machine, and, unless it stands by itself, that machine is found.
pub proof fn instances_name_a_machine(ctx: &Context, i: OpPtr)
    ensures
        model::instance_fault(ctx, i) is None <==> {
            &&& types::names_instance(ctx.op(i).results@[0])
            &&& exists|name: Seq<char>|
                #[trigger] says(ctx, i, AttrKey::Machine, name) && name.len() > 0 && (ctx.parent_op(
                    i,
                ) is Some ==> model::machine_for(ctx, i, name) is Some)
        },
{
    lemma_says_a_name(ctx, i, AttrKey::Machine);
    let read = model::symbol_at(ctx.op(i).attributes, AttrKey::Machine);
    if read is Some {
        assert(says(ctx, i, AttrKey::Machine, read->0));
    }
}

/// An update is without fault exactly where it stands in the second region of a
/// transition, its first operand is the result of a variable, and its second
/// operand has the type of the first.
pub proof fn updates_write_variables_of_their_type(ctx: &Context, u: OpPtr)
    ensures
        model::update_fault(ctx, u) is None <==> {
            let operands = ctx.op(u).operands@;
            &&& ctx.parent_op(u) matches Some(t) && ctx.op(t).kind == OpKind::Transition
                && ctx.parent_region(u) == Some(ctx.op(t).regions@[1])
            &&& operands[0] matches Value::OpResult { op, .. } && ctx.op(op).kind
                == OpKind::Variable
            &&& ctx.value_type(operands[1]) == ctx.value_type(operands[0])
        },
{
}

/// A variable is without fault exactly where it has a name that is not empty and
/// an initial value.
pub proof fn variables_have_a_name_and_a_value(ctx: &Context, v: OpPtr)
    ensures
        model::variable_fault(ctx, v) is None <==> goes_by_a_name(ctx, v) && ctx.op(
            v,
        ).attributes.has(AttrKey::InitValue),
{
    if model::symbol_or_name(ctx, v) is Some {
        let name = model::symbol_or_name(ctx, v)->0;
        assert(model::symbol_or_name(ctx, v) == Some(name));
    }
}

/// A return that stands in something is without fault exactly where that is a
/// transition, and what it returns, if anything, is a signless single bit.
pub proof fn returns_give_one_bit(ctx: &Context, r: OpPtr)
    ensures
        model::return_fault(ctx, r) is None <==> (ctx.parent_op(r) matches Some(t) ==> {
            let operands = ctx.op(r).operands@;
            &&& ctx.op(t).kind == OpKind::Transition
            &&& operands.len() > 0 ==> ctx.value_type(operands[0]) == (TypeHandle::Integer {
                width: 1,
                signedness: Signedness::Signless,
            })
        }),
{
}

/// An output that stands in something is without fault exactly where that is a
/// state, the output is not in the state's second region, and, where the state
/// is in a machine, its operands are exactly the machine's results, type by
/// type.
pub proof fn outputs_have_the_types_of_their_machine(ctx: &Context, o: OpPtr)
    ensures
        model::output_fault(ctx, o) is None <==> (ctx.parent_op(o) matches Some(s) ==> {
            &&& ctx.op(s).kind == OpKind::State
            &&& ctx.parent_region(o) != Some(ctx.op(s).regions@[1])
            &&& (ctx.parent_op(s) matches Some(m) ==> ctx.op(m).kind == OpKind::Machine
                ==> operands_have(ctx, o, model::result_types(ctx, m), 0))
        }),
{
    let all = model::operand_types(ctx, o);
    assert(all.take(all.len() as int) == all);
    if ctx.parent_op(o) is Some && ctx.parent_op(ctx.parent_op(o)->0) is Some {
        let m = ctx.parent_op(ctx.parent_op(o)->0)->0;
        lemma_operand_types(ctx, o, model::result_types(ctx, m), 0);
    }
}

/// Whether no two updates among `ops` write the same variable.
pub open spec fn updates_differ(ctx: &Context, ops: Seq<OpPtr>) -> bool {
    forall|a: int, b: int|
        0 <= a < b < ops.len() && ctx.op(#[trigger] ops[a]).kind == OpKind::Update && ctx.op(
            #[trigger] ops[b],
        ).kind == OpKind::Update ==> ctx.op(ops[a]).operands@[0] != ctx.op(ops[b]).operands@[0]
}

/// What is written by the updates among some operations.
proof fn lemma_updated(ctx: &Context, ops: Seq<OpPtr>, v: Value)
    ensures
        model::updated(ctx, ops).contains(v) <==> exists|a: int|
            0 <= a < ops.len() && ctx.op(#[trigger] ops[a]).kind == OpKind::Update && ctx.op(
                ops[a],
            ).operands@[0] == v,
{
    lemma_of_kind(ctx, ops, OpKind::Update);
    let part = model::of_kind(ctx, ops, OpKind::Update);
    let all = model::updated(ctx, ops);
    if all.contains(v) {
        let k = choose|k: int| 0 <= k < all.len() && all[k] == v;
        assert(ops.contains(part[k]));
        let a = choose|a: int| 0 <= a < ops.len() && ops[a] == part[k];
        assert(ctx.op(ops[a]).kind == OpKind::Update);
    }
    if exists|a: int|
        0 <= a < ops.len() && ctx.op(#[trigger] ops[a]).kind == OpKind::Update && ctx.op(
            ops[a],
        ).operands@[0] == v {
        let a = choose|a: int|
            0 <= a < ops.len() && ctx.op(#[trigger] ops[a]).kind == OpKind::Update && ctx.op(
                ops[a],
            ).operands@[0] == v;
        assert(part.contains(ops[a]));
        let k = choose|k: int| 0 <= k < part.len() && part[k] == ops[a];
        assert(all[k] == v);
    }
}

/// An action is without fault exactly where it holds no output, and no two of
/// its updates write the same variable.
pub proof fn actions_write_each_variable_once(ctx: &Context, ops: Seq<OpPtr>)
    ensures
        model::action_fault(ctx, ops) is None <==> !has_kind(ctx, ops, OpKind::Output)
            && updates_differ(ctx, ops),
    decreases ops.len(),
{
    if ops.len() > 0 {
        let init = ops.drop_last();
        let p = ops.last();
        let n = ops.len() - 1;
        actions_write_each_variable_once(ctx, init);
        lemma_updated(ctx, init, ctx.op(p).operands@[0]);
        if model::action_fault(ctx, ops) is None {
            assert forall|a: int| 0 <= a < ops.len() implies ctx.op(#[trigger] ops[a]).kind
                != OpKind::Output by {
                if a < n {
                    assert(ops[a] == init[a]);
                }
            }
            assert forall|a: int, b: int|
                0 <= a < b < ops.len() && ctx.op(#[trigger] ops[a]).kind == OpKind::Update
                    && ctx.op(#[trigger] ops[b]).kind == OpKind::Update implies ctx.op(
                ops[a],
            ).operands@[0] != ctx.op(ops[b]).operands@[0] by {
                assert(ops[a] == init[a]);
                if b < n {
                    assert(ops[b] == init[b]);
                }
            }
        }
        if !has_kind(ctx, ops, OpKind::Output) && updates_differ(ctx, ops) {
            assert forall|a: int| 0 <= a < n implies ctx.op(#[trigger] init[a]).kind
                != OpKind::Output by {
                assert(ops[a] == init[a]);
            }
            assert forall|a: int, b: int|
                0 <= a < b < n && ctx.op(#[trigger] init[a]).kind == OpKind::Update && ctx.op(
                    #[trigger] init[b],
                ).kind == OpKind::Update implies ctx.op(init[a]).operands@[0] != ctx.op(
                init[b],
            ).operands@[0] by {
                assert(ops[a] == init[a] && ops[b] == init[b]);
            }
            assert(ctx.op(ops[n]).kind != OpKind::Output);
            if ctx.op(p).kind == OpKind::Update && model::updated(ctx, init).contains(
                ctx.op(p).operands@[0],
            ) {
                let a = choose|a: int|
                    0 <= a < init.len() && ctx.op(#[trigger] init[a]).kind == OpKind::Update
                        && ctx.op(init[a]).operands@[0] == ctx.op(p).operands@[0];
                assert(ops[a] == init[a] && ops[n] == p);
            }
        }
    }
}

/// A transition that stands in something is without fault exactly where that is
/// a state and the transition is in its second region; it names a next state,
/// which the state's machine, if there is one, has; its guard, if there is one,
/// ends in a return; and its action holds no output and writes each variable at
/// most once.
pub proof fn transitions_lead_to_states_of_their_machine(ctx: &Context, t: OpPtr)
    ensures
        model::transition_fault(ctx, t) is None <==> (ctx.parent_op(t) matches Some(s) ==> {
            let guard = region_ops(ctx, t, 0);
            let action = region_ops(ctx, t, 1);
            &&& ctx.op(s).kind == OpKind::State
            &&& ctx.parent_region(t) == Some(ctx.op(s).regions@[1])
            &&& exists|name: Seq<char>|
                {
                    &&& #[trigger] says(ctx, t, AttrKey::NextState, name)
                    &&& name.len() > 0
                    &&& (ctx.parent_op(s) matches Some(m) ==> ctx.op(m).kind == OpKind::Machine
                        ==> exists|k: int|
                        0 <= k < model::states(ctx, m).len() && model::clean(
                            model::state_name(ctx, #[trigger] model::states(ctx, m)[k]),
                        ) == name)
                }
            &&& guard.len() > 0 ==> ctx.op(guard[guard.len() - 1]).kind == OpKind::Return
            &&& !has_kind(ctx, action, OpKind::Output)
            &&& updates_differ(ctx, action)
        }),
{
    lemma_says_a_name(ctx, t, AttrKey::NextState);
    actions_write_each_variable_once(ctx, region_ops(ctx, t, 1));
    assert(region_ops(ctx, t, 0) == model::first_region_ops(ctx, t));
    assert(region_ops(ctx, t, 1) == model::second_region_ops(ctx, t));
    let read = model::symbol_at(ctx.op(t).attributes, AttrKey::NextState);
    if read is Some {
        let name = read->0;
        assert(says(ctx, t, AttrKey::NextState, name));
        lemma_clean_symbol(ctx, t, AttrKey::NextState);
        assert(model::clean(name) == name);
        if ctx.parent_op(t) is Some && ctx.parent_op(ctx.parent_op(t)->0) is Some {
            let m = ctx.parent_op(ctx.parent_op(t)->0)->0;
            let all = model::states(ctx, m);
            lookups_find_the_first(ctx, m, name);
            search::lemma_first_where(
                all,
                |s: OpPtr| model::clean(model::state_name(ctx, s)) == model::clean(name),
            );
            if exists|k: int|
                0 <= k < all.len() && model::clean(model::state_name(ctx, #[trigger] all[k]))
                    == name {
                let k = choose|k: int|
                    0 <= k < all.len() && model::clean(model::state_name(ctx, #[trigger] all[k]))
                        == name;
                assert(all.contains(all[k]));
                assert(model::state_named(ctx, m, name) is Some);
            }
        }
    }
}

/// What is read under a key is clean.
proof fn lemma_clean_symbol(ctx: &Context, p: OpPtr, key: AttrKey)
    ensures
        model::symbol_at(ctx.op(p).attributes, key) matches Some(s) ==> model::clean(s) == s,
{
    match ctx.op(p).attributes.at(key) {
        Some(Attribute::String(s)) => {
            model::lemma_clean_twice(s@);
        },
        Some(Attribute::Identifier(s)) => {
            model::lemma_clean_twice(s@);
        },
        _ => {},
    }
}

/// A state is without fault exactly where it has a name that is not empty; its
/// first region holds no transition and, if it is not empty, ends in an output;
/// its second region holds no output; and it has an output where it is in a
/// machine that has results.
pub proof fn states_keep_outputs_and_transitions_apart(ctx: &Context, s: OpPtr)
    ensures
        model::state_fault(ctx, s) is None <==> {
            let first = region_ops(ctx, s, 0);
            let second = region_ops(ctx, s, 1);
            &&& goes_by_a_name(ctx, s)
            &&& !has_kind(ctx, first, OpKind::Transition)
            &&& first.len() > 0 ==> ctx.op(first[first.len() - 1]).kind == OpKind::Output
            &&& !has_kind(ctx, second, OpKind::Output)
            &&& (ctx.parent_op(s) matches Some(m) ==> ctx.op(m).kind == OpKind::Machine
                && model::result_types(ctx, m).len() > 0 ==> has_kind(ctx, first, OpKind::Output))
        },
{
    let first = region_ops(ctx, s, 0);
    let second = region_ops(ctx, s, 1);
    assert(first == model::first_region_ops(ctx, s));
    assert(second == model::second_region_ops(ctx, s));
    if model::symbol_or_name(ctx, s) is Some {
        let name = model::symbol_or_name(ctx, s)->0;
        assert(model::symbol_or_name(ctx, s) == Some(name));
    }
    lemma_first_kind(ctx, first, OpKind::Transition);
    lemma_first_kind(ctx, first, OpKind::Output);
    lemma_first_kind(ctx, second, OpKind::Output);
}

/// A search by kind finds something exactly where something is of the kind.
proof fn lemma_first_kind(ctx: &Context, ops: Seq<OpPtr>, kind: OpKind)
    ensures
        search::first_where(ops, |p: OpPtr| model::is_kind(ctx, p, kind)) is Some <==> has_kind(
            ctx,
            ops,
            kind,
        ),
{
    let want = |p: OpPtr| model::is_kind(ctx, p, kind);
    search::lemma_first_where(ops, want);
    if has_kind(ctx, ops, kind) {
        let i = choose|i: int| 0 <= i < ops.len() && ctx.op(#[trigger] ops[i]).kind == kind;
        assert(want(ops[i]));
    }
    if search::first_where(ops, want) is Some {
        let p = search::first_where(ops, want)->0;
        let i = choose|i: int|
            0 <= i < ops.len() && #[trigger] ops[i] == p && forall|j: int|
                0 <= j < i ==> !want(#[trigger] ops[j]);
        assert(ctx.op(ops[i]).kind == kind);
    }
}

/// How many entries the list or the dictionary under a key has.
pub open spec fn entries(ctx: &Context, p: OpPtr, key: AttrKey) -> Option<usize> {
    match ctx.op(p).attributes.at(key) {
        Some(Attribute::Vec(n)) => Some(n),
        Some(Attribute::Dict(n)) => Some(n),
        _ => None,
    }
}

/// A machine is without fault exactly where it has a name and names an initial
/// state, neither of them empty, and carries a function type; the arguments of
/// its first block have exactly the types of its inputs; no two of its states
/// share a name, and one of them has that of the initial state; names and
/// attributes of its arguments are given together and in the same number, and
/// so are those of its results; and, where it has results, each of its states
/// has an output.
pub proof fn machines_have_distinct_states_and_an_initial_one(ctx: &Context, m: OpPtr)
    ensures
        model::machine_fault(ctx, m) is None <==> {
            let args = ctx.block(ctx.region(ctx.op(m).regions@[0]).blocks@[0]).args@;
            let inputs = model::input_types(ctx, m);
            let all = model::states(ctx, m);
            &&& goes_by_a_name(ctx, m)
            &&& ctx.op(m).attributes.at(AttrKey::FunctionType) matches Some(Attribute::Type(ty))
                && ctx.type_signature(ty) is Some
            &&& args.len() == inputs.len()
            &&& forall|k: int| 0 <= k < args.len() ==> #[trigger] args[k] == inputs[k]
            &&& forall|a: int, b: int|
                0 <= a < b < all.len() ==> model::state_name(ctx, #[trigger] all[a])
                    != model::state_name(ctx, #[trigger] all[b])
            &&& exists|name: Seq<char>, k: int|
                #[trigger] says(ctx, m, AttrKey::InitialState, name) && name.len() > 0 && 0 <= k
                    < all.len() && model::state_name(ctx, #[trigger] all[k]) == name
            &&& entries(ctx, m, AttrKey::ArgNames) == entries(ctx, m, AttrKey::ArgAttrs)
            &&& entries(ctx, m, AttrKey::ResNames) == entries(ctx, m, AttrKey::ResAttrs)
            &&& model::result_types(ctx, m).len() > 0 ==> forall|k: int|
                0 <= k < all.len() ==> has_kind(
                    ctx,
                    region_ops(ctx, #[trigger] all[k], 0),
                    OpKind::Output,
                )
        },
{
    let args = ctx.block(ctx.region(ctx.op(m).regions@[0]).blocks@[0]).args@;
    let inputs = model::input_types(ctx, m);
    let all = model::states(ctx, m);
    let names = model::state_names(ctx, m);
    let initial = model::symbol_at(ctx.op(m).attributes, AttrKey::InitialState);
    if model::symbol_or_name(ctx, m) is Some {
        let name = model::symbol_or_name(ctx, m)->0;
        assert(model::symbol_or_name(ctx, m) == Some(name));
    }
    lemma_says_a_name(ctx, m, AttrKey::InitialState);
    search::lemma_no_repeat(names);
    assert(names.no_duplicates() <==> forall|a: int, b: int|
        0 <= a < b < all.len() ==> model::state_name(ctx, #[trigger] all[a]) != model::state_name(
            ctx,
            #[trigger] all[b],
        )) by {
        assert forall|a: int| 0 <= a < all.len() implies names[a] == model::state_name(
            ctx,
            #[trigger] all[a],
        ) by {}
        if names.no_duplicates() {
            assert forall|a: int, b: int| 0 <= a < b < all.len() implies model::state_name(
                ctx,
                #[trigger] all[a],
            ) != model::state_name(ctx, #[trigger] all[b]) by {
                assert(names[a] != names[b]);
            }
        } else {
            let (a, b) = choose|a: int, b: int|
                0 <= a < names.len() && 0 <= b < names.len() && a != b && #[trigger] names[a]
                    == #[trigger] names[b];
            assert(model::state_name(ctx, all[a]) == model::state_name(ctx, all[b]));
        }
    }
    if initial is Some {
        let name = initial->0;
        assert(says(ctx, m, AttrKey::InitialState, name));
        if names.contains(name) {
            let k = choose|k: int| 0 <= k < names.len() && names[k] == name;
            assert(model::state_name(ctx, all[k]) == name);
        }
        if exists|k: int| 0 <= k < all.len() && model::state_name(ctx, #[trigger] all[k]) == name {
            let k = choose|k: int|
                0 <= k < all.len() && model::state_name(ctx, #[trigger] all[k]) == name;
            assert(names[k] == name);
        }
    }
    assert(args == inputs <==> args.len() == inputs.len() && forall|k: int|
        0 <= k < args.len() ==> #[trigger] args[k] == inputs[k]) by {
        if args.len() == inputs.len() && forall|k: int|
            0 <= k < args.len() ==> #[trigger] args[k] == inputs[k] {
            assert(args =~= inputs);
        }
    }
    let silent = |s: OpPtr| model::output_op(ctx, s) is None;
    search::lemma_first_where(all, silent);
    assert forall|k: int| 0 <= k < all.len() implies (silent(#[trigger] all[k]) <==> !has_kind(
        ctx,
        region_ops(ctx, all[k], 0),
        OpKind::Output,
    )) by {
        let ops = region_ops(ctx, all[k], 0);
        assert(ops == model::first_region_ops(ctx, all[k]));
        lemma_first_kind(ctx, ops, OpKind::Output);
    }
    let found = search::first_where(all, silent);
    if found is Some {
        let i = choose|i: int|
            0 <= i < all.len() && #[trigger] all[i] == found->0 && forall|j: int|
                0 <= j < i ==> !silent(#[trigger] all[j]);
        assert(silent(all[i]));
        assert(!has_kind(ctx, region_ops(ctx, all[i], 0), OpKind::Output));
    }
}

/// Whether `t` is a transition in the second region of the state `s` whose next
/// state is `b`.
pub open spec fn is_way(ctx: &Context, s: OpPtr, t: OpPtr, b: Seq<char>) -> bool {
    &&& region_ops(ctx, s, 1).contains(t)
    &&& ctx.op(t).kind == OpKind::Transition
    &&& says(ctx, t, AttrKey::NextState, b)
}

/// A machine steps from one name to another, not empty one, exactly where the
/// first state of the first name has a transition to the other.
pub proof fn machines_step_along_their_transitions(
    ctx: &Context,
    m: OpPtr,
    a: Seq<char>,
    b: Seq<char>,
)
    requires
        b.len() > 0,
    ensures
        canonicalization::steps(ctx, m, a, b) <==> exists|s: OpPtr, t: OpPtr|
            model::state_named(ctx, m, a) == Some(s) && #[trigger] is_way(ctx, s, t, b),
{
    if model::state_named(ctx, m, a) is Some {
        let s = model::state_named(ctx, m, a)->0;
        let ops = region_ops(ctx, s, 1);
        let all = model::transitions(ctx, s);
        assert(ops == model::second_region_ops(ctx, s));
        lemma_of_kind(ctx, ops, OpKind::Transition);
        if canonicalization::steps(ctx, m, a, b) {
            let i = choose|i: int|
                0 <= i < all.len() && model::next_state(ctx, #[trigger] all[i]) == b;
            let t = all[i];
            reveal_strlit("");
            assert(model::symbol_at(ctx.op(t).attributes, AttrKey::NextState) == Some(b));
            stored_names_are_read(ctx, t, AttrKey::NextState, b);
            assert(is_way(ctx, s, t, b));
        }
        if exists|t: OpPtr| #[trigger] is_way(ctx, s, t, b) {
            let t = choose|t: OpPtr| #[trigger] is_way(ctx, s, t, b);
            references_are_stored_names(ctx, t, b);
            let k = choose|k: int| 0 <= k < ops.len() && ops[k] == t;
            assert(all.contains(ops[k]));
            let i = choose|i: int| 0 <= i < all.len() && all[i] == t;
            assert(model::next_state(ctx, all[i]) == b);
        }
    }
}

/// The reachable names are the fewest that hold the initial state, where it is
/// not empty, and every name that a reachable one steps to.
pub proof fn reachable_names_are_the_fewest(
    ctx: &Context,
    m: OpPtr,
    set: Set<Seq<char>>,
    name: Seq<char>,
)
    ensures
        says(ctx, m, AttrKey::InitialState, name) && name.len() > 0 ==> canonicalization::reachable(
            ctx,
            m,
            name,
        ),
        forall|a: Seq<char>, b: Seq<char>|
            canonicalization::reachable(ctx, m, a) && #[trigger] canonicalization::steps(
                ctx,
                m,
                a,
                b,
            ) ==> canonicalization::reachable(ctx, m, b),
        set.contains(model::initial_state(ctx, m)) && (forall|a: Seq<char>, b: Seq<char>|
            set.contains(a) && #[trigger] canonicalization::steps(ctx, m, a, b) ==> set.contains(b))
            && canonicalization::reachable(ctx, m, name) ==> set.contains(name),
        canonicalization::reachable_names(ctx, m).contains(name) <==> canonicalization::reachable(
            ctx,
            m,
            name,
        ),
{
    if says(ctx, m, AttrKey::InitialState, name) && name.len() > 0 {
        references_are_stored_names(ctx, m, name);
        canonicalization::lemma_initial_reachable(ctx, m);
    }
    assert forall|a: Seq<char>, b: Seq<char>|
        canonicalization::reachable(ctx, m, a) && #[trigger] canonicalization::steps(
            ctx,
            m,
            a,
            b,
        ) implies canonicalization::reachable(ctx, m, b) by {
        canonicalization::lemma_reachable_step(ctx, m, a, b);
    }
    if set.contains(model::initial_state(ctx, m)) && (forall|a: Seq<char>, b: Seq<char>|
        set.contains(a) && #[trigger] canonicalization::steps(ctx, m, a, b) ==> set.contains(b))
        && canonicalization::reachable(ctx, m, name) {
        let run = choose|run: Seq<Seq<char>>| #[trigger]
            canonicalization::is_run(ctx, m, run) && run.last() == name;
        canonicalization::lemma_run_in_closed(ctx, m, set, run);
    }
}

proof fn lemma_kept(names: Seq<Seq<char>>, keep: spec_fn(Seq<char>) -> bool, name: Seq<char>)
    ensures
        names.filter(keep).contains(name) <==> names.contains(name) && keep(name),
        names.no_duplicates() ==> names.filter(keep).no_duplicates(),
        forall|a: int, b: int| #![trigger names[a], names[b]]
            0 <= a < b < names.len() && keep(names[a]) && keep(names[b]) ==> exists|
                x: int,
                y: int,
            |
                0 <= x < y < names.filter(keep).len() && #[trigger] names.filter(keep)[x]
                    == names[a] && #[trigger] names.filter(keep)[y] == names[b],
    decreases names.len(),
{
    reveal(Seq::filter);
    let out = names.filter(keep);
    if names.len() > 0 {
        let init = names.drop_last();
        let last = names.last();
        let some = init.filter(keep);
        lemma_kept(init, keep, name);
        lemma_kept(init, keep, last);
        assert(out == if keep(last) { some.push(last) } else { some });
        if some.contains(name) {
            let i = choose|i: int| 0 <= i < some.len() && some[i] == name;
            assert(out[i] == name);
        }
        if init.contains(name) {
            let i = choose|i: int| 0 <= i < init.len() && init[i] == name;
            assert(names[i] == name);
        }
        if names.contains(name) && !init.contains(name) {
            let i = choose|i: int| 0 <= i < names.len() && names[i] == name;
            if i < init.len() {
                assert(init[i] == name);
            }
            assert(name == last);
        }
        if out.contains(name) && !some.contains(name) {
            let i = choose|i: int| 0 <= i < out.len() && out[i] == name;
            if i < some.len() {
                assert(some[i] == name);
            }
            assert(name == last);
            assert(names[names.len() - 1] == name);
        }
        if keep(last) {
            assert(out[some.len() as int] == last);
        }
        if names.no_duplicates() {
            assert(init.no_duplicates());
            if some.contains(last) {
                let i = choose|i: int| 0 <= i < init.len() && init[i] == last;
                assert(names[i] == names[names.len() - 1]);
            }
        }
        assert forall|a: int, b: int| #![trigger names[a], names[b]]
            0 <= a < b < names.len() && keep(names[a]) && keep(names[b]) implies exists|
            x: int,
            y: int,
        |
            0 <= x < y < out.len() && #[trigger] out[x] == names[a] && #[trigger] out[y]
                == names[b] by {
            assert(names[a] == init[a]);
            if b < init.len() {
                assert(names[b] == init[b]);
                let (x, y) = choose|x: int, y: int|
                    0 <= x < y < some.len() && #[trigger] some[x] == init[a] && #[trigger] some[y]
                        == init[b];
                assert(out[x] == names[a] && out[y] == names[b]);
            } else {
                lemma_kept(init, keep, init[a]);
                assert(init.contains(init[a]));
                let x = choose|x: int| 0 <= x < some.len() && some[x] == init[a];
                assert(out[x] == names[a] && out[some.len() as int] == names[b]);
            }
        }
    }
}

/// The unreachable states of a machine are its states whose names are not
/// reachable, all of them, in the order of the machine.
pub proof fn unreachable_states_are_the_others(ctx: &Context, m: OpPtr, name: Seq<char>)
    ensures
        ({
            let names = model::state_names(ctx, m);
            let out = canonicalization::unreachable_names(ctx, m);
            &&& out.contains(name) <==> names.contains(name) && !canonicalization::reachable(
                ctx,
                m,
                name,
            )
            &&& names.no_duplicates() ==> out.no_duplicates()
            &&& forall|a: int, b: int| #![trigger names[a], names[b]]
                0 <= a < b < names.len() && out.contains(names[a]) && out.contains(names[b])
                    ==> exists|x: int, y: int|
                    0 <= x < y < out.len() && #[trigger] out[x] == names[a] && #[trigger] out[y]
                        == names[b]
        }),
{
    let names = model::state_names(ctx, m);
    let out = canonicalization::unreachable_names(ctx, m);
    let keep = |n: Seq<char>| !canonicalization::reachable(ctx, m, n);
    lemma_kept(names, keep, name);
    assert forall|a: int, b: int| #![trigger names[a], names[b]]
        0 <= a < b < names.len() && out.contains(names[a]) && out.contains(names[b]) implies exists|
        x: int,
        y: int,
    |
        0 <= x < y < out.len() && #[trigger] out[x] == names[a] && #[trigger] out[y] == names[b] by {
        lemma_kept(names, keep, names[a]);
        lemma_kept(names, keep, names[b]);
    }
}

/// Elimination takes exactly the states whose names are not reachable out of the
/// machine, and keeps all other operations of its body, in their order.
pub proof fn elimination_takes_the_unreachable_states(
    before: &Context,
    after: &Context,
    m: OpPtr,
    p: OpPtr,
    q: OpPtr,
)
    requires
        canonicalization::eliminated(before, after, m),
    ensures
        ({
            let old_ops = before.block(model::body(before, m)).ops@;
            let new_ops = after.block(model::body(before, m)).ops@;
            &&& new_ops.contains(p) <==> old_ops.contains(p) && !(before.op(p).kind == OpKind::State
                && !canonicalization::reachable(before, m, model::state_name(before, p)))
            &&& self::before(new_ops, p, q) ==> self::before(old_ops, p, q)
            &&& after.block(model::body(before, m)).args@ == before.block(
                model::body(before, m),
            ).args@
            &&& before.has_op(p) && new_ops.contains(p) ==> after.op(p) == before.op(p)
            &&& before.has_op(p) && old_ops.contains(p) && !new_ops.contains(p) && before.op(
                p,
            ).parent == Some(model::body(before, m)) ==> after.op(p).parent is None
            &&& after.regions@ == before.regions@
            &&& after.types@ == before.types@
            &&& before.has_block(model::body(before, m)) ==> forall|b: BlockPtr|
                before.has_block(b) && b != model::body(before, m) ==> #[trigger] after.block(b)
                    == before.block(b)
        }),
{
    let old_ops = before.block(model::body(before, m)).ops@;
    let body = model::body(before, m);
    lemma_alive(before, m, old_ops, p);
    lemma_alive_order(before, m, old_ops, p, q);
    assert forall|b: BlockPtr|
        before.has_block(body) && before.has_block(b) && b != body implies #[trigger] after.block(b)
        == before.block(b) by {
        assert(b.idx != body.idx);
        assert(after.blocks@[b.idx as int] == before.blocks@.update(
            body.idx as int,
            after.block(body),
        )[b.idx as int]);
    }
}

proof fn lemma_alive(ctx: &Context, m: OpPtr, ops: Seq<OpPtr>, p: OpPtr)
    ensures
        ops.filter(|x: OpPtr| !canonicalization::is_dead(ctx, m, x)).contains(p) <==> ops.contains(p)
            && !canonicalization::is_dead(ctx, m, p),
    decreases ops.len(),
{
    reveal(Seq::filter);
    let keep = |x: OpPtr| !canonicalization::is_dead(ctx, m, x);
    let out = ops.filter(keep);
    if ops.len() > 0 {
        let init = ops.drop_last();
        let some = init.filter(keep);
        lemma_alive(ctx, m, init, p);
        assert(out == if keep(ops.last()) { some.push(ops.last()) } else { some });
        if some.contains(p) {
            let i = choose|i: int| 0 <= i < some.len() && some[i] == p;
            assert(out[i] == p);
        }
        if init.contains(p) {
            let i = choose|i: int| 0 <= i < init.len() && init[i] == p;
            assert(ops[i] == p);
        }
        if ops.contains(p) && !init.contains(p) {
            let i = choose|i: int| 0 <= i < ops.len() && ops[i] == p;
            if i < init.len() {
                assert(init[i] == p);
            }
            assert(p == ops.last());
        }
        if out.contains(p) && !some.contains(p) {
            let i = choose|i: int| 0 <= i < out.len() && out[i] == p;
            if i < some.len() {
                assert(some[i] == p);
            }
            assert(p == ops.last());
            assert(ops[ops.len() - 1] == p);
        }
        if keep(ops.last()) {
            assert(out[some.len() as int] == ops.last());
        }
    }
}

proof fn lemma_alive_order(ctx: &Context, m: OpPtr, ops: Seq<OpPtr>, p: OpPtr, q: OpPtr)
    ensures
        before(ops.filter(|x: OpPtr| !canonicalization::is_dead(ctx, m, x)), p, q) ==> before(
            ops,
            p,
            q,
        ),
    decreases ops.len(),
{
    reveal(Seq::filter);
    let keep = |x: OpPtr| !canonicalization::is_dead(ctx, m, x);
    let out = ops.filter(keep);
    if ops.len() > 0 && before(out, p, q) {
        let init = ops.drop_last();
        let some = init.filter(keep);
        lemma_alive_order(ctx, m, init, p, q);
        lemma_alive(ctx, m, init, p);
        assert(out == if keep(ops.last()) { some.push(ops.last()) } else { some });
        let (x, y) = choose|x: int, y: int|
            0 <= x < y < out.len() && #[trigger] out[x] == p && #[trigger] out[y] == q;
        if y < some.len() {
            assert(some[x] == p && some[y] == q);
            let (i, j) = choose|i: int, j: int|
                0 <= i < j < init.len() && #[trigger] init[i] == p && #[trigger] init[j] == q;
            assert(ops[i] == p && ops[j] == q);
        } else {
            assert(some[x] == p);
            let i = choose|i: int| 0 <= i < init.len() && init[i] == p;
            assert(ops[i] == p && ops[ops.len() - 1] == q);
        }
    }
}

/// What a lowering plan says of a machine: its name and its initial state; how
/// many states, variables, inputs and outputs it has; a state register that is
/// just wide enough, or has one bit for each state; and, where the names of its
/// states are distinct, for each state the code of its place: the place itself,
/// or the bit at that place.
pub proof fn plans_count_and_encode_the_states(
    ctx: &Context,
    m: OpPtr,
    encoding: StateEncoding,
    plan: FsmLoweringPlan,
    k: int,
)
    requires
        lowering::is_plan(ctx, m, encoding, plan),
    ensures
        ({
            let n = model::states(ctx, m).len();
            let w = plan.state_width as nat;
            &&& plan.machine_name@ == model::machine_name(ctx, m)
            &&& plan.initial_state@ == model::initial_state(ctx, m)
            &&& plan.encoding == encoding
            &&& plan.num_states == n
            &&& plan.num_variables == model::variables(ctx, m).len()
            &&& plan.num_inputs == ctx.block(
                ctx.region(ctx.op(m).regions@[0]).blocks@[0],
            ).args@.len()
            &&& plan.num_outputs == model::result_types(ctx, m).len()
            &&& encoding is OneHot ==> w == n
            &&& encoding is Binary && n <= 1 ==> w == 0
            &&& encoding is Binary && n >= 2 ==> w >= 1 && pow2((w - 1) as nat) < n && n <= pow2(w)
            &&& model::state_names(ctx, m).no_duplicates() && 0 <= k < n ==> {
                let name = model::state_name(ctx, model::states(ctx, m)[k]);
                &&& plan.state_map@.dom().contains(name)
                &&& encoding is Binary && k <= u64::MAX ==> plan.state_map@[name] == k
                &&& encoding is OneHot && k < 64 ==> plan.state_map@[name] == pow2(k as nat)
            }
            &&& forall|name: Seq<char>| #[trigger]
                plan.state_map@.dom().contains(name) <==> model::state_names(ctx, m).contains(name)
        }),
{
    let n = model::states(ctx, m).len();
    let names = model::state_names(ctx, m);
    if n >= 2 {
        lowering::ceil_log2_brackets(n);
    }
    if names.no_duplicates() && 0 <= k < n {
        lowering::distinct_states_have_the_code_of_their_place(encoding, names, k);
        lowering::every_state_has_a_code(encoding, names, names[k]);
        assert(names[k] == model::state_name(ctx, model::states(ctx, m)[k]));
        if k < 64 {
            vstd::arithmetic::power2::lemma2_to64();
            vstd::arithmetic::power2::lemma2_to64_rest();
            if k < 63 {
                vstd::arithmetic::power2::lemma_pow2_strictly_increases(k as nat, 63);
            }
            assert(pow2(63) == 0x8000000000000000);
            assert(pow2(k as nat) <= u64::MAX);
        }
    }
    assert forall|name: Seq<char>| #[trigger]
        plan.state_map@.dom().contains(name) <==> names.contains(name) by {
        lowering::every_state_has_a_code(encoding, names, name);
    }
}

/// The results of an operation are numbered in order, and each has its own type.
pub proof fn results_are_numbered_in_order(ctx: &Context, op: OpPtr, k: int)
    requires
        0 <= k < ctx.op(op).results@.len() <= usize::MAX,
    ensures
        ops::result_values(ctx, op).len() == ctx.op(op).results@.len(),
        ops::result_values(ctx, op)[k] == (Value::OpResult { op, idx: k as usize }),
        ctx.value_type(ops::result_values(ctx, op)[k]) == ctx.op(op).results@[k],
        ops::result_values(ctx, op)[k].spec_defining_op() == Some(op),
        model::operand_types(ctx, op).len() == ctx.op(op).operands@.len(),
        forall|i: int|
            0 <= i < ctx.op(op).operands@.len() ==> #[trigger] model::operand_types(ctx, op)[i]
                == ctx.value_type(ctx.op(op).operands@[i]),
{
}

/// Where only the attributes of one operation change, every other operation is
/// as it was, and so is all else of that one.
pub proof fn attributes_change_nothing_else(
    before: &Context,
    after: &Context,
    op: OpPtr,
    other: OpPtr,
)
    requires
        ops::only_attributes(before, after, op),
        before.has_op(op),
        before.has_op(other),
    ensures
        other != op ==> after.op(other) == before.op(other),
        after.op(op).kind == before.op(op).kind,
        after.op(op).operands == before.op(op).operands,
        after.op(op).results == before.op(op).results,
        after.op(op).regions == before.op(op).regions,
        after.op(op).parent == before.op(op).parent,
        after.ops@.len() == before.ops@.len(),
        after.blocks@ == before.blocks@,
        after.regions@ == before.regions@,
        after.types@ == before.types@,
{
    if other != op {
        assert(other.idx != op.idx);
        assert(after.ops@[other.idx as int] == before.ops@.update(
            op.idx as int,
            after.op(op),
        )[other.idx as int]);
    }
}

/// A region that is made to have a block keeps the one it has; without one it
/// gets a new and empty one, and nothing else changes.
pub proof fn regions_get_a_block_only_once(
    before: &Context,
    after: &Context,
    r: RegionPtr,
    b: BlockPtr,
)
    requires
        ops::block_ensured(before, after, r, b),
    ensures
        after.region(r).blocks@.len() > 0 && after.region(r).blocks@[0] == b,
        before.region(r).blocks@.len() > 0 ==> after == before,
        before.region(r).blocks@.len() == 0 ==> {
            &&& after.region(r).blocks@.len() == 1
            &&& after.block(b).ops@.len() == 0 && after.block(b).args@.len() == 0
            &&& after.block(b).parent == Some(r)
            &&& b.idx == before.blocks@.len()
            &&& after.ops@ == before.ops@
            &&& after.types@ == before.types@
        },
{
}

} // verus!
