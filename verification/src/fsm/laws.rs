//! What holds of machines as a whole: names, runs, and what the elimination of
//! unreachable states keeps.

use crate::fsm::canonicalization;
use crate::fsm::model;
use crate::fsm::search;
use crate::ir::attributes::{AttrKey, Attribute};
use crate::ir::context::{Context, OpKind, OpPtr};
use crate::text;
use vstd::prelude::*;

verus! {

/// What starts with no `@` is clean.
proof fn lemma_clean_without_at(s: Seq<char>)
    requires
        s.len() == 0 || s[0] != '@',
    ensures
        model::clean(s) == s,
{
    let at = seq!['@'];
    if s.len() > 0 {
        assert(!at.contains(s[0]));
    }
    text::lemma_prefix_in_unique(s, at, 0);
    assert(s.skip(0) == s);
}

/// The name of an operation never starts with an `@`.
pub proof fn names_are_clean(ctx: &Context, p: OpPtr)
    requires
        ctx.wf(),
        ctx.has_op(p),
    ensures
        model::symbol_or_name(ctx, p) matches Some(s) ==> model::clean(s) == s,
        model::clean(model::state_name(ctx, p)) == model::state_name(ctx, p),
        model::clean(model::machine_name(ctx, p)) == model::machine_name(ctx, p),
{
    assert(ctx.op_ok(p.idx as int));
    let attrs = ctx.op(p).attributes;
    attrs.lemma_identifier(AttrKey::BuiltinSymName);
    match attrs.at(AttrKey::BuiltinSymName) {
        Some(Attribute::Identifier(s)) => {
            lemma_clean_without_at(s@);
        },
        _ => {
            lemma_symbol_clean(ctx, p, AttrKey::SymName);
            lemma_symbol_clean(ctx, p, AttrKey::Name);
        },
    }
    reveal_strlit("unnamed_state");
    reveal_strlit("unnamed_machine");
    lemma_clean_without_at("unnamed_state"@);
    lemma_clean_without_at("unnamed_machine"@);
}

proof fn lemma_symbol_clean(ctx: &Context, p: OpPtr, key: AttrKey)
    ensures
        model::symbol_at(ctx.op(p).attributes, key) matches Some(s) ==> model::clean(s) == s,
        model::clean(model::or_else(model::symbol_at(ctx.op(p).attributes, key), ""@))
            == model::or_else(model::symbol_at(ctx.op(p).attributes, key), ""@),
{
    match ctx.op(p).attributes.at(key) {
        Some(Attribute::String(s)) => {
            model::lemma_clean_twice(s@);
        },
        Some(Attribute::Identifier(s)) => {
            model::lemma_clean_twice(s@);
        },
        _ => {},
    }
    reveal_strlit("");
    lemma_clean_without_at(""@);
}

/// Every name on a run is clean.
proof fn lemma_run_clean(ctx: &Context, m: OpPtr, run: Seq<Seq<char>>, i: int)
    requires
        canonicalization::is_run(ctx, m, run),
        0 <= i < run.len(),
    ensures
        model::clean(run[i]) == run[i],
{
    if i == 0 {
        lemma_symbol_clean(ctx, m, AttrKey::InitialState);
    } else {
        assert(canonicalization::steps(ctx, m, run[i - 1], run[i - 1 + 1]));
        let s = model::state_named(ctx, m, run[i - 1])->0;
        let ts = model::transitions(ctx, s);
        let k = choose|k: int|
            0 <= k < ts.len() && model::next_state(ctx, #[trigger] ts[k]) == run[i];
        lemma_symbol_clean(ctx, ts[k], AttrKey::NextState);
    }
}

/// The names that a machine can reach are clean.
pub proof fn reachable_names_are_clean(ctx: &Context, m: OpPtr, name: Seq<char>)
    requires
        canonicalization::reachable(ctx, m, name),
    ensures
        model::clean(name) == name,
{
    let run = choose|run: Seq<Seq<char>>|
        #[trigger] canonicalization::is_run(ctx, m, run) && run.last() == name;
    lemma_run_clean(ctx, m, run, run.len() - 1);
}

/// Where a machine lists an operation of a kind, it stands in its body.
proof fn lemma_listed(ctx: &Context, ops: Seq<OpPtr>, kind: OpKind, i: int)
    requires
        0 <= i < model::of_kind(ctx, ops, kind).len(),
    ensures
        ops.contains(model::of_kind(ctx, ops, kind)[i]),
        ctx.op(model::of_kind(ctx, ops, kind)[i]).kind == kind,
    decreases ops.len(),
{
    reveal(Seq::filter);
    if ops.len() > 0 {
        let init = ops.drop_last();
        if i < model::of_kind(ctx, init, kind).len() {
            lemma_listed(ctx, init, kind, i);
            let x = model::of_kind(ctx, init, kind)[i];
            let k = init.index_of(x);
            assert(ops[k] == x);
        } else {
            assert(ops[ops.len() - 1] == model::of_kind(ctx, ops, kind)[i]);
        }
    }
}

/// Where the body of a machine is, and that each state of the machine stands in
/// it.
proof fn lemma_states(ctx: &Context, m: OpPtr)
    requires
        ctx.wf(),
        ctx.has_op(m),
        ctx.op(m).kind == OpKind::Machine,
    ensures
        ctx.has_block(model::body(ctx, m)),
        ctx.block(model::body(ctx, m)).parent == Some(ctx.op(m).regions@[0]),
        ctx.has_region(ctx.op(m).regions@[0]),
        ctx.region(ctx.op(m).regions@[0]).parent == m,
        ctx.block_ok(model::body(ctx, m).idx as int),
        forall|i: int|
            0 <= i < model::states(ctx, m).len() ==> ctx.has_op(#[trigger] model::states(ctx, m)[i])
                && ctx.op(model::states(ctx, m)[i]).kind == OpKind::State && ctx.op(
                model::states(ctx, m)[i],
            ).parent == Some(model::body(ctx, m)) && ctx.parent_op(model::states(ctx, m)[i]) == Some(
                m,
            ),
{
    assert(ctx.op_ok(m.idx as int));
    let r = ctx.op(m).regions@[0];
    assert(ctx.has_region(r));
    assert(ctx.region_ok(r.idx as int));
    let b = model::body(ctx, m);
    assert(ctx.region(r).blocks@[0] == b);
    assert(ctx.block_ok(b.idx as int));
    let ops = ctx.block(b).ops@;
    assert forall|i: int| 0 <= i < model::states(ctx, m).len() implies ctx.has_op(
        #[trigger] model::states(ctx, m)[i],
    ) && ctx.op(model::states(ctx, m)[i]).kind == OpKind::State && ctx.op(
        model::states(ctx, m)[i],
    ).parent == Some(b) && ctx.parent_op(model::states(ctx, m)[i]) == Some(m) by {
        lemma_listed(ctx, ops, OpKind::State, i);
        let k = ops.index_of(model::states(ctx, m)[i]);
        assert(ctx.has_op(ops[k]));
    }
}

/// The transitions of a state stand in its transitions region.
proof fn lemma_transitions(ctx: &Context, s: OpPtr)
    requires
        ctx.wf(),
        ctx.has_op(s),
        ctx.op(s).kind == OpKind::State,
    ensures
        forall|i: int|
            0 <= i < model::transitions(ctx, s).len() ==> ctx.has_op(
                #[trigger] model::transitions(ctx, s)[i],
            ) && ctx.op(model::transitions(ctx, s)[i]).kind == OpKind::Transition && ctx.parent_op(
                model::transitions(ctx, s)[i],
            ) == Some(s) && ctx.parent_region(model::transitions(ctx, s)[i]) == Some(
                ctx.op(s).regions@[1],
            ),
{
    assert(ctx.op_ok(s.idx as int));
    let r = ctx.op(s).regions@[1];
    assert(ctx.has_region(r));
    assert(ctx.region_ok(r.idx as int));
    let ops = model::second_region_ops(ctx, s);
    assert forall|i: int| 0 <= i < model::transitions(ctx, s).len() implies ctx.has_op(
        #[trigger] model::transitions(ctx, s)[i],
    ) && ctx.op(model::transitions(ctx, s)[i]).kind == OpKind::Transition && ctx.parent_op(
        model::transitions(ctx, s)[i],
    ) == Some(s) && ctx.parent_region(model::transitions(ctx, s)[i]) == Some(r) by {
        lemma_listed(ctx, ops, OpKind::Transition, i);
        let b = ctx.region(r).blocks@[0];
        assert(ctx.has_block(b));
        assert(ctx.block_ok(b.idx as int));
        let k = ops.index_of(model::transitions(ctx, s)[i]);
        assert(ctx.has_op(ops[k]));
    }
}

/// In a machine whose states have distinct names, each state is found by its
/// own name.
pub proof fn distinct_states_are_found(ctx: &Context, m: OpPtr, i: int)
    requires
        ctx.wf(),
        ctx.has_op(m),
        ctx.op(m).kind == OpKind::Machine,
        search::first_repeat(model::state_names(ctx, m)) is None,
        0 <= i < model::states(ctx, m).len(),
    ensures
        model::state_named(ctx, m, model::state_names(ctx, m)[i]) == Some(
            model::states(ctx, m)[i],
        ),
{
    let names = model::state_names(ctx, m);
    let states = model::states(ctx, m);
    let want = |s: OpPtr| model::clean(model::state_name(ctx, s)) == model::clean(names[i]);
    search::lemma_no_repeat(names);
    search::lemma_first_where(states, want);
    lemma_states(ctx, m);
    assert(want(states[i]));
    match search::first_where(states, want) {
        Some(p) => {
            let k = choose|k: int| 0 <= k < states.len() && #[trigger] states[k] == p;
            assert(ctx.has_op(states[k]));
            assert(ctx.has_op(states[i]));
            names_are_clean(ctx, states[k]);
            names_are_clean(ctx, states[i]);
            assert(names[k] == names[i]);
        },
        None => {},
    }
}

/// A machine without a fault starts in one of its states, and its states have
/// distinct names.
pub proof fn faultless_machine_has_its_initial_state(ctx: &Context, m: OpPtr)
    requires
        ctx.wf(),
        ctx.has_op(m),
        ctx.op(m).kind == OpKind::Machine,
        model::machine_fault(ctx, m) is None,
    ensures
        model::state_names(ctx, m).contains(model::initial_state(ctx, m)),
        model::state_names(ctx, m).no_duplicates(),
        canonicalization::reachable(ctx, m, model::initial_state(ctx, m)),
{
    search::lemma_no_repeat(model::state_names(ctx, m));
    let run = seq![model::initial_state(ctx, m)];
    assert(canonicalization::is_run(ctx, m, run));
    assert(run.last() == model::initial_state(ctx, m));
}

/// A machine without a fault whose transitions have none either never leaves
/// its states: every name that it can reach is the name of one of them.
pub proof fn faultless_machine_stays_in_its_states(ctx: &Context, m: OpPtr, name: Seq<char>)
    requires
        ctx.wf(),
        ctx.has_op(m),
        ctx.op(m).kind == OpKind::Machine,
        model::machine_fault(ctx, m) is None,
        forall|s: OpPtr, t: OpPtr|
            model::states(ctx, m).contains(s) && #[trigger] model::transitions(ctx, s).contains(t)
                ==> model::transition_fault(ctx, t) is None,
        canonicalization::reachable(ctx, m, name),
    ensures
        model::state_names(ctx, m).contains(name),
{
    let run = choose|run: Seq<Seq<char>>|
        #[trigger] canonicalization::is_run(ctx, m, run) && run.last() == name;
    if run.len() == 1 {
        faultless_machine_has_its_initial_state(ctx, m);
    } else {
        let a = run[run.len() - 2];
        assert(canonicalization::steps(ctx, m, a, run[run.len() - 2 + 1]));
        let states = model::states(ctx, m);
        let from = |s: OpPtr| model::clean(model::state_name(ctx, s)) == model::clean(a);
        search::lemma_first_where(states, from);
        let s = model::state_named(ctx, m, a)->0;
        let i = choose|i: int| 0 <= i < states.len() && #[trigger] states[i] == s;
        assert(states.contains(s));
        lemma_states(ctx, m);
        assert(ctx.has_op(states[i]));
        let ts = model::transitions(ctx, s);
        let k = choose|k: int| 0 <= k < ts.len() && model::next_state(ctx, #[trigger] ts[k]) == name;
        assert(model::transitions(ctx, s).contains(ts[k]));
        lemma_transitions(ctx, s);
        assert(ctx.has_op(model::transitions(ctx, s)[k]));
        assert(model::transition_fault(ctx, ts[k]) is None);
        assert(model::parent_of_kind(ctx, s, OpKind::Machine) == Some(m));
        assert(model::state_named(ctx, m, name) is Some);
        let to = |p: OpPtr| model::clean(model::state_name(ctx, p)) == model::clean(name);
        search::lemma_first_where(states, to);
        let q = model::state_named(ctx, m, name)->0;
        let j = choose|j: int| 0 <= j < states.len() && #[trigger] states[j] == q;
        assert(ctx.has_op(states[j]));
        names_are_clean(ctx, q);
        reachable_names_are_clean(ctx, m, name);
        assert(model::state_names(ctx, m)[j] == name);
    }
}

/// The states that an elimination leaves: those that a run meets, in order.
pub proof fn elimination_keeps_reachable_states(before: &Context, after: &Context, m: OpPtr)
    requires
        before.wf(),
        before.has_op(m),
        before.op(m).kind == OpKind::Machine,
        canonicalization::eliminated(before, after, m),
    ensures
        model::body(after, m) == model::body(before, m),
        model::states(after, m) == model::states(before, m).filter(
            |s: OpPtr| canonicalization::reachable(before, m, model::state_name(before, s)),
        ),
        model::initial_state(after, m) == model::initial_state(before, m),
{
    lemma_states(before, m);
    let b = model::body(before, m);
    let ops = before.block(b).ops@;
    assert(after.op(m) == before.op(m));
    let live = |p: OpPtr| !canonicalization::is_dead(before, m, p);
    let is_state = |p: OpPtr| before.op(p).kind == OpKind::State;
    let both = |p: OpPtr| live(p) && is_state(p);
    let met = |s: OpPtr| canonicalization::reachable(before, m, model::state_name(before, s));
    let both2 = |p: OpPtr| is_state(p) && met(p);
    let left = after.block(b).ops@;
    assert(left == ops.filter(live));
    assert forall|i: int| 0 <= i < left.len() implies (|p: OpPtr|
        after.op(p).kind == OpKind::State)(#[trigger] left[i]) == is_state(left[i]) by {
        canonicalization::lemma_filter_from(ops, live, i);
        let k = ops.index_of(left[i]);
        assert(before.has_op(ops[k]));
        assert(after.op(ops[k]).kind == before.op(ops[k]).kind);
    }
    canonicalization::lemma_filter_same(
        left,
        |p: OpPtr| after.op(p).kind == OpKind::State,
        is_state,
    );
    canonicalization::lemma_filter_both(ops, live, is_state, both);
    canonicalization::lemma_filter_both(ops, is_state, met, both2);
    canonicalization::lemma_filter_same(ops, both, both2);
}

/// A search in a filtered list finds what the search in the whole list finds,
/// where the filter keeps everything that is searched for.
proof fn lemma_first_where_filtered(
    ops: Seq<OpPtr>,
    keep: spec_fn(OpPtr) -> bool,
    want: spec_fn(OpPtr) -> bool,
)
    requires
        forall|i: int| 0 <= i < ops.len() && want(#[trigger] ops[i]) ==> keep(ops[i]),
    ensures
        search::first_where(ops.filter(keep), want) == search::first_where(ops, want),
    decreases ops.len(),
{
    reveal(Seq::filter);
    if ops.len() > 0 {
        let init = ops.drop_last();
        assert forall|i: int| 0 <= i < init.len() && want(#[trigger] init[i]) implies keep(
            init[i],
        ) by {
            assert(init[i] == ops[i]);
        }
        lemma_first_where_filtered(init, keep, want);
        assert(ops[ops.len() - 1] == ops.last());
        if keep(ops.last()) {
            assert(ops.filter(keep).drop_last() =~= init.filter(keep));
        }
    }
}

/// Two searches that look for the same find the same.
proof fn lemma_first_where_same(
    ops: Seq<OpPtr>,
    f: spec_fn(OpPtr) -> bool,
    g: spec_fn(OpPtr) -> bool,
)
    requires
        forall|i: int| 0 <= i < ops.len() ==> f(#[trigger] ops[i]) == g(ops[i]),
    ensures
        search::first_where(ops, f) == search::first_where(ops, g),
    decreases ops.len(),
{
    if ops.len() > 0 {
        let init = ops.drop_last();
        assert forall|i: int| 0 <= i < init.len() implies f(#[trigger] init[i]) == g(init[i]) by {
            assert(init[i] == ops[i]);
        }
        lemma_first_where_same(init, f, g);
        assert(f(ops[ops.len() - 1]) == g(ops[ops.len() - 1]));
    }
}

/// An elimination leaves the state that goes by a reachable name where it was,
/// with the transitions that it had.
pub proof fn elimination_keeps_reachable_behaviour(
    before: &Context,
    after: &Context,
    m: OpPtr,
    a: Seq<char>,
)
    requires
        before.wf(),
        before.has_op(m),
        before.op(m).kind == OpKind::Machine,
        canonicalization::eliminated(before, after, m),
        canonicalization::reachable(before, m, a),
    ensures
        model::state_named(after, m, a) == model::state_named(before, m, a),
        model::state_named(before, m, a) matches Some(s) ==> {
            &&& after.op(s) == before.op(s)
            &&& model::transitions(after, s) == model::transitions(before, s)
            &&& forall|i: int|
                0 <= i < model::transitions(before, s).len() ==> after.op(
                    #[trigger] model::transitions(before, s)[i],
                ) == before.op(model::transitions(before, s)[i])
        },
        forall|b: Seq<char>|
            #[trigger] canonicalization::steps(after, m, a, b) == canonicalization::steps(
                before,
                m,
                a,
                b,
            ),
{
    elimination_keeps_reachable_states(before, after, m);
    lemma_states(before, m);
    reachable_names_are_clean(before, m, a);
    let states = model::states(before, m);
    let met = |s: OpPtr| canonicalization::reachable(before, m, model::state_name(before, s));
    let want = |s: OpPtr| model::clean(model::state_name(before, s)) == model::clean(a);
    let want_after = |s: OpPtr| model::clean(model::state_name(after, s)) == model::clean(a);
    assert forall|i: int| 0 <= i < states.len() && want(#[trigger] states[i]) implies met(
        states[i],
    ) by {
        assert(before.has_op(states[i]));
        names_are_clean(before, states[i]);
    }
    lemma_first_where_filtered(states, met, want);
    let left = model::states(after, m);
    assert forall|i: int| 0 <= i < left.len() implies want(#[trigger] left[i]) == want_after(
        left[i],
    ) by {
        canonicalization::lemma_filter_from(states, met, i);
        let k = states.index_of(left[i]);
        assert(before.has_op(states[k]));
        assert(after.op(states[k]).attributes == before.op(states[k]).attributes);
    }
    lemma_first_where_same(left, want, want_after);
    if let Some(s) = model::state_named(before, m, a) {
        search::lemma_first_where(states, want);
        let i = choose|i: int| 0 <= i < states.len() && #[trigger] states[i] == s;
        assert(want(states[i]));
        assert(before.has_op(states[i]));
        assert(after.op(s) == before.op(s));
        lemma_state_untouched(before, after, m, s);
        assert forall|b: Seq<char>| #[trigger] canonicalization::steps(after, m, a, b)
            == canonicalization::steps(before, m, a, b) by {
            let ts = model::transitions(before, s);
            lemma_transitions(before, s);
            if canonicalization::leads_to(before, s, b) {
                let k = choose|k: int|
                    0 <= k < model::transitions(before, s).len() && model::next_state(
                        before,
                        #[trigger] model::transitions(before, s)[k],
                    ) == b;
                assert(after.op(ts[k]) == before.op(ts[k]));
                assert(model::next_state(after, model::transitions(after, s)[k]) == b);
            }
            if canonicalization::leads_to(after, s, b) {
                let k = choose|k: int|
                    0 <= k < model::transitions(after, s).len() && model::next_state(
                        after,
                        #[trigger] model::transitions(after, s)[k],
                    ) == b;
                assert(after.op(ts[k]) == before.op(ts[k]));
                assert(model::next_state(before, model::transitions(before, s)[k]) == b);
            }
        }
    }
}

/// The transitions of a state are not touched by an elimination.
proof fn lemma_state_untouched(before: &Context, after: &Context, m: OpPtr, s: OpPtr)
    requires
        before.wf(),
        before.has_op(m),
        before.op(m).kind == OpKind::Machine,
        canonicalization::eliminated(before, after, m),
        before.has_op(s),
        before.op(s).kind == OpKind::State,
    ensures
        model::transitions(after, s) == model::transitions(before, s),
        forall|i: int|
            0 <= i < model::transitions(before, s).len() ==> after.op(
                #[trigger] model::transitions(before, s)[i],
            ) == before.op(model::transitions(before, s)[i]),
{
    lemma_states(before, m);
    lemma_transitions(before, s);
    let b = model::body(before, m);
    assert(before.op_ok(s.idx as int));
    let r = before.op(s).regions@[1];
    assert(before.has_region(r));
    assert(before.region_ok(r.idx as int));
    assert(after.op(s).regions == before.op(s).regions);
    let ops = model::second_region_ops(before, s);
    if before.region(r).blocks@.len() > 0 {
        let c = before.region(r).blocks@[0];
        assert(before.has_block(c));
        assert(before.block(c).parent == Some(r));
        assert(c != b);
        assert(after.block(c) == before.block(c));
        assert(before.block_ok(c.idx as int));
        assert forall|i: int| 0 <= i < ops.len() implies (|p: OpPtr|
            after.op(p).kind == OpKind::Transition)(#[trigger] ops[i]) == (|p: OpPtr|
            before.op(p).kind == OpKind::Transition)(ops[i]) by {
            assert(before.has_op(ops[i]));
            assert(after.op(ops[i]).kind == before.op(ops[i]).kind);
        }
    }
    assert(model::second_region_ops(after, s) == ops);
    canonicalization::lemma_filter_same(
        ops,
        |p: OpPtr| after.op(p).kind == OpKind::Transition,
        |p: OpPtr| before.op(p).kind == OpKind::Transition,
    );
    assert forall|i: int| 0 <= i < model::transitions(before, s).len() implies after.op(
        #[trigger] model::transitions(before, s)[i],
    ) == before.op(model::transitions(before, s)[i]) by {
        assert(before.has_op(model::transitions(before, s)[i]));
    }
}

/// The part of a run up to some point is a run.
proof fn lemma_run_prefix(ctx: &Context, m: OpPtr, run: Seq<Seq<char>>, n: int)
    requires
        canonicalization::is_run(ctx, m, run),
        0 < n <= run.len(),
    ensures
        canonicalization::is_run(ctx, m, run.take(n)),
{
    assert forall|i: int| 0 <= i < run.take(n).len() - 1 implies #[trigger] canonicalization::steps(
        ctx,
        m,
        run.take(n)[i],
        run.take(n)[i + 1],
    ) by {
        assert(canonicalization::steps(ctx, m, run[i], run[i + 1]));
    }
}

/// The elimination of unreachable states preserves semantic equivalence: a
/// machine goes through the same runs after it as before.
pub proof fn elimination_preserves_runs(
    before: &Context,
    after: &Context,
    m: OpPtr,
    run: Seq<Seq<char>>,
)
    requires
        before.wf(),
        before.has_op(m),
        before.op(m).kind == OpKind::Machine,
        canonicalization::eliminated(before, after, m),
    ensures
        canonicalization::is_run(before, m, run) <==> canonicalization::is_run(after, m, run),
    decreases run.len(),
{
    elimination_keeps_reachable_states(before, after, m);
    if run.len() > 1 {
        let init = run.drop_last();
        let n = run.len() - 1;
        assert(init == run.take(n));
        elimination_preserves_runs(before, after, m, init);
        if canonicalization::is_run(before, m, run) {
            lemma_run_prefix(before, m, run, n);
        }
        if canonicalization::is_run(after, m, run) {
            lemma_run_prefix(after, m, run, n);
        }
        if canonicalization::is_run(before, m, init) {
            assert(canonicalization::reachable(before, m, init.last()));
            elimination_keeps_reachable_behaviour(before, after, m, init.last());
            if canonicalization::is_run(before, m, run) {
                assert(canonicalization::steps(before, m, run[n - 1], run[n - 1 + 1]));
                assert forall|i: int| 0 <= i < run.len() - 1 implies #[trigger] canonicalization::steps(
                    after,
                    m,
                    run[i],
                    run[i + 1],
                ) by {
                    if i < n - 1 {
                        assert(canonicalization::steps(after, m, init[i], init[i + 1]));
                    }
                }
            }
            if canonicalization::is_run(after, m, run) {
                assert(canonicalization::steps(after, m, run[n - 1], run[n - 1 + 1]));
                assert forall|i: int| 0 <= i < run.len() - 1 implies #[trigger] canonicalization::steps(
                    before,
                    m,
                    run[i],
                    run[i + 1],
                ) by {
                    if i < n - 1 {
                        assert(canonicalization::steps(before, m, init[i], init[i + 1]));
                    }
                }
            }
        }
    }
}

/// The names that a machine can reach are the same before and after an
/// elimination.
pub proof fn elimination_preserves_reachability(
    before: &Context,
    after: &Context,
    m: OpPtr,
    name: Seq<char>,
)
    requires
        before.wf(),
        before.has_op(m),
        before.op(m).kind == OpKind::Machine,
        canonicalization::eliminated(before, after, m),
    ensures
        canonicalization::reachable(before, m, name) <==> canonicalization::reachable(
            after,
            m,
            name,
        ),
{
    if canonicalization::reachable(before, m, name) {
        let run = choose|run: Seq<Seq<char>>|
            #[trigger] canonicalization::is_run(before, m, run) && run.last() == name;
        elimination_preserves_runs(before, after, m, run);
    }
    if canonicalization::reachable(after, m, name) {
        let run = choose|run: Seq<Seq<char>>|
            #[trigger] canonicalization::is_run(after, m, run) && run.last() == name;
        elimination_preserves_runs(before, after, m, run);
    }
}

/// After an elimination no state is unreachable, so a second one removes
/// nothing.
pub proof fn elimination_is_complete(before: &Context, after: &Context, m: OpPtr)
    requires
        before.wf(),
        before.has_op(m),
        before.op(m).kind == OpKind::Machine,
        canonicalization::eliminated(before, after, m),
    ensures
        canonicalization::unreachable_names(after, m).len() == 0,
{
    elimination_keeps_reachable_states(before, after, m);
    lemma_states(before, m);
    let states = model::states(before, m);
    let met = |s: OpPtr| canonicalization::reachable(before, m, model::state_name(before, s));
    let names = model::state_names(after, m);
    assert forall|i: int| 0 <= i < names.len() implies canonicalization::reachable(
        after,
        m,
        #[trigger] names[i],
    ) by {
        let s = model::states(after, m)[i];
        canonicalization::lemma_filter_from(states, met, i);
        let k = states.index_of(s);
        assert(before.has_op(states[k]));
        assert(after.op(states[k]).attributes == before.op(states[k]).attributes);
        elimination_preserves_reachability(before, after, m, names[i]);
    }
    lemma_filter_none(names, |name: Seq<char>| !canonicalization::reachable(after, m, name));
}

/// A filter that nothing passes keeps nothing.
proof fn lemma_filter_none(s: Seq<Seq<char>>, f: spec_fn(Seq<char>) -> bool)
    requires
        forall|i: int| 0 <= i < s.len() ==> !f(#[trigger] s[i]),
    ensures
        s.filter(f).len() == 0,
    decreases s.len(),
{
    reveal(Seq::filter);
    if s.len() > 0 {
        assert forall|i: int| 0 <= i < s.drop_last().len() implies !f(
            #[trigger] s.drop_last()[i],
        ) by {
            assert(s.drop_last()[i] == s[i]);
        }
        lemma_filter_none(s.drop_last(), f);
        assert(!f(s[s.len() - 1]));
    }
}

/// The initial state of a machine without a fault survives the elimination.
pub proof fn elimination_keeps_the_initial_state(before: &Context, after: &Context, m: OpPtr)
    requires
        before.wf(),
        before.has_op(m),
        before.op(m).kind == OpKind::Machine,
        model::machine_fault(before, m) is None,
        canonicalization::eliminated(before, after, m),
    ensures
        model::state_names(after, m).contains(model::initial_state(after, m)),
{
    faultless_machine_has_its_initial_state(before, m);
    elimination_keeps_reachable_states(before, after, m);
    lemma_states(before, m);
    let states = model::states(before, m);
    let initial = model::initial_state(before, m);
    let met = |s: OpPtr| canonicalization::reachable(before, m, model::state_name(before, s));
    let i = model::state_names(before, m).index_of(initial);
    let s = states[i];
    assert(model::state_name(before, s) == initial);
    assert(states.contains(s));
    canonicalization::lemma_filter_keeps(states, met, s);
    let j = model::states(after, m).index_of(s);
    assert(before.has_op(states[i]));
    assert(after.op(s).attributes == before.op(s).attributes);
    assert(model::state_names(after, m)[j] == initial);
}

/// The output of a state is not touched by an elimination.
proof fn lemma_output_untouched(before: &Context, after: &Context, m: OpPtr, s: OpPtr)
    requires
        before.wf(),
        before.has_op(m),
        before.op(m).kind == OpKind::Machine,
        canonicalization::eliminated(before, after, m),
        before.has_op(s),
        before.op(s).kind == OpKind::State,
    ensures
        model::output_op(after, s) == model::output_op(before, s),
{
    lemma_states(before, m);
    let b = model::body(before, m);
    assert(before.op_ok(s.idx as int));
    let r = before.op(s).regions@[0];
    assert(before.has_region(r));
    assert(before.region_ok(r.idx as int));
    assert(after.op(s).regions == before.op(s).regions);
    let ops = model::first_region_ops(before, s);
    let is_output = |p: OpPtr| model::is_kind(before, p, OpKind::Output);
    let is_output_after = |p: OpPtr| model::is_kind(after, p, OpKind::Output);
    if before.region(r).blocks@.len() > 0 {
        let c = before.region(r).blocks@[0];
        assert(before.has_block(c));
        assert(before.block(c).parent == Some(r));
        assert(c != b);
        assert(after.block(c) == before.block(c));
        assert(before.block_ok(c.idx as int));
        assert forall|i: int| 0 <= i < ops.len() implies is_output_after(#[trigger] ops[i])
            == is_output(ops[i]) by {
            assert(before.has_op(ops[i]));
            assert(after.op(ops[i]).kind == before.op(ops[i]).kind);
        }
    }
    assert(model::first_region_ops(after, s) == ops);
    lemma_first_where_same(ops, is_output_after, is_output);
}

/// A machine without a fault has none after the elimination either.
pub proof fn elimination_keeps_machines_faultless(before: &Context, after: &Context, m: OpPtr)
    requires
        before.wf(),
        before.has_op(m),
        before.op(m).kind == OpKind::Machine,
        model::machine_fault(before, m) is None,
        canonicalization::eliminated(before, after, m),
    ensures
        model::machine_fault(after, m) is None,
{
    elimination_keeps_the_initial_state(before, after, m);
    elimination_keeps_reachable_states(before, after, m);
    lemma_states(before, m);
    let b = model::body(before, m);
    let states = model::states(before, m);
    let names = model::state_names(before, m);
    let left = model::states(after, m);
    let left_names = model::state_names(after, m);
    let met = |s: OpPtr| canonicalization::reachable(before, m, model::state_name(before, s));
    assert(after.op(m) == before.op(m));
    assert(before.op_ok(m.idx as int));
    assert(before.has_region(before.op(m).regions@[0]));
    assert(before.region_ok(before.op(m).regions@[0].idx as int));
    assert(before.block_ok(b.idx as int));
    assert(model::signature(after, m) == model::signature(before, m));
    search::lemma_no_repeat(names);
    canonicalization::lemma_filter_distinct(
        before.block(b).ops@,
        |p: OpPtr| before.op(p).kind == OpKind::State,
    );
    canonicalization::lemma_filter_distinct(states, met);
    assert forall|i: int| 0 <= i < left.len() implies states.contains(#[trigger] left[i])
        && left_names[i] == names[states.index_of(left[i])] && model::output_op(after, left[i])
        == model::output_op(before, left[i]) by {
        canonicalization::lemma_filter_from(states, met, i);
        let k = states.index_of(left[i]);
        assert(before.has_op(states[k]));
        assert(after.op(states[k]).attributes == before.op(states[k]).attributes);
        lemma_output_untouched(before, after, m, states[k]);
    }
    assert forall|i: int, j: int|
        0 <= i < left_names.len() && 0 <= j < left_names.len() && i != j implies left_names[i]
        != left_names[j] by {
        assert(left[i] != left[j]);
        assert(states.index_of(left[i]) != states.index_of(left[j]));
    }
    search::lemma_no_repeat(left_names);
    let silent = |s: OpPtr| model::output_op(before, s) is None;
    let silent_after = |s: OpPtr| model::output_op(after, s) is None;
    search::lemma_first_where(states, silent);
    search::lemma_first_where(left, silent_after);
    if model::result_types(before, m).len() > 0 {
        assert forall|i: int| 0 <= i < left.len() implies !silent_after(#[trigger] left[i]) by {
            let k = states.index_of(left[i]);
            assert(states[k] == left[i]);
            assert(!silent(states[k]));
        }
    }
}

/// What a filter keeps and what the opposite filter keeps of the names add up.
proof fn lemma_filter_parts(
    s: Seq<OpPtr>,
    name: spec_fn(OpPtr) -> Seq<char>,
    f: spec_fn(Seq<char>) -> bool,
)
    ensures
        s.map_values(name).filter(|n: Seq<char>| !f(n)).len() + s.filter(
            |p: OpPtr| f(name(p)),
        ).len() == s.len(),
    decreases s.len(),
{
    reveal(Seq::filter);
    if s.len() > 0 {
        lemma_filter_parts(s.drop_last(), name, f);
        assert(s.map_values(name).drop_last() =~= s.drop_last().map_values(name));
        assert(s.map_values(name).last() == name(s.last()));
    }
}

/// An elimination removes as many states as there are names of unreachable states.
pub proof fn elimination_counts_what_is_gone(before: &Context, after: &Context, m: OpPtr)
    requires
        before.wf(),
        before.has_op(m),
        before.op(m).kind == OpKind::Machine,
        canonicalization::eliminated(before, after, m),
    ensures
        canonicalization::unreachable_names(before, m).len() == model::states(before, m).len()
            - model::states(after, m).len(),
{
    elimination_keeps_reachable_states(before, after, m);
    let states = model::states(before, m);
    let name = |s: OpPtr| model::state_name(before, s);
    let met = |n: Seq<char>| canonicalization::reachable(before, m, n);
    lemma_filter_parts(states, name, met);
    assert(states.filter(|s: OpPtr| met(name(s))) == model::states(after, m)) by {
        canonicalization::lemma_filter_same(
            states,
            |s: OpPtr| met(name(s)),
            |s: OpPtr| canonicalization::reachable(before, m, model::state_name(before, s)),
        );
    }
    let names = model::state_names(before, m);
    assert(names == states.map_values(name));
    lemma_names_filter_same(
        names,
        |n: Seq<char>| !met(n),
        |n: Seq<char>| !canonicalization::reachable(before, m, n),
    );
}

/// Two filters that agree on a list of names keep the same of it.
proof fn lemma_names_filter_same(
    s: Seq<Seq<char>>,
    f: spec_fn(Seq<char>) -> bool,
    g: spec_fn(Seq<char>) -> bool,
)
    requires
        forall|n: Seq<char>| #[trigger] f(n) == g(n),
    ensures
        s.filter(f) == s.filter(g),
    decreases s.len(),
{
    reveal(Seq::filter);
    if s.len() > 0 {
        lemma_names_filter_same(s.drop_last(), f, g);
        assert(f(s.last()) == g(s.last()));
    }
}

/// Whether a region of an operation holds the same operations in two contexts, and
/// each of them is the same.
pub open spec fn same_inside(before: &Context, after: &Context, p: OpPtr, k: int) -> bool {
    let ops = before.entry_ops(before.op(p).regions@[k]);
    &&& after.entry_ops(after.op(p).regions@[k]) == ops
    &&& forall|i: int|
        0 <= i < ops.len() ==> before.has_op(#[trigger] ops[i]) && after.op(ops[i]) == before.op(
            ops[i],
        )
}

/// What stands inside another operation than the machine is not touched by an
/// elimination.
proof fn lemma_inside_untouched(before: &Context, after: &Context, m: OpPtr, p: OpPtr, k: int)
    requires
        before.wf(),
        before.has_op(m),
        before.op(m).kind == OpKind::Machine,
        canonicalization::eliminated(before, after, m),
        before.has_op(p),
        p != m,
        0 <= k < before.op(p).regions@.len(),
    ensures
        same_inside(before, after, p, k),
{
    lemma_states(before, m);
    let b = model::body(before, m);
    assert(before.op_ok(p.idx as int));
    let r = before.op(p).regions@[k];
    assert(before.has_region(r));
    assert(before.region_ok(r.idx as int));
    assert(after.op(p).regions == before.op(p).regions);
    let ops = before.entry_ops(r);
    if before.region(r).blocks@.len() > 0 {
        let c = before.region(r).blocks@[0];
        assert(before.has_block(c));
        assert(before.block(c).parent == Some(r));
        assert(c != b);
        assert(after.block(c) == before.block(c));
        assert(before.block_ok(c.idx as int));
        assert forall|i: int| 0 <= i < ops.len() implies before.has_op(#[trigger] ops[i]) && after.op(
            ops[i],
        ) == before.op(ops[i]) by {
            assert(before.has_op(ops[i]));
            assert(before.op(ops[i]).parent == Some(c));
        }
    }
}

/// The action of a transition has the same fault where its operations are the same.
proof fn lemma_action_same(before: &Context, after: &Context, ops: Seq<OpPtr>)
    requires
        forall|i: int| 0 <= i < ops.len() ==> after.op(#[trigger] ops[i]) == before.op(ops[i]),
    ensures
        model::action_fault(after, ops) == model::action_fault(before, ops),
    decreases ops.len(),
{
    if ops.len() > 0 {
        let init = ops.drop_last();
        assert forall|i: int| 0 <= i < init.len() implies after.op(#[trigger] init[i]) == before.op(
            init[i],
        ) by {
            assert(init[i] == ops[i]);
        }
        lemma_action_same(before, after, init);
        assert(after.op(ops[ops.len() - 1]) == before.op(ops[ops.len() - 1]));
        assert forall|i: int| 0 <= i < init.len() implies (|p: OpPtr|
            after.op(p).kind == OpKind::Update)(#[trigger] init[i]) == (|p: OpPtr|
            before.op(p).kind == OpKind::Update)(init[i]) by {
            assert(after.op(init[i]) == before.op(init[i]));
        }
        canonicalization::lemma_filter_same(
            init,
            |p: OpPtr| after.op(p).kind == OpKind::Update,
            |p: OpPtr| before.op(p).kind == OpKind::Update,
        );
        let ups = model::of_kind(before, init, OpKind::Update);
        assert forall|i: int| 0 <= i < ups.len() implies after.op(#[trigger] ups[i]) == before.op(
            ups[i],
        ) by {
            lemma_listed(before, init, OpKind::Update, i);
            let k = init.index_of(ups[i]);
            assert(init[k] == ups[i]);
        }
        assert(model::updated(after, init) =~= model::updated(before, init));
    }
}

/// A state that an elimination leaves was there before, and its name is reachable.
proof fn lemma_kept(before: &Context, after: &Context, m: OpPtr, i: int)
    requires
        before.wf(),
        before.has_op(m),
        before.op(m).kind == OpKind::Machine,
        canonicalization::eliminated(before, after, m),
        0 <= i < model::states(after, m).len(),
    ensures
        model::states(before, m).contains(model::states(after, m)[i]),
        canonicalization::reachable(
            before,
            m,
            model::state_name(before, model::states(after, m)[i]),
        ),
        before.has_op(model::states(after, m)[i]),
        before.op(model::states(after, m)[i]).kind == OpKind::State,
        before.parent_op(model::states(after, m)[i]) == Some(m),
        after.op(model::states(after, m)[i]) == before.op(model::states(after, m)[i]),
        model::states(after, m)[i] != m,
{
    elimination_keeps_reachable_states(before, after, m);
    lemma_states(before, m);
    let states = model::states(before, m);
    let met = |s: OpPtr| canonicalization::reachable(before, m, model::state_name(before, s));
    canonicalization::lemma_filter_from(states, met, i);
    let s = model::states(after, m)[i];
    let k = states.index_of(s);
    assert(before.has_op(states[k]));
    assert(!canonicalization::is_dead(before, m, s));
}

/// What an elimination of unreachable states does and what it keeps. The states
/// that it leaves are those whose names are reachable, in the old order; as many
/// are gone as the number of states has become smaller. The variables, the
/// reachable names, and of each state that is left the outputs and the transitions,
/// with their guards and actions, are what they were.
pub proof fn elimination_keeps_all_else(before: &Context, after: &Context, m: OpPtr)
    requires
        before.wf(),
        before.has_op(m),
        before.op(m).kind == OpKind::Machine,
        canonicalization::eliminated(before, after, m),
    ensures
        model::states(after, m) == model::states(before, m).filter(
            |s: OpPtr| canonicalization::reachable(before, m, model::state_name(before, s)),
        ),
        canonicalization::unreachable_names(before, m).len() == model::states(before, m).len()
            - model::states(after, m).len(),
        model::variables(after, m) == model::variables(before, m),
        forall|i: int|
            0 <= i < model::variables(before, m).len() ==> after.op(
                #[trigger] model::variables(before, m)[i],
            ) == before.op(model::variables(before, m)[i]),
        canonicalization::reachable_names(after, m) == canonicalization::reachable_names(before, m),
        forall|i: int|
            0 <= i < model::states(after, m).len() ==> same_state(
                before,
                after,
                #[trigger] model::states(after, m)[i],
            ),
{
    elimination_keeps_reachable_states(before, after, m);
    elimination_counts_what_is_gone(before, after, m);
    lemma_variables(before, after, m);
    assert forall|name: Seq<char>| canonicalization::reachable_names(after, m).contains(name)
        == canonicalization::reachable_names(before, m).contains(name) by {
        elimination_preserves_reachability(before, after, m, name);
    }
    assert(canonicalization::reachable_names(after, m) =~= canonicalization::reachable_names(
        before,
        m,
    ));
    assert forall|i: int| 0 <= i < model::states(after, m).len() implies same_state(
        before,
        after,
        #[trigger] model::states(after, m)[i],
    ) by {
        lemma_kept(before, after, m, i);
        lemma_same_state(before, after, m, model::states(after, m)[i]);
    }
}

/// Whether a state is the same in two contexts: itself, its output, what stands in
/// its regions, its transitions, and what stands in theirs.
pub open spec fn same_state(before: &Context, after: &Context, s: OpPtr) -> bool {
    &&& after.op(s) == before.op(s)
    &&& same_inside(before, after, s, 0)
    &&& same_inside(before, after, s, 1)
    &&& model::output_op(after, s) == model::output_op(before, s)
    &&& model::transitions(after, s) == model::transitions(before, s)
    &&& forall|k: int|
        0 <= k < model::transitions(before, s).len() ==> same_transition(
            before,
            after,
            #[trigger] model::transitions(before, s)[k],
        )
}

/// Whether a transition is the same in two contexts, with its guard and its action.
pub open spec fn same_transition(before: &Context, after: &Context, t: OpPtr) -> bool {
    &&& after.op(t) == before.op(t)
    &&& same_inside(before, after, t, 0)
    &&& same_inside(before, after, t, 1)
}

proof fn lemma_same_state(before: &Context, after: &Context, m: OpPtr, s: OpPtr)
    requires
        before.wf(),
        before.has_op(m),
        before.op(m).kind == OpKind::Machine,
        canonicalization::eliminated(before, after, m),
        before.has_op(s),
        before.op(s).kind == OpKind::State,
        after.op(s) == before.op(s),
    ensures
        same_state(before, after, s),
{
    assert(before.op_ok(s.idx as int));
    lemma_inside_untouched(before, after, m, s, 0);
    lemma_inside_untouched(before, after, m, s, 1);
    lemma_output_untouched(before, after, m, s);
    lemma_state_untouched(before, after, m, s);
    lemma_transitions(before, s);
    assert forall|k: int| 0 <= k < model::transitions(before, s).len() implies same_transition(
        before,
        after,
        #[trigger] model::transitions(before, s)[k],
    ) by {
        let t = model::transitions(before, s)[k];
        assert(before.has_op(t));
        assert(before.op_ok(t.idx as int));
        lemma_inside_untouched(before, after, m, t, 0);
        lemma_inside_untouched(before, after, m, t, 1);
    }
}

/// An elimination leaves the variables of a machine as they are.
proof fn lemma_variables(before: &Context, after: &Context, m: OpPtr)
    requires
        before.wf(),
        before.has_op(m),
        before.op(m).kind == OpKind::Machine,
        canonicalization::eliminated(before, after, m),
    ensures
        model::variables(after, m) == model::variables(before, m),
        forall|i: int|
            0 <= i < model::variables(before, m).len() ==> after.op(
                #[trigger] model::variables(before, m)[i],
            ) == before.op(model::variables(before, m)[i]),
{
    elimination_keeps_reachable_states(before, after, m);
    lemma_states(before, m);
    let b = model::body(before, m);
    let ops = before.block(b).ops@;
    let live = |p: OpPtr| !canonicalization::is_dead(before, m, p);
    let is_variable = |p: OpPtr| before.op(p).kind == OpKind::Variable;
    let both = |p: OpPtr| live(p) && is_variable(p);
    let left = after.block(b).ops@;
    assert(left == ops.filter(live));
    assert forall|i: int| 0 <= i < left.len() implies (|p: OpPtr|
        after.op(p).kind == OpKind::Variable)(#[trigger] left[i]) == is_variable(left[i]) by {
        canonicalization::lemma_filter_from(ops, live, i);
        let k = ops.index_of(left[i]);
        assert(before.has_op(ops[k]));
        assert(after.op(ops[k]).kind == before.op(ops[k]).kind);
    }
    canonicalization::lemma_filter_same(
        left,
        |p: OpPtr| after.op(p).kind == OpKind::Variable,
        is_variable,
    );
    canonicalization::lemma_filter_both(ops, live, is_variable, both);
    canonicalization::lemma_filter_same(ops, both, is_variable);
    let variables = model::variables(before, m);
    assert forall|i: int| 0 <= i < variables.len() implies after.op(#[trigger] variables[i])
        == before.op(variables[i]) by {
        lemma_listed(before, ops, OpKind::Variable, i);
        let k = ops.index_of(variables[i]);
        assert(before.has_op(ops[k]));
    }
}

/// In a machine whose states have distinct names, a transition of a state that an
/// elimination leaves has no fault afterwards where it had none before: no such
/// transition goes to a state that is gone.
pub proof fn elimination_keeps_transitions_faultless(
    before: &Context,
    after: &Context,
    m: OpPtr,
    s: OpPtr,
    t: OpPtr,
)
    requires
        before.wf(),
        before.has_op(m),
        before.op(m).kind == OpKind::Machine,
        canonicalization::eliminated(before, after, m),
        search::first_repeat(model::state_names(before, m)) is None,
        model::states(after, m).contains(s),
        model::transitions(after, s).contains(t),
        model::transition_fault(before, t) is None,
    ensures
        model::transition_fault(after, t) is None,
{
    let i = model::states(after, m).index_of(s);
    lemma_kept(before, after, m, i);
    lemma_same_state(before, after, m, s);
    lemma_transitions(before, s);
    let states = model::states(before, m);
    let n = states.index_of(s);
    let name = model::state_name(before, s);
    distinct_states_are_found(before, m, n);
    assert(model::state_names(before, m)[n] == name);
    let k = model::transitions(before, s).index_of(t);
    assert(model::transitions(before, s)[k] == t);
    let next = model::next_state(before, t);
    assert(canonicalization::leads_to(before, s, next));
    assert(canonicalization::steps(before, m, name, next));
    canonicalization::lemma_reachable_step(before, m, name, next);
    elimination_keeps_reachable_behaviour(before, after, m, next);
    assert(same_transition(before, after, t));
    lemma_action_same(before, after, model::second_region_ops(before, t));
    assert(before.op_ok(t.idx as int));
    assert(before.op_ok(s.idx as int));
    lemma_same_place(before, after, m, t);
    lemma_same_place(before, after, m, s);
    let guard = model::first_region_ops(before, t);
    if guard.len() > 0 {
        assert(after.op(guard[guard.len() - 1]) == before.op(guard[guard.len() - 1]));
    }
}

/// An operation that an elimination leaves as it is stays where it is.
proof fn lemma_same_place(before: &Context, after: &Context, m: OpPtr, p: OpPtr)
    requires
        before.wf(),
        before.has_op(m),
        before.op(m).kind == OpKind::Machine,
        canonicalization::eliminated(before, after, m),
        before.has_op(p),
        after.op(p) == before.op(p),
    ensures
        after.parent_op(p) == before.parent_op(p),
        after.parent_region(p) == before.parent_region(p),
{
    lemma_states(before, m);
    assert(before.op_ok(p.idx as int));
    let b = model::body(before, m);
    if let Some(c) = before.op(p).parent {
        assert(before.has_block(c));
        if c != b {
            assert(after.block(c) == before.block(c));
        }
    }
}

/// A machine without a fault whose transitions have none either is such a machine
/// after the elimination, too.
pub proof fn elimination_keeps_all_faultless(before: &Context, after: &Context, m: OpPtr)
    requires
        before.wf(),
        before.has_op(m),
        before.op(m).kind == OpKind::Machine,
        canonicalization::eliminated(before, after, m),
        model::machine_fault(before, m) is None,
        forall|s: OpPtr, t: OpPtr|
            model::states(before, m).contains(s) && #[trigger] model::transitions(before, s).contains(
                t,
            ) ==> model::transition_fault(before, t) is None,
    ensures
        model::machine_fault(after, m) is None,
        forall|s: OpPtr, t: OpPtr|
            model::states(after, m).contains(s) && #[trigger] model::transitions(after, s).contains(t)
                ==> model::transition_fault(after, t) is None,
{
    elimination_keeps_machines_faultless(before, after, m);
    assert forall|s: OpPtr, t: OpPtr|
        model::states(after, m).contains(s) && #[trigger] model::transitions(after, s).contains(
            t,
        ) implies model::transition_fault(after, t) is None by {
        let i = model::states(after, m).index_of(s);
        lemma_kept(before, after, m, i);
        lemma_same_state(before, after, m, s);
        assert(model::transitions(before, s).contains(t));
        elimination_keeps_transitions_faultless(before, after, m, s, t);
    }
}

} // verus!
