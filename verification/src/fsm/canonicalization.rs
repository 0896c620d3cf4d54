//! Canonicalization and analysis passes for the `fsm` dialect:
//! - Unreachable state detection and elimination
//! - State graph reachability analysis

use crate::fsm::laws;
use crate::fsm::model;
use crate::fsm::ops::MachineOp;
use crate::ir::context::{Context, OpData, OpKind, OpPtr};
use crate::ir::error::VerifyError;
use std::collections::VecDeque;
use vstd::hash_set::StringHashSet;
use vstd::prelude::*;

verus! {

/// Whether a transition out of the state `s` names `b` as its target.
pub open spec fn leads_to(ctx: &Context, s: OpPtr, b: Seq<char>) -> bool {
    exists|i: int|
        0 <= i < model::transitions(ctx, s).len() && model::next_state(
            ctx,
            #[trigger] model::transitions(ctx, s)[i],
        ) == b
}

/// Whether a machine in the state named `a` can go to the state named `b`.
pub open spec fn steps(ctx: &Context, m: OpPtr, a: Seq<char>, b: Seq<char>) -> bool {
    match model::state_named(ctx, m, a) {
        Some(s) => b.len() > 0 && leads_to(ctx, s, b),
        None => false,
    }
}

/// Whether `run` is a sequence of state names that a machine goes through from
/// its initial state.
pub open spec fn is_run(ctx: &Context, m: OpPtr, run: Seq<Seq<char>>) -> bool {
    &&& run.len() > 0
    &&& run[0] == model::initial_state(ctx, m)
    &&& run[0].len() > 0
    &&& forall|i: int| 0 <= i < run.len() - 1 ==> #[trigger] steps(ctx, m, run[i], run[i + 1])
}

/// Whether some run of a machine ends in `name`.
pub open spec fn reachable(ctx: &Context, m: OpPtr, name: Seq<char>) -> bool {
    exists|run: Seq<Seq<char>>| #[trigger] is_run(ctx, m, run) && run.last() == name
}

/// The names that the runs of a machine meet.
pub open spec fn reachable_names(ctx: &Context, m: OpPtr) -> Set<Seq<char>> {
    Set::new(|name: Seq<char>| reachable(ctx, m, name))
}

/// What one can step to from a reachable name is reachable.
pub proof fn lemma_reachable_step(ctx: &Context, m: OpPtr, a: Seq<char>, b: Seq<char>)
    requires
        reachable(ctx, m, a),
        steps(ctx, m, a, b),
    ensures
        reachable(ctx, m, b),
{
    let run = choose|run: Seq<Seq<char>>| #[trigger] is_run(ctx, m, run) && run.last() == a;
    let longer = run.push(b);
    assert forall|i: int| 0 <= i < longer.len() - 1 implies #[trigger] steps(
        ctx,
        m,
        longer[i],
        longer[i + 1],
    ) by {
        if i < run.len() - 1 {
            assert(steps(ctx, m, run[i], run[i + 1]));
        }
    }
    assert(is_run(ctx, m, longer));
    assert(longer.last() == b);
}

/// The initial state, where it is named, is reachable.
pub proof fn lemma_initial_reachable(ctx: &Context, m: OpPtr)
    requires
        model::initial_state(ctx, m).len() > 0,
    ensures
        reachable(ctx, m, model::initial_state(ctx, m)),
{
    let run = seq![model::initial_state(ctx, m)];
    assert(is_run(ctx, m, run));
    assert(run.last() == model::initial_state(ctx, m));
}

/// A set that holds the initial state and every step from what it holds, holds
/// the end of every run.
pub proof fn lemma_run_in_closed(ctx: &Context, m: OpPtr, set: Set<Seq<char>>, run: Seq<Seq<char>>)
    requires
        is_run(ctx, m, run),
        set.contains(model::initial_state(ctx, m)),
        forall|a: Seq<char>, b: Seq<char>|
            set.contains(a) && #[trigger] steps(ctx, m, a, b) ==> set.contains(b),
    ensures
        set.contains(run.last()),
    decreases run.len(),
{
    if run.len() > 1 {
        let init = run.drop_last();
        assert forall|i: int| 0 <= i < init.len() - 1 implies #[trigger] steps(
            ctx,
            m,
            init[i],
            init[i + 1],
        ) by {
            assert(steps(ctx, m, run[i], run[i + 1]));
        }
        lemma_run_in_closed(ctx, m, set, init);
        assert(steps(ctx, m, run[run.len() - 2], run[run.len() - 2 + 1]));
    }
}

/// Every name that a machine can meet: its initial state and the targets of
/// the operations of the context.
spec fn candidates(ctx: &Context, m: OpPtr) -> Seq<Seq<char>> {
    Seq::new(
        ctx.ops@.len() + 1,
        |i: int|
            if i == 0 {
                model::initial_state(ctx, m)
            } else {
                model::next_state(ctx, OpPtr { idx: (i - 1) as usize })
            },
    )
}

/// Analyze state reachability starting from the initial state of an `fsm.machine`.
///
/// Returns a set of reachable state names.
pub fn compute_reachable_states(ctx: &Context, machine: &MachineOp) -> (r: StringHashSet)
    requires
        machine.valid(ctx),
    ensures
        r@ == reachable_names(ctx, machine.op),
        r@.finite(),
{
    let ghost m = machine.op;
    let mut reached = StringHashSet::new();
    let initial_state = machine.initial_state(ctx);
    if initial_state.as_str().unicode_len() == 0 {
        proof {
            assert forall|name: Seq<char>| !reachable(ctx, m, name) by {
                if reachable(ctx, m, name) {
                    let run = choose|run: Seq<Seq<char>>|
                        #[trigger] is_run(ctx, m, run) && run.last() == name;
                    assert(run[0].len() > 0);
                }
            }
            assert(reached@ =~= reachable_names(ctx, m));
        }
        return reached;
    }
    let ghost all = candidates(ctx, m).to_set();
    let mut queue: VecDeque<String> = VecDeque::new();
    queue.push_back(initial_state.clone());
    reached.insert(initial_state);
    proof {
        vstd::seq_lib::seq_to_set_is_finite(candidates(ctx, m));
        lemma_initial_reachable(ctx, m);
        assert(candidates(ctx, m)[0] == model::initial_state(ctx, m));
        assert(candidates(ctx, m).contains(model::initial_state(ctx, m)));
        assert(queue@[0]@ == model::initial_state(ctx, m));
        assert(ctx.ops@.len() == ctx.ops.len());
    }
    loop
        invariant
            machine.valid(ctx),
            m == machine.op,
            ctx.ops@.len() <= usize::MAX,
            all == candidates(ctx, m).to_set(),
            all.finite(),
            reached@.finite(),
            reached@.subset_of(all),
            reached@.contains(model::initial_state(ctx, m)),
            forall|a: Seq<char>| reached@.contains(a) ==> #[trigger] reachable(ctx, m, a),
            forall|i: int| 0 <= i < queue@.len() ==> reached@.contains((#[trigger] queue@[i])@),
            forall|a: Seq<char>, b: Seq<char>|
                reached@.contains(a) && #[trigger] steps(ctx, m, a, b) ==> reached@.contains(b)
                    || exists|i: int| 0 <= i < queue@.len() && (#[trigger] queue@[i])@ == a,
        ensures
            forall|a: Seq<char>, b: Seq<char>|
                reached@.contains(a) && #[trigger] steps(ctx, m, a, b) ==> reached@.contains(b),
        decreases all.len() - reached@.len(), queue@.len(),
    {
        let ghost queue0 = queue@;
        let ghost reached0 = reached@;
        proof {
            vstd::set_lib::lemma_len_subset(reached@, all);
        }
        let current = match queue.pop_front() {
            Some(c) => c,
            None => {
                assert(queue0.len() == 0);
                break;
            },
        };
        assert(queue@ =~= queue0.skip(1));
        assert(queue0[0] == current);
        assert(reached@.contains(queue0[0]@));
        assert(reachable(ctx, m, current@));
        let found = machine.get_state(ctx, current.as_str());
        if let Some(state) = found {
            let transitions = state.transitions(ctx);
            let ghost ts = model::transitions(ctx, state.op);
            let mut k: usize = 0;
            assert forall|a: Seq<char>, b: Seq<char>|
                reached@.contains(a) && a != current@ && #[trigger] steps(
                    ctx,
                    m,
                    a,
                    b,
                ) implies reached@.contains(b) || exists|i: int|
                0 <= i < queue@.len() && (#[trigger] queue@[i])@ == a by {
                if !reached@.contains(b) {
                    let i = choose|i: int| 0 <= i < queue0.len() && (#[trigger] queue0[i])@ == a;
                    assert(queue@[i - 1] == queue0[i]);
                }
            }
            assert forall|i: int| 0 <= i < queue@.len() implies reached@.contains(
                (#[trigger] queue@[i])@,
            ) by {
                assert(queue@[i] == queue0[i + 1]);
            }
            while k < transitions.len()
                invariant
                    machine.valid(ctx),
                    m == machine.op,
                    ctx.ops@.len() <= usize::MAX,
                    all == candidates(ctx, m).to_set(),
                    all.finite(),
                    reached@.finite(),
                    reached@.subset_of(all),
                    reached@.contains(model::initial_state(ctx, m)),
                    reached0.subset_of(reached@),
                    reached0.finite(),
                    reached@.len() > reached0.len() || (reached@ == reached0 && queue@.len()
                        == queue0.len() - 1),
                    reached@.len() >= reached0.len(),
                    reached@.contains(current@),
                    reachable(ctx, m, current@),
                    model::state_named(ctx, m, current@) == Some(state.op),
                    ts == model::transitions(ctx, state.op),
                    transitions@.len() == ts.len(),
                    forall|j: int|
                        0 <= j < transitions@.len() ==> (#[trigger] transitions@[j]).op == ts[j]
                            && transitions@[j].valid(ctx),
                    k <= transitions@.len(),
                    forall|j: int|
                        0 <= j < k && model::next_state(ctx, #[trigger] ts[j]).len() > 0
                            ==> reached@.contains(model::next_state(ctx, ts[j])),
                    forall|a: Seq<char>| reached@.contains(a) ==> #[trigger] reachable(ctx, m, a),
                    forall|i: int|
                        0 <= i < queue@.len() ==> reached@.contains((#[trigger] queue@[i])@),
                    forall|a: Seq<char>, b: Seq<char>|
                        reached@.contains(a) && a != current@ && #[trigger] steps(ctx, m, a, b)
                            ==> reached@.contains(b) || exists|i: int|
                            0 <= i < queue@.len() && (#[trigger] queue@[i])@ == a,
                decreases transitions@.len() - k,
            {
                let next = transitions[k].next_state(ctx);
                let ghost queue1 = queue@;
                let ghost reached1 = reached@;
                assert(transitions@[k as int].op == ts[k as int]);
                if next.as_str().unicode_len() > 0 {
                    proof {
                        assert(next@ == model::next_state(ctx, ts[k as int]));
                        assert(model::next_state(
                            ctx,
                            model::transitions(ctx, state.op)[k as int],
                        ) == next@);
                        assert(leads_to(ctx, state.op, next@));
                        assert(steps(ctx, m, current@, next@));
                        lemma_reachable_step(ctx, m, current@, next@);
                        let c = candidates(ctx, m);
                        assert(c[ts[k as int].idx as int + 1] == next@);
                        assert(c.contains(next@));
                    }
                    if reached.insert(next.clone()) {
                        queue.push_back(next);
                        assert(queue@ =~= queue1.push(next));
                    }
                    assert forall|a: Seq<char>, b: Seq<char>|
                        reached@.contains(a) && a != current@ && #[trigger] steps(
                            ctx,
                            m,
                            a,
                            b,
                        ) implies reached@.contains(b) || exists|i: int|
                        0 <= i < queue@.len() && (#[trigger] queue@[i])@ == a by {
                        if reached1.contains(a) {
                            if !reached1.contains(b) {
                                let i = choose|i: int|
                                    0 <= i < queue1.len() && (#[trigger] queue1[i])@ == a;
                                assert(queue@[i] == queue1[i]);
                            }
                        } else {
                            assert(queue@[queue@.len() - 1]@ == a);
                        }
                    }
                    assert forall|i: int| 0 <= i < queue@.len() implies reached@.contains(
                        (#[trigger] queue@[i])@,
                    ) by {
                        if i < queue1.len() {
                            assert(queue@[i] == queue1[i]);
                        }
                    }
                }
                k += 1;
            }
            assert forall|a: Seq<char>, b: Seq<char>|
                reached@.contains(a) && #[trigger] steps(ctx, m, a, b) implies reached@.contains(b)
                || exists|i: int| 0 <= i < queue@.len() && (#[trigger] queue@[i])@ == a by {
                if a == current@ {
                    let j = choose|j: int|
                        0 <= j < ts.len() && model::next_state(ctx, #[trigger] ts[j]) == b;
                    assert(reached@.contains(model::next_state(ctx, ts[j])));
                }
            }
            proof {
                vstd::set_lib::lemma_len_subset(reached@, all);
            }
        } else {
            assert forall|a: Seq<char>, b: Seq<char>|
                reached@.contains(a) && #[trigger] steps(ctx, m, a, b) implies reached@.contains(b)
                || exists|i: int| 0 <= i < queue@.len() && (#[trigger] queue@[i])@ == a by {
                if a != current@ && !reached@.contains(b) {
                    let i = choose|i: int| 0 <= i < queue0.len() && (#[trigger] queue0[i])@ == a;
                    assert(queue@[i - 1] == queue0[i]);
                }
            }
            assert forall|i: int| 0 <= i < queue@.len() implies reached@.contains(
                (#[trigger] queue@[i])@,
            ) by {
                assert(queue@[i] == queue0[i + 1]);
            }
        }
    }
    proof {
        assert forall|name: Seq<char>| reached@.contains(name) <==> reachable_names(
            ctx,
            m,
        ).contains(name) by {
            if reachable(ctx, m, name) {
                let run = choose|run: Seq<Seq<char>>|
                    #[trigger] is_run(ctx, m, run) && run.last() == name;
                lemma_run_in_closed(ctx, m, reached@, run);
            }
        }
        assert(reached@ =~= reachable_names(ctx, m));
    }
    reached
}

/// The names of the states of a machine that no run meets, in order.
pub open spec fn unreachable_names(ctx: &Context, m: OpPtr) -> Seq<Seq<char>> {
    model::state_names(ctx, m).filter(|name: Seq<char>| !reachable(ctx, m, name))
}

/// The texts of some strings.
pub open spec fn texts(v: Seq<String>) -> Seq<Seq<char>> {
    v.map_values(|s: String| s@)
}

/// Check if an `fsm.machine` has any unreachable states.
pub fn find_unreachable_states(ctx: &Context, machine: &MachineOp) -> (r: Vec<String>)
    requires
        machine.valid(ctx),
    ensures
        texts(r@) == unreachable_names(ctx, machine.op),
{
    let reached = compute_reachable_states(ctx, machine);
    let states = machine.states(ctx);
    let ghost names = model::state_names(ctx, machine.op);
    let ghost keep = |name: Seq<char>| !reachable(ctx, machine.op, name);
    let mut out: Vec<String> = Vec::new();
    let mut i: usize = 0;
    proof {
        reveal(Seq::filter);
        assert(texts(out@) =~= names.take(0).filter(keep));
    }
    while i < states.len()
        invariant
            machine.valid(ctx),
            reached@ == reachable_names(ctx, machine.op),
            names == model::state_names(ctx, machine.op),
            keep == (|name: Seq<char>| !reachable(ctx, machine.op, name)),
            states@.len() == names.len(),
            forall|j: int|
                0 <= j < states@.len() ==> (#[trigger] states@[j]).op == model::states(
                    ctx,
                    machine.op,
                )[j] && states@[j].valid(ctx),
            i <= states@.len(),
            texts(out@) == names.take(i as int).filter(keep),
        decreases states@.len() - i,
    {
        let name = states[i].state_name(ctx);
        let ghost before = out@;
        proof {
            reveal(Seq::filter);
            assert(names.take(i + 1).drop_last() =~= names.take(i as int));
            assert(name@ == names[i as int]);
        }
        if !reached.contains(name.as_str()) {
            out.push(name);
            assert(texts(out@) =~= texts(before).push(names[i as int]));
        }
        i += 1;
    }
    assert(names.take(i as int) == names);
    out
}

/// Whether an operation is a state that no run of the machine meets.
pub open spec fn is_dead(ctx: &Context, m: OpPtr, p: OpPtr) -> bool {
    ctx.op(p).kind == OpKind::State && !reachable(ctx, m, model::state_name(ctx, p))
}

/// What becomes of a context when the states that no run of the machine `m`
/// meets are taken out of its body, and nothing else changes.
pub open spec fn eliminated(before: &Context, after: &Context, m: OpPtr) -> bool {
    let b = model::body(before, m);
    &&& after.ops@.len() == before.ops@.len()
    &&& forall|p: OpPtr|
        before.has_op(p) ==> #[trigger] after.op(p) == (if is_dead(before, m, p) && before.op(p).parent
            == Some(b) {
            OpData { parent: None, ..before.op(p) }
        } else {
            before.op(p)
        })
    &&& after.block(b).ops@ == before.block(b).ops@.filter(|p: OpPtr| !is_dead(before, m, p))
    &&& after.block(b).args == before.block(b).args
    &&& after.block(b).parent == before.block(b).parent
    &&& after.blocks@ == before.blocks@.update(b.idx as int, after.block(b))
    &&& after.regions == before.regions
    &&& after.types == before.types
}

/// Taking one more element out of a filtered list.
proof fn lemma_filter_without(
    s: Seq<OpPtr>,
    f: spec_fn(OpPtr) -> bool,
    g: spec_fn(OpPtr) -> bool,
    x: OpPtr,
    i: int,
)
    requires
        s.no_duplicates(),
        0 <= i < s.filter(f).len(),
        s.filter(f)[i] == x,
        forall|p: OpPtr| #[trigger] g(p) == (f(p) && p != x),
    ensures
        s.filter(f).remove(i) == s.filter(g),
    decreases s.len(),
{
    reveal(Seq::filter);
    if s.len() > 0 {
        let init = s.drop_last();
        assert(init.no_duplicates());
        if s.last() == x {
            assert(!init.contains(x)) by {
                if init.contains(x) {
                    let j = init.index_of(x);
                    assert(s[j] == s[s.len() - 1]);
                }
            }
            lemma_filter_same(init, f, g);
            if f(x) {
                if i < s.filter(f).len() - 1 {
                    assert(init.filter(f)[i] == x);
                    lemma_filter_from(init, f, i);
                }
                assert(s.filter(f).remove(i) =~= init.filter(f));
            } else {
                lemma_filter_from(init, f, i);
            }
        } else {
            if f(s.last()) {
                assert(s.filter(f) == init.filter(f).push(s.last()));
                if i == s.filter(f).len() - 1 {
                    assert(s.filter(f)[i] == s.last());
                }
                lemma_filter_without(init, f, g, x, i);
                assert(s.filter(f).remove(i) =~= init.filter(f).remove(i).push(s.last()));
            } else {
                lemma_filter_without(init, f, g, x, i);
            }
        }
    }
}

/// What a filter keeps was there.
pub proof fn lemma_filter_from(s: Seq<OpPtr>, f: spec_fn(OpPtr) -> bool, i: int)
    requires
        0 <= i < s.filter(f).len(),
    ensures
        s.contains(s.filter(f)[i]),
        f(s.filter(f)[i]),
    decreases s.len(),
{
    reveal(Seq::filter);
    if s.len() > 0 {
        let init = s.drop_last();
        if i < init.filter(f).len() {
            lemma_filter_from(init, f, i);
            let j = init.index_of(init.filter(f)[i]);
            assert(s[j] == init.filter(f)[i]);
        } else {
            assert(s[s.len() - 1] == s.filter(f)[i]);
        }
    }
}

/// What passes a filter is kept.
pub proof fn lemma_filter_keeps(s: Seq<OpPtr>, f: spec_fn(OpPtr) -> bool, x: OpPtr)
    requires
        s.contains(x),
        f(x),
    ensures
        s.filter(f).contains(x),
    decreases s.len(),
{
    reveal(Seq::filter);
    let k = s.index_of(x);
    let init = s.drop_last();
    if k < s.len() - 1 {
        assert(init[k] == x);
        lemma_filter_keeps(init, f, x);
        let j = init.filter(f).index_of(x);
        assert(s.filter(f)[j] == x);
    } else {
        assert(s.filter(f).last() == x);
        assert(s.filter(f)[s.filter(f).len() - 1] == x);
    }
}

/// Two filters that agree on a list keep the same of it.
pub proof fn lemma_filter_same(s: Seq<OpPtr>, f: spec_fn(OpPtr) -> bool, g: spec_fn(OpPtr) -> bool)
    requires
        forall|i: int| 0 <= i < s.len() ==> f(#[trigger] s[i]) == g(s[i]),
    ensures
        s.filter(f) == s.filter(g),
    decreases s.len(),
{
    reveal(Seq::filter);
    if s.len() > 0 {
        assert forall|i: int| 0 <= i < s.drop_last().len() implies f(#[trigger] s.drop_last()[i])
            == g(s.drop_last()[i]) by {
            assert(s.drop_last()[i] == s[i]);
        }
        lemma_filter_same(s.drop_last(), f, g);
        assert(f(s[s.len() - 1]) == g(s[s.len() - 1]));
    }
}

/// Two filters after one another are one filter.
pub proof fn lemma_filter_both(
    s: Seq<OpPtr>,
    f: spec_fn(OpPtr) -> bool,
    g: spec_fn(OpPtr) -> bool,
    h: spec_fn(OpPtr) -> bool,
)
    requires
        forall|p: OpPtr| #[trigger] h(p) == (f(p) && g(p)),
    ensures
        s.filter(f).filter(g) == s.filter(h),
    decreases s.len(),
{
    reveal(Seq::filter);
    if s.len() > 0 {
        lemma_filter_both(s.drop_last(), f, g, h);
        if f(s.last()) {
            let inner = s.drop_last().filter(f);
            assert(s.filter(f) == inner.push(s.last()));
            assert(inner.push(s.last()).drop_last() == inner);
        }
    }
}

/// A filter brings no element twice.
pub proof fn lemma_filter_distinct(s: Seq<OpPtr>, f: spec_fn(OpPtr) -> bool)
    requires
        s.no_duplicates(),
    ensures
        s.filter(f).no_duplicates(),
    decreases s.len(),
{
    reveal(Seq::filter);
    if s.len() > 0 {
        let init = s.drop_last();
        assert(init.no_duplicates());
        lemma_filter_distinct(init, f);
        if f(s.last()) {
            let kept = init.filter(f);
            assert forall|i: int, j: int|
                0 <= i < s.filter(f).len() && 0 <= j < s.filter(f).len() && i != j implies s.filter(
                f,
            )[i] != s.filter(f)[j] by {
                if i < kept.len() {
                    lemma_filter_from(init, f, i);
                    let k = init.index_of(kept[i]);
                    assert(s[k] == kept[i]);
                }
                if j < kept.len() {
                    lemma_filter_from(init, f, j);
                    let k = init.index_of(kept[j]);
                    assert(s[k] == kept[j]);
                }
            }
        }
    }
}

/// Whether an operation is an unreachable state among the given ones.
spec fn gone(ctx: &Context, m: OpPtr, among: Seq<OpPtr>, p: OpPtr) -> bool {
    is_dead(ctx, m, p) && among.contains(p)
}

/// What is left when the unreachable states among the given ones are taken out.
spec fn eliminated_among(before: &Context, after: &Context, m: OpPtr, among: Seq<OpPtr>) -> bool {
    let b = model::body(before, m);
    &&& after.ops@.len() == before.ops@.len()
    &&& forall|p: OpPtr|
        before.has_op(p) ==> #[trigger] after.op(p) == (if gone(before, m, among, p) {
            OpData { parent: None, ..before.op(p) }
        } else {
            before.op(p)
        })
    &&& after.block(b).ops@ == before.block(b).ops@.filter(
        |p: OpPtr| !gone(before, m, among, p),
    )
    &&& after.block(b).args == before.block(b).args
    &&& after.block(b).parent == before.block(b).parent
    &&& after.blocks@ == before.blocks@.update(b.idx as int, after.block(b))
    &&& after.regions == before.regions
    &&& after.types == before.types
}

/// Remove unreachable states from an `fsm.machine`.
///
/// Preserves semantic equivalence because unreachable states can never be
/// entered during machine execution. Returns how many states were removed: by how
/// many fewer there are.
pub fn eliminate_unreachable_states(ctx: &mut Context, machine: &MachineOp) -> (r: Result<
    usize,
    VerifyError,
>)
    requires
        machine.valid(old(ctx)),
    ensures
        machine.valid(final(ctx)),
        eliminated(old(ctx), final(ctx), machine.op),
        r matches Ok(n) && n == unreachable_names(old(ctx), machine.op).len() && n == model::states(
            old(ctx),
            machine.op,
        ).len() - model::states(final(ctx), machine.op).len(),
{
    let reached = compute_reachable_states(ctx, machine);
    let states = machine.states(ctx);
    let block = machine.get_body(ctx);
    let ghost before = *ctx;
    let ghost m = machine.op;
    let ghost b = model::body(&before, m);
    let ghost ops0 = before.block(b).ops@;
    let ghost states0 = model::states(&before, m);
    let ghost is_state = |p: OpPtr| before.op(p).kind == OpKind::State;
    let ghost names = model::state_names(&before, m);
    let ghost keep = |name: Seq<char>| !reachable(&before, m, name);
    let mut count: usize = 0;
    let mut i: usize = 0;
    proof {
        reveal(Seq::filter);
        assert(before.block_ok(b.idx as int));
        lemma_filter_distinct(ops0, is_state);
        lemma_filter_same(ops0, |p: OpPtr| true, |p: OpPtr| !gone(&before, m, states0.take(0), p));
        lemma_filter_all(ops0);
        assert(ctx.blocks@ =~= before.blocks@.update(b.idx as int, ctx.block(b)));
        assert(names.take(0).filter(keep) =~= Seq::<Seq<char>>::empty());
    }
    while i < states.len()
        invariant
            before == *old(ctx),
            machine.valid(&before),
            before.block_ok(b.idx as int),
            before.has_block(b),
            m == machine.op,
            b == model::body(&before, m),
            ops0 == before.block(b).ops@,
            is_state == (|p: OpPtr| before.op(p).kind == OpKind::State),
            states0 == ops0.filter(is_state),
            states0 == model::states(&before, m),
            states0.no_duplicates(),
            reached@ == reachable_names(&before, m),
            names == model::state_names(&before, m),
            keep == (|name: Seq<char>| !reachable(&before, m, name)),
            states@.len() == states0.len(),
            forall|j: int|
                0 <= j < states@.len() ==> (#[trigger] states@[j]).op == states0[j]
                    && states@[j].valid(&before),
            ctx.wf(),
            i <= states@.len(),
            eliminated_among(&before, ctx, m, states0.take(i as int)),
            count == names.take(i as int).filter(keep).len(),
            count <= i,
        decreases states@.len() - i,
    {
        let ghost p = states0[i as int];
        let ghost among = states0.take(i as int);
        let ghost more = states0.take(i + 1);
        let ghost current = *ctx;
        proof {
            reveal(Seq::filter);
            assert(states@[i as int].op == p);
            assert(before.has_op(p));
            assert(ctx.op(p) == before.op(p) || ctx.op(p).parent is None);
            assert(names.take(i + 1).drop_last() =~= names.take(i as int));
            assert(names[i as int] == model::state_name(&before, p));
            assert(more =~= among.push(p));
        }
        let name = states[i].state_name(ctx);
        assert(name@ == names[i as int]);
        if !reached.contains(name.as_str()) {
            proof {
                assert(is_dead(&before, m, p));
                assert(!among.contains(p)) by {
                    if among.contains(p) {
                        let j = among.index_of(p);
                        assert(states0[j] == states0[i as int]);
                    }
                }
                assert(!gone(&before, m, among, p));
                assert(ctx.op(p) == before.op(p));
                lemma_filter_from(ops0, is_state, i as int);
                let k = ops0.index_of(p);
                assert(before.op(ops0[k]).parent == Some(b));
                let f = |q: OpPtr| !gone(&before, m, among, q);
                let g = |q: OpPtr| !gone(&before, m, more, q);
                lemma_filter_keeps(ops0, f, p);
                assert(ctx.block(b).ops@ == ops0.filter(f));
                let at = ctx.block(b).ops@.index_of(p);
                assert(ctx.block(b).ops@[at] == p);
                assert forall|q: OpPtr| #[trigger] g(q) == (f(q) && q != p) by {
                    lemma_push_contains(among, p, q);
                }
                lemma_filter_without(ops0, f, g, p, at);
            }
            ctx.erase(states[i].op);
            count += 1;
            proof {
                assert forall|q: OpPtr| before.has_op(q) implies #[trigger] ctx.op(q) == (if gone(
                    &before,
                    m,
                    more,
                    q,
                ) {
                    OpData { parent: None, ..before.op(q) }
                } else {
                    before.op(q)
                }) by {
                    lemma_push_contains(among, p, q);
                    assert(current.op(q) == (if gone(&before, m, among, q) {
                        OpData { parent: None, ..before.op(q) }
                    } else {
                        before.op(q)
                    }));
                }
                assert(ctx.block(b).ops@ == ops0.filter(|q: OpPtr| !gone(&before, m, more, q)));
                assert(ctx.blocks@ =~= before.blocks@.update(b.idx as int, ctx.block(b)));
            }
        } else {
            proof {
                assert forall|q: OpPtr| #[trigger] gone(&before, m, more, q) == gone(
                    &before,
                    m,
                    among,
                    q,
                ) by {
                    lemma_push_contains(among, p, q);
                }
                lemma_filter_same(
                    ops0,
                    |q: OpPtr| !gone(&before, m, among, q),
                    |q: OpPtr| !gone(&before, m, more, q),
                );
                assert forall|q: OpPtr| before.has_op(q) implies #[trigger] ctx.op(q) == (if gone(
                    &before,
                    m,
                    more,
                    q,
                ) {
                    OpData { parent: None, ..before.op(q) }
                } else {
                    before.op(q)
                }) by {
                    assert(gone(&before, m, more, q) == gone(&before, m, among, q));
                }
            }
        }
        i += 1;
    }
    proof {
        assert(states0.take(i as int) == states0);
        assert(names.take(i as int) == names);
        assert forall|p: OpPtr| before.has_op(p) implies gone(&before, m, states0, p) == (is_dead(
            &before,
            m,
            p,
        ) && #[trigger] before.op(p).parent == Some(b)) by {
            lemma_member_of_body(&before, m, p);
        }
        assert forall|k: int| 0 <= k < ops0.len() implies !gone(&before, m, states0, #[trigger] ops0[k])
            == !is_dead(&before, m, ops0[k]) by {
            assert(before.op(ops0[k]).parent == Some(b));
            assert(before.has_op(ops0[k]));
        }
        lemma_filter_same(
            ops0,
            |p: OpPtr| !gone(&before, m, states0, p),
            |p: OpPtr| !is_dead(&before, m, p),
        );
        assert(ctx.op(m) == before.op(m));
        laws::elimination_counts_what_is_gone(&before, ctx, m);
    }
    Ok(count)
}

/// A dead state is one of the states of a machine exactly where it stands in
/// the body of the machine.
proof fn lemma_member_of_body(ctx: &Context, m: OpPtr, p: OpPtr)
    requires
        ctx.wf(),
        ctx.has_op(p),
        ctx.has_block(model::body(ctx, m)),
    ensures
        ctx.op(p).kind == OpKind::State ==> (model::states(ctx, m).contains(p) <==> ctx.op(p).parent
            == Some(model::body(ctx, m))),
{
    let b = model::body(ctx, m);
    let ops = ctx.block(b).ops@;
    let is_state = |q: OpPtr| ctx.op(q).kind == OpKind::State;
    assert(ctx.block_ok(b.idx as int));
    assert(ctx.op_ok(p.idx as int));
    if ctx.op(p).kind == OpKind::State {
        if model::states(ctx, m).contains(p) {
            let i = model::states(ctx, m).index_of(p);
            lemma_filter_from(ops, is_state, i);
            let k = ops.index_of(p);
            assert(ctx.op(ops[k]).parent == Some(b));
        }
        if ctx.op(p).parent == Some(b) {
            lemma_filter_keeps(ops, is_state, p);
        }
    }
}

/// A filter that lets everything through changes nothing.
pub proof fn lemma_filter_all(s: Seq<OpPtr>)
    ensures
        s.filter(|p: OpPtr| true) == s,
    decreases s.len(),
{
    reveal(Seq::filter);
    if s.len() > 0 {
        lemma_filter_all(s.drop_last());
        assert(s.drop_last().push(s.last()) =~= s);
    }
}

/// What a list holds when one element is added.
proof fn lemma_push_contains(s: Seq<OpPtr>, x: OpPtr, q: OpPtr)
    ensures
        s.push(x).contains(q) == (s.contains(q) || q == x),
{
    if s.contains(q) {
        let i = s.index_of(q);
        assert(s.push(x)[i] == q);
    }
    if q == x {
        assert(s.push(x)[s.len() as int] == q);
    }
    if s.push(x).contains(q) {
        let i = s.push(x).index_of(q);
        if i < s.len() {
            assert(s[i] == q);
        }
    }
}

} // verus!
