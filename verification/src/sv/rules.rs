//! What lowering makes of each construct, said of the parts of the construct and
//! of the operations that are added for it.

use crate::ir::attributes;
use crate::sv::cst;
use crate::sv::cst::NodeKind;
use crate::sv::declaring;
use crate::sv::laws;
use crate::sv::model;
use crate::sv::model::{State, Tree};
use crate::sv::module;
use crate::sv::module::{Body, ModuleView, OpView, PortView, SvError, SvModule, SvOpKind, SvType};
use crate::sv::parse::ParseView;
use crate::sv::query;
use vstd::prelude::*;

verus! {

/// Whether `c` is `b` with one operation more, which gives a new value of type
/// `ty`.
pub open spec fn adds(
    b: Body,
    c: Body,
    kind: SvOpKind,
    name: Seq<char>,
    operands: Seq<usize>,
    ty: SvType,
) -> bool {
    &&& c.ops.len() == b.ops.len() + 1
    &&& forall|k: int| 0 <= k < b.ops.len() ==> #[trigger] c.ops[k] == b.ops[k]
    &&& c.ops[b.ops.len() as int].kind == kind
    &&& c.ops[b.ops.len() as int].name == name
    &&& c.ops[b.ops.len() as int].callee.len() == 0
    &&& c.ops[b.ops.len() as int].operands == operands
    &&& c.ops[b.ops.len() as int].result == Some(b.types.len() as usize)
    &&& c.types.len() == b.types.len() + 1
    &&& forall|k: int| 0 <= k < b.types.len() ==> #[trigger] c.types[k] == b.types[k]
    &&& c.types[b.types.len() as int] == ty
}

/// Whether a statement makes a name stand for the new value of an operation that
/// is added behind `b`, and leaves every other name as it was.
pub open spec fn defines(
    st: State,
    b: Body,
    s: State,
    kind: SvOpKind,
    name: Seq<char>,
    operands: Seq<usize>,
    ty: SvType,
) -> bool {
    &&& adds(b, s.body, kind, name, operands, ty)
    &&& s.scope.dom().contains(name) && s.scope[name] == b.types.len() as usize
    &&& forall|other: Seq<char>|
        other != name ==> (s.scope.dom().contains(other) == #[trigger] st.scope.dom().contains(
            other,
        ) && (st.scope.dom().contains(other) ==> s.scope[other] == st.scope[other]))
}

/// The first assignment in a statement.
pub open spec fn stored(t: Tree, s: int) -> int {
    t.find(s, seq![NodeKind::ProceduralAssignment])->0
}

/// Whether the first thing of kind `target` below `a` is no more than a name.
pub open spec fn has_plain_target(t: Tree, a: int, target: NodeKind) -> bool {
    let targets = t.kids(a, target);
    &&& targets.len() > 0
    &&& t.find(targets[0], seq![NodeKind::SimpleIdentifier, NodeKind::EscapedIdentifier]) matches Some(
        id,
    ) && t.text(id) == t.text(targets[0])
}

/// Whether the first assignment in a statement gives a value to a name, with the
/// operator `=` or `<=`.
pub open spec fn stores(t: Tree, s: int) -> bool {
    let a = stored(t, s);
    let operators = t.kids(a, NodeKind::AssignmentOperator);
    &&& t.find(s, seq![NodeKind::ProceduralAssignment]) is Some
    &&& operators.len() > 0 ==> t.token(operators[0]) == "="@
    &&& has_plain_target(t, a, NodeKind::VariableLvalue)
    &&& t.kids(a, NodeKind::Expression).len() > 0
}

/// The name that the first assignment in a statement gives a value to.
pub open spec fn stored_name(t: Tree, s: int) -> Seq<char> {
    t.text(t.kids(stored(t, s), NodeKind::VariableLvalue)[0])
}

/// The expression whose value the first assignment in a statement gives.
pub open spec fn stored_value(t: Tree, s: int) -> int {
    let values = t.kids(stored(t, s), NodeKind::Expression);
    values[values.len() - 1]
}

/// Whether a statement is made of one assignment, or of two under one condition,
/// beside blocks and a sensitivity list.
pub open spec fn holds_only(t: Tree, i: int, assignments: nat, conditionals: nat, timed: nat) -> bool {
    let count = |kind: NodeKind|
        query::all_from(t.nodes, i, t.nodes[i].end as int, kind).len();
    &&& t.find(i, seq![NodeKind::BlockItemDeclaration, NodeKind::Delay]) is None
    &&& count(NodeKind::ProceduralAssignment) == assignments
    &&& count(NodeKind::ConditionalStatement) == conditionals
    &&& count(NodeKind::ProceduralTimingControlStatement) == timed
    &&& count(NodeKind::StatementItem) == assignments + conditionals + timed + count(
        NodeKind::SeqBlock,
    )
}

/// The assignment in a statement is taken exactly where it gives a value to a
/// name; the name and the value are its own.
pub proof fn assignments_are_taken_apart(t: Tree, s: int)
    ensures
        model::assignment_in(t, s) is Ok <==> stores(t, s),
        model::assignment_in(t, s) matches Ok((name, value)) ==> name == stored_name(t, s) && value
            == stored_value(t, s),
{
}

/// A clocked statement with a condition is lowered exactly where the condition
/// is that of a reset in scope, the same as in the sensitivity list if a reset
/// stands there; where both branches store to one name; and where it holds
/// nothing else. The register that is added for it has, in order, the clock, the
/// value of the `else` branch, the reset, and the value of the `if` branch,
/// whatever the edge of the reset and whether or not it is asynchronous.
pub proof fn clocked_conditionals_store_the_else_value(
    t: Tree,
    st: State,
    i: int,
    c: int,
    clk: usize,
    event: Option<(Seq<char>, bool)>,
)
    ensures
        ({
            let r = model::with_reset(t, st, i, c, clk, event);
            let branches = t.kids(c, NodeKind::StatementOrNull);
            let reset = model::condition_reset(t, c);
            let at_reset = model::expression(t, st.scope, st.body, stored_value(t, branches[0]));
            let next = model::expression(
                t,
                st.scope,
                at_reset->Ok_0.0,
                stored_value(t, branches[1]),
            );
            &&& r is Ok <==> {
                &&& reset is Ok
                &&& event is Some ==> event == Some(reset->Ok_0)
                &&& st.scope.dom().contains(reset->Ok_0.0)
                &&& branches.len() == 2
                &&& t.kids(c, NodeKind::Keyword).len() % 2 == 0
                &&& stores(t, branches[0]) && stores(t, branches[1])
                &&& stored_name(t, branches[0]) == stored_name(t, branches[1])
                &&& holds_only(t, i, 2, 1, 1)
                &&& at_reset is Ok && next is Ok
            }
            &&& r matches Ok(s) ==> defines(
                st,
                next->Ok_0.0,
                s,
                SvOpKind::AlwaysFf { is_async: event is Some, active_low: reset->Ok_0.1 },
                stored_name(t, branches[1]),
                seq![clk, next->Ok_0.1, st.scope[reset->Ok_0.0], at_reset->Ok_0.1],
                next->Ok_0.0.types[next->Ok_0.1 as int],
            )
        }),
{
}

/// A clocked statement without a condition is lowered exactly where it holds one
/// assignment and nothing else. The register that is added for it has the clock
/// and the assigned value.
pub proof fn clocked_assignments_store_their_value(t: Tree, st: State, i: int, clk: usize)
    ensures
        ({
            let r = model::without_reset(t, st, i, clk);
            let next = model::expression(t, st.scope, st.body, stored_value(t, i));
            &&& r is Ok <==> stores(t, i) && holds_only(t, i, 1, 0, 1) && next is Ok
            &&& r matches Ok(s) ==> defines(
                st,
                next->Ok_0.0,
                s,
                SvOpKind::AlwaysFfNoReset,
                stored_name(t, i),
                seq![clk, next->Ok_0.1],
                next->Ok_0.0.types[next->Ok_0.1 as int],
            )
        }),
{
}

/// A combinational block is lowered exactly where it holds one assignment and
/// nothing else. The operation that is added for it has the assigned value.
pub proof fn combinational_blocks_take_their_value(t: Tree, st: State, i: int)
    ensures
        ({
            let r = model::always_comb(t, st, i);
            let value = model::expression(t, st.scope, st.body, stored_value(t, i));
            &&& r is Ok <==> stores(t, i) && holds_only(t, i, 1, 0, 0) && value is Ok
            &&& r matches Ok(s) ==> defines(
                st,
                value->Ok_0.0,
                s,
                SvOpKind::AlwaysComb,
                stored_name(t, i),
                seq![value->Ok_0.1],
                value->Ok_0.0.types[value->Ok_0.1 as int],
            )
        }),
{
}

/// The events of a sensitivity list.
pub open spec fn events(t: Tree, i: int) -> Seq<int> {
    query::all_from(t.nodes, i, t.nodes[i].end as int, NodeKind::Event)
}

/// Whether an event is an edge of one signal.
pub open spec fn is_edge(t: Tree, e: int, edge: Seq<char>, signal: Seq<char>) -> bool {
    let edges = t.kids(e, NodeKind::EdgeIdentifier);
    let signals = t.kids(e, NodeKind::Expression);
    &&& edges.len() > 0 && t.token(edges[0]) == edge
    &&& signals.len() == 1 && t.text(signals[0]) == signal
}

/// A sensitivity list is taken exactly where it holds one event, a rising edge
/// of the clock, or behind it a second one, an edge of the reset: the falling
/// one for a reset that is active low, the rising one for another.
pub proof fn sensitivity_lists_hold_a_clock_and_a_reset(
    t: Tree,
    i: int,
    clock: Seq<char>,
    reset: Seq<char>,
)
    ensures
        model::sensitivity(t, i) == Ok::<(Seq<char>, Option<(Seq<char>, bool)>), Seq<char>>(
            (clock, None),
        ) <==> {
            &&& t.find(i, seq![NodeKind::OtherEvent]) is None
            &&& events(t, i).len() == 1
            &&& is_edge(t, events(t, i)[0], "posedge"@, clock)
        },
        model::sensitivity(t, i) == Ok::<(Seq<char>, Option<(Seq<char>, bool)>), Seq<char>>(
            (clock, Some((reset, true))),
        ) <==> {
            &&& t.find(i, seq![NodeKind::OtherEvent]) is None
            &&& events(t, i).len() == 2
            &&& is_edge(t, events(t, i)[0], "posedge"@, clock)
            &&& is_edge(t, events(t, i)[1], "negedge"@, reset)
        },
        model::sensitivity(t, i) == Ok::<(Seq<char>, Option<(Seq<char>, bool)>), Seq<char>>(
            (clock, Some((reset, false))),
        ) <==> {
            &&& t.find(i, seq![NodeKind::OtherEvent]) is None
            &&& events(t, i).len() == 2
            &&& is_edge(t, events(t, i)[0], "posedge"@, clock)
            &&& is_edge(t, events(t, i)[1], "posedge"@, reset)
        },
{
    reveal_strlit("posedge");
    reveal_strlit("negedge");
    assert("posedge"@[0] != "negedge"@[0]);
    assert(Seq::<char>::empty().len() != "posedge"@.len());
    assert(Seq::<char>::empty().len() != "negedge"@.len());
}

/// A clocked block is lowered from its sensitivity list and its statement. The
/// clock is a name in scope that stands for a clock or for a single bit, and it
/// is the first operand of the register; a block with a condition has a reset,
/// asynchronous exactly where the sensitivity list holds one.
pub proof fn clocked_blocks_are_clocked_by_their_list(t: Tree, st: State, i: int)
    ensures
        ({
            let r = model::always_ff(t, st, i);
            let timed = t.find(i, seq![NodeKind::ProceduralTimingControlStatement]);
            let controls = t.kids(timed->0, NodeKind::ProceduralTimingControl);
            let list = model::sensitivity(t, controls[0]);
            let clk = st.scope[list->Ok_0.0];
            let ready = {
                &&& timed is Some
                &&& controls.len() > 0
                &&& list is Ok
                &&& st.scope.dom().contains(list->Ok_0.0)
                &&& (st.body.types[clk as int] is Clock || st.body.types[clk as int] == (
                SvType::Integer { width: 1 }))
            };
            &&& r is Ok ==> ready
            &&& ready ==> match t.find(i, seq![NodeKind::ConditionalStatement]) {
                Some(c) => r == model::with_reset(t, st, i, c, clk, list->Ok_0.1),
                None => if list->Ok_0.1 is Some {
                    r is Err
                } else {
                    r == model::without_reset(t, st, i, clk)
                },
            }
            &&& r matches Ok(s) ==> {
                let last = s.body.ops[s.body.ops.len() - 1];
                &&& last.operands[0] == clk
                &&& match t.find(i, seq![NodeKind::ConditionalStatement]) {
                    Some(_) => last.operands.len() == 4 && (last.kind matches SvOpKind::AlwaysFf {
                        is_async,
                        ..
                    } && is_async == (list->Ok_0.1 is Some)),
                    None => last.operands.len() == 2 && last.kind == SvOpKind::AlwaysFfNoReset,
                }
            }
        }),
{
}

/// A procedural block is lowered as its keyword says, from its first statement,
/// and only the combinational and the clocked ones are.
pub proof fn blocks_are_lowered_by_their_keyword(t: Tree, st: State, i: int)
    ensures
        ({
            let r = model::always_construct(t, st, i);
            let keywords = t.kids(i, NodeKind::AlwaysKeyword);
            let statements = t.kids(i, NodeKind::Statement);
            let there = keywords.len() > 0 && statements.len() > 0;
            &&& there && t.token(keywords[0]) == "always_comb"@ ==> r == model::always_comb(
                t,
                st,
                statements[0],
            )
            &&& there && t.token(keywords[0]) == "always_ff"@ ==> r == model::always_ff(
                t,
                st,
                statements[0],
            )
            &&& r is Ok ==> there && (t.token(keywords[0]) == "always_comb"@ || t.token(keywords[0])
                == "always_ff"@)
        }),
{
    reveal_strlit("always_comb");
    reveal_strlit("always_ff");
    assert("always_comb"@.len() != "always_ff"@.len());
}

/// A continuous assignment is lowered exactly where it holds one assignment of a
/// value to a name, without a delay. The operation that is added for it has the
/// assigned value.
pub proof fn assignments_take_their_value(t: Tree, st: State, i: int)
    ensures
        ({
            let r = model::continuous_assign(t, st, i);
            let nets = t.kids(i, NodeKind::ContinuousAssignNet);
            let variables = t.kids(i, NodeKind::ContinuousAssignVariable);
            let whole = if nets.len() > 0 {
                nets[0]
            } else {
                variables[0]
            };
            let kind = if nets.len() > 0 {
                NodeKind::NetAssignment
            } else {
                NodeKind::VariableAssignment
            };
            let target = if nets.len() > 0 {
                NodeKind::NetLvalue
            } else {
                NodeKind::VariableLvalue
            };
            let each = query::all_from(t.nodes, whole, t.nodes[whole].end as int, kind);
            let values = t.kids(each[0], NodeKind::Expression);
            let value = model::expression(t, st.scope, st.body, values[values.len() - 1]);
            &&& r is Ok <==> {
                &&& t.find(i, seq![NodeKind::Delay]) is None
                &&& nets.len() + variables.len() > 0
                &&& each.len() == 1
                &&& has_plain_target(t, each[0], target)
                &&& values.len() > 0
                &&& value is Ok
            }
            &&& r matches Ok(s) ==> defines(
                st,
                value->Ok_0.0,
                s,
                SvOpKind::Assign,
                t.text(t.kids(each[0], target)[0]),
                seq![value->Ok_0.1],
                value->Ok_0.0.types[value->Ok_0.1 as int],
            )
        }),
{
}

/// Whether a node of an instance connects something to a port: a connection by
/// place or by name that holds a value, or one by name alone.
pub open spec fn connects(t: Tree, j: int) -> bool {
    let kind = t.nodes[j].kind;
    let values = t.kids(j, NodeKind::Expression);
    ||| kind == NodeKind::OrderedPortConnection && values.len() > 0
    ||| kind == NodeKind::NamedPortConnectionIdentifier && t.kids(j, NodeKind::Symbol).len() >= 2
        && values.len() > 0
    ||| by_name_alone(t, j)
}

/// Whether a node connects the value of its own name, as `.name` does.
pub open spec fn by_name_alone(t: Tree, j: int) -> bool {
    t.nodes[j].kind == NodeKind::NamedPortConnectionIdentifier && t.kids(j, NodeKind::Symbol).len()
        < 2
}

/// Whether `v` is what a node connects.
pub open spec fn connected_value(t: Tree, scope: Map<Seq<char>, usize>, j: int, v: usize) -> bool {
    if by_name_alone(t, j) {
        let ports = t.kids(j, NodeKind::PortIdentifier);
        let name = if ports.len() > 0 {
            t.text(ports[0])
        } else {
            Seq::empty()
        };
        scope.dom().contains(name) && scope[name] == v
    } else {
        exists|x: Body, y: Body|
            #[trigger] value_at(t, scope, x, t.kids(j, NodeKind::Expression)[0], y, v)
    }
}

/// Whether lowering an expression behind `x` gives the value `v` and the body
/// `y`.
pub open spec fn value_at(
    t: Tree,
    scope: Map<Seq<char>, usize>,
    x: Body,
    e: int,
    y: Body,
    v: usize,
) -> bool {
    model::expression(t, scope, x, e) == Ok::<(Body, usize), Seq<char>>((y, v))
}

/// The places from `i` up to `j` that connect something, in order.
pub open spec fn connecting(t: Tree, i: int, j: int) -> Seq<int> {
    between(i, j).filter(|k: int| connects(t, k))
}

/// The places from `i` up to `j`.
pub open spec fn between(i: int, j: int) -> Seq<int> {
    Seq::new(
        if i < j {
            (j - i) as nat
        } else {
            0
        },
        |k: int| i + k,
    )
}

proof fn lemma_connecting(t: Tree, i: int, j: int)
    requires
        i < j,
    ensures
        connecting(t, i, j) == if connects(t, j - 1) {
            connecting(t, i, j - 1).push(j - 1)
        } else {
            connecting(t, i, j - 1)
        },
{
    reveal(Seq::filter);
    let whole = between(i, j);
    assert(whole.drop_last() =~= between(i, j - 1));
    assert(whole.last() == j - 1);
}

/// The values that the connections of an instance give are one for each of its
/// nodes that connects something, in order and however many there are, and each
/// is what its node connects.
pub proof fn every_connection_gives_its_value(
    t: Tree,
    scope: Map<Seq<char>, usize>,
    b: Body,
    i: int,
    j: int,
)
    ensures
        model::connections(t, scope, b, i, j) matches Ok((c, values)) ==> {
            &&& values.len() == connecting(t, i, j).len()
            &&& forall|k: int|
                0 <= k < values.len() ==> connected_value(
                    t,
                    scope,
                    connecting(t, i, j)[k],
                    #[trigger] values[k],
                )
        },
    decreases j - i,
{
    reveal(Seq::filter);
    if i < j {
        every_connection_gives_its_value(t, scope, b, i, j - 1);
        lemma_connecting(t, i, j);
        if let Ok((b1, before)) = model::connections(t, scope, b, i, j - 1) {
            let e = t.kids(j - 1, NodeKind::Expression)[0];
            if let Ok((b2, given)) = model::connection(t, scope, b1, j - 1) {
                if let Some(v) = given {
                    if !by_name_alone(t, j - 1) {
                        assert(value_at(t, scope, b1, e, b2, v));
                    }
                    assert(connected_value(t, scope, j - 1, v));
                    let values = before.push(v);
                    assert forall|k: int| 0 <= k < values.len() implies connected_value(
                        t,
                        scope,
                        connecting(t, i, j)[k],
                        #[trigger] values[k],
                    ) by {
                        if k < before.len() {
                            assert(values[k] == before[k]);
                        }
                    }
                }
            }
        }
    }
}

/// The places that connect something are all there are, each once and in order.
pub proof fn connecting_places_are_all_in_order(t: Tree, i: int, j: int)
    ensures
        forall|k: int| i <= k < j && connects(t, k) ==> #[trigger] connecting(t, i, j).contains(k),
        forall|a: int|
            0 <= a < connecting(t, i, j).len() ==> i <= #[trigger] connecting(t, i, j)[a] < j
                && connects(t, connecting(t, i, j)[a]),
        forall|a: int, b: int|
            0 <= a < b < connecting(t, i, j).len() ==> #[trigger] connecting(t, i, j)[a]
                < #[trigger] connecting(t, i, j)[b],
    decreases j - i,
{
    reveal(Seq::filter);
    if i < j {
        connecting_places_are_all_in_order(t, i, j - 1);
        lemma_connecting(t, i, j);
        let some = connecting(t, i, j - 1);
        let whole = connecting(t, i, j);
        assert forall|k: int| i <= k < j && connects(t, k) implies #[trigger] whole.contains(k) by {
            if k < j - 1 {
                assert(some.contains(k));
                let a = choose|a: int| 0 <= a < some.len() && some[a] == k;
                assert(whole[a] == k);
            } else {
                assert(whole[some.len() as int] == k);
            }
        }
    }
}

/// An instance adds one operation: an instance of the module under its own name,
/// with the values that its connections give as operands.
pub proof fn instances_have_the_values_of_their_connections(
    t: Tree,
    scope: Map<Seq<char>, usize>,
    b: Body,
    module: Seq<char>,
    i: int,
)
    ensures
        ({
            let r = model::instance(t, scope, b, module, i);
            let given = model::connections(t, scope, b, i, t.nodes[i].end as int);
            let names = t.kids(i, NodeKind::NameOfInstance);
            &&& r is Ok <==> given is Ok
            &&& r matches Ok(c) ==> {
                let before = given->Ok_0.0;
                let last = c.ops[c.ops.len() - 1];
                &&& c.types == before.types
                &&& c.ops.len() == before.ops.len() + 1
                &&& forall|k: int|
                    0 <= k < before.ops.len() ==> #[trigger] c.ops[k] == before.ops[k]
                &&& last.kind == SvOpKind::Instance
                &&& last.callee == module
                &&& last.result is None
                &&& names.len() > 0 ==> last.name == t.text(names[0])
                &&& names.len() == 0 ==> last.name.len() == 0
                &&& last.operands.len() == connecting(t, i, t.nodes[i].end as int).len()
                &&& forall|k: int|
                    0 <= k < last.operands.len() ==> connected_value(
                        t,
                        scope,
                        connecting(t, i, t.nodes[i].end as int)[k],
                        #[trigger] last.operands[k],
                    )
            }
        }),
{
    every_connection_gives_its_value(t, scope, b, i, t.nodes[i].end as int);
}

/// Whether `op` instantiates the module that instantiation `i` names, as the
/// instance at `at` says.
pub open spec fn instantiates(
    t: Tree,
    scope: Map<Seq<char>, usize>,
    i: int,
    at: int,
    op: OpView,
) -> bool {
    let modules = t.kids(i, NodeKind::ModuleIdentifier);
    let names = t.kids(at, NodeKind::NameOfInstance);
    &&& op.kind == SvOpKind::Instance
    &&& modules.len() > 0 ==> op.callee == t.text(modules[0])
    &&& names.len() > 0 ==> op.name == t.text(names[0])
    &&& op.operands.len() == connecting(t, at, t.nodes[at].end as int).len()
    &&& forall|k: int|
        0 <= k < op.operands.len() ==> connected_value(
            t,
            scope,
            connecting(t, at, t.nodes[at].end as int)[k],
            #[trigger] op.operands[k],
        )
}

/// Whether an operation from place `from` on is what the instance at `at` is
/// lowered to.
pub open spec fn is_instantiated(
    t: Tree,
    scope: Map<Seq<char>, usize>,
    i: int,
    at: int,
    ops: Seq<OpView>,
    from: int,
) -> bool {
    exists|o: int|
        from <= o < ops.len() && #[trigger] instantiates(t, scope, i, at, ops[o])
}

proof fn lemma_instances(t: Tree, scope: Map<Seq<char>, usize>, b: Body, i: int, n: nat)
    requires
        n <= t.kids(i, NodeKind::HierarchicalInstance).len(),
    ensures
        model::instances(t, scope, b, i, n) matches Ok(c) ==> b.ops.len() <= c.ops.len() && forall|
            k: int,
        |
            0 <= k < n ==> is_instantiated(
                t,
                scope,
                i,
                #[trigger] t.kids(i, NodeKind::HierarchicalInstance)[k],
                c.ops,
                b.ops.len() as int,
            ),
    decreases n,
{
    if n > 0 {
        lemma_instances(t, scope, b, i, (n - 1) as nat);
        if let Ok(b1) = model::instances(t, scope, b, i, (n - 1) as nat) {
            let all = t.kids(i, NodeKind::HierarchicalInstance);
            let at = all[n - 1];
            let modules = t.kids(i, NodeKind::ModuleIdentifier);
            let module = if modules.len() > 0 {
                t.text(modules[0])
            } else {
                Seq::empty()
            };
            instances_have_the_values_of_their_connections(t, scope, b1, module, at);
            laws::lemma_connections_grow(t, scope, b1, at, t.nodes[at].end as int);
            if let Ok(c) = model::instance(t, scope, b1, module, at) {
                reveal(laws::grown);
                assert(instantiates(t, scope, i, at, c.ops[c.ops.len() - 1]));
                assert forall|k: int| 0 <= k < n implies is_instantiated(
                    t,
                    scope,
                    i,
                    #[trigger] all[k],
                    c.ops,
                    b.ops.len() as int,
                ) by {
                    if k < n - 1 {
                        let o = choose|o: int|
                            b.ops.len() <= o < b1.ops.len() && #[trigger] instantiates(
                                t,
                                scope,
                                i,
                                all[k],
                                b1.ops[o],
                            );
                        assert(c.ops[o] == b1.ops[o]);
                        assert(instantiates(t, scope, i, all[k], c.ops[o]));
                    }
                }
            }
        }
    }
}

/// Every instance of an instantiation is lowered to an operation of its own,
/// with one operand for each connection that connects something. Instantiations
/// with parameter values or dimensions are refused.
pub proof fn every_instance_is_instantiated(t: Tree, st: State, i: int, k: int)
    requires
        0 <= k < t.kids(i, NodeKind::HierarchicalInstance).len(),
    ensures
        model::module_instantiation(t, st, i) matches Ok(s) ==> {
            &&& is_instantiated(
                t,
                st.scope,
                i,
                t.kids(i, NodeKind::HierarchicalInstance)[k],
                s.body.ops,
                st.body.ops.len() as int,
            )
            &&& t.find(i, seq![NodeKind::ParameterValueAssignment]) is None
            &&& t.find(i, seq![NodeKind::Dimension]) is None
        },
{
    lemma_instances(
        t,
        st.scope,
        st.body,
        i,
        t.kids(i, NodeKind::HierarchicalInstance).len(),
    );
}

/// An item of a module is what it holds: an assignment, a net declaration, a
/// data declaration, a procedural block or an instantiation, looked for in that
/// order. An item that holds something else, or nothing of these, is refused.
pub proof fn items_are_lowered_by_what_they_hold(t: Tree, st: State, i: int)
    ensures
        ({
            let r = model::item(t, st, i);
            let assign = t.find(i, seq![NodeKind::ContinuousAssign]);
            let net = t.find(i, seq![NodeKind::NetDeclaration]);
            let data = t.find(i, seq![NodeKind::DataDeclaration]);
            let block = t.find(i, seq![NodeKind::AlwaysConstruct]);
            let instantiation = t.find(i, seq![NodeKind::ModuleInstantiation]);
            if t.find(i, seq![NodeKind::OtherItem]) is Some {
                r is Err
            } else if assign is Some {
                r == model::continuous_assign(t, st, assign->0)
            } else if net is Some {
                r == model::net_declaration(t, st, net->0)
            } else if data is Some {
                r matches Ok(s) && s == st
            } else if block is Some {
                r == model::always_construct(t, st, block->0)
            } else if instantiation is Some {
                r == model::module_instantiation(t, st, instantiation->0)
            } else {
                r is Err
            }
        }),
{
    reveal(model::item);
}

/// The items of a module are lowered one after the other, each on what the ones
/// before it left, and all of them.
pub proof fn items_are_lowered_in_order(t: Tree, st: State, places: Seq<int>, n: nat, k: nat)
    requires
        k < n,
        model::items(t, st, places, n) is Ok,
    ensures
        ({
            let before = model::items(t, st, places, k);
            let after = model::items(t, st, places, k + 1);
            &&& before is Ok && after is Ok
            &&& after == model::item(t, before->Ok_0, places[k as int])
            &&& model::items(t, st, places, 0) matches Ok(s) && s == st
        }),
    decreases n,
{
    if k < n - 1 {
        items_are_lowered_in_order(t, st, places, (n - 1) as nat, k);
    }
}

/// The declarations of a module are made one item after the other, and all of
/// them.
pub proof fn declarations_are_made_in_order(t: Tree, st: State, places: Seq<int>, n: nat, k: nat)
    requires
        k < n,
        model::declarations(t, st, places, n) is Ok,
    ensures
        ({
            let before = model::declarations(t, st, places, k);
            let after = model::declarations(t, st, places, k + 1);
            let list = model::declared(t, places[k as int]);
            &&& before is Ok && after is Ok && list is Ok
            &&& after->Ok_0 == model::declare_all(before->Ok_0, list->Ok_0)
            &&& model::declarations(t, st, places, 0) matches Ok(s) && s == st
        }),
    decreases n,
{
    if k < n - 1 {
        declarations_are_made_in_order(t, st, places, (n - 1) as nat, k);
    }
}

/// A lowered module is the first one with an ANSI header. Its name is the text
/// of the header's identifier; its ports are those that the header declares, in
/// order; its inputs are counted; its body goes on where its items end.
pub proof fn modules_are_what_their_header_says(t: Tree)
    ensures
        model::lowered_module(t) matches Ok(m) ==> {
            let at = query::find_from(
                t.nodes,
                0,
                t.nodes.len() as int,
                seq![NodeKind::ModuleDeclarationAnsi],
            );
            let headers = t.kids(at->0, NodeKind::ModuleAnsiHeader);
            let ids = t.kids(headers[0], NodeKind::ModuleIdentifier);
            let lists = t.kids(headers[0], NodeKind::ListOfPortDeclarations);
            let each = query::all_from(
                t.nodes,
                lists[0],
                t.nodes[lists[0]].end as int,
                NodeKind::AnsiPortDeclaration,
            );
            let places = t.kids(at->0, NodeKind::NonPortModuleItem);
            let read = model::read_outputs(
                t,
                at->0,
                State {
                    body: Body { ops: Seq::empty(), types: model::input_types(m.ports) },
                    scope: model::input_scope(m.ports),
                },
                m.ports,
                m.ports.len(),
            );
            let start = model::declarations(t, read, places, places.len());
            let end = model::items(t, start->Ok_0, places, places.len());
            &&& at is Some && headers.len() > 0 && ids.len() > 0
            &&& m.name == t.text(ids[0]) && m.name.len() > 0
            &&& lists.len() == 0 ==> m.ports.len() == 0
            &&& lists.len() > 0 ==> m.ports.len() == each.len() && forall|k: int|
                0 <= k < each.len() ==> declaring::declares_port(
                    t,
                    each[k],
                    if k == 0 {
                        (true, false)
                    } else {
                        (m.ports[k - 1].is_input, m.ports[k - 1].is_output)
                    },
                    #[trigger] m.ports[k],
                )
            &&& m.num_inputs == declaring::inputs_before(m.ports, m.ports.len() as int)
            &&& start is Ok && end is Ok
            &&& end->Ok_0.body.ops.len() < m.body.ops.len()
            &&& forall|k: int|
                0 <= k < end->Ok_0.body.ops.len() ==> #[trigger] m.body.ops[k]
                    == end->Ok_0.body.ops[k]
            &&& forall|k: nat|
                k < m.ports.len() && (#[trigger] m.ports[k as int]).is_output
                    && end->Ok_0.scope.dom().contains(m.ports[k as int].name)
                    ==> m.body.ops[m.body.ops.len() - 1].operands[laws::output_count(
                    m.ports,
                    k,
                ) as int] == end->Ok_0.scope[m.ports[k as int].name]
        },
{
    if let Ok(m) = model::lowered_module(t) {
        let at = query::find_from(
            t.nodes,
            0,
            t.nodes.len() as int,
            seq![NodeKind::ModuleDeclarationAnsi],
        )->0;
        let header = t.kids(at, NodeKind::ModuleAnsiHeader)[0];
        let lists = t.kids(header, NodeKind::ListOfPortDeclarations);
        if lists.len() > 0 {
            let each = query::all_from(
                t.nodes,
                lists[0],
                t.nodes[lists[0]].end as int,
                NodeKind::AnsiPortDeclaration,
            );
            declaring::ports_follow_their_declarations(t, each, each.len());
        }
        declaring::inputs_are_numbered_in_order(m.ports);
        let start = model::declared_state(t, at, m.ports)->Ok_0;
        let places = t.kids(at, NodeKind::NonPortModuleItem);
        let st = model::items(t, start, places, places.len())->Ok_0;
        laws::output_ports_are_driven(st.scope, st.body, m.ports, m.ports.len());
        reveal(laws::grown);
    }
}

/// Of output ports each has its own place among the outputs: as many as there
/// are outputs before it.
pub proof fn outputs_are_counted(list: Seq<PortView>, n: nat)
    requires
        n < list.len(),
    ensures
        laws::output_count(list, 0) == 0,
        laws::output_count(list, n + 1) == laws::output_count(list, n) + if list[n as int].is_output {
            1nat
        } else {
            0
        },
{
}

/// Connections are refused only where one of them is: a node that connects
/// nothing is passed over, a name alone is to be in scope, a value is to be
/// lowered, and a wildcard is refused.
pub proof fn connections_are_refused_one_by_one(
    t: Tree,
    scope: Map<Seq<char>, usize>,
    b: Body,
    i: int,
    j: int,
)
    requires
        i <= j,
    ensures
        ({
            let before = model::connections(t, scope, b, i, j);
            let after = model::connections(t, scope, b, i, j + 1);
            let e = t.kids(j, NodeKind::Expression)[0];
            let ports = t.kids(j, NodeKind::PortIdentifier);
            let name = if ports.len() > 0 {
                t.text(ports[0])
            } else {
                Seq::empty()
            };
            &&& before is Err ==> after is Err
            &&& before matches Ok((c, values)) ==> {
                &&& t.nodes[j].kind == NodeKind::NamedPortConnectionAsterisk ==> after is Err
                &&& !connects(t, j) && t.nodes[j].kind != NodeKind::NamedPortConnectionAsterisk ==> (
                after matches Ok((d, more)) && d == c && more == values)
                &&& by_name_alone(t, j) ==> (after is Ok <==> scope.dom().contains(name))
                &&& by_name_alone(t, j) && after is Ok ==> (after matches Ok((d, more)) && d == c
                    && more == values.push(scope[name]))
                &&& connects(t, j) && !by_name_alone(t, j) ==> match model::expression(
                    t,
                    scope,
                    c,
                    e,
                ) {
                    Err(_) => after is Err,
                    Ok((x, v)) => after matches Ok((d, more)) && d == x && more == values.push(v),
                }
            }
            &&& model::connections(t, scope, b, i, i) matches Ok((c, values)) && c == b
                && values.len() == 0
        }),
{
}

/// Instances are refused only where one of them is, and each goes on where the
/// ones before it end.
pub proof fn instances_are_refused_one_by_one(
    t: Tree,
    scope: Map<Seq<char>, usize>,
    b: Body,
    i: int,
    n: nat,
)
    ensures
        ({
            let before = model::instances(t, scope, b, i, n);
            let after = model::instances(t, scope, b, i, n + 1);
            let modules = t.kids(i, NodeKind::ModuleIdentifier);
            let module = if modules.len() > 0 {
                t.text(modules[0])
            } else {
                Seq::empty()
            };
            &&& before is Err ==> after is Err
            &&& before matches Ok(c) ==> after == model::instance(
                t,
                scope,
                c,
                module,
                t.kids(i, NodeKind::HierarchicalInstance)[n as int],
            )
            &&& model::instances(t, scope, b, i, 0) matches Ok(c) && c == b
        }),
{
}

/// An instantiation is lowered exactly where its instances are and it has
/// neither parameter values nor dimensions; it leaves the names as they are.
pub proof fn plain_instantiations_are_lowered(t: Tree, st: State, i: int)
    ensures
        ({
            let r = model::module_instantiation(t, st, i);
            let n = t.kids(i, NodeKind::HierarchicalInstance).len();
            let each = model::instances(t, st.scope, st.body, i, n);
            &&& r is Ok <==> {
                &&& t.find(i, seq![NodeKind::ParameterValueAssignment]) is None
                &&& t.find(i, seq![NodeKind::Dimension]) is None
                &&& each is Ok
            }
            &&& r matches Ok(s) ==> s.scope == st.scope && s.body == each->Ok_0
        }),
{
}

/// Items and declarations are refused only where one of them is.
pub proof fn items_are_refused_one_by_one(t: Tree, st: State, places: Seq<int>, n: nat)
    ensures
        ({
            let before = model::items(t, st, places, n);
            let after = model::items(t, st, places, n + 1);
            after is Ok <==> before is Ok && model::item(t, before->Ok_0, places[n as int]) is Ok
        }),
        ({
            let before = model::declarations(t, st, places, n);
            let after = model::declarations(t, st, places, n + 1);
            after is Ok <==> before is Ok && model::declared(t, places[n as int]) is Ok
        }),
{
}

/// The outputs are found unless a port that is not driven has no bits.
pub proof fn outputs_are_refused_without_bits(
    scope: Map<Seq<char>, usize>,
    b: Body,
    list: Seq<PortView>,
    n: nat,
)
    requires
        n <= list.len(),
    ensures
        model::outputs(scope, b, list, n) is Ok <==> forall|k: int|
            0 <= k < n && (#[trigger] list[k]).is_output && !scope.dom().contains(list[k].name)
                ==> list[k].bit_width > 0,
    decreases n,
{
    if n > 0 {
        outputs_are_refused_without_bits(scope, b, list, (n - 1) as nat);
        if forall|k: int|
            0 <= k < n && (#[trigger] list[k]).is_output && !scope.dom().contains(list[k].name)
                ==> list[k].bit_width > 0 {
            assert(list[n - 1].is_output && !scope.dom().contains(list[n - 1].name) ==> list[n
                - 1].bit_width > 0);
        }
    }
}

/// A module is lowered exactly where it has an ANSI header with an identifier
/// for a name, and its ports, declarations, items and outputs can be had. Other
/// texts are refused.
pub proof fn modules_are_lowered_where_their_parts_are(t: Tree)
    ensures
        ({
            let r = model::lowered_module(t);
            let at = query::find_from(
                t.nodes,
                0,
                t.nodes.len() as int,
                seq![NodeKind::ModuleDeclarationAnsi],
            );
            let headers = t.kids(at->0, NodeKind::ModuleAnsiHeader);
            let ids = t.kids(headers[0], NodeKind::ModuleIdentifier);
            let lists = t.kids(headers[0], NodeKind::ListOfPortDeclarations);
            let each = query::all_from(
                t.nodes,
                lists[0],
                t.nodes[lists[0]].end as int,
                NodeKind::AnsiPortDeclaration,
            );
            let list = if lists.len() > 0 {
                model::ports(t, each, each.len())
            } else {
                Ok(Seq::empty())
            };
            let places = t.kids(at->0, NodeKind::NonPortModuleItem);
            let start = model::declared_state(t, at->0, list->Ok_0);
            let end = model::items(t, start->Ok_0, places, places.len());
            r is Ok <==> {
                &&& at is Some
                &&& headers.len() > 0
                &&& ids.len() > 0
                &&& attributes::is_identifier(t.text(ids[0]))
                &&& list is Ok
                &&& start is Ok
                &&& end is Ok
                &&& model::outputs(
                    end->Ok_0.scope,
                    end->Ok_0.body,
                    list->Ok_0,
                    list->Ok_0.len(),
                ) is Ok
            }
        }),
{
}

/// What is read from a source is what its syntax tree is lowered to; a source
/// that does not parse is refused with the words of the parser.
pub proof fn sources_are_lowered_from_their_trees(parse: ParseView)
    ensures
        match parse {
            Err(e) => model::module_from(parse) == Err::<ModuleView, Seq<char>>(
                "sv-parser syntax error: "@ + e,
            ),
            Ok(tree) => match cst::nodes_of(tree.0, tree.1) {
                Some(nodes) => model::module_from(parse) == model::lowered_module(
                    Tree { src: tree.0, nodes },
                ),
                None => model::module_from(parse) is Err,
            },
        },
{
}

/// The operations of a body use only values that were there before them: inputs
/// or results of earlier operations.
pub proof fn operands_are_defined_before_their_use(inputs: nat, b: Body, k: int, i: int)
    requires
        module::in_ssa_form(inputs, b),
        0 <= k < b.ops.len(),
        0 <= i < b.ops[k].operands.len(),
    ensures
        b.ops[k].operands[i] < b.types.len(),
        b.ops[k].operands[i] < inputs || exists|j: int|
            0 <= j < k && (#[trigger] b.ops[j]).result == Some(b.ops[k].operands[i]),
{
    reveal(module::in_ssa_form);
    let v = b.ops[k].operands[i];
    lemma_defined_before(inputs, b, k, v);
    lemma_defined_monotone(inputs, b.ops, k, b.ops.len() as int);
}

proof fn lemma_defined_monotone(inputs: nat, ops: Seq<OpView>, i: int, j: int)
    requires
        i <= j,
    ensures
        module::defined_before(inputs, ops, i) <= module::defined_before(inputs, ops, j),
    decreases j - i,
{
    if i < j {
        lemma_defined_monotone(inputs, ops, i, j - 1);
    }
}

proof fn lemma_defined_before(inputs: nat, b: Body, k: int, v: usize)
    requires
        module::in_ssa_form(inputs, b),
        0 <= k <= b.ops.len(),
        v < module::defined_before(inputs, b.ops, k),
    ensures
        v < inputs || exists|j: int| 0 <= j < k && (#[trigger] b.ops[j]).result == Some(v),
    decreases k,
{
    reveal(module::in_ssa_form);
    if k > 0 {
        if v < module::defined_before(inputs, b.ops, k - 1) {
            lemma_defined_before(inputs, b, k - 1, v);
        } else {
            assert(b.ops[k - 1].result == Some(v));
        }
    }
}

/// A module, its ports and its operations say what their fields hold, one by
/// one; an error says its message, and a result what it carries.
pub proof fn modules_say_what_they_hold(m: SvModule, r: Result<SvModule, SvError>)
    ensures
        m@.name == m.name@,
        m@.num_inputs == m.num_inputs,
        m@.body.types == m.types@,
        m@.ports.len() == m.ports@.len(),
        forall|k: int|
            0 <= k < m.ports@.len() ==> {
                let p = m.ports@[k];
                let said = #[trigger] m@.ports[k];
                &&& said.name == p.name@
                &&& said.is_input == p.is_input && said.is_output == p.is_output
                &&& said.bit_width == p.bit_width
                &&& said.is_clock == p.is_clock && said.is_reset == p.is_reset
            },
        m@.body.ops.len() == m.ops@.len(),
        forall|k: int|
            0 <= k < m.ops@.len() ==> {
                let o = m.ops@[k];
                let said = #[trigger] m@.body.ops[k];
                &&& said.kind == o.kind
                &&& said.name == o.name@ && said.callee == o.callee@
                &&& said.operands == o.operands@ && said.result == o.result
            },
        match r {
            Ok(v) => module::outcome(r) == Ok::<ModuleView, Seq<char>>(v@),
            Err(e) => module::outcome(r) == Err::<ModuleView, Seq<char>>(e.message@),
        },
{
}

} // verus!
