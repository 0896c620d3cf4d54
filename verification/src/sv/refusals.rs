//! With which words what cannot be lowered is refused.

use crate::ir::attributes;
use crate::sv::chain;
use crate::sv::cst::NodeKind;
use crate::sv::declaring;
use crate::sv::grouping;
use crate::sv::lower;
use crate::sv::lower::ResetEvent;
use crate::sv::model;
use crate::sv::model::{State, Tree};
use crate::sv::module::{Body, ModuleView, SvError, SvModule, SvOpKind, SvType};
use crate::sv::query;
use crate::sv::rules;
use vstd::prelude::*;

verus! {

/// Whether a result is a refusal in the given words.
pub open spec fn refused<T>(r: Result<T, Seq<char>>, words: Seq<char>) -> bool {
    r matches Err(e) && e == words
}

/// Whether a result is the refusal that another one is, if that is one.
pub open spec fn refused_alike<T, U>(r: Result<T, Seq<char>>, part: Result<U, Seq<char>>) -> bool {
    part matches Err(e) ==> refused(r, e)
}

/// The words for an expression that is not supported.
pub open spec fn no_expression(what: Seq<char>) -> Seq<char> {
    "unsupported SystemVerilog expression: "@ + what
}

/// The words for a construct that is not supported.
pub open spec fn no_construct(what: Seq<char>) -> Seq<char> {
    "unsupported SystemVerilog construct: "@ + what
}

/// A name that is not in scope is refused by name, and a constant without bits
/// as one.
pub proof fn names_are_refused_by_name(
    scope: Map<Seq<char>, usize>,
    name: Seq<char>,
    b: Body,
    value: u64,
)
    ensures
        !scope.dom().contains(name) ==> refused(
            model::resolve(scope, name),
            "unresolved identifier '"@ + name + "'"@,
        ) && refused(
            model::named_value(scope, b, name),
            "unresolved identifier '"@ + name + "'"@,
        ),
        scope.dom().contains(name) ==> (model::resolve(scope, name) matches Ok(v) && v
            == scope[name]),
        refused(model::constant(b, value, 0), "a constant cannot have width 0"@),
{
}

/// An expression is refused as one of its kind where its shape is not that of
/// its kind, and otherwise for its first part that is refused.
pub proof fn expressions_are_refused_by_their_kind(
    t: Tree,
    scope: Map<Seq<char>, usize>,
    b: Body,
    i: int,
)
    ensures
        ({
            let r = model::expression(t, scope, b, i);
            let at = t.find(i, grouping::constructs());
            let j = at->0;
            let kind = t.nodes[j].kind;
            let parts = t.kids(j, NodeKind::Expression).len();
            let operands = t.kids(j, NodeKind::Primary);
            let inner = model::expression(t, scope, b, operands[0]);
            &&& at is None ==> refused(r, no_expression("unsupported expression"@))
            &&& at is Some && kind == NodeKind::OtherExpression ==> refused(
                r,
                no_expression("unsupported expression"@),
            )
            &&& at is Some && kind == NodeKind::Binary && (parts != 2 || t.kids(
                j,
                NodeKind::BinaryOperator,
            ).len() != 1) ==> refused(r, "invalid binary expression"@)
            &&& at is Some && kind == NodeKind::Conditional && (parts != 2 || t.kids(
                j,
                NodeKind::CondPredicate,
            ).len() != 1) ==> refused(r, "invalid conditional expression"@)
            &&& at is Some && kind == NodeKind::Ternary && parts != 3 ==> refused(
                r,
                "invalid conditional expression"@,
            )
            &&& at is Some && kind == NodeKind::Unary ==> {
                let shaped = operands.len() == 1 && t.kids(j, NodeKind::UnaryOperator).len() == 1;
                &&& !shaped ==> refused(r, "invalid unary expression"@)
                &&& shaped ==> refused_alike(r, inner)
                &&& shaped && (inner matches Ok((c, v)) && c.types[v as int] is Memory) ==> refused(
                    r,
                    no_expression("a memory is not an operand"@),
                )
            }
        }),
{
    assert(grouping::constructs() =~= model::construct_kinds());
}

/// A chain is refused for its first operand that is refused, then for a memory
/// among its operands, and then for what it chooses from.
pub proof fn chains_are_refused_for_their_parts(
    t: Tree,
    scope: Map<Seq<char>, usize>,
    b: Body,
    i: int,
    j: int,
)
    ensures
        ({
            let r = model::chained(t, scope, b, i, j);
            let c = chain::chain(t, i);
            let parts = model::parts_of(t, scope, b, j, c.operands, c.operands.len());
            let memory = exists|k: int|
                0 <= k < parts->Ok_0.1.len() && parts->Ok_0.0.types[#[trigger] parts->Ok_0.1[k] as int]
                    is Memory;
            let names = c.operators.map_values(|k: int| t.text(k));
            let b2 = model::combine(parts->Ok_0.0, parts->Ok_0.1, names).0;
            let (yes, no) = c.choice->0;
            let first = model::expression(t, scope, b2, yes);
            let second = model::expression(t, scope, first->Ok_0.0, no);
            let bound = forall|k: int|
                0 <= k < names.len() ==> chain::precedence(#[trigger] names[k]) > 0;
            &&& refused_alike(r, parts)
            &&& parts is Ok && memory ==> refused(r, no_expression("a memory is not an operand"@))
            &&& parts is Ok && !memory && c.choice is Some ==> {
                let behind = j < yes < t.nodes.len() && j < no < t.nodes.len();
                &&& !bound || !behind ==> refused(r, no_expression("unsupported expression"@))
                &&& bound && behind ==> refused_alike(r, first)
            }
        }),
{
    let c = chain::chain(t, i);
    let names = c.operators.map_values(|k: int| t.text(k));
    assert(names == chain::texts(t, c.operators));
    if names.len() > 0 {
        grouping::chains_are_split_at_the_loosest_operator(names, chain::loosest(names));
        chain::lemma_loosest(names);
        assert(names[chain::loosest(names)] == names[chain::loosest(names)]);
    }
}

/// A concatenation is refused for its first part that is refused, then for
/// having none, and then for its width.
pub proof fn concatenations_are_refused_for_their_parts(
    t: Tree,
    scope: Map<Seq<char>, usize>,
    b: Body,
    i: int,
)
    ensures
        ({
            let r = model::concatenation(t, scope, b, i);
            let places = t.kids(i, NodeKind::Expression);
            let parts = model::parts_of(t, scope, b, i, places, places.len());
            &&& refused_alike(r, parts)
            &&& places.len() == 0 ==> refused(r, "concatenation cannot be empty"@)
            &&& places.len() > 0 && parts is Ok && model::total_bits(
                parts->Ok_0.0.types,
                parts->Ok_0.1,
            ) > u32::MAX ==> refused(r, "concatenation is too wide"@)
        }),
{
}

/// A name with a select is refused for a missing name, for a scope before it,
/// for a name that is not in scope, and then for the select.
pub proof fn selected_names_are_refused_in_order(
    t: Tree,
    scope: Map<Seq<char>, usize>,
    b: Body,
    i: int,
)
    ensures
        ({
            let r = model::hierarchical(t, scope, b, i);
            let names = t.kids(i, NodeKind::HierarchicalIdentifier);
            let token = t.find(i, seq![NodeKind::Locate]);
            let name = t.text(names[0]);
            if names.len() == 0 {
                refused(r, "missing variable identifier"@)
            } else if token is Some && token->0 < names[0] {
                refused(r, no_expression("unsupported scope"@))
            } else {
                !scope.dom().contains(name) ==> refused(
                    r,
                    "unresolved identifier '"@ + name + "'"@,
                )
            }
        }),
{
}

/// A range is refused for its bounds: for their number, for one that is no
/// constant, and, as a slice or as a width, for what they are.
pub proof fn ranges_are_refused_for_their_bounds(t: Tree, b: Body, r: int, base: usize)
    ensures
        ({
            let ends = model::range_bounds(t, r);
            let slice = model::slice(t, b, r, base);
            let parts = t.kids(r, NodeKind::Expression);
            &&& parts.len() != 2 ==> refused(ends, "invalid range"@)
            &&& parts.len() == 2 && declaring::bounds(t, r) is None ==> refused(
                ends,
                "range bound is not a constant"@,
            )
            &&& declaring::bounds(t, r) matches Some(e) ==> ends == Ok::<(int, int), Seq<char>>(e)
            &&& refused_alike(slice, ends)
            &&& ends is Ok && (ends->Ok_0.0 < 0 || ends->Ok_0.1 < 0 || ends->Ok_0.0 > u32::MAX
                || ends->Ok_0.1 > u32::MAX) ==> refused(slice, "slice bounds are out of range"@)
        }),
{
}

/// A type is refused for what it is made of, then for its packed dimensions, and
/// then for their range.
pub proof fn types_are_refused_for_their_dimensions(t: Tree, i: int)
    ensures
        ({
            let r = model::type_width(t, i);
            let packed = query::all_from(
                t.nodes,
                i,
                t.nodes[i].end as int,
                NodeKind::PackedDimension,
            );
            let data = t.find(i, seq![NodeKind::DataType]);
            let range = t.find(packed[0], seq![NodeKind::ConstantRange]);
            let bits = data is Some ==> data->0 + 1 < t.nodes.len() && t.nodes[data->0 + 1].kind
                == NodeKind::VectorType;
            let plain = packed.len() == 0 || (packed.len() == 1 && t.find(
                packed[0],
                seq![NodeKind::OtherDimension],
            ) is None);
            &&& !bits ==> refused(r, no_construct("unsupported data type"@))
            &&& bits && !plain ==> refused(r, no_construct("unsupported packed dimensions"@))
            &&& bits && plain && packed.len() == 1 && range is Some ==> {
                let ends = model::range_bounds(t, range->0);
                &&& refused_alike(r, ends)
                &&& ends is Ok && declaring::covered(ends->Ok_0.0, ends->Ok_0.1) > u32::MAX
                    ==> refused(r, "range is too wide"@)
            }
        }),
{
}

/// A declarator is refused for a missing name, then for an initial value of a
/// variable, then for its dimensions.
pub proof fn declarators_are_refused_in_order(t: Tree, a: int, kind: SvOpKind, width: u32)
    ensures
        ({
            let r = model::declarator(t, a, kind, width);
            let net = kind == SvOpKind::WireDecl;
            let own = if net {
                NodeKind::NetIdentifier
            } else {
                NodeKind::VariableIdentifier
            };
            let id = t.find(
                a,
                seq![own, NodeKind::SimpleIdentifier, NodeKind::EscapedIdentifier],
            );
            let dimensions = t.kids(a, NodeKind::Dimension);
            let initial = !net && t.kids(a, NodeKind::Expression).len() > 0;
            &&& id is None ==> refused(
                r,
                if net {
                    "net declaration missing identifier"@
                } else {
                    "data declaration missing identifier"@
                },
            )
            &&& id is Some && initial ==> refused(r, no_construct("unsupported initial value"@))
            &&& id is Some && !initial && dimensions.len() > 0 && (net || dimensions.len() > 1)
                ==> refused(r, no_construct("unsupported unpacked dimension"@))
            &&& id is Some && !initial && !net && dimensions.len() == 1 ==> refused_alike(
                r,
                model::dimension_depth(t, dimensions[0]),
            )
        }),
{
    if kind == SvOpKind::WireDecl {
        assert(model::name_kinds(kind) =~= seq![
            NodeKind::NetIdentifier,
            NodeKind::SimpleIdentifier,
            NodeKind::EscapedIdentifier,
        ]);
    } else {
        assert(model::name_kinds(kind) =~= seq![
            NodeKind::VariableIdentifier,
            NodeKind::SimpleIdentifier,
            NodeKind::EscapedIdentifier,
        ]);
    }
}

/// A clocked statement with a condition is refused for its condition, then for
/// one that is not that of the reset in the sensitivity list, then for a reset
/// that is not in scope, then for its branches, then for what else it holds, and
/// then for the value at reset before the next one.
pub proof fn clocked_conditionals_are_refused_in_order(
    t: Tree,
    st: State,
    i: int,
    c: int,
    clk: usize,
    event: Option<(Seq<char>, bool)>,
)
    ensures
        ({
            let r = model::with_reset(t, st, i, c, clk, event);
            let reset = model::condition_reset(t, c);
            let (name, _) = reset->Ok_0;
            let branches = t.kids(c, NodeKind::StatementOrNull);
            let first = model::assignment_in(t, branches[0]);
            let last = model::assignment_in(t, branches[branches.len() - 1]);
            let at_reset = model::expression(
                t,
                st.scope,
                st.body,
                rules::stored_value(t, branches[0]),
            );
            &&& t.kids(c, NodeKind::Symbol).len() < 2 ==> refused(
                r,
                "cannot extract reset condition"@,
            )
            &&& reset is Ok && event is Some && event != Some(reset->Ok_0) ==> refused(
                r,
                no_construct("the condition is not that of the reset"@),
            )
            &&& reset is Ok && (event is None || event == Some(reset->Ok_0)) ==> {
                &&& !st.scope.dom().contains(name) ==> refused(
                    r,
                    "unresolved identifier '"@ + name + "'"@,
                )
                &&& st.scope.dom().contains(name) ==> {
                    &&& branches.len() == 0 ==> refused(r, "expected ConditionalStatement"@)
                    &&& branches.len() > 0 ==> refused_alike(r, first)
                    &&& branches.len() > 0 && first is Ok && t.kids(c, NodeKind::Keyword).len() % 2
                        == 1 ==> refused(r, "conditional statement missing else branch"@)
                    &&& branches.len() > 0 && first is Ok && t.kids(c, NodeKind::Keyword).len() % 2
                        == 0 ==> refused_alike(r, last)
                    &&& branches.len() == 2 && first is Ok && last is Ok && t.kids(
                        c,
                        NodeKind::Keyword,
                    ).len() % 2 == 0 ==> {
                        let other = rules::stored_name(t, branches[1]);
                        let target = rules::stored_name(t, branches[0]);
                        if target != other {
                            refused(
                                r,
                                "reset target '"@ + target
                                    + "' does not match next-state target '"@ + other + "'"@,
                            )
                        } else if !rules::holds_only(t, i, 2, 1, 1) {
                            refused(r, no_construct("unsupported procedural statement"@))
                        } else {
                            refused_alike(r, at_reset)
                        }
                    }
                }
            }
        }),
{
    let branches = t.kids(c, NodeKind::StatementOrNull);
    if branches.len() > 0 {
        rules::assignments_are_taken_apart(t, branches[0]);
        rules::assignments_are_taken_apart(t, branches[branches.len() - 1]);
    }
}

/// A clocked block is refused for its sensitivity list, then for its clock, and
/// then for a reset that no condition uses.
pub proof fn clocked_blocks_are_refused_in_order(t: Tree, st: State, i: int)
    ensures
        ({
            let r = model::always_ff(t, st, i);
            let timed = t.find(i, seq![NodeKind::ProceduralTimingControlStatement]);
            let controls = t.kids(timed->0, NodeKind::ProceduralTimingControl);
            let list = model::sensitivity(t, controls[0]);
            let (clock, event) = list->Ok_0;
            let ty = st.body.types[st.scope[clock] as int];
            if timed is None {
                refused(r, "always_ff requires timing control"@)
            } else if controls.len() == 0 {
                refused(r, "invalid procedural timing statement"@)
            } else if list is Err {
                refused_alike(r, list)
            } else if !st.scope.dom().contains(clock) {
                refused(r, "unresolved identifier '"@ + clock + "'"@)
            } else if !(ty is Clock || ty == (SvType::Integer { width: 1 })) {
                refused(r, "the clock is not a single bit"@)
            } else {
                t.find(i, seq![NodeKind::ConditionalStatement]) is None && event is Some ==> refused(
                    r,
                    no_construct("the reset is not used"@),
                )
            }
        }),
{
}

/// A port is refused for a missing name, then for its direction, then for what
/// it holds beside them, and then for its type.
pub proof fn ports_are_refused_in_order(t: Tree, i: int, before: (bool, bool))
    ensures
        ({
            let r = model::port(t, i, before);
            let direction = model::direction(t, i, before);
            let plain = t.find(i, seq![NodeKind::InterfacePortHeader, NodeKind::Dimension]) is None
                && (i + 1 < t.nodes[i].end ==> t.kids(i + 1, NodeKind::Expression).len() == 0);
            if t.find(i, seq![NodeKind::PortIdentifier]) is None {
                refused(r, "port missing identifier"@)
            } else if direction is Err {
                refused(r, "ref ports are not supported in RTL"@)
            } else if !plain {
                refused(r, no_construct("unsupported port"@))
            } else {
                refused_alike(r, model::type_width(t, i))
            }
        }),
{
}

/// A module is refused for its header, then for its name, then for its ports,
/// then for a name that is no identifier, then for its declarations, and then
/// for its items; a text without an ANSI module is refused as one.
pub proof fn modules_are_refused_in_order(t: Tree)
    ensures
        ({
            let r = model::lowered_module(t);
            let n = t.nodes.len() as int;
            let at = query::find_from(t.nodes, 0, n, seq![NodeKind::ModuleDeclarationAnsi]);
            let other = query::find_from(t.nodes, 0, n, seq![NodeKind::ModuleDeclarationNonansi]);
            let headers = t.kids(at->0, NodeKind::ModuleAnsiHeader);
            let ids = t.kids(headers[0], NodeKind::ModuleIdentifier);
            let name = t.text(ids[0]);
            let list = model::header_ports(t, headers[0]);
            let start = model::declared_state(t, at->0, list->Ok_0);
            let places = t.kids(at->0, NodeKind::NonPortModuleItem);
            if at is None {
                refused(
                    r,
                    if other is Some {
                        "non-ANSI module declarations are not yet supported"@
                    } else {
                        "no supported SystemVerilog module declaration found in syntax tree"@
                    },
                )
            } else if headers.len() == 0 {
                refused(r, "module header is missing"@)
            } else if ids.len() == 0 || name.len() == 0 {
                refused(r, "module name cannot be empty"@)
            } else if list is Err {
                refused_alike(r, list)
            } else if !attributes::is_identifier(name) {
                refused(r, "invalid module identifier '"@ + name + "'"@)
            } else if start is Err {
                refused_alike(r, start)
            } else {
                refused_alike(r, model::items(t, start->Ok_0, places, places.len()))
            }
        }),
{
}

/// A step that does what is expected of it gives the value, the body, the state,
/// the name with its place, or the module that is expected, and an error only
/// where one is expected, in its words; a refused step leaves its state alone.
pub proof fn steps_give_what_is_expected(
    value: Result<usize, SvError>,
    body: Body,
    lowered: model::Lowered,
    done: Result<(), SvError>,
    before: State,
    after: State,
    advanced: model::Advanced,
    found: Result<(String, usize), SvError>,
    place: Result<(Seq<char>, int), Seq<char>>,
    bound: int,
    module: Result<SvModule, SvError>,
    built: model::Built,
)
    ensures
        lower::lowered_to(value, body, lowered) ==> {
            &&& value is Ok <==> lowered is Ok
            &&& value is Ok ==> body == lowered->Ok_0.0 && value->Ok_0 == lowered->Ok_0.1
                && value->Ok_0 < body.types.len()
            &&& value is Err ==> lowered == Err::<(Body, usize), Seq<char>>(
                value->Err_0.message@,
            )
        },
        lower::advanced_to(done, before, after, advanced) ==> {
            &&& done is Ok <==> advanced is Ok
            &&& done is Ok ==> after == advanced->Ok_0
            &&& done is Err ==> after == before && advanced == Err::<State, Seq<char>>(
                done->Err_0.message@,
            )
        },
        lower::parts_found(found, place, bound) ==> {
            &&& found is Ok <==> place is Ok
            &&& found is Ok ==> found->Ok_0.0@ == place->Ok_0.0 && found->Ok_0.1 == place->Ok_0.1
            &&& found is Err ==> place == Err::<(Seq<char>, int), Seq<char>>(
                found->Err_0.message@,
            )
        },
        lower::built(module, built) ==> {
            &&& module is Ok <==> built is Ok
            &&& module is Ok ==> module->Ok_0@ == built->Ok_0
            &&& module is Err ==> built == Err::<ModuleView, Seq<char>>(module->Err_0.message@)
        },
        value is Ok ==> lower::value_outcome(value) == Ok::<usize, Seq<char>>(value->Ok_0),
        value is Err ==> lower::value_outcome(value) == Err::<usize, Seq<char>>(
            value->Err_0.message@,
        ),
{
}

/// A reset event says its name and whether it is active when low.
pub proof fn reset_events_say_their_polarity(r: ResetEvent)
    ensures
        lower::reset_view(Some(r)) == Some((r.name@, r.active_low)),
        lower::reset_view(None) is None,
{
}

} // verus!
