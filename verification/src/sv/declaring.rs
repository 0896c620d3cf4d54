//! What declarations and ports stand for, said of their words, ranges and
//! places.

use crate::sv::chain;
use crate::sv::cst::NodeKind;
use crate::sv::model;
use crate::sv::model::{Declared, State, Tree};
use crate::sv::module::{PortView, SvOpKind, SvType};
use crate::sv::query;
use vstd::prelude::*;

verus! {

/// The two bounds of a range, where both are constants.
pub open spec fn bounds(t: Tree, r: int) -> Option<(int, int)> {
    let ends = t.kids(r, NodeKind::Expression);
    if ends.len() == 2 && chain::bound_value(t, ends[0]) is Some && chain::bound_value(
        t,
        ends[1],
    ) is Some {
        Some((chain::bound_value(t, ends[0])->0, chain::bound_value(t, ends[1])->0))
    } else {
        None
    }
}

/// How many places a range covers, from either of its bounds to the other.
pub open spec fn covered(a: int, b: int) -> int {
    if a < b {
        b - a + 1
    } else {
        a - b + 1
    }
}

/// How many elements a dimension has: the places of its range, or the number in
/// its brackets.
pub open spec fn elements(t: Tree, d: int) -> Option<int> {
    if t.find(d, seq![NodeKind::OtherDimension]) is Some {
        None
    } else if t.find(d, seq![NodeKind::ConstantRange]) is Some {
        match bounds(t, t.find(d, seq![NodeKind::ConstantRange])->0) {
            Some((a, b)) if covered(a, b) <= u32::MAX => Some(covered(a, b)),
            _ => None,
        }
    } else if t.find(d, seq![NodeKind::Expression]) is Some {
        match chain::bound_value(t, t.find(d, seq![NodeKind::Expression])->0) {
            Some(n) if 1 <= n <= u32::MAX => Some(n),
            _ => None,
        }
    } else {
        None
    }
}

/// A declarator of a variable, be it a register or not, is taken exactly where it
/// has a name, no initial value, and at most one dimension, whose elements can
/// be counted. With a dimension of more than one element it declares a memory,
/// whose depth is the number of elements and whose width is that of the type;
/// otherwise it declares a variable of the kind and the width of the type.
pub proof fn variables_with_a_dimension_are_memories(t: Tree, a: int, kind: SvOpKind, width: u32)
    requires
        kind != SvOpKind::WireDecl,
    ensures
        ({
            let r = model::declarator(t, a, kind, width);
            let dimensions = t.kids(a, NodeKind::Dimension);
            let id = t.find(
                a,
                seq![
                    NodeKind::VariableIdentifier,
                    NodeKind::SimpleIdentifier,
                    NodeKind::EscapedIdentifier,
                ],
            );
            let depth = elements(t, dimensions[0]);
            &&& r is Ok <==> {
                &&& id is Some
                &&& t.kids(a, NodeKind::Expression).len() == 0
                &&& dimensions.len() == 0 || (dimensions.len() == 1 && depth is Some)
            }
            &&& r matches Ok(d) ==> {
                &&& d.name == t.text(id->0)
                &&& dimensions.len() == 1 && depth->0 > 1 ==> d.kind == SvOpKind::MemDecl && (
                d.ty matches SvType::Memory { depth: n, width: w } && n == depth->0 && w == width)
                &&& dimensions.len() == 0 || depth->0 == 1 ==> d.kind == kind && (
                d.ty matches SvType::Integer { width: w } && w == width)
            }
            &&& dimensions.len() == 1 && depth is Some ==> depth->0 >= 1
        }),
{
}

/// A declarator of a net is taken exactly where it has a name and no dimension,
/// and declares a wire of the width of the type.
pub proof fn nets_are_wires(t: Tree, a: int, width: u32)
    ensures
        ({
            let r = model::declarator(t, a, SvOpKind::WireDecl, width);
            let id = t.find(
                a,
                seq![
                    NodeKind::NetIdentifier,
                    NodeKind::SimpleIdentifier,
                    NodeKind::EscapedIdentifier,
                ],
            );
            &&& r is Ok <==> id is Some && t.kids(a, NodeKind::Dimension).len() == 0
            &&& r matches Ok(d) ==> {
                &&& d.name == t.text(id->0)
                &&& d.kind == SvOpKind::WireDecl
                &&& d.ty matches SvType::Integer { width: w } && w == width
            }
        }),
{
}

/// A type has a width exactly where it is made of bits and has at most one
/// packed dimension, whose range, if it has one, has constant bounds. The width
/// is the number of places of the range, and one without a range.
pub proof fn types_are_as_wide_as_their_range(t: Tree, i: int)
    ensures
        ({
            let r = model::type_width(t, i);
            let packed = query::all_from(
                t.nodes,
                i,
                t.nodes[i].end as int,
                NodeKind::PackedDimension,
            );
            let data = t.find(i, seq![NodeKind::DataType]);
            let range = t.find(packed[0], seq![NodeKind::ConstantRange]);
            let ends = bounds(t, range->0);
            &&& r is Ok <==> {
                &&& data is Some ==> data->0 + 1 < t.nodes.len() && t.nodes[data->0 + 1].kind
                    == NodeKind::VectorType
                &&& packed.len() <= 1
                &&& packed.len() == 1 ==> t.find(packed[0], seq![NodeKind::OtherDimension]) is None
                &&& packed.len() == 1 && range is Some ==> ends is Some && covered(
                    (ends->0).0,
                    (ends->0).1,
                ) <= u32::MAX
            }
            &&& r matches Ok(width) ==> {
                &&& packed.len() == 0 || range is None ==> width == 1
                &&& packed.len() == 1 && range is Some ==> width == covered((ends->0).0, (ends->0).1)
            }
        }),
{
}

proof fn lemma_declarators(t: Tree, places: Seq<int>, kind: SvOpKind, width: u32, n: nat)
    ensures
        model::declarators(t, places, kind, width, n) is Ok <==> forall|k: int|
            0 <= k < n ==> model::declarator(t, #[trigger] places[k], kind, width) is Ok,
        model::declarators(t, places, kind, width, n) matches Ok(list) ==> list.len() == n
            && forall|k: int|
            0 <= k < n ==> #[trigger] list[k] == model::declarator(
                t,
                places[k],
                kind,
                width,
            )->Ok_0,
    decreases n,
{
    if n > 0 {
        lemma_declarators(t, places, kind, width, (n - 1) as nat);
        if forall|k: int|
            0 <= k < n ==> model::declarator(t, #[trigger] places[k], kind, width) is Ok {
            assert(model::declarator(t, places[n - 1], kind, width) is Ok);
        }
        if model::declarators(t, places, kind, width, n) is Ok {
            assert forall|k: int| 0 <= k < n implies model::declarator(
                t,
                #[trigger] places[k],
                kind,
                width,
            ) is Ok by {}
        }
    }
}

/// A data declaration declares one variable or memory for each of its
/// declarators, in order, all of the type's width; they are registers exactly
/// where the type's word is `reg`.
pub proof fn data_declarations_declare_every_name(t: Tree, i: int)
    ensures
        ({
            let r = model::data_declared(t, i);
            let places = query::all_from(
                t.nodes,
                i,
                t.nodes[i].end as int,
                NodeKind::VariableDeclAssignment,
            );
            let vector = t.find(i, seq![NodeKind::VectorType]);
            let kind = if vector is Some && t.token(vector->0) == "reg"@ {
                SvOpKind::RegDecl
            } else {
                SvOpKind::LogicDecl
            };
            let width = model::type_width(t, i);
            &&& r is Ok <==> {
                &&& t.find(i, seq![NodeKind::DataDeclarationVariable]) is Some
                &&& width is Ok
                &&& places.len() > 0
                &&& forall|k: int|
                    0 <= k < places.len() ==> model::declarator(
                        t,
                        #[trigger] places[k],
                        kind,
                        width->Ok_0,
                    ) is Ok
            }
            &&& r matches Ok(list) ==> list.len() == places.len() && forall|k: int|
                0 <= k < list.len() ==> #[trigger] list[k] == model::declarator(
                    t,
                    places[k],
                    kind,
                    width->Ok_0,
                )->Ok_0
        }),
{
    let places = query::all_from(
        t.nodes,
        i,
        t.nodes[i].end as int,
        NodeKind::VariableDeclAssignment,
    );
    let width = model::type_width(t, i);
    if width is Ok {
        lemma_declarators(t, places, SvOpKind::RegDecl, width->Ok_0, places.len());
        lemma_declarators(t, places, SvOpKind::LogicDecl, width->Ok_0, places.len());
    }
}

/// A net declaration without a delay declares one wire for each of its
/// declarators, in order, all of the type's width.
pub proof fn net_declarations_declare_every_name(t: Tree, i: int)
    ensures
        ({
            let r = model::net_declared(t, i);
            let places = query::all_from(
                t.nodes,
                i,
                t.nodes[i].end as int,
                NodeKind::NetDeclAssignment,
            );
            let width = model::type_width(t, i);
            &&& r is Ok <==> {
                &&& t.find(i, seq![NodeKind::Delay]) is None
                &&& width is Ok
                &&& places.len() > 0
                &&& forall|k: int|
                    0 <= k < places.len() ==> model::declarator(
                        t,
                        #[trigger] places[k],
                        SvOpKind::WireDecl,
                        width->Ok_0,
                    ) is Ok
            }
            &&& r matches Ok(list) ==> list.len() == places.len() && forall|k: int|
                0 <= k < list.len() ==> #[trigger] list[k] == model::declarator(
                    t,
                    places[k],
                    SvOpKind::WireDecl,
                    width->Ok_0,
                )->Ok_0
        }),
{
    let places = query::all_from(
        t.nodes,
        i,
        t.nodes[i].end as int,
        NodeKind::NetDeclAssignment,
    );
    let width = model::type_width(t, i);
    if width is Ok {
        lemma_declarators(t, places, SvOpKind::WireDecl, width->Ok_0, places.len());
    }
}

/// Whether the declaration at place `k` is lowered to an operation without
/// operands behind what `st` holds, whose value has the declared type.
pub open spec fn is_declared(st: State, list: Seq<Declared>, s: State, k: int) -> bool {
    let op = s.body.ops[st.body.ops.len() + k];
    &&& op.kind == list[k].kind
    &&& op.name == list[k].name
    &&& op.operands.len() == 0
    &&& op.result == Some((st.body.types.len() + k) as usize)
    &&& s.body.types[st.body.types.len() + k] == list[k].ty
}

/// Declaring some names adds, in order, one operation for each and nothing else.
pub proof fn declared_names_get_values_in_order(st: State, list: Seq<Declared>)
    ensures
        ({
            let s = model::declare_all(st, list);
            &&& s.body.ops.len() == st.body.ops.len() + list.len()
            &&& s.body.types.len() == st.body.types.len() + list.len()
            &&& forall|k: int|
                0 <= k < st.body.ops.len() ==> #[trigger] s.body.ops[k] == st.body.ops[k]
            &&& forall|k: int|
                0 <= k < st.body.types.len() ==> #[trigger] s.body.types[k] == st.body.types[k]
            &&& forall|k: int| 0 <= k < list.len() ==> #[trigger] is_declared(st, list, s, k)
        }),
    decreases list.len(),
{
    if list.len() > 0 {
        let init = list.drop_last();
        declared_names_get_values_in_order(st, init);
        let before = model::declare_all(st, init);
        let s = model::declare_all(st, list);
        let last = list.len() - 1;
        assert forall|k: int| 0 <= k < list.len() implies #[trigger] is_declared(st, list, s, k) by {
            if k < last {
                assert(is_declared(st, init, before, k));
                assert(init[k] == list[k]);
                let o = st.body.ops.len() + k;
                let v = st.body.types.len() + k;
                assert(s.body.ops[o] == before.body.ops[o]);
                assert(s.body.types[v] == before.body.types[v]);
            }
        }
    }
}

/// Whether the last declaration of `name` stands at place `k`.
pub open spec fn declared_last(list: Seq<Declared>, name: Seq<char>, k: int) -> bool {
    &&& 0 <= k < list.len()
    &&& list[k].name == name
    &&& forall|j: int| k < j < list.len() ==> (#[trigger] list[j]).name != name
}

/// A name stands for the value of its last declaration, and a name that is not
/// declared for what it stood for before.
pub proof fn declared_names_stand_for_their_values(st: State, list: Seq<Declared>, name: Seq<char>, k: int)
    ensures
        ({
            let s = model::declare_all(st, list);
            &&& declared_last(list, name, k) ==> s.scope.dom().contains(name) && s.scope[name] == (
            st.body.types.len() + k) as usize
            &&& (forall|j: int| 0 <= j < list.len() ==> (#[trigger] list[j]).name != name)
                ==> s.scope.dom().contains(name) == st.scope.dom().contains(name) && s.scope[name]
                == st.scope[name]
        }),
    decreases list.len(),
{
    if list.len() > 0 {
        let init = list.drop_last();
        let last = list.len() - 1;
        declared_names_stand_for_their_values(st, init, name, k);
        declared_names_get_values_in_order(st, init);
        if declared_last(list, name, k) && k < last {
            assert(list[last].name != name);
            assert forall|j: int| k < j < init.len() implies (#[trigger] init[j]).name != name by {
                assert(list[j] == init[j]);
            }
            assert(declared_last(init, name, k));
        }
        if forall|j: int| 0 <= j < list.len() ==> (#[trigger] list[j]).name != name {
            assert(list[last].name != name);
            assert forall|j: int| 0 <= j < init.len() implies (#[trigger] init[j]).name != name by {
                assert(list[j] == init[j]);
            }
        }
    }
}

/// An item declares what its net or data declaration does, unless it holds an
/// assignment or something else; other items declare nothing.
pub proof fn items_declare_what_they_hold(t: Tree, i: int)
    requires
        t.find(i, seq![NodeKind::OtherItem]) is None,
        t.find(i, seq![NodeKind::ContinuousAssign]) is None,
    ensures
        t.find(i, seq![NodeKind::NetDeclaration]) matches Some(d) ==> model::declared(t, i)
            == model::net_declared(t, d),
        t.find(i, seq![NodeKind::NetDeclaration]) is None ==> (t.find(
            i,
            seq![NodeKind::DataDeclaration],
        ) matches Some(d) ==> model::declared(t, i) == model::data_declared(t, d)),
        t.find(i, seq![NodeKind::NetDeclaration]) is None && t.find(
            i,
            seq![NodeKind::DataDeclaration],
        ) is None ==> (model::declared(t, i) matches Ok(list) && list.len() == 0),
{
}

/// The first value that a net declaration gives its net, and the net's name.
pub proof fn nets_take_their_initial_value(t: Tree, st: State, i: int)
    ensures
        ({
            let r = model::net_declaration(t, st, i);
            let places = query::all_from(
                t.nodes,
                i,
                t.nodes[i].end as int,
                NodeKind::NetDeclAssignment,
            );
            let values = t.kids(places[0], NodeKind::Expression);
            let id = t.find(
                places[0],
                seq![
                    NodeKind::NetIdentifier,
                    NodeKind::SimpleIdentifier,
                    NodeKind::EscapedIdentifier,
                ],
            );
            let none = forall|k: int|
                0 <= k < places.len() ==> t.kids(
                    #[trigger] places[k],
                    NodeKind::Expression,
                ).len() == 0;
            let value = model::expression(t, st.scope, st.body, values[0]);
            &&& none ==> (r matches Ok(s) && s == st)
            &&& !none && places.len() != 1 ==> r is Err
            &&& !none && places.len() == 1 ==> {
                &&& r is Ok <==> id is Some && value is Ok
                &&& r matches Ok(s) ==> crate::sv::rules::defines(
                    st,
                    value->Ok_0.0,
                    s,
                    SvOpKind::Assign,
                    t.text(id->0),
                    seq![value->Ok_0.1],
                    value->Ok_0.0.types[value->Ok_0.1 as int],
                )
            }
        }),
{
    let places = query::all_from(
        t.nodes,
        i,
        t.nodes[i].end as int,
        NodeKind::NetDeclAssignment,
    );
    if places.len() == 1 {
        assert(places[0] == places[0]);
    }
    if forall|k: int|
        0 <= k < places.len() ==> t.kids(#[trigger] places[k], NodeKind::Expression).len() == 0 {
        assert(!model::valued(t, places, places.len()));
    }
}

/// A direction word gives the direction that it names, `input` and `output`
/// alone or, with `inout`, both; `ref` is refused, and without a word the
/// direction stays that of the port before.
pub proof fn direction_words_are_read(t: Tree, i: int, before: (bool, bool))
    ensures
        ({
            let r = model::direction(t, i, before);
            let at = t.find(i, seq![NodeKind::PortDirection]);
            let word = t.token(at->0);
            &&& at is None ==> (r matches Ok(d) && d == before)
            &&& at is Some && word == "input"@ ==> (r matches Ok(d) && d.0 && !d.1)
            &&& at is Some && word == "output"@ ==> (r matches Ok(d) && !d.0 && d.1)
            &&& at is Some && word == "inout"@ ==> (r matches Ok(d) && d.0 && d.1)
            &&& at is Some && word == "ref"@ ==> r is Err
            &&& r is Err ==> at is Some && word == "ref"@
        }),
{
    reveal_strlit("input");
    reveal_strlit("output");
    reveal_strlit("inout");
    reveal_strlit("ref");
    assert("input"@[2] != "inout"@[2]);
    assert("input"@.len() != "output"@.len());
    assert("inout"@.len() != "output"@.len());
    assert("ref"@.len() != "input"@.len());
    assert("ref"@.len() != "inout"@.len());
    assert("ref"@.len() != "output"@.len());
}

/// Whether a port is what its declaration at `i` says, behind a port of the
/// direction `before`.
pub open spec fn declares_port(t: Tree, i: int, before: (bool, bool), p: PortView) -> bool {
    let id = t.find(i, seq![NodeKind::PortIdentifier]);
    let single = p.bit_width == 1;
    &&& id is Some && p.name == t.text(id->0)
    &&& model::direction(t, i, before) matches Ok(d) && p.is_input == d.0 && p.is_output == d.1
    &&& model::type_width(t, i) matches Ok(width) && p.bit_width == width
    &&& p.is_clock <==> single && (p.name == "clk"@ || p.name == "clock"@)
    &&& p.is_reset <==> single && (p.name == "rst"@ || p.name == "reset"@)
}

/// A port is taken exactly where it has a name, a direction that can be had and
/// a width, and neither a dimension, an interface nor a default value.
pub proof fn ports_are_what_they_declare(t: Tree, i: int, before: (bool, bool))
    ensures
        ({
            let r = model::port(t, i, before);
            &&& r is Ok <==> {
                &&& t.find(i, seq![NodeKind::PortIdentifier]) is Some
                &&& model::direction(t, i, before) is Ok
                &&& t.find(i, seq![NodeKind::InterfacePortHeader, NodeKind::Dimension]) is None
                &&& i + 1 < t.nodes[i].end ==> t.kids(i + 1, NodeKind::Expression).len() == 0
                &&& model::type_width(t, i) is Ok
            }
            &&& r matches Ok(p) ==> declares_port(t, i, before, p)
        }),
{
}

/// The ports are those of the declarations, one by one; a port without a
/// direction of its own has that of the port before it, and the first one is an
/// input.
pub proof fn ports_follow_their_declarations(t: Tree, places: Seq<int>, n: nat)
    ensures
        model::ports(t, places, n) matches Ok(list) ==> list.len() == n && forall|k: int|
            0 <= k < n ==> declares_port(
                t,
                places[k],
                if k == 0 {
                    (true, false)
                } else {
                    (list[k - 1].is_input, list[k - 1].is_output)
                },
                #[trigger] list[k],
            ),
    decreases n,
{
    if n > 0 {
        ports_follow_their_declarations(t, places, (n - 1) as nat);
        if let Ok(init) = model::ports(t, places, (n - 1) as nat) {
            ports_are_what_they_declare(t, places[n - 1], model::last_direction(init));
            if let Ok(list) = model::ports(t, places, n) {
                assert(init =~= list.drop_last());
                assert forall|k: int| 0 <= k < n implies declares_port(
                    t,
                    places[k],
                    if k == 0 {
                        (true, false)
                    } else {
                        (list[k - 1].is_input, list[k - 1].is_output)
                    },
                    #[trigger] list[k],
                ) by {
                    if k < n - 1 {
                        assert(list[k] == init[k]);
                        if k > 0 {
                            assert(list[k - 1] == init[k - 1]);
                        }
                    } else if k > 0 {
                        assert(list[k - 1] == init[k - 1]);
                    }
                }
            }
        }
    }
}

/// How many of the first `k` ports are inputs.
pub open spec fn inputs_before(list: Seq<PortView>, k: int) -> nat {
    list.take(k).filter(|p: PortView| p.is_input).len()
}

proof fn lemma_inputs_before(list: Seq<PortView>, k: int)
    requires
        0 < k <= list.len(),
    ensures
        inputs_before(list, k) == inputs_before(list, k - 1) + if list[k - 1].is_input {
            1nat
        } else {
            0
        },
{
    reveal(Seq::filter);
    assert(list.take(k).drop_last() =~= list.take(k - 1));
}

/// The inputs of a module are its input ports, in order: each has its own type,
/// a clock's, a reset's or an integer of its width, at the place that counts the
/// inputs before it. Its name stands for that place, unless a later input has
/// the same name, and no other name stands for anything.
pub proof fn inputs_are_numbered_in_order(list: Seq<PortView>)
    ensures
        model::input_types(list).len() == inputs_before(list, list.len() as int),
        forall|k: int|
            0 <= k < list.len() && (#[trigger] list[k]).is_input ==> {
                let at = inputs_before(list, k);
                let ty = model::input_types(list)[at as int];
                &&& at < model::input_types(list).len()
                &&& list[k].is_clock ==> ty == SvType::Clock
                &&& !list[k].is_clock && list[k].is_reset ==> ty == SvType::Reset
                &&& !list[k].is_clock && !list[k].is_reset ==> (ty matches SvType::Integer {
                    width,
                } && width == list[k].bit_width)
                &&& model::input_scope(list).dom().contains(list[k].name)
                &&& (forall|j: int|
                    k < j < list.len() && (#[trigger] list[j]).is_input ==> list[j].name
                        != list[k].name) ==> model::input_scope(list)[list[k].name] == at as usize
            },
        forall|name: Seq<char>| #[trigger]
            model::input_scope(list).dom().contains(name) ==> exists|k: int|
                0 <= k < list.len() && (#[trigger] list[k]).is_input && list[k].name == name,
    decreases list.len(),
{
    reveal(Seq::filter);
    if list.len() > 0 {
        let init = list.drop_last();
        let last = list.len() - 1;
        inputs_are_numbered_in_order(init);
        lemma_inputs_before(list, list.len() as int);
        assert forall|k: int| 0 <= k <= last implies #[trigger] inputs_before(list, k)
            == inputs_before(init, k) by {
            assert(list.take(k) =~= init.take(k));
        }
        assert forall|k: int| 0 <= k < list.len() && (#[trigger] list[k]).is_input implies {
            let at = inputs_before(list, k);
            let ty = model::input_types(list)[at as int];
            &&& at < model::input_types(list).len()
            &&& list[k].is_clock ==> ty == SvType::Clock
            &&& !list[k].is_clock && list[k].is_reset ==> ty == SvType::Reset
            &&& !list[k].is_clock && !list[k].is_reset ==> (ty matches SvType::Integer { width }
                && width == list[k].bit_width)
            &&& model::input_scope(list).dom().contains(list[k].name)
            &&& (forall|j: int|
                k < j < list.len() && (#[trigger] list[j]).is_input ==> list[j].name
                    != list[k].name) ==> model::input_scope(list)[list[k].name] == at as usize
        } by {
            assert(inputs_before(list, k) == inputs_before(init, k));
            if k < last {
                assert(init[k] == list[k]);
                if forall|j: int|
                    k < j < list.len() && (#[trigger] list[j]).is_input ==> list[j].name
                        != list[k].name {
                    assert(list[last].is_input ==> list[last].name != list[k].name);
                    assert forall|j: int|
                        k < j < init.len() && (#[trigger] init[j]).is_input implies init[j].name
                        != init[k].name by {
                        assert(list[j] == init[j]);
                    }
                }
            }
        }
        assert forall|name: Seq<char>| #[trigger]
            model::input_scope(list).dom().contains(name) implies exists|k: int|
            0 <= k < list.len() && (#[trigger] list[k]).is_input && list[k].name == name by {
            if model::input_scope(init).dom().contains(name) {
                let k = choose|k: int|
                    0 <= k < init.len() && (#[trigger] init[k]).is_input && init[k].name == name;
                assert(list[k] == init[k]);
            } else {
                assert(list[last].is_input && list[last].name == name);
            }
        }
    }
}

/// Whether some expression of a module names `name`.
pub open spec fn is_read(t: Tree, i: int, name: Seq<char>) -> bool {
    exists|u: int, h: int|
        {
            &&& query::all_from(
                t.nodes,
                i,
                t.nodes[i].end as int,
                NodeKind::PrimaryHierarchical,
            ).contains(u)
            &&& #[trigger] first_child(t, u, h, NodeKind::HierarchicalIdentifier)
            &&& t.text(h) == name
        }
}

/// Whether `h` is the first child of `u` of a kind.
pub open spec fn first_child(t: Tree, u: int, h: int, kind: NodeKind) -> bool {
    t.kids(u, kind).len() > 0 && t.kids(u, kind)[0] == h
}

proof fn lemma_is_read(t: Tree, i: int, name: Seq<char>)
    ensures
        model::reads(t, i, name) <==> is_read(t, i, name),
{
    let uses = query::all_from(
        t.nodes,
        i,
        t.nodes[i].end as int,
        NodeKind::PrimaryHierarchical,
    );
    let kind = NodeKind::HierarchicalIdentifier;
    if model::reads(t, i, name) {
        let k = choose|k: int| 0 <= k < uses.len() && #[trigger] model::reads_at(t, uses[k], name);
        assert(uses.contains(uses[k]));
        assert(first_child(t, uses[k], t.kids(uses[k], kind)[0], kind));
        assert(t.text(t.kids(uses[k], kind)[0]) == name);
        assert(is_read(t, i, name));
    }
    if is_read(t, i, name) {
        let (u, h) = choose|u: int, h: int|
            {
                &&& uses.contains(u)
                &&& #[trigger] first_child(t, u, h, kind)
                &&& t.text(h) == name
            };
        let k = choose|k: int| 0 <= k < uses.len() && uses[k] == u;
        assert(model::reads_at(t, uses[k], name));
        assert(uses == model::all(t, i, NodeKind::PrimaryHierarchical));
        assert(model::reads(t, i, name));
    }
}

/// Of the output ports exactly those that the module reads get a variable of
/// their width before its items; their names stand for something then, and every
/// other name means what it meant.
pub proof fn read_outputs_are_variables(t: Tree, i: int, st: State, list: Seq<PortView>, n: nat)
    requires
        n <= list.len(),
    ensures
        ({
            let s = model::read_outputs(t, i, st, list, n);
            let m = st.body.ops.len();
            &&& m <= s.body.ops.len()
            &&& forall|k: int| 0 <= k < m ==> #[trigger] s.body.ops[k] == st.body.ops[k]
            &&& forall|k: int|
                0 <= k < n && (#[trigger] list[k]).is_output && !list[k].is_input && is_read(
                    t,
                    i,
                    list[k].name,
                ) ==> s.scope.dom().contains(list[k].name) && exists|o: int|
                    m <= o < s.body.ops.len() && (#[trigger] s.body.ops[o]).kind
                        == SvOpKind::LogicDecl && s.body.ops[o].name == list[k].name
            &&& forall|o: int|
                m <= o < s.body.ops.len() ==> (#[trigger] s.body.ops[o]).operands.len() == 0
                    && exists|k: int|
                    0 <= k < n && (#[trigger] list[k]).is_output && !list[k].is_input && is_read(
                        t,
                        i,
                        list[k].name,
                    ) && s.body.ops[o].name == list[k].name
            &&& forall|name: Seq<char>|
                (forall|k: int|
                    0 <= k < n && (#[trigger] list[k]).is_output && !list[k].is_input
                        ==> list[k].name != name) ==> (#[trigger] s.scope.dom().contains(name))
                    == st.scope.dom().contains(name) && s.scope[name] == st.scope[name]
        }),
    decreases n,
{
    if n > 0 {
        let k = n - 1;
        read_outputs_are_variables(t, i, st, list, k as nat);
        lemma_is_read(t, i, list[k].name);
        let before = model::read_outputs(t, i, st, list, k as nat);
        let s = model::read_outputs(t, i, st, list, n);
        let m = st.body.ops.len();
        assert forall|j: int|
            0 <= j < n && (#[trigger] list[j]).is_output && !list[j].is_input && is_read(
                t,
                i,
                list[j].name,
            ) implies s.scope.dom().contains(list[j].name) && exists|o: int|
            m <= o < s.body.ops.len() && (#[trigger] s.body.ops[o]).kind == SvOpKind::LogicDecl
                && s.body.ops[o].name == list[j].name by {
            if j < k {
                let o = choose|o: int|
                    m <= o < before.body.ops.len() && (#[trigger] before.body.ops[o]).kind
                        == SvOpKind::LogicDecl && before.body.ops[o].name == list[j].name;
                assert(s.body.ops[o] == before.body.ops[o]);
            } else {
                assert(s.body.ops[before.body.ops.len() as int].kind == SvOpKind::LogicDecl);
            }
        }
        assert forall|o: int| m <= o < s.body.ops.len() implies (
        #[trigger] s.body.ops[o]).operands.len() == 0 && exists|j: int|
            0 <= j < n && (#[trigger] list[j]).is_output && !list[j].is_input && is_read(
                t,
                i,
                list[j].name,
            ) && s.body.ops[o].name == list[j].name by {
            if o < before.body.ops.len() {
                assert(s.body.ops[o] == before.body.ops[o]);
            } else {
                assert(s.body.ops[o].name == list[k].name);
            }
        }
        assert forall|name: Seq<char>|
            (forall|j: int|
                0 <= j < n && (#[trigger] list[j]).is_output && !list[j].is_input ==> list[j].name
                    != name) implies (#[trigger] s.scope.dom().contains(name))
            == st.scope.dom().contains(name) && s.scope[name] == st.scope[name] by {
            assert(before.scope.dom().contains(name) == st.scope.dom().contains(name));
            assert(list[k].is_output && !list[k].is_input ==> list[k].name != name);
        }
    }
}

/// Ports are refused only where one of them is.
pub proof fn ports_are_refused_one_by_one(t: Tree, places: Seq<int>, n: nat)
    ensures
        ({
            let before = model::ports(t, places, n);
            let after = model::ports(t, places, n + 1);
            let direction = if before->Ok_0.len() == 0 {
                (true, false)
            } else {
                (
                    before->Ok_0[before->Ok_0.len() - 1].is_input,
                    before->Ok_0[before->Ok_0.len() - 1].is_output,
                )
            };
            &&& after is Ok <==> before is Ok && model::port(t, places[n as int], direction) is Ok
            &&& model::ports(t, places, 0) is Ok
        }),
{
}

/// An output port that is read is a variable as wide as the port.
pub proof fn read_outputs_are_as_wide_as_their_ports(
    t: Tree,
    i: int,
    st: State,
    list: Seq<PortView>,
    n: nat,
)
    requires
        n < list.len(),
        list[n as int].is_output,
        !list[n as int].is_input,
        is_read(t, i, list[n as int].name),
    ensures
        ({
            let before = model::read_outputs(t, i, st, list, n);
            let after = model::read_outputs(t, i, st, list, n + 1);
            crate::sv::rules::defines(
                before,
                before.body,
                after,
                SvOpKind::LogicDecl,
                list[n as int].name,
                Seq::empty(),
                SvType::Integer { width: list[n as int].bit_width },
            )
        }),
{
    lemma_is_read(t, i, list[n as int].name);
}

/// An item that holds an assignment or something unknown declares nothing.
pub proof fn other_items_declare_nothing(t: Tree, i: int)
    requires
        t.find(i, seq![NodeKind::OtherItem]) is Some || t.find(i, seq![NodeKind::ContinuousAssign])
            is Some,
    ensures
        model::declared(t, i) matches Ok(list) && list.len() == 0,
{
}

} // verus!
