//! What a SystemVerilog module means: the ports, values and operations that its
//! syntax tree is lowered to.

use crate::ir::attributes;
use crate::sv::chain;
use crate::sv::cst;
use crate::sv::cst::{CstNode, NodeKind};
use crate::sv::literal;
use crate::sv::lower;
use crate::sv::module::{Body, ModuleView, OpView, PortView, SvOpKind, SvType};
use crate::sv::parse::ParseView;
use crate::sv::query;
use crate::sv::span;
use vstd::prelude::*;

verus! {

/// A syntax tree, as text and nodes.
pub struct Tree {
    pub src: Seq<char>,
    pub nodes: Seq<CstNode>,
}

impl Tree {
    /// The text of a node, without the white space at its ends.
    pub open spec fn text(self, i: int) -> Seq<char> {
        query::text(self.src, self.nodes, i)
    }

    /// The first token of a node.
    pub open spec fn token(self, i: int) -> Seq<char> {
        query::token(self.src, self.nodes, i)
    }

    /// The children of a node that are of a kind, in order.
    pub open spec fn kids(self, i: int, kind: NodeKind) -> Seq<int> {
        query::kids(self.nodes, i, kind)
    }

    /// The first of a node and its descendants that is of some kinds.
    pub open spec fn find(self, i: int, kinds: Seq<NodeKind>) -> Option<int> {
        query::find(self.nodes, i, kinds)
    }
}

/// Adds an operation; its result, where it has one, is the next value.
pub open spec fn emit(
    b: Body,
    kind: SvOpKind,
    name: Seq<char>,
    callee: Seq<char>,
    operands: Seq<usize>,
    ty: Option<SvType>,
) -> Body {
    Body {
        ops: b.ops.push(
            OpView {
                kind,
                name,
                callee,
                operands,
                result: match ty {
                    Some(_) => Some(b.types.len() as usize),
                    None => None,
                },
            },
        ),
        types: match ty {
            Some(t) => b.types.push(t),
            None => b.types,
        },
    }
}

/// A body and a value of it, or the text of an error.
pub type Lowered = Result<(Body, usize), Seq<char>>;

/// Adds an operation with a result, and gives the result.
pub open spec fn emit_value(
    b: Body,
    kind: SvOpKind,
    name: Seq<char>,
    operands: Seq<usize>,
    ty: SvType,
) -> Lowered {
    Ok((emit(b, kind, name, Seq::empty(), operands, Some(ty)), b.types.len() as usize))
}

/// The value that a name stands for.
pub open spec fn resolve(scope: Map<Seq<char>, usize>, name: Seq<char>) -> Result<usize, Seq<char>> {
    if scope.dom().contains(name) {
        Ok(scope[name])
    } else {
        Err("unresolved identifier '"@ + name + "'"@)
    }
}

/// A constant of a value and a width, which must not be zero.
pub open spec fn constant(b: Body, value: u64, width: u32) -> Lowered {
    if width == 0 {
        Err("a constant cannot have width 0"@)
    } else {
        emit_value(
            b,
            SvOpKind::Constant { value: lower::low_bits(value, width) as u64, width },
            Seq::empty(),
            Seq::empty(),
            SvType::Integer { width },
        )
    }
}

/// The constant that a number literal denotes.
pub open spec fn number(b: Body, text: Seq<char>) -> Lowered {
    constant(b, literal::literal_meaning(text).0 as u64, literal::literal_meaning(text).1 as u32)
}

/// The kinds of node that say what an expression is.
pub open spec fn construct_kinds() -> Seq<NodeKind> {
    seq![
        NodeKind::Binary,
        NodeKind::Unary,
        NodeKind::Conditional,
        NodeKind::Ternary,
        NodeKind::OtherExpression,
        NodeKind::Concatenation,
        NodeKind::Primary,
        NodeKind::IntegralNumber,
        NodeKind::SimpleIdentifier,
        NodeKind::EscapedIdentifier,
    ]
}

/// The number of bits that a value of a type adds to a concatenation.
pub open spec fn bits(ty: SvType) -> nat {
    match ty {
        SvType::Integer { width } => width as nat,
        _ => 1,
    }
}

/// The number of bits of a concatenation of values.
pub open spec fn total_bits(types: Seq<SvType>, values: Seq<usize>) -> nat
    decreases values.len(),
{
    if values.len() == 0 {
        0
    } else {
        total_bits(types, values.drop_last()) + bits(types[values.last() as int])
    }
}

/// The low end and the width of the slice from one bound to the other; `None`
/// where a bound or the width does not fit in 32 bits.
pub open spec fn slice_bounds(a: int, b: int) -> Option<(u32, u32)> {
    let low = if a <= b {
        a
    } else {
        b
    };
    let high = if a <= b {
        b
    } else {
        a
    };
    if low < 0 || high > u32::MAX || high - low + 1 > u32::MAX {
        None
    } else {
        Some((low as u32, (high - low + 1) as u32))
    }
}

/// The expression in the parentheses in place `c`, where they hold one expression
/// and no choice of several values.
pub open spec fn inside(t: Tree, c: int) -> Option<int> {
    if t.find(c, seq![NodeKind::MinTypMax]) is Some {
        None
    } else {
        t.find(c, seq![NodeKind::Expression])
    }
}

/// The text of the error for an expression that is not supported.
pub open spec fn unsupported_expression(what: Seq<char>) -> Seq<char> {
    "unsupported SystemVerilog expression: "@ + what
}

/// Lowers an expression: what is done is what its outermost construct says, to
/// the values of its parts.
pub open spec fn expression(t: Tree, scope: Map<Seq<char>, usize>, b: Body, i: int) -> Lowered
    decreases t.nodes.len() - i, 3int, 0int,
{
    match t.find(i, construct_kinds()) {
        None => Err(unsupported_expression("unsupported expression"@)),
        Some(j) => {
            proof {
                query::lemma_find_from(t.nodes, i, t.nodes[i].end as int, construct_kinds());
                query::lemma_kids_from(t.nodes, j + 1, t.nodes[j].end as int, NodeKind::Primary);
            }
            let parts = t.kids(j, NodeKind::Expression);
            match t.nodes[j].kind {
                NodeKind::Binary => {
                    if parts.len() != 2 || t.kids(j, NodeKind::BinaryOperator).len() != 1 {
                        Err("invalid binary expression"@)
                    } else {
                        chained(t, scope, b, i, j)
                    }
                },
                NodeKind::Unary => {
                    let operators = t.kids(j, NodeKind::UnaryOperator);
                    let operands = t.kids(j, NodeKind::Primary);
                    if operands.len() != 1 || operators.len() != 1 {
                        Err("invalid unary expression"@)
                    } else {
                        match operand(t, scope, b, operands[0]) {
                            Err(e) => Err(e),
                            Ok((b1, v)) => emit_value(
                                b1,
                                SvOpKind::Unary,
                                t.text(operators[0]),
                                seq![v],
                                b1.types[v as int],
                            ),
                        }
                    }
                },
                NodeKind::Conditional => {
                    if parts.len() != 2 || t.kids(j, NodeKind::CondPredicate).len() != 1 {
                        Err("invalid conditional expression"@)
                    } else {
                        chained(t, scope, b, i, j)
                    }
                },
                NodeKind::Ternary => {
                    if parts.len() != 3 {
                        Err("invalid conditional expression"@)
                    } else {
                        chained(t, scope, b, i, j)
                    }
                },
                NodeKind::Concatenation => concatenation(t, scope, b, j),
                NodeKind::Primary => primary(t, scope, b, j),
                NodeKind::IntegralNumber => number(b, t.text(j)),
                NodeKind::SimpleIdentifier => named_value(scope, b, t.text(j)),
                NodeKind::EscapedIdentifier => named_value(scope, b, t.text(j)),
                _ => Err(unsupported_expression("unsupported expression"@)),
            }
        },
    }
}

/// Lowers an expression that is an operand: its value is made of bits, no memory.
pub open spec fn operand(t: Tree, scope: Map<Seq<char>, usize>, b: Body, i: int) -> Lowered
    decreases t.nodes.len() - i, 4int, 0int,
{
    match expression(t, scope, b, i) {
        Err(e) => Err(e),
        Ok((b1, v)) => if b1.types[v as int] is Memory {
            Err(unsupported_expression("a memory is not an operand"@))
        } else {
            Ok((b1, v))
        },
    }
}

/// Applies the operators of a chain to its values: the two sides of the operator
/// that is applied last come before it. The result has the type of the left side.
pub open spec fn combine(b: Body, values: Seq<usize>, names: Seq<Seq<char>>) -> (Body, usize)
    decreases names.len(),
{
    if names.len() == 0 || values.len() != names.len() + 1 {
        (b, values[0])
    } else {
        proof {
            chain::lemma_loosest(names);
        }
        let k = chain::loosest(names);
        let (b1, lhs) = combine(b, values.take(k + 1), names.take(k));
        let (b2, rhs) = combine(b1, values.skip(k + 1), names.skip(k + 1));
        (
            emit(
                b2,
                SvOpKind::Binary,
                names[k],
                Seq::empty(),
                seq![lhs, rhs],
                Some(b2.types[lhs as int]),
            ),
            b2.types.len() as usize,
        )
    }
}

/// Whether one of some values is a memory.
pub open spec fn any_memory(types: Seq<SvType>, values: Seq<usize>) -> bool {
    exists|k: int| 0 <= k < values.len() && types[#[trigger] values[k] as int] is Memory
}

/// Whether a choice can depend on a chain of operators: one whose operators all
/// bind tighter than the choice.
pub open spec fn can_choose(names: Seq<Seq<char>>) -> bool {
    names.len() == 0 || chain::precedence(names[chain::loosest(names)]) > 0
}

/// Lowers the expression in place `i`, whose construct in place `j` is a binary
/// expression or a choice: its operands in order, then its operators, then the
/// choice.
pub open spec fn chained(t: Tree, scope: Map<Seq<char>, usize>, b: Body, i: int, j: int) -> Lowered
    decreases t.nodes.len() - j, 2int, 0int,
{
    let c = chain::chain(t, i);
    let names = chain::texts(t, c.operators);
    let refused: Lowered = Err(unsupported_expression("unsupported expression"@));
    match parts_of(t, scope, b, j, c.operands, c.operands.len()) {
        Err(e) => Err(e),
        Ok((b1, values)) => if any_memory(b1.types, values) {
            Err(unsupported_expression("a memory is not an operand"@))
        } else {
            let (b2, v) = combine(b1, values, names);
            match c.choice {
                None => Ok((b2, v)),
                Some((yes, no)) => if !can_choose(names) || !(j < yes < t.nodes.len()) || !(j < no
                    < t.nodes.len()) {
                    refused
                } else {
                    match operand(t, scope, b2, yes) {
                        Err(e) => Err(e),
                        Ok((b3, x)) => match operand(t, scope, b3, no) {
                            Err(e) => Err(e),
                            Ok((b4, y)) => mux(b4, v, x, y),
                        },
                    }
                },
            }
        },
    }
}

/// The choice of one of two values, of the type of the first.
pub open spec fn mux(b: Body, sel: usize, yes: usize, no: usize) -> Lowered {
    emit_value(b, SvOpKind::Mux, Seq::empty(), seq![sel, yes, no], b.types[yes as int])
}

/// The value that a name stands for, with nothing added.
pub open spec fn named_value(scope: Map<Seq<char>, usize>, b: Body, name: Seq<char>) -> Lowered {
    match resolve(scope, name) {
        Err(e) => Err(e),
        Ok(v) => Ok((b, v)),
    }
}

/// Lowers the first `n` of some expressions behind place `i`, in order.
pub open spec fn parts_of(
    t: Tree,
    scope: Map<Seq<char>, usize>,
    b: Body,
    i: int,
    places: Seq<int>,
    n: nat,
) -> Result<(Body, Seq<usize>), Seq<char>>
    decreases t.nodes.len() - i, 0int, n as int,
{
    if n == 0 || n > places.len() {
        Ok((b, Seq::empty()))
    } else {
        match parts_of(t, scope, b, i, places, (n - 1) as nat) {
            Err(e) => Err(e),
            Ok((b1, values)) => if !(i < places[n - 1] < t.nodes.len()) {
                Err(unsupported_expression("unsupported expression"@))
            } else {
                match expression(t, scope, b1, places[n - 1]) {
                    Err(e) => Err(e),
                    Ok((b2, v)) => Ok((b2, values.push(v))),
                }
            },
        }
    }
}

/// Lowers a concatenation: its width is the sum of the widths of its parts.
pub open spec fn concatenation(t: Tree, scope: Map<Seq<char>, usize>, b: Body, i: int) -> Lowered
    decreases t.nodes.len() - i, 1int, 0int,
{
    let places = t.kids(i, NodeKind::Expression);
    match parts_of(t, scope, b, i, places, places.len()) {
        Err(e) => Err(e),
        Ok((b1, values)) => if places.len() == 0 {
            Err("concatenation cannot be empty"@)
        } else if total_bits(b1.types, values) > u32::MAX {
            Err("concatenation is too wide"@)
        } else {
            emit_value(
                b1,
                SvOpKind::Concat,
                Seq::empty(),
                values,
                SvType::Integer { width: total_bits(b1.types, values) as u32 },
            )
        },
    }
}

/// Lowers a primary: a parenthesized expression, a name with an optional select,
/// a concatenation or a number.
pub open spec fn primary(t: Tree, scope: Map<Seq<char>, usize>, b: Body, i: int) -> Lowered
    decreases t.nodes.len() - i, 2int, 0int,
{
    let refused: Lowered = Err(unsupported_expression("unsupported primary expression"@));
    let c = i + 1;
    if i < 0 || c >= t.nodes[i].end || c >= t.nodes.len() {
        refused
    } else {
        match t.nodes[c].kind {
            NodeKind::Parenthesized => match inside(t, c) {
                None => refused,
                Some(k) => {
                    proof {
                        query::lemma_find_from(
                            t.nodes,
                            c,
                            t.nodes[c].end as int,
                            seq![NodeKind::Expression],
                        );
                    }
                    expression(t, scope, b, k)
                },
            },
            NodeKind::PrimaryHierarchical => hierarchical(t, scope, b, c),
            NodeKind::PrimaryConcatenation => match t.find(c, seq![NodeKind::Concatenation]) {
                None => refused,
                Some(k) => {
                    proof {
                        query::lemma_find_from(
                            t.nodes,
                            c,
                            t.nodes[c].end as int,
                            seq![NodeKind::Concatenation],
                        );
                    }
                    if t.nodes[k].end != t.nodes[c].end {
                        refused
                    } else {
                        concatenation(t, scope, b, k)
                    }
                },
            },
            NodeKind::PrimaryLiteral => match t.find(
                c,
                seq![NodeKind::IntegralNumber, NodeKind::UnbasedUnsizedLiteral],
            ) {
                None => refused,
                Some(k) => if t.nodes[k].kind == NodeKind::UnbasedUnsizedLiteral && t.text(k)
                    != "'0"@ {
                    refused
                } else {
                    number(b, t.text(k))
                },
            },
            NodeKind::PrimaryName => match t.find(
                c,
                seq![NodeKind::SimpleIdentifier, NodeKind::EscapedIdentifier],
            ) {
                None => refused,
                Some(k) => if t.text(k) != t.text(c) {
                    refused
                } else {
                    named_value(scope, b, t.text(k))
                },
            },
            _ => refused,
        }
    }
}

/// Lowers a name with an optional select: `a`, the slice `a[msb:lsb]`, or the
/// element `a[index]`.
pub open spec fn hierarchical(t: Tree, scope: Map<Seq<char>, usize>, b: Body, i: int) -> Lowered
    decreases t.nodes.len() - i, 2int, 0int,
{
    let names = t.kids(i, NodeKind::HierarchicalIdentifier);
    if names.len() == 0 {
        Err("missing variable identifier"@)
    } else if is_scoped(t, i, names[0]) {
        Err(unsupported_expression("unsupported scope"@))
    } else {
        match resolve(scope, t.text(names[0])) {
            Err(e) => Err(e),
            Ok(base) => match t.find(i, seq![NodeKind::Select]) {
                None => Ok((b, base)),
                Some(s) => {
                    proof {
                        query::lemma_find_from(
                            t.nodes,
                            i,
                            t.nodes[i].end as int,
                            seq![NodeKind::Select],
                        );
                    }
                    selected(t, scope, b, s, base)
                },
            },
        }
    }
}

/// Whether a token comes before the name in place `id` of the node in place `i`.
pub open spec fn is_scoped(t: Tree, i: int, id: int) -> bool {
    t.find(i, seq![NodeKind::Locate]) matches Some(k) && k < id
}

/// Lowers a select of a value.
pub open spec fn selected(
    t: Tree,
    scope: Map<Seq<char>, usize>,
    b: Body,
    s: int,
    base: usize,
) -> Lowered
    decreases t.nodes.len() - s, 1int, 0int,
{
    let ranges = t.kids(s, NodeKind::PartSelectRange);
    let bit_selects = t.kids(s, NodeKind::BitSelect);
    let refused: Lowered = Err(unsupported_expression("unsupported select"@));
    if bit_selects.len() != 1 || ranges.len() > 1 || t.kids(s, NodeKind::MemberIdentifier).len() > 0
        || s < 0 {
        refused
    } else {
        let indices = t.kids(bit_selects[0], NodeKind::Expression);
        if ranges.len() == 1 {
            if indices.len() > 0 {
                refused
            } else {
                match t.find(ranges[0], seq![NodeKind::ConstantRange]) {
                    None => refused,
                    Some(r) => slice(t, b, r, base),
                }
            }
        } else if indices.len() == 0 {
            Ok((b, base))
        } else if indices.len() > 1 {
            refused
        } else {
            proof {
                query::lemma_kids_from(t.nodes, s + 1, t.nodes[s].end as int, NodeKind::BitSelect);
                query::lemma_kids_from(
                    t.nodes,
                    bit_selects[0] + 1,
                    t.nodes[bit_selects[0]].end as int,
                    NodeKind::Expression,
                );
                assert(s < bit_selects[0] < indices[0] < t.nodes.len());
            }
            match operand(t, scope, b, indices[0]) {
                Err(e) => Err(e),
                Ok((b1, index)) => emit_value(
                    b1,
                    SvOpKind::Index,
                    Seq::empty(),
                    seq![base, index],
                    SvType::Integer { width: 1 },
                ),
            }
        }
    }
}

/// The bounds of a constant range.
pub open spec fn range_bounds(t: Tree, r: int) -> Result<(int, int), Seq<char>> {
    let bounds = t.kids(r, NodeKind::Expression);
    if bounds.len() != 2 {
        Err("invalid range"@)
    } else {
        match (chain::bound_value(t, bounds[0]), chain::bound_value(t, bounds[1])) {
            (Some(a), Some(b)) => Ok((a, b)),
            _ => Err("range bound is not a constant"@),
        }
    }
}

/// Lowers the slice of a value that a constant range says.
pub open spec fn slice(t: Tree, b: Body, r: int, base: usize) -> Lowered {
    match range_bounds(t, r) {
        Err(e) => Err(e),
        Ok((x, y)) => match slice_bounds(x, y) {
            None => Err("slice bounds are out of range"@),
            Some((low, width)) => emit_value(
                b,
                SvOpKind::Slice { low, width },
                Seq::empty(),
                seq![base],
                SvType::Integer { width },
            ),
        },
    }
}

/// The width of the range from one bound to the other; `None` where it does not
/// fit in 32 bits.
pub open spec fn width_between(a: int, b: int) -> Option<u32> {
    let width = if a >= b {
        a - b + 1
    } else {
        b - a + 1
    };
    if width > u32::MAX {
        None
    } else {
        Some(width as u32)
    }
}

/// The width that the first range in a node gives, 1 where there is none.
pub open spec fn range_width(t: Tree, i: int) -> Result<u32, Seq<char>> {
    match t.find(i, seq![NodeKind::ConstantRange]) {
        None => Ok(1u32),
        Some(r) => match range_bounds(t, r) {
            Err(e) => Err(e),
            Ok((a, b)) => match width_between(a, b) {
                None => Err("range is too wide"@),
                Some(width) => Ok(width),
            },
        },
    }
}

/// What the items of a module have added up to: a body, and the names in scope.
pub struct State {
    pub body: Body,
    pub scope: Map<Seq<char>, usize>,
}

/// A state, or the text of an error.
pub type Advanced = Result<State, Seq<char>>;

/// Adds an operation whose result a name stands for from then on.
pub open spec fn define(
    st: State,
    kind: SvOpKind,
    name: Seq<char>,
    operands: Seq<usize>,
    ty: SvType,
) -> State {
    State {
        body: emit(st.body, kind, name, Seq::empty(), operands, Some(ty)),
        scope: st.scope.insert(name, st.body.types.len() as usize),
    }
}

/// The text of the error for an item that is not supported.
pub open spec fn unsupported_item(what: Seq<char>) -> Seq<char> {
    "unsupported SystemVerilog construct: "@ + what
}

/// The nodes of a kind among a node and its descendants, in order.
pub open spec fn all(t: Tree, i: int, kind: NodeKind) -> Seq<int> {
    query::all_from(t.nodes, i, t.nodes[i].end as int, kind)
}

/// The name that an assignment is to: all of its target, which is no part of a
/// variable and no list of variables.
pub open spec fn target_name(t: Tree, i: int) -> Result<Seq<char>, Seq<char>> {
    match t.find(i, seq![NodeKind::SimpleIdentifier, NodeKind::EscapedIdentifier]) {
        None => Err(unsupported_item("unsupported assignment target"@)),
        Some(id) => if t.text(id) != t.text(i) {
            Err(unsupported_item("unsupported assignment target"@))
        } else {
            Ok(t.text(i))
        },
    }
}

/// The target and the expression of an assignment whose target is of a kind; the
/// error where it has none.
pub open spec fn assigned(t: Tree, a: int, kind: NodeKind, missing: Seq<char>) -> Result<
    (Seq<char>, int),
    Seq<char>,
> {
    let targets = t.kids(a, kind);
    let values = t.kids(a, NodeKind::Expression);
    if targets.len() == 0 || values.len() == 0 {
        Err(missing)
    } else {
        match target_name(t, targets[0]) {
            Err(e) => Err(e),
            Ok(name) => Ok((name, values.last())),
        }
    }
}

/// The target and the expression of the one assignment of a kind in a node.
pub open spec fn single_assignment(
    t: Tree,
    i: int,
    kind: NodeKind,
    target: NodeKind,
    missing: Seq<char>,
) -> Result<(Seq<char>, int), Seq<char>> {
    let places = all(t, i, kind);
    if places.len() == 0 {
        Err("continuous assign missing assignment"@)
    } else if places.len() > 1 {
        Err(unsupported_item("unsupported list of assignments"@))
    } else {
        assigned(t, places[0], target, missing)
    }
}

/// The target and the expression of a continuous assignment.
pub open spec fn continuous_parts(t: Tree, i: int) -> Result<(Seq<char>, int), Seq<char>> {
    let nets = t.kids(i, NodeKind::ContinuousAssignNet);
    let variables = t.kids(i, NodeKind::ContinuousAssignVariable);
    if t.find(i, seq![NodeKind::Delay]) is Some {
        Err(unsupported_item("unsupported delay or strength"@))
    } else if nets.len() > 0 {
        single_assignment(
            t,
            nets[0],
            NodeKind::NetAssignment,
            NodeKind::NetLvalue,
            "invalid net assignment"@,
        )
    } else if variables.len() > 0 {
        single_assignment(
            t,
            variables[0],
            NodeKind::VariableAssignment,
            NodeKind::VariableLvalue,
            "invalid variable assignment"@,
        )
    } else {
        Err("expected continuous assignment"@)
    }
}

/// Lowers an expression and lets a name stand for its value from then on, as an
/// operation of a kind says.
pub open spec fn drive(t: Tree, st: State, kind: SvOpKind, target: Seq<char>, value: int) -> Advanced {
    match expression(t, st.scope, st.body, value) {
        Err(e) => Err(e),
        Ok((b, v)) => Ok(
            define(
                State { body: b, scope: st.scope },
                kind,
                target,
                seq![v],
                b.types[v as int],
            ),
        ),
    }
}

/// Lowers a continuous assignment: its target stands for the assigned value.
pub open spec fn continuous_assign(t: Tree, st: State, i: int) -> Advanced {
    match continuous_parts(t, i) {
        Err(e) => Err(e),
        Ok((target, value)) => drive(t, st, SvOpKind::Assign, target, value),
    }
}

/// Whether the type in a node is made of bits: it is left out, or one of `bit`,
/// `logic` and `reg`.
pub open spec fn made_of_bits(t: Tree, i: int) -> bool {
    match t.find(i, seq![NodeKind::DataType]) {
        None => true,
        Some(d) => d + 1 < t.nodes.len() && t.nodes[d + 1].kind == NodeKind::VectorType,
    }
}

/// The width of the type in a node, from its packed dimension.
pub open spec fn type_width(t: Tree, i: int) -> Result<u32, Seq<char>> {
    let dimensions = all(t, i, NodeKind::PackedDimension);
    if !made_of_bits(t, i) {
        Err(unsupported_item("unsupported data type"@))
    } else if dimensions.len() > 1 {
        Err(unsupported_item("unsupported packed dimensions"@))
    } else if dimensions.len() == 0 {
        Ok(1u32)
    } else if t.find(dimensions[0], seq![NodeKind::OtherDimension]) is Some {
        Err(unsupported_item("unsupported packed dimensions"@))
    } else {
        range_width(t, dimensions[0])
    }
}

/// The number of elements of an unpacked dimension: `[0:15]` or `[16]`.
pub open spec fn dimension_depth(t: Tree, d: int) -> Result<u32, Seq<char>> {
    if t.find(d, seq![NodeKind::OtherDimension]) is Some {
        Err(unsupported_item("unsupported unpacked dimension"@))
    } else if t.find(d, seq![NodeKind::ConstantRange]) is Some {
        range_width(t, d)
    } else {
        match t.find(d, seq![NodeKind::Expression]) {
            None => Err(unsupported_item("unsupported unpacked dimension"@)),
            Some(e) => match chain::bound_value(t, e) {
                None => Err("range bound is not a constant"@),
                Some(n) => if n < 1 || n > u32::MAX {
                    Err("memory depth is out of range"@)
                } else {
                    Ok(n as u32)
                },
            },
        }
    }
}

/// What a declarator declares.
pub struct Declared {
    pub kind: SvOpKind,
    pub name: Seq<char>,
    pub ty: SvType,
}

/// The kinds of node that name a variable or a net.
pub open spec fn name_kinds(kind: SvOpKind) -> Seq<NodeKind> {
    if kind == SvOpKind::WireDecl {
        seq![
            NodeKind::NetIdentifier,
            NodeKind::SimpleIdentifier,
            NodeKind::EscapedIdentifier,
        ]
    } else {
        seq![
            NodeKind::VariableIdentifier,
            NodeKind::SimpleIdentifier,
            NodeKind::EscapedIdentifier,
        ]
    }
}

/// What a declarator of a declaration of a kind and a width declares: a net; or a
/// variable or register, which is a memory where it has more than one element.
pub open spec fn declarator(t: Tree, a: int, kind: SvOpKind, width: u32) -> Result<
    Declared,
    Seq<char>,
> {
    let dimensions = t.kids(a, NodeKind::Dimension);
    let net = kind == SvOpKind::WireDecl;
    match t.find(a, name_kinds(kind)) {
        None => Err(
            if net {
                "net declaration missing identifier"@
            } else {
                "data declaration missing identifier"@
            },
        ),
        Some(id) => {
            let plain = Declared { kind, name: t.text(id), ty: SvType::Integer { width } };
            if !net && t.kids(a, NodeKind::Expression).len() > 0 {
                Err(unsupported_item("unsupported initial value"@))
            } else if dimensions.len() == 0 {
                Ok(plain)
            } else if net || dimensions.len() > 1 {
                Err(unsupported_item("unsupported unpacked dimension"@))
            } else {
                match dimension_depth(t, dimensions[0]) {
                    Err(e) => Err(e),
                    Ok(depth) => if depth > 1 {
                        Ok(
                            Declared {
                                kind: SvOpKind::MemDecl,
                                name: t.text(id),
                                ty: SvType::Memory { depth: depth as u64, width },
                            },
                        )
                    } else {
                        Ok(plain)
                    },
                }
            }
        },
    }
}

/// What the first `n` declarators of a declaration declare, in order.
pub open spec fn declarators(
    t: Tree,
    places: Seq<int>,
    kind: SvOpKind,
    width: u32,
    n: nat,
) -> Result<Seq<Declared>, Seq<char>>
    decreases n,
{
    if n == 0 {
        Ok(Seq::empty())
    } else {
        match declarators(t, places, kind, width, (n - 1) as nat) {
            Err(e) => Err(e),
            Ok(list) => match declarator(t, places[n - 1], kind, width) {
                Err(e) => Err(e),
                Ok(d) => Ok(list.push(d)),
            },
        }
    }
}

/// What a net declaration declares.
pub open spec fn net_declared(t: Tree, i: int) -> Result<Seq<Declared>, Seq<char>> {
    let places = all(t, i, NodeKind::NetDeclAssignment);
    if t.find(i, seq![NodeKind::Delay]) is Some {
        Err(unsupported_item("unsupported delay or strength"@))
    } else {
        match type_width(t, i) {
            Err(e) => Err(e),
            Ok(width) => if places.len() == 0 {
                Err("net declaration missing identifier"@)
            } else {
                declarators(t, places, SvOpKind::WireDecl, width, places.len())
            },
        }
    }
}

/// Whether a data declaration declares registers: its type is `reg`.
pub open spec fn is_register(t: Tree, i: int) -> bool {
    match t.find(i, seq![NodeKind::VectorType]) {
        None => false,
        Some(v) => t.token(v) == "reg"@,
    }
}

/// What a data declaration declares.
pub open spec fn data_declared(t: Tree, i: int) -> Result<Seq<Declared>, Seq<char>> {
    let places = all(t, i, NodeKind::VariableDeclAssignment);
    let kind = if is_register(t, i) {
        SvOpKind::RegDecl
    } else {
        SvOpKind::LogicDecl
    };
    if t.find(i, seq![NodeKind::DataDeclarationVariable]) is None {
        Err(unsupported_item("unsupported data declaration"@))
    } else {
        match type_width(t, i) {
            Err(e) => Err(e),
            Ok(width) => if places.len() == 0 {
                Err("data declaration missing identifier"@)
            } else {
                declarators(t, places, kind, width, places.len())
            },
        }
    }
}

/// Adds the declarations of some declarators, in order.
pub open spec fn declare_all(st: State, list: Seq<Declared>) -> State
    decreases list.len(),
{
    if list.len() == 0 {
        st
    } else {
        let d = list.last();
        define(declare_all(st, list.drop_last()), d.kind, d.name, Seq::empty(), d.ty)
    }
}

/// What an item of a module declares: nothing where it is no declaration.
pub open spec fn declared(t: Tree, i: int) -> Result<Seq<Declared>, Seq<char>> {
    if t.find(i, seq![NodeKind::OtherItem]) is Some || t.find(i, seq![NodeKind::ContinuousAssign])
        is Some {
        Ok(Seq::empty())
    } else {
        match t.find(i, seq![NodeKind::NetDeclaration]) {
            Some(d) => net_declared(t, d),
            None => match t.find(i, seq![NodeKind::DataDeclaration]) {
                Some(d) => data_declared(t, d),
                None => Ok(Seq::empty()),
            },
        }
    }
}

/// Adds what the first `n` of some items declare, in order.
pub open spec fn declarations(t: Tree, st: State, places: Seq<int>, n: nat) -> Advanced
    decreases n,
{
    if n == 0 {
        Ok(st)
    } else {
        match declarations(t, st, places, (n - 1) as nat) {
            Err(e) => Err(e),
            Ok(s) => match declared(t, places[n - 1]) {
                Err(e) => Err(e),
                Ok(list) => Ok(declare_all(s, list)),
            },
        }
    }
}

/// The initial value of a net declaration: the declarator that has one; `None`
/// where none has. Only a single net can have one.
pub open spec fn net_value(t: Tree, i: int) -> Result<Option<int>, Seq<char>> {
    let places = all(t, i, NodeKind::NetDeclAssignment);
    if places.len() == 1 && t.kids(places[0], NodeKind::Expression).len() > 0 {
        Ok(Some(places[0]))
    } else if valued(t, places, places.len()) {
        Err(unsupported_item("unsupported list of assignments"@))
    } else {
        Ok(None)
    }
}

/// Whether one of the first `n` of some declarators has an initial value.
pub open spec fn valued(t: Tree, places: Seq<int>, n: nat) -> bool {
    exists|k: int|
        0 <= k < n && t.kids(#[trigger] places[k], NodeKind::Expression).len() > 0
}

/// Lowers a net declaration, which has been declared: the initial value of the
/// net drives it.
pub open spec fn net_declaration(t: Tree, st: State, i: int) -> Advanced {
    match net_value(t, i) {
        Err(e) => Err(e),
        Ok(None) => Ok(st),
        Ok(Some(a)) => match t.find(a, name_kinds(SvOpKind::WireDecl)) {
            None => Err("net declaration missing identifier"@),
            Some(id) => drive(
                t,
                st,
                SvOpKind::Assign,
                t.text(id),
                t.kids(a, NodeKind::Expression)[0],
            ),
        },
    }
}

/// The target and the expression of the first assignment in a statement.
pub open spec fn assignment_in(t: Tree, i: int) -> Result<(Seq<char>, int), Seq<char>> {
    match t.find(i, seq![NodeKind::ProceduralAssignment]) {
        None => Err("cannot find assignment inside procedural block"@),
        Some(a) => {
            let operators = t.kids(a, NodeKind::AssignmentOperator);
            if operators.len() > 0 && t.token(operators[0]) != "="@ {
                Err(unsupported_item("unsupported assignment operator"@))
            } else {
                assigned(
                    t,
                    a,
                    NodeKind::VariableLvalue,
                    "cannot find assignment inside procedural block"@,
                )
            }
        },
    }
}

/// Whether a statement consists of the given numbers of assignments and
/// conditional statements, of blocks and of timing controls, and of nothing else.
pub open spec fn consists_of(t: Tree, i: int, assignments: nat, conditionals: nat) -> bool {
    &&& t.find(i, seq![NodeKind::BlockItemDeclaration, NodeKind::Delay]) is None
    &&& all(t, i, NodeKind::ProceduralAssignment).len() == assignments
    &&& all(t, i, NodeKind::ConditionalStatement).len() == conditionals
    &&& all(t, i, NodeKind::StatementItem).len() == assignments + conditionals + all(
        t,
        i,
        NodeKind::SeqBlock,
    ).len() + all(t, i, NodeKind::ProceduralTimingControlStatement).len()
}

/// Lowers `always_comb begin target = expr; end`: the target stands for the
/// assigned value.
pub open spec fn always_comb(t: Tree, st: State, i: int) -> Advanced {
    match assignment_in(t, i) {
        Err(e) => Err(e),
        Ok((target, value)) => if !consists_of(t, i, 1, 0) || all(
            t,
            i,
            NodeKind::ProceduralTimingControlStatement,
        ).len() > 0 {
            Err(unsupported_item("unsupported procedural statement"@))
        } else {
            drive(t, st, SvOpKind::AlwaysComb, target, value)
        },
    }
}

/// The signal of an event of a sensitivity list, without a condition.
pub open spec fn event_signal(t: Tree, e: int) -> Result<Seq<char>, Seq<char>> {
    let signals = t.kids(e, NodeKind::Expression);
    if signals.len() != 1 {
        Err(unsupported_item("unsupported event"@))
    } else {
        Ok(t.text(signals[0]))
    }
}

/// The edge of an event: the word that says it, or nothing.
pub open spec fn event_edge(t: Tree, e: int) -> Seq<char> {
    let edges = t.kids(e, NodeKind::EdgeIdentifier);
    if edges.len() > 0 {
        t.token(edges[0])
    } else {
        Seq::empty()
    }
}

/// The clock of a sensitivity list, which its first event names by its rising
/// edge, and the reset, which a second event names, with whether it is active
/// when low: whether that event is a falling edge.
pub open spec fn sensitivity(t: Tree, i: int) -> Result<
    (Seq<char>, Option<(Seq<char>, bool)>),
    Seq<char>,
> {
    let events = all(t, i, NodeKind::Event);
    if events.len() > 2 || t.find(i, seq![NodeKind::OtherEvent]) is Some {
        Err(unsupported_item("unsupported event"@))
    } else if events.len() == 0 {
        Err("cannot extract clock from sensitivity list"@)
    } else {
        match event_signal(t, events[0]) {
            Err(e) => Err(e),
            Ok(clock) => if event_edge(t, events[0]) != "posedge"@ {
                Err(unsupported_item("unsupported clock edge"@))
            } else if events.len() == 1 {
                Ok((clock, None))
            } else {
                match event_signal(t, events[1]) {
                    Err(e) => Err(e),
                    Ok(reset) => if event_edge(t, events[1]) == "negedge"@ {
                        Ok((clock, Some((reset, true))))
                    } else if event_edge(t, events[1]) == "posedge"@ {
                        Ok((clock, Some((reset, false))))
                    } else {
                        Err(unsupported_item("unsupported reset edge"@))
                    },
                }
            },
        }
    }
}

/// The reset that the condition of a statement names, with whether it is active
/// when low.
pub open spec fn condition_reset(t: Tree, i: int) -> Result<(Seq<char>, bool), Seq<char>> {
    let symbols = t.kids(i, NodeKind::Symbol);
    if symbols.len() < 2 {
        Err("cannot extract reset condition"@)
    } else {
        let text = span::trim(
            span::trim_set(
                query::text_between(
                    t.src,
                    t.nodes,
                    symbols[0],
                    t.nodes[symbols[1]].end as int,
                ),
                seq!['(', ')'],
            ),
        );
        if text.len() > 0 && (text[0] == '!' || text[0] == '~') {
            Ok(
                (
                    span::trim(span::trim_set(span::trim(text.skip(1)), seq!['(', ')'])),
                    true,
                ),
            )
        } else {
            Ok((text, false))
        }
    }
}

/// The target of both branches of a conditional statement, and the expressions
/// that they assign to it.
pub open spec fn branch_assignments(t: Tree, i: int) -> Result<(Seq<char>, int, int), Seq<char>> {
    let branches = t.kids(i, NodeKind::StatementOrNull);
    if branches.len() == 0 {
        Err("expected ConditionalStatement"@)
    } else {
        match assignment_in(t, branches[0]) {
            Err(e) => Err(e),
            Ok((target, at_reset)) => if t.kids(i, NodeKind::Keyword).len() % 2 == 1 {
                Err("conditional statement missing else branch"@)
            } else {
                match assignment_in(t, branches.last()) {
                    Err(e) => Err(e),
                    Ok((other, next)) => if branches.len() != 2 {
                        Err(unsupported_item("unsupported conditional statement"@))
                    } else if target != other {
                        Err(
                            "reset target '"@ + target + "' does not match next-state target '"@
                                + other + "'"@,
                        )
                    } else {
                        Ok((target, at_reset, next))
                    },
                }
            },
        }
    }
}

/// The value of a clock: a clock, or a signal of one bit.
pub open spec fn clock_value(st: State, name: Seq<char>) -> Result<usize, Seq<char>> {
    match resolve(st.scope, name) {
        Err(e) => Err(e),
        Ok(v) => if st.body.types[v as int] is Clock || st.body.types[v as int] == (
        SvType::Integer { width: 1 }) {
            Ok(v)
        } else {
            Err("the clock is not a single bit"@)
        },
    }
}

/// Lowers `always_ff @(posedge clk ...)`, with or without a reset.
pub open spec fn always_ff(t: Tree, st: State, i: int) -> Advanced {
    match t.find(i, seq![NodeKind::ProceduralTimingControlStatement]) {
        None => Err("always_ff requires timing control"@),
        Some(p) => {
            let controls = t.kids(p, NodeKind::ProceduralTimingControl);
            if controls.len() == 0 {
                Err("invalid procedural timing statement"@)
            } else {
                match sensitivity(t, controls[0]) {
                    Err(e) => Err(e),
                    Ok((clock, event)) => match clock_value(st, clock) {
                        Err(e) => Err(e),
                        Ok(clk) => match t.find(i, seq![NodeKind::ConditionalStatement]) {
                            Some(c) => with_reset(t, st, i, c, clk, event),
                            None => if event is Some {
                                Err(unsupported_item("the reset is not used"@))
                            } else {
                                without_reset(t, st, i, clk)
                            },
                        },
                    },
                }
            }
        },
    }
}

/// Whether a statement has one timing control.
pub open spec fn timed_once(t: Tree, i: int) -> bool {
    all(t, i, NodeKind::ProceduralTimingControlStatement).len() == 1
}

/// Lowers a clocked statement without a reset: the target stands for the value
/// that is stored.
pub open spec fn without_reset(t: Tree, st: State, i: int, clk: usize) -> Advanced {
    match assignment_in(t, i) {
        Err(e) => Err(e),
        Ok((target, value)) => if !consists_of(t, i, 1, 0) || !timed_once(t, i) {
            Err(unsupported_item("unsupported procedural statement"@))
        } else {
            match expression(t, st.scope, st.body, value) {
                Err(e) => Err(e),
                Ok((b, v)) => Ok(
                    define(
                        State { body: b, scope: st.scope },
                        SvOpKind::AlwaysFfNoReset,
                        target,
                        seq![clk, v],
                        b.types[v as int],
                    ),
                ),
            }
        },
    }
}

/// The reset of a clocked conditional statement: the one that its condition
/// names. It is asynchronous where an event names it, too, and then the event and
/// the condition agree.
pub open spec fn reset_of(t: Tree, c: int, event: Option<(Seq<char>, bool)>) -> Result<
    (Seq<char>, bool),
    Seq<char>,
> {
    match condition_reset(t, c) {
        Err(e) => Err(e),
        Ok(r) => if event is Some && event != Some(r) {
            Err(unsupported_item("the condition is not that of the reset"@))
        } else {
            Ok(r)
        },
    }
}

/// Lowers a clocked conditional statement: one branch gives the value at reset,
/// the other the next value. The target stands for the value that is stored.
pub open spec fn with_reset(
    t: Tree,
    st: State,
    i: int,
    c: int,
    clk: usize,
    event: Option<(Seq<char>, bool)>,
) -> Advanced {
    match reset_of(t, c, event) {
        Err(e) => Err(e),
        Ok((name, active_low)) => match resolve(st.scope, name) {
            Err(e) => Err(e),
            Ok(rst) => match branch_assignments(t, c) {
                Err(e) => Err(e),
                Ok((target, at_reset, next)) => if !consists_of(t, i, 2, 1) || !timed_once(t, i) {
                    Err(unsupported_item("unsupported procedural statement"@))
                } else {
                    match expression(t, st.scope, st.body, at_reset) {
                        Err(e) => Err(e),
                        Ok((b1, reset_value)) => match expression(t, st.scope, b1, next) {
                            Err(e) => Err(e),
                            Ok((b2, next_value)) => Ok(
                                define(
                                    State { body: b2, scope: st.scope },
                                    SvOpKind::AlwaysFf { is_async: event is Some, active_low },
                                    target,
                                    seq![clk, next_value, rst, reset_value],
                                    b2.types[next_value as int],
                                ),
                            ),
                        },
                    }
                },
            },
        },
    }
}

/// Lowers a procedural block: `always_comb` or `always_ff`.
pub open spec fn always_construct(t: Tree, st: State, i: int) -> Advanced {
    let keywords = t.kids(i, NodeKind::AlwaysKeyword);
    let statements = t.kids(i, NodeKind::Statement);
    if keywords.len() == 0 || statements.len() == 0 {
        Err("expected AlwaysConstruct"@)
    } else if t.token(keywords[0]) == "always_comb"@ {
        always_comb(t, st, statements[0])
    } else if t.token(keywords[0]) == "always_ff"@ {
        always_ff(t, st, statements[0])
    } else {
        Err(unsupported_item("unsupported always construct type"@))
    }
}

/// The value that the node in place `j` connects to a port: `None` where it is
/// no connection, or connects nothing.
pub open spec fn connection(t: Tree, scope: Map<Seq<char>, usize>, b: Body, j: int) -> Result<
    (Body, Option<usize>),
    Seq<char>,
> {
    let values = t.kids(j, NodeKind::Expression);
    if t.nodes[j].kind == NodeKind::OrderedPortConnection || (t.nodes[j].kind
        == NodeKind::NamedPortConnectionIdentifier && t.kids(j, NodeKind::Symbol).len() >= 2) {
        if values.len() == 0 {
            Ok((b, None))
        } else {
            match expression(t, scope, b, values[0]) {
                Err(e) => Err(e),
                Ok((b1, v)) => Ok((b1, Some(v))),
            }
        }
    } else if t.nodes[j].kind == NodeKind::NamedPortConnectionIdentifier {
        let ports = t.kids(j, NodeKind::PortIdentifier);
        let name = if ports.len() > 0 {
            t.text(ports[0])
        } else {
            Seq::empty()
        };
        match resolve(scope, name) {
            Err(e) => Err(e),
            Ok(v) => Ok((b, Some(v))),
        }
    } else if t.nodes[j].kind == NodeKind::NamedPortConnectionAsterisk {
        Err(unsupported_item("unsupported port connection"@))
    } else {
        Ok((b, None))
    }
}

/// The values that the nodes from place `i` on, before place `j`, connect to
/// ports, in order.
pub open spec fn connections(
    t: Tree,
    scope: Map<Seq<char>, usize>,
    b: Body,
    i: int,
    j: int,
) -> Result<(Body, Seq<usize>), Seq<char>>
    decreases j - i,
{
    if j <= i {
        Ok((b, Seq::empty()))
    } else {
        match connections(t, scope, b, i, j - 1) {
            Err(e) => Err(e),
            Ok((b1, values)) => match connection(t, scope, b1, j - 1) {
                Err(e) => Err(e),
                Ok((b2, Some(v))) => Ok((b2, values.push(v))),
                Ok((b2, None)) => Ok((b2, values)),
            },
        }
    }
}

/// Lowers an instance of a module.
pub open spec fn instance(
    t: Tree,
    scope: Map<Seq<char>, usize>,
    b: Body,
    module: Seq<char>,
    i: int,
) -> Result<Body, Seq<char>> {
    let names = t.kids(i, NodeKind::NameOfInstance);
    let name = if names.len() > 0 {
        t.text(names[0])
    } else {
        Seq::empty()
    };
    match connections(t, scope, b, i, t.nodes[i].end as int) {
        Err(e) => Err(e),
        Ok((b1, values)) => Ok(emit(b1, SvOpKind::Instance, name, module, values, None)),
    }
}

/// Lowers the first `n` instances of an instantiation, in order.
pub open spec fn instances(
    t: Tree,
    scope: Map<Seq<char>, usize>,
    b: Body,
    i: int,
    n: nat,
) -> Result<Body, Seq<char>>
    decreases n,
{
    let modules = t.kids(i, NodeKind::ModuleIdentifier);
    let module = if modules.len() > 0 {
        t.text(modules[0])
    } else {
        Seq::empty()
    };
    if n == 0 {
        Ok(b)
    } else {
        match instances(t, scope, b, i, (n - 1) as nat) {
            Err(e) => Err(e),
            Ok(b1) => instance(
                t,
                scope,
                b1,
                module,
                t.kids(i, NodeKind::HierarchicalInstance)[n - 1],
            ),
        }
    }
}

/// Lowers a module instantiation: `child u1 (in1, in2);` or `.a(in1)`.
pub open spec fn module_instantiation(t: Tree, st: State, i: int) -> Advanced {
    if t.find(i, seq![NodeKind::ParameterValueAssignment]) is Some {
        Err(unsupported_item("unsupported parameter values"@))
    } else if t.find(i, seq![NodeKind::Dimension]) is Some {
        Err(unsupported_item("unsupported instance array"@))
    } else {
        match instances(
            t,
            st.scope,
            st.body,
            i,
            t.kids(i, NodeKind::HierarchicalInstance).len(),
        ) {
            Err(e) => Err(e),
            Ok(b) => Ok(State { body: b, scope: st.scope }),
        }
    }
}

/// Lowers an item of a module, whose declarations have been added. Where it holds
/// several constructs, a continuous assignment comes before a net declaration,
/// that before a data declaration, that before a procedural block, and that before
/// an instantiation.
#[verifier::opaque]
pub open spec fn item(t: Tree, st: State, i: int) -> Advanced {
    if t.find(i, seq![NodeKind::OtherItem]) is Some {
        Err(unsupported_item("unsupported module item"@))
    } else {
        match t.find(i, seq![NodeKind::ContinuousAssign]) {
            Some(a) => continuous_assign(t, st, a),
            None => match t.find(i, seq![NodeKind::NetDeclaration]) {
                Some(d) => net_declaration(t, st, d),
                None => match t.find(i, seq![NodeKind::DataDeclaration]) {
                    Some(_) => Ok(st),
                    None => match t.find(i, seq![NodeKind::AlwaysConstruct]) {
                        Some(c) => always_construct(t, st, c),
                        None => match t.find(i, seq![NodeKind::ModuleInstantiation]) {
                            Some(m) => module_instantiation(t, st, m),
                            None => Err(unsupported_item("unsupported module item"@)),
                        },
                    },
                },
            },
        }
    }
}

/// Lowers the first `n` of some items, in order.
pub open spec fn items(t: Tree, st: State, places: Seq<int>, n: nat) -> Advanced
    decreases n,
{
    if n == 0 {
        Ok(st)
    } else {
        match items(t, st, places, (n - 1) as nat) {
            Err(e) => Err(e),
            Ok(s) => item(t, s, places[n - 1]),
        }
    }
}

/// The directions that a port has: in, out.
pub type Direction = (bool, bool);

/// The direction of a port; where it says none, that of the port before it.
pub open spec fn direction(t: Tree, i: int, before: Direction) -> Result<Direction, Seq<char>> {
    match t.find(i, seq![NodeKind::PortDirection]) {
        None => Ok(before),
        Some(d) => {
            let word = t.token(d);
            if word == "input"@ {
                Ok((true, false))
            } else if word == "output"@ {
                Ok((false, true))
            } else if word == "inout"@ {
                Ok((true, true))
            } else if word == "ref"@ {
                Err("ref ports are not supported in RTL"@)
            } else {
                Ok(before)
            }
        },
    }
}

/// A port, after a port of the given direction.
pub open spec fn port(t: Tree, i: int, before: Direction) -> Result<PortView, Seq<char>> {
    match t.find(i, seq![NodeKind::PortIdentifier]) {
        None => Err("port missing identifier"@),
        Some(id) => match direction(t, i, before) {
            Err(e) => Err(e),
            Ok(dir) => if !is_plain_port(t, i) {
                Err(unsupported_item("unsupported port"@))
            } else {
                match type_width(t, i) {
                    Err(e) => Err(e),
                    Ok(width) => {
                        let name = t.text(id);
                        Ok(
                            PortView {
                                name,
                                is_input: dir.0,
                                is_output: dir.1,
                                bit_width: width,
                                is_clock: (name == "clk"@ || name == "clock"@) && width == 1,
                                is_reset: (name == "rst"@ || name == "reset"@) && width == 1,
                            },
                        )
                    },
                }
            },
        },
    }
}

/// Whether a port is a signal: no interface, without unpacked dimensions and
/// without a value of its own.
pub open spec fn is_plain_port(t: Tree, i: int) -> bool {
    &&& t.find(i, seq![NodeKind::InterfacePortHeader, NodeKind::Dimension]) is None
    &&& i + 1 < t.nodes[i].end ==> t.kids(i + 1, NodeKind::Expression).len() == 0
}

/// The direction that the next port takes over: that of the last one, or input.
pub open spec fn last_direction(ports: Seq<PortView>) -> Direction {
    if ports.len() == 0 {
        (true, false)
    } else {
        (ports.last().is_input, ports.last().is_output)
    }
}

/// The first `n` of some ports, in order.
pub open spec fn ports(t: Tree, places: Seq<int>, n: nat) -> Result<Seq<PortView>, Seq<char>>
    decreases n,
{
    if n == 0 {
        Ok(Seq::empty())
    } else {
        match ports(t, places, (n - 1) as nat) {
            Err(e) => Err(e),
            Ok(list) => match port(t, places[n - 1], last_direction(list)) {
                Err(e) => Err(e),
                Ok(p) => Ok(list.push(p)),
            },
        }
    }
}

/// The type of the value that an input port brings.
pub open spec fn port_type(p: PortView) -> SvType {
    if p.is_clock {
        SvType::Clock
    } else if p.is_reset {
        SvType::Reset
    } else {
        SvType::Integer { width: p.bit_width }
    }
}

/// The types of the values that the input ports bring, in order.
pub open spec fn input_types(list: Seq<PortView>) -> Seq<SvType>
    decreases list.len(),
{
    if list.len() == 0 {
        Seq::empty()
    } else if list.last().is_input {
        input_types(list.drop_last()).push(port_type(list.last()))
    } else {
        input_types(list.drop_last())
    }
}

/// The names of the input ports, each with its value.
pub open spec fn input_scope(list: Seq<PortView>) -> Map<Seq<char>, usize>
    decreases list.len(),
{
    if list.len() == 0 {
        Map::empty()
    } else if list.last().is_input {
        input_scope(list.drop_last()).insert(
            list.last().name,
            input_types(list.drop_last()).len() as usize,
        )
    } else {
        input_scope(list.drop_last())
    }
}

/// The values of the output ports among the first `n` ports: what their names
/// stand for, or else the constant 0.
pub open spec fn outputs(scope: Map<Seq<char>, usize>, b: Body, list: Seq<PortView>, n: nat) -> Result<
    (Body, Seq<usize>),
    Seq<char>,
>
    decreases n,
{
    if n == 0 {
        Ok((b, Seq::empty()))
    } else {
        match outputs(scope, b, list, (n - 1) as nat) {
            Err(e) => Err(e),
            Ok((b1, values)) => {
                let p = list[n - 1];
                if !p.is_output {
                    Ok((b1, values))
                } else if scope.dom().contains(p.name) {
                    Ok((b1, values.push(scope[p.name])))
                } else {
                    match constant(b1, 0, p.bit_width) {
                        Err(e) => Err(e),
                        Ok((b2, v)) => Ok((b2, values.push(v))),
                    }
                }
            },
        }
    }
}

/// A module, or the text of an error.
pub type Built = Result<ModuleView, Seq<char>>;

/// The ports of an ANSI module declaration.
pub open spec fn header_ports(t: Tree, header: int) -> Result<Seq<PortView>, Seq<char>> {
    let lists = t.kids(header, NodeKind::ListOfPortDeclarations);
    if lists.len() == 0 {
        Ok(Seq::empty())
    } else {
        let places = query::all_from(
            t.nodes,
            lists[0],
            t.nodes[lists[0]].end as int,
            NodeKind::AnsiPortDeclaration,
        );
        ports(t, places, places.len())
    }
}

/// Lowers an ANSI style module declaration: `module foo (...); ... endmodule`.
pub open spec fn ansi_module(t: Tree, i: int) -> Built {
    let headers = t.kids(i, NodeKind::ModuleAnsiHeader);
    if headers.len() == 0 {
        Err("module header is missing"@)
    } else {
        let ids = t.kids(headers[0], NodeKind::ModuleIdentifier);
        let name = if ids.len() > 0 {
            t.text(ids[0])
        } else {
            Seq::empty()
        };
        if name.len() == 0 {
            Err("module name cannot be empty"@)
        } else {
            match header_ports(t, headers[0]) {
                Err(e) => Err(e),
                Ok(list) => if !attributes::is_identifier(name) {
                    Err("invalid module identifier '"@ + name + "'"@)
                } else {
                    module_body(t, i, name, list)
                },
            }
        }
    }
}

/// What a module begins with: the values of its inputs.
pub open spec fn initial_state(list: Seq<PortView>) -> State {
    State {
        body: Body { ops: Seq::empty(), types: input_types(list) },
        scope: input_scope(list),
    }
}

/// Whether an expression in a node reads a name.
pub open spec fn reads(t: Tree, i: int, name: Seq<char>) -> bool {
    let uses = all(t, i, NodeKind::PrimaryHierarchical);
    exists|k: int| 0 <= k < uses.len() && #[trigger] reads_at(t, uses[k], name)
}

/// Whether the name in place `u` is the given one.
pub open spec fn reads_at(t: Tree, u: int, name: Seq<char>) -> bool {
    let names = t.kids(u, NodeKind::HierarchicalIdentifier);
    names.len() > 0 && t.text(names[0]) == name
}

/// Adds a variable for each of the first `n` ports that the module drives and
/// reads: an output that is no input.
pub open spec fn read_outputs(t: Tree, i: int, st: State, list: Seq<PortView>, n: nat) -> State
    decreases n,
{
    if n == 0 {
        st
    } else {
        let before = read_outputs(t, i, st, list, (n - 1) as nat);
        let p = list[n - 1];
        if p.is_output && !p.is_input && reads(t, i, p.name) {
            define(
                before,
                SvOpKind::LogicDecl,
                p.name,
                Seq::empty(),
                SvType::Integer { width: p.bit_width },
            )
        } else {
            before
        }
    }
}

/// What there is before the items of a module are lowered: the inputs, the outputs
/// that are read, and what the items declare.
pub open spec fn declared_state(t: Tree, i: int, list: Seq<PortView>) -> Advanced {
    let places = t.kids(i, NodeKind::NonPortModuleItem);
    declarations(
        t,
        read_outputs(t, i, initial_state(list), list, list.len()),
        places,
        places.len(),
    )
}

/// Lowers the items of a module and adds its outputs. A name may be used before
/// the item that declares it.
pub open spec fn module_body(t: Tree, i: int, name: Seq<char>, list: Seq<PortView>) -> Built {
    let places = t.kids(i, NodeKind::NonPortModuleItem);
    match declared_state(t, i, list) {
        Err(e) => Err(e),
        Ok(start) => match items(t, start, places, places.len()) {
            Err(e) => Err(e),
            Ok(st) => match outputs(st.scope, st.body, list, list.len()) {
                Err(e) => Err(e),
                Ok((b, values)) => Ok(
                    ModuleView {
                        name,
                        ports: list,
                        num_inputs: input_types(list).len(),
                        body: emit(b, SvOpKind::Output, Seq::empty(), Seq::empty(), values, None),
                    },
                ),
            },
        },
    }
}

/// Lowers the first module of a syntax tree.
pub open spec fn lowered_module(t: Tree) -> Built {
    let n = t.nodes.len() as int;
    match query::find_from(t.nodes, 0, n, seq![NodeKind::ModuleDeclarationAnsi]) {
        Some(m) => ansi_module(t, m),
        None => match query::find_from(t.nodes, 0, n, seq![NodeKind::ModuleDeclarationNonansi]) {
            Some(_) => Err("non-ANSI module declarations are not yet supported"@),
            None => Err("no supported SystemVerilog module declaration found in syntax tree"@),
        },
    }
}

/// What becomes of a parse.
pub open spec fn module_from(parse: ParseView) -> Built {
    match parse {
        Err(e) => Err("sv-parser syntax error: "@ + e),
        Ok(tree) => match cst::nodes_of(tree.0, tree.1) {
            None => Err("the syntax tree does not match the source text"@),
            Some(nodes) => lowered_module(Tree { src: tree.0, nodes }),
        },
    }
}

} // verus!
