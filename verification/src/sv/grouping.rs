//! How expressions are put together: which operator binds tighter, what a chain
//! of operators is grouped to, and what each kind of expression gives.

use crate::sv::chain;
use crate::sv::cst::NodeKind;
use crate::sv::laws;
use crate::sv::literal;
use crate::sv::model;
use crate::sv::model::Tree;
use crate::sv::module::{Body, OpView, SvOpKind, SvType};
use crate::sv::rules;
use vstd::prelude::*;

verus! {

/// The binary operators bind in the order of the language's table, tightest
/// first: the power; multiplication, division and remainder; addition and
/// subtraction; the shifts; the comparisons; the equalities; `&`; `^` with its
/// negations; `|`; `&&`; `||`; and all others.
pub proof fn operators_bind_in_the_order_of_the_table(other: Seq<char>)
    requires
        chain::precedence(other) == 0,
    ensures
        chain::precedence("**"@) > chain::precedence("*"@),
        chain::precedence("*"@) == chain::precedence("/"@),
        chain::precedence("/"@) == chain::precedence("%"@),
        chain::precedence("%"@) > chain::precedence("+"@),
        chain::precedence("+"@) == chain::precedence("-"@),
        chain::precedence("-"@) > chain::precedence("<<"@),
        chain::precedence("<<"@) == chain::precedence(">>"@),
        chain::precedence(">>"@) == chain::precedence("<<<"@),
        chain::precedence("<<<"@) == chain::precedence(">>>"@),
        chain::precedence(">>>"@) > chain::precedence("<"@),
        chain::precedence("<"@) == chain::precedence("<="@),
        chain::precedence("<="@) == chain::precedence(">"@),
        chain::precedence(">"@) == chain::precedence(">="@),
        chain::precedence(">="@) > chain::precedence("=="@),
        chain::precedence("=="@) == chain::precedence("!="@),
        chain::precedence("!="@) == chain::precedence("==="@),
        chain::precedence("==="@) == chain::precedence("!=="@),
        chain::precedence("!=="@) == chain::precedence("==?"@),
        chain::precedence("==?"@) == chain::precedence("!=?"@),
        chain::precedence("!=?"@) > chain::precedence("&"@),
        chain::precedence("&"@) > chain::precedence("^"@),
        chain::precedence("^"@) == chain::precedence("~^"@),
        chain::precedence("~^"@) == chain::precedence("^~"@),
        chain::precedence("^~"@) > chain::precedence("|"@),
        chain::precedence("|"@) > chain::precedence("&&"@),
        chain::precedence("&&"@) > chain::precedence("||"@),
        chain::precedence("||"@) > chain::precedence(other),
        chain::precedence("->"@) == chain::precedence(other),
        chain::precedence("<->"@) == chain::precedence(other),
{
    lemma_operator_texts();
}

/// No text beside the operators of the table binds at all: those of one, of two
/// and of three characters.
pub proof fn nothing_else_binds(s: Seq<char>)
    requires
        chain::precedence(s) > 0,
    ensures
        ({
            ||| s == "*"@ || s == "/"@ || s == "%"@ || s == "+"@ || s == "-"@
            ||| s == "<"@ || s == ">"@ || s == "&"@ || s == "^"@ || s == "|"@
            ||| s == "**"@ || s == "<<"@ || s == ">>"@ || s == "<="@ || s == ">="@
            ||| s == "=="@ || s == "!="@ || s == "~^"@ || s == "^~"@ || s == "&&"@ || s == "||"@
            ||| s == "<<<"@ || s == ">>>"@ || s == "==="@ || s == "!=="@ || s == "==?"@ || s
                == "!=?"@
        }),
{
}

/// The place of each operator in the table, counted from the loosest.
proof fn lemma_operator_texts()
    ensures
        chain::precedence("**"@) == 11,
        chain::precedence("*"@) == 10,
        chain::precedence("/"@) == 10,
        chain::precedence("%"@) == 10,
        chain::precedence("+"@) == 9,
        chain::precedence("-"@) == 9,
        chain::precedence("<<"@) == 8,
        chain::precedence(">>"@) == 8,
        chain::precedence("<<<"@) == 8,
        chain::precedence(">>>"@) == 8,
        chain::precedence("<"@) == 7,
        chain::precedence("<="@) == 7,
        chain::precedence(">"@) == 7,
        chain::precedence(">="@) == 7,
        chain::precedence("=="@) == 6,
        chain::precedence("!="@) == 6,
        chain::precedence("==="@) == 6,
        chain::precedence("!=="@) == 6,
        chain::precedence("==?"@) == 6,
        chain::precedence("!=?"@) == 6,
        chain::precedence("&"@) == 5,
        chain::precedence("^"@) == 4,
        chain::precedence("~^"@) == 4,
        chain::precedence("^~"@) == 4,
        chain::precedence("|"@) == 3,
        chain::precedence("&&"@) == 2,
        chain::precedence("||"@) == 1,
        chain::precedence("->"@) == 0,
        chain::precedence("<->"@) == 0,
{
    reveal_strlit("**");
    reveal_strlit("*");
    reveal_strlit("/");
    reveal_strlit("%");
    reveal_strlit("+");
    reveal_strlit("-");
    reveal_strlit("<<");
    reveal_strlit(">>");
    reveal_strlit("<<<");
    reveal_strlit(">>>");
    reveal_strlit("<");
    reveal_strlit("<=");
    reveal_strlit(">");
    reveal_strlit(">=");
    reveal_strlit("==");
    reveal_strlit("!=");
    reveal_strlit("===");
    reveal_strlit("!==");
    reveal_strlit("==?");
    reveal_strlit("!=?");
    reveal_strlit("&");
    reveal_strlit("^");
    reveal_strlit("~^");
    reveal_strlit("^~");
    reveal_strlit("|");
    reveal_strlit("&&");
    reveal_strlit("||");
    reveal_strlit("->");
    reveal_strlit("<->");
    lemma_one("*"@);
    lemma_one("/"@);
    lemma_one("%"@);
    lemma_one("+"@);
    lemma_one("-"@);
    lemma_one("<"@);
    lemma_one(">"@);
    lemma_one("&"@);
    lemma_one("^"@);
    lemma_one("|"@);
    lemma_two("**"@);
    lemma_two("<<"@);
    lemma_two(">>"@);
    lemma_two("<="@);
    lemma_two(">="@);
    lemma_two("=="@);
    lemma_two("!="@);
    lemma_two("~^"@);
    lemma_two("^~"@);
    lemma_two("&&"@);
    lemma_two("||"@);
    lemma_two("->"@);
    lemma_three("<<<"@);
    lemma_three(">>>"@);
    lemma_three("==="@);
    lemma_three("!=="@);
    lemma_three("==?"@);
    lemma_three("!=?"@);
    lemma_three("<->"@);
}

spec fn precedence_of_one(a: char) -> nat {
    if a == '*' || a == '/' || a == '%' {
        10
    } else if a == '+' || a == '-' {
        9
    } else if a == '<' || a == '>' {
        7
    } else if a == '&' {
        5
    } else if a == '^' {
        4
    } else if a == '|' {
        3
    } else {
        0
    }
}

proof fn lemma_one(s: Seq<char>)
    requires
        s.len() == 1,
    ensures
        chain::precedence(s) == precedence_of_one(s[0]),
{
    reveal_strlit("**");
    reveal_strlit("*");
    reveal_strlit("/");
    reveal_strlit("%");
    reveal_strlit("+");
    reveal_strlit("-");
    reveal_strlit("<<");
    reveal_strlit(">>");
    reveal_strlit("<<<");
    reveal_strlit(">>>");
    reveal_strlit("<");
    reveal_strlit("<=");
    reveal_strlit(">");
    reveal_strlit(">=");
    reveal_strlit("==");
    reveal_strlit("!=");
    reveal_strlit("===");
    reveal_strlit("!==");
    reveal_strlit("==?");
    reveal_strlit("!=?");
    reveal_strlit("&");
    reveal_strlit("^");
    reveal_strlit("~^");
    reveal_strlit("^~");
    reveal_strlit("|");
    reveal_strlit("&&");
    reveal_strlit("||");
    assert(s[0] == '*' ==> s =~= "*"@);
    assert(s[0] == '/' ==> s =~= "/"@);
    assert(s[0] == '%' ==> s =~= "%"@);
    assert(s[0] == '+' ==> s =~= "+"@);
    assert(s[0] == '-' ==> s =~= "-"@);
    assert(s[0] == '<' ==> s =~= "<"@);
    assert(s[0] == '>' ==> s =~= ">"@);
    assert(s[0] == '&' ==> s =~= "&"@);
    assert(s[0] == '^' ==> s =~= "^"@);
    assert(s[0] == '|' ==> s =~= "|"@);
}

spec fn precedence_of_two(a: char, b: char) -> nat {
    if a == '*' && b == '*' {
        11
    } else if (a == '<' && b == '<') || (a == '>' && b == '>') {
        8
    } else if (a == '<' && b == '=') || (a == '>' && b == '=') {
        7
    } else if (a == '=' && b == '=') || (a == '!' && b == '=') {
        6
    } else if (a == '~' && b == '^') || (a == '^' && b == '~') {
        4
    } else if a == '&' && b == '&' {
        2
    } else if a == '|' && b == '|' {
        1
    } else {
        0
    }
}

proof fn lemma_two(s: Seq<char>)
    requires
        s.len() == 2,
    ensures
        chain::precedence(s) == precedence_of_two(s[0], s[1]),
{
    reveal_strlit("**");
    reveal_strlit("*");
    reveal_strlit("/");
    reveal_strlit("%");
    reveal_strlit("+");
    reveal_strlit("-");
    reveal_strlit("<<");
    reveal_strlit(">>");
    reveal_strlit("<<<");
    reveal_strlit(">>>");
    reveal_strlit("<");
    reveal_strlit("<=");
    reveal_strlit(">");
    reveal_strlit(">=");
    reveal_strlit("==");
    reveal_strlit("!=");
    reveal_strlit("===");
    reveal_strlit("!==");
    reveal_strlit("==?");
    reveal_strlit("!=?");
    reveal_strlit("&");
    reveal_strlit("^");
    reveal_strlit("~^");
    reveal_strlit("^~");
    reveal_strlit("|");
    reveal_strlit("&&");
    reveal_strlit("||");
    assert(s[0] == '*' && s[1] == '*' ==> s =~= "**"@);
    assert(s[0] == '<' && s[1] == '<' ==> s =~= "<<"@);
    assert(s[0] == '>' && s[1] == '>' ==> s =~= ">>"@);
    assert(s[0] == '<' && s[1] == '=' ==> s =~= "<="@);
    assert(s[0] == '>' && s[1] == '=' ==> s =~= ">="@);
    assert(s[0] == '=' && s[1] == '=' ==> s =~= "=="@);
    assert(s[0] == '!' && s[1] == '=' ==> s =~= "!="@);
    assert(s[0] == '~' && s[1] == '^' ==> s =~= "~^"@);
    assert(s[0] == '^' && s[1] == '~' ==> s =~= "^~"@);
    assert(s[0] == '&' && s[1] == '&' ==> s =~= "&&"@);
    assert(s[0] == '|' && s[1] == '|' ==> s =~= "||"@);
}

spec fn precedence_of_three(a: char, b: char, c: char) -> nat {
    if (a == '<' && b == '<' && c == '<') || (a == '>' && b == '>' && c == '>') {
        8
    } else if (a == '=' || a == '!') && b == '=' && (c == '=' || c == '?') {
        6
    } else {
        0
    }
}

proof fn lemma_three(s: Seq<char>)
    requires
        s.len() == 3,
    ensures
        chain::precedence(s) == precedence_of_three(s[0], s[1], s[2]),
{
    reveal_strlit("**");
    reveal_strlit("*");
    reveal_strlit("/");
    reveal_strlit("%");
    reveal_strlit("+");
    reveal_strlit("-");
    reveal_strlit("<<");
    reveal_strlit(">>");
    reveal_strlit("<<<");
    reveal_strlit(">>>");
    reveal_strlit("<");
    reveal_strlit("<=");
    reveal_strlit(">");
    reveal_strlit(">=");
    reveal_strlit("==");
    reveal_strlit("!=");
    reveal_strlit("===");
    reveal_strlit("!==");
    reveal_strlit("==?");
    reveal_strlit("!=?");
    reveal_strlit("&");
    reveal_strlit("^");
    reveal_strlit("~^");
    reveal_strlit("^~");
    reveal_strlit("|");
    reveal_strlit("&&");
    reveal_strlit("||");
    assert(s[0] == '<' && s[1] == '<' && s[2] == '<' ==> s =~= "<<<"@);
    assert(s[0] == '>' && s[1] == '>' && s[2] == '>' ==> s =~= ">>>"@);
    assert(s[0] == '=' && s[1] == '=' && s[2] == '=' ==> s =~= "==="@);
    assert(s[0] == '!' && s[1] == '=' && s[2] == '=' ==> s =~= "!=="@);
    assert(s[0] == '=' && s[1] == '=' && s[2] == '?' ==> s =~= "==?"@);
    assert(s[0] == '!' && s[1] == '=' && s[2] == '?' ==> s =~= "!=?"@);
}

/// Whether the operator at place `k` is the one that is applied last: no other
/// binds looser, and of several that bind alike it is the last one, so that they
/// group from the left. Operators outside the table group from the right.
pub open spec fn applied_last(names: Seq<Seq<char>>, k: int) -> bool {
    let p = chain::precedence(names[k]);
    &&& 0 <= k < names.len()
    &&& forall|j: int| 0 <= j < names.len() ==> p <= chain::precedence(#[trigger] names[j])
    &&& forall|j: int| k < j < names.len() && p > 0 ==> p < chain::precedence(#[trigger] names[j])
    &&& forall|j: int| 0 <= j < k && p == 0 ==> p < chain::precedence(#[trigger] names[j])
}

/// There is exactly one operator that is applied last, and it is the one that a
/// chain is split at.
pub proof fn chains_are_split_at_the_loosest_operator(names: Seq<Seq<char>>, k: int)
    requires
        names.len() > 0,
    ensures
        chain::loosest(names) == k <==> applied_last(names, k),
    decreases names.len(),
{
    lemma_applied_last(names);
    let l = chain::loosest(names);
    if applied_last(names, k) && k != l {
        assert(names[k] == names[k] && names[l] == names[l]);
        assert(chain::precedence(names[k]) == chain::precedence(names[l]));
        if k < l {
            assert(chain::precedence(names[k]) < chain::precedence(names[l]) || chain::precedence(
                names[k],
            ) == 0);
        }
        assert(false);
    }
}

proof fn lemma_applied_last(names: Seq<Seq<char>>)
    requires
        names.len() > 0,
    ensures
        applied_last(names, chain::loosest(names)),
    decreases names.len(),
{
    if names.len() > 1 {
        let init = names.drop_last();
        lemma_applied_last(init);
        chain::lemma_loosest(init);
        let k = chain::loosest(init);
        let l = chain::loosest(names);
        assert(names[k] == init[k]);
        assert forall|j: int| 0 <= j < names.len() implies chain::precedence(names[l])
            <= chain::precedence(#[trigger] names[j]) by {
            if j < init.len() {
                assert(init[j] == names[j]);
            }
        }
        assert forall|j: int|
            l < j < names.len() && chain::precedence(names[l]) > 0 implies chain::precedence(
            names[l],
        ) < chain::precedence(#[trigger] names[j]) by {
            if j < init.len() {
                assert(init[j] == names[j]);
            }
        }
        assert forall|j: int|
            0 <= j < l && chain::precedence(names[l]) == 0 implies chain::precedence(names[l])
            < chain::precedence(#[trigger] names[j]) by {
            if j < init.len() {
                assert(init[j] == names[j]);
            }
        }
    }
}

/// Whether `v` is what the operators `names` make of `values`, in their order:
/// the values themselves, or the result of an operation with the operator that
/// is applied last, on what the operators before it and those behind it make.
pub open spec fn spells(
    ops: Seq<OpView>,
    v: usize,
    values: Seq<usize>,
    names: Seq<Seq<char>>,
) -> bool
    decreases names.len(),
{
    &&& values.len() == names.len() + 1
    &&& if names.len() == 0 {
        v == values[0]
    } else {
        exists|k: int, o: int|
            {
                &&& 0 <= k < names.len()
                &&& 0 <= o < ops.len()
                &&& #[trigger] applied_last(names, k)
                &&& #[trigger] is_binary(ops[o], names[k], v)
                &&& spells(ops, ops[o].operands[0], values.take(k + 1), names.take(k))
                &&& spells(ops, ops[o].operands[1], values.skip(k + 1), names.skip(k + 1))
            }
    }
}

/// Whether an operation applies a binary operator and gives `v`.
pub open spec fn is_binary(op: OpView, name: Seq<char>, v: usize) -> bool {
    &&& op.kind == SvOpKind::Binary
    &&& op.name == name
    &&& op.operands.len() == 2
    &&& op.result == Some(v)
}

proof fn lemma_spells_grow(
    b: Body,
    c: Body,
    v: usize,
    values: Seq<usize>,
    names: Seq<Seq<char>>,
)
    requires
        laws::grown(b, c),
        spells(b.ops, v, values, names),
    ensures
        spells(c.ops, v, values, names),
    decreases names.len(),
{
    if names.len() > 0 {
        let (k, o) = choose|k: int, o: int|
            {
                &&& 0 <= k < names.len()
                &&& 0 <= o < b.ops.len()
                &&& #[trigger] applied_last(names, k)
                &&& #[trigger] is_binary(b.ops[o], names[k], v)
                &&& spells(b.ops, b.ops[o].operands[0], values.take(k + 1), names.take(k))
                &&& spells(b.ops, b.ops[o].operands[1], values.skip(k + 1), names.skip(k + 1))
            };
        lemma_spells_grow(b, c, b.ops[o].operands[0], values.take(k + 1), names.take(k));
        lemma_spells_grow(b, c, b.ops[o].operands[1], values.skip(k + 1), names.skip(k + 1));
        reveal(laws::grown);
        assert(c.ops[o] == b.ops[o]);
        assert(is_binary(c.ops[o], names[k], v));
    }
}

/// A chain of operators, however long, is lowered to operations that apply every
/// operator to what stands on its two sides, tighter ones first and equal ones
/// from the left; each result has the type of the left side.
pub proof fn chains_apply_every_operator(b: Body, values: Seq<usize>, names: Seq<Seq<char>>)
    requires
        values.len() == names.len() + 1,
    ensures
        ({
            let (c, v) = model::combine(b, values, names);
            &&& spells(c.ops, v, values, names)
            &&& c.ops.len() == b.ops.len() + names.len()
            &&& c.types.len() == b.types.len() + names.len()
            &&& names.len() > 0 ==> {
                let last = c.ops[c.ops.len() - 1];
                &&& last.result == Some(v)
                &&& c.types[c.types.len() - 1] == c.types.drop_last()[last.operands[0] as int]
            }
        }),
    decreases names.len(),
{
    if names.len() > 0 {
        chain::lemma_loosest(names);
        lemma_applied_last(names);
        let k = chain::loosest(names);
        let (b1, lhs) = model::combine(b, values.take(k + 1), names.take(k));
        let (b2, rhs) = model::combine(b1, values.skip(k + 1), names.skip(k + 1));
        let (c, v) = model::combine(b, values, names);
        chains_apply_every_operator(b, values.take(k + 1), names.take(k));
        chains_apply_every_operator(b1, values.skip(k + 1), names.skip(k + 1));
        laws::lemma_combine_grows(b1, values.skip(k + 1), names.skip(k + 1));
        assert(laws::grown(b2, c)) by {
            reveal(laws::grown);
        }
        laws::lemma_grown(b1, b2, c);
        lemma_spells_grow(b1, c, lhs, values.take(k + 1), names.take(k));
        lemma_spells_grow(b2, c, rhs, values.skip(k + 1), names.skip(k + 1));
        let o = b2.ops.len() as int;
        assert(is_binary(c.ops[o], names[k], v));
        assert(c.ops[o].operands[0] == lhs && c.ops[o].operands[1] == rhs);
        assert(c.types.drop_last() =~= b2.types);
    }
}

/// The kinds of constructs that an expression can be.
pub open spec fn constructs() -> Seq<NodeKind> {
    seq![
        NodeKind::Binary,
        NodeKind::Unary,
        NodeKind::Conditional,
        NodeKind::Ternary,
        NodeKind::OtherExpression,
        NodeKind::Concatenation,
        NodeKind::Primary,
        NodeKind::IntegralNumber,
        NodeKind::SimpleIdentifier,
        NodeKind::EscapedIdentifier,
    ]
}

/// An expression is what its first construct is: a name stands for what it
/// stands for in scope, a number for a constant; an expression without a
/// construct, or with another one, is refused.
pub proof fn names_and_numbers_are_expressions(
    t: Tree,
    scope: Map<Seq<char>, usize>,
    b: Body,
    i: int,
)
    ensures
        ({
            let r = model::expression(t, scope, b, i);
            let at = t.find(i, constructs());
            let j = at->0;
            let kind = t.nodes[j].kind;
            &&& at is None ==> r is Err
            &&& at is Some && kind == NodeKind::OtherExpression ==> r is Err
            &&& at is Some && (kind == NodeKind::SimpleIdentifier || kind
                == NodeKind::EscapedIdentifier) ==> {
                &&& r is Ok <==> scope.dom().contains(t.text(j))
                &&& r matches Ok((c, v)) ==> c == b && v == scope[t.text(j)]
            }
            &&& at is Some && kind == NodeKind::IntegralNumber ==> r == model::constant(
                b,
                literal::literal_meaning(t.text(j)).0 as u64,
                literal::literal_meaning(t.text(j)).1 as u32,
            )
            &&& at is Some && kind == NodeKind::Primary ==> r == model::primary(t, scope, b, j)
            &&& at is Some && kind == NodeKind::Concatenation ==> r == model::concatenation(
                t,
                scope,
                b,
                j,
            )
        }),
{
    assert(constructs() =~= model::construct_kinds());
}

/// A unary expression is lowered exactly where it has one operator and one
/// operand, and the operand is lowered and is no memory. The operation that is
/// added for it has the operand's value and its type.
pub proof fn unary_expressions_apply_their_operator(
    t: Tree,
    scope: Map<Seq<char>, usize>,
    b: Body,
    i: int,
    j: int,
)
    requires
        t.find(i, constructs()) == Some(j),
        t.nodes[j].kind == NodeKind::Unary,
    ensures
        ({
            let r = model::expression(t, scope, b, i);
            let operators = t.kids(j, NodeKind::UnaryOperator);
            let operands = t.kids(j, NodeKind::Primary);
            let inner = model::expression(t, scope, b, operands[0]);
            let v = inner->Ok_0.1;
            let ty = inner->Ok_0.0.types[v as int];
            &&& r is Ok <==> operators.len() == 1 && operands.len() == 1 && inner is Ok
                && !(ty is Memory)
            &&& r matches Ok((c, result)) ==> {
                &&& result == inner->Ok_0.0.types.len() as usize
                &&& rules::adds(
                    inner->Ok_0.0,
                    c,
                    SvOpKind::Unary,
                    t.text(operators[0]),
                    seq![v],
                    ty,
                )
            }
        }),
{
    assert(constructs() =~= model::construct_kinds());
}

/// Whether the values are those of the expressions at `places`, one by one.
pub open spec fn values_of(
    t: Tree,
    scope: Map<Seq<char>, usize>,
    places: Seq<int>,
    values: Seq<usize>,
) -> bool {
    &&& values.len() == places.len()
    &&& forall|k: int|
        0 <= k < values.len() ==> has_value(t, scope, places[k], #[trigger] values[k])
}

/// Whether the expression at `e` gives `v`, behind some body.
pub open spec fn has_value(t: Tree, scope: Map<Seq<char>, usize>, e: int, v: usize) -> bool {
    exists|x: Body, y: Body| #[trigger] rules::value_at(t, scope, x, e, y, v)
}

proof fn lemma_parts(
    t: Tree,
    scope: Map<Seq<char>, usize>,
    b: Body,
    i: int,
    places: Seq<int>,
    n: nat,
)
    requires
        n <= places.len(),
    ensures
        model::parts_of(t, scope, b, i, places, n) matches Ok((c, values)) ==> values_of(
            t,
            scope,
            places.take(n as int),
            values,
        ),
    decreases n,
{
    if n > 0 {
        lemma_parts(t, scope, b, i, places, (n - 1) as nat);
        if let Ok((b1, before)) = model::parts_of(t, scope, b, i, places, (n - 1) as nat) {
            if let Ok((c, values)) = model::parts_of(t, scope, b, i, places, n) {
                let v = values.last();
                assert(rules::value_at(t, scope, b1, places[n - 1], c, v));
                assert forall|k: int| 0 <= k < values.len() implies has_value(
                    t,
                    scope,
                    places.take(n as int)[k],
                    #[trigger] values[k],
                ) by {
                    if k < n - 1 {
                        assert(values[k] == before[k]);
                        assert(places.take(n - 1)[k] == places[k]);
                    }
                }
            }
        }
    }
}

/// The parts of a construct are lowered one by one, in order, each to its own
/// value.
pub proof fn every_part_gives_its_value(
    t: Tree,
    scope: Map<Seq<char>, usize>,
    b: Body,
    i: int,
    places: Seq<int>,
)
    ensures
        model::parts_of(t, scope, b, i, places, places.len()) matches Ok((c, values)) ==> values_of(
            t,
            scope,
            places,
            values,
        ),
{
    lemma_parts(t, scope, b, i, places, places.len());
    assert(places.take(places.len() as int) =~= places);
}

/// The widths of some values add up: one value has the width of its type, where
/// a clock and a reset are one bit, and two lists have what each of them has.
pub proof fn widths_add_up(types: Seq<SvType>, v: usize, left: Seq<usize>, right: Seq<usize>)
    ensures
        model::total_bits(types, Seq::empty()) == 0,
        types[v as int] matches SvType::Integer { width } ==> model::total_bits(types, seq![v])
            == width,
        types[v as int] is Clock || types[v as int] is Reset ==> model::total_bits(types, seq![v])
            == 1,
        model::total_bits(types, left + right) == model::total_bits(types, left)
            + model::total_bits(types, right),
    decreases right.len(),
{
    assert(seq![v].drop_last() =~= Seq::<usize>::empty());
    assert(model::total_bits(types, Seq::empty()) == 0);
    assert(model::total_bits(types, seq![v]) == model::total_bits(types, seq![v].drop_last())
        + model::bits(types[seq![v].last() as int]));
    if right.len() == 0 {
        assert(left + right =~= left);
    } else {
        widths_add_up(types, v, left, right.drop_last());
        assert((left + right).drop_last() =~= left + right.drop_last());
        assert((left + right).last() == right.last());
    }
}

/// A concatenation is lowered exactly where it has parts, all of them are
/// lowered, and their widths add up to one that fits. The operation that is
/// added for it has the values of all its parts, in order, and their width.
pub proof fn concatenations_join_all_their_parts(
    t: Tree,
    scope: Map<Seq<char>, usize>,
    b: Body,
    i: int,
)
    ensures
        ({
            let r = model::concatenation(t, scope, b, i);
            let places = t.kids(i, NodeKind::Expression);
            let parts = model::parts_of(t, scope, b, i, places, places.len());
            let values = parts->Ok_0.1;
            let width = model::total_bits(parts->Ok_0.0.types, values);
            &&& r is Ok <==> places.len() > 0 && parts is Ok && width <= u32::MAX
            &&& r matches Ok((c, v)) ==> {
                &&& values_of(t, scope, places, values)
                &&& v == parts->Ok_0.0.types.len() as usize
                &&& rules::adds(
                    parts->Ok_0.0,
                    c,
                    SvOpKind::Concat,
                    Seq::empty(),
                    values,
                    SvType::Integer { width: width as u32 },
                )
            }
        }),
{
    let places = t.kids(i, NodeKind::Expression);
    every_part_gives_its_value(t, scope, b, i, places);
}

/// A primary in brackets is what stands in them; a literal is a constant, where
/// of the unsized ones without a base only `'0` is taken; a name alone stands
/// for what it stands for in scope.
pub proof fn primaries_are_what_they_hold(
    t: Tree,
    scope: Map<Seq<char>, usize>,
    b: Body,
    i: int,
)
    requires
        0 <= i,
        i + 1 < t.nodes[i].end,
        i + 1 < t.nodes.len(),
    ensures
        ({
            let r = model::primary(t, scope, b, i);
            let c = i + 1;
            let kind = t.nodes[c].kind;
            let inner = t.find(c, seq![NodeKind::Expression]);
            let number = t.find(c, seq![NodeKind::IntegralNumber, NodeKind::UnbasedUnsizedLiteral]);
            let id = t.find(c, seq![NodeKind::SimpleIdentifier, NodeKind::EscapedIdentifier]);
            let joined = t.find(c, seq![NodeKind::Concatenation]);
            &&& kind == NodeKind::Parenthesized ==> {
                let taken = inner is Some && t.find(c, seq![NodeKind::MinTypMax]) is None;
                &&& taken ==> r == model::expression(t, scope, b, inner->0)
                &&& !taken ==> r is Err
            }
            &&& kind == NodeKind::PrimaryHierarchical ==> r == model::hierarchical(t, scope, b, c)
            &&& kind == NodeKind::PrimaryConcatenation ==> {
                let taken = joined is Some && t.nodes[joined->0].end == t.nodes[c].end;
                &&& taken ==> r == model::concatenation(t, scope, b, joined->0)
                &&& !taken ==> r is Err
            }
            &&& kind == NodeKind::PrimaryLiteral ==> {
                let k = number->0;
                let taken = number is Some && (t.nodes[k].kind == NodeKind::UnbasedUnsizedLiteral
                    ==> t.text(k) == "'0"@);
                &&& taken ==> r == model::constant(
                    b,
                    literal::literal_meaning(t.text(k)).0 as u64,
                    literal::literal_meaning(t.text(k)).1 as u32,
                )
                &&& !taken ==> r is Err
            }
            &&& kind == NodeKind::PrimaryName ==> {
                let name = t.text(c);
                &&& r is Ok <==> id is Some && t.text(id->0) == name && scope.dom().contains(name)
                &&& r matches Ok((d, v)) ==> d == b && v == scope[name]
            }
            &&& r is Ok ==> kind == NodeKind::Parenthesized || kind == NodeKind::PrimaryHierarchical
                || kind == NodeKind::PrimaryConcatenation || kind == NodeKind::PrimaryLiteral
                || kind == NodeKind::PrimaryName
        }),
{
}

/// A name with a select is lowered exactly where the name is plain and in scope
/// and the select can be had; without a select it is the value itself.
pub proof fn plain_names_stand_for_their_values(
    t: Tree,
    scope: Map<Seq<char>, usize>,
    b: Body,
    i: int,
)
    ensures
        ({
            let r = model::hierarchical(t, scope, b, i);
            let names = t.kids(i, NodeKind::HierarchicalIdentifier);
            let token = t.find(i, seq![NodeKind::Locate]);
            let select = t.find(i, seq![NodeKind::Select]);
            let plain = names.len() > 0 && !(token is Some && token->0 < names[0])
                && scope.dom().contains(t.text(names[0]));
            &&& r is Ok ==> plain
            &&& plain && select is None ==> (r matches Ok((c, v)) && c == b && v == scope[t.text(
                names[0],
            )])
            &&& plain && select is Some ==> r == model::selected(
                t,
                scope,
                b,
                select->0,
                scope[t.text(names[0])],
            )
        }),
{
}

/// A select with one index gives one bit, from the value and the index, in that
/// order; one with a range gives the bits between its bounds; an empty one gives
/// the value itself. No other select is taken.
pub proof fn selects_take_bits_of_their_value(
    t: Tree,
    scope: Map<Seq<char>, usize>,
    b: Body,
    s: int,
    base: usize,
)
    requires
        0 <= s,
    ensures
        ({
            let r = model::selected(t, scope, b, s, base);
            let ranges = t.kids(s, NodeKind::PartSelectRange);
            let selects = t.kids(s, NodeKind::BitSelect);
            let indices = t.kids(selects[0], NodeKind::Expression);
            let range = t.find(ranges[0], seq![NodeKind::ConstantRange]);
            let ends = model::range_bounds(t, range->0);
            let low = if ends->Ok_0.0 < ends->Ok_0.1 {
                ends->Ok_0.0
            } else {
                ends->Ok_0.1
            };
            let high = if ends->Ok_0.0 < ends->Ok_0.1 {
                ends->Ok_0.1
            } else {
                ends->Ok_0.0
            };
            let index = model::expression(t, scope, b, indices[0]);
            let shaped = selects.len() == 1 && t.kids(s, NodeKind::MemberIdentifier).len() == 0
                && ranges.len() + indices.len() <= 1;
            &&& r is Ok ==> shaped
            &&& shaped && ranges.len() + indices.len() == 0 ==> (r matches Ok((c, v)) && c == b && v
                == base)
            &&& shaped && indices.len() == 1 ==> {
                &&& r is Ok <==> index is Ok && !(index->Ok_0.0.types[index->Ok_0.1 as int]
                    is Memory)
                &&& r matches Ok((c, v)) ==> v == index->Ok_0.0.types.len() as usize && rules::adds(
                    index->Ok_0.0,
                    c,
                    SvOpKind::Index,
                    Seq::empty(),
                    seq![base, index->Ok_0.1],
                    SvType::Integer { width: 1 },
                )
            }
            &&& shaped && ranges.len() == 1 ==> {
                &&& r is Ok <==> range is Some && ends is Ok && 0 <= low && high <= u32::MAX && high
                    - low + 1 <= u32::MAX
                &&& r matches Ok((c, v)) ==> v == b.types.len() as usize && rules::adds(
                    b,
                    c,
                    SvOpKind::Slice { low: low as u32, width: (high - low + 1) as u32 },
                    Seq::empty(),
                    seq![base],
                    SvType::Integer { width: (high - low + 1) as u32 },
                )
            }
        }),
{
}

/// A chain begins with the left side and the operator of its first binary
/// expression and goes on as its right side does; a conditional expression adds
/// its two values to the chain of its condition; anything else stands alone.
pub proof fn chains_run_through_their_right_sides(t: Tree, e: int, j: int)
    requires
        t.find(e, constructs()) == Some(j),
    ensures
        ({
            let c = chain::chain(t, e);
            let parts = t.kids(j, NodeKind::Expression);
            let operators = t.kids(j, NodeKind::BinaryOperator);
            let kind = t.nodes[j].kind;
            &&& kind == NodeKind::Binary && parts.len() == 2 && operators.len() == 1 ==> {
                let rest = chain::chain(t, parts[1]);
                &&& c.operands.len() == rest.operands.len() + 1
                &&& c.operands[0] == parts[0]
                &&& c.operands.skip(1) == rest.operands
                &&& c.operators.len() == rest.operators.len() + 1
                &&& c.operators[0] == operators[0]
                &&& c.operators.skip(1) == rest.operators
                &&& c.choice == rest.choice
            }
            &&& kind == NodeKind::Ternary && parts.len() == 3 && chain::chain(t, parts[0]).choice
                is None ==> {
                &&& c.operands == chain::chain(t, parts[0]).operands
                &&& c.operators == chain::chain(t, parts[0]).operators
                &&& c.choice == Some((parts[1], parts[2]))
            }
            &&& kind != NodeKind::Binary && kind != NodeKind::Conditional && kind
                != NodeKind::Ternary ==> c.operands == seq![e] && c.operators.len() == 0 && c.choice
                is None
        }),
{
    assert(constructs() =~= model::construct_kinds());
    let parts = t.kids(j, NodeKind::Expression);
    let operators = t.kids(j, NodeKind::BinaryOperator);
    if t.nodes[j].kind == NodeKind::Binary && parts.len() == 2 && operators.len() == 1 {
        let c = chain::chain(t, e);
        let rest = chain::chain(t, parts[1]);
        assert(c.operands.skip(1) =~= rest.operands);
        assert(c.operators.skip(1) =~= rest.operators);
    }
}

/// A binary or a conditional expression is lowered exactly where the operands of
/// its chain are, none of them a memory, and, where it has two values to choose
/// from, those are too. Its operators are applied to the values of the operands;
/// of the two values the first is taken where the result is not zero.
pub proof fn chains_choose_between_two_values(
    t: Tree,
    scope: Map<Seq<char>, usize>,
    b: Body,
    i: int,
    j: int,
)
    ensures
        ({
            let r = model::chained(t, scope, b, i, j);
            let c = chain::chain(t, i);
            let names = c.operators.map_values(|k: int| t.text(k));
            let parts = model::parts_of(t, scope, b, j, c.operands, c.operands.len());
            let values = parts->Ok_0.1;
            let (b2, v) = model::combine(parts->Ok_0.0, values, names);
            let (yes, no) = c.choice->0;
            let first = model::expression(t, scope, b2, yes);
            let second = model::expression(t, scope, first->Ok_0.0, no);
            &&& r is Ok ==> {
                &&& parts is Ok
                &&& values_of(t, scope, c.operands, values)
                &&& spells(b2.ops, v, values, names)
                &&& forall|k: int|
                    0 <= k < values.len() ==> !(parts->Ok_0.0.types[#[trigger] values[k] as int]
                        is Memory)
            }
            &&& c.choice is None ==> (r matches Ok((d, w)) ==> d == b2 && w == v)
            &&& c.choice is Some ==> (r matches Ok((d, w)) ==> {
                &&& first is Ok && second is Ok
                &&& w == second->Ok_0.0.types.len() as usize
                &&& rules::adds(
                    second->Ok_0.0,
                    d,
                    SvOpKind::Mux,
                    Seq::empty(),
                    seq![v, first->Ok_0.1, second->Ok_0.1],
                    second->Ok_0.0.types[first->Ok_0.1 as int],
                )
            })
            &&& parts is Ok && c.choice is None && (forall|k: int|
                0 <= k < values.len() ==> !(parts->Ok_0.0.types[#[trigger] values[k] as int]
                    is Memory)) ==> r is Ok
        }),
{
    let c = chain::chain(t, i);
    let names = c.operators.map_values(|k: int| t.text(k));
    assert(names == chain::texts(t, c.operators));
    chain::lemma_chain(t, i);
    every_part_gives_its_value(t, scope, b, j, c.operands);
    if let Ok((b1, values)) = model::parts_of(t, scope, b, j, c.operands, c.operands.len()) {
        chains_apply_every_operator(b1, values, names);
    }
}

/// A binary expression has two sides and one operator, a conditional one a
/// condition and two values; each is lowered as a chain, and refused in any
/// other shape.
pub proof fn shaped_expressions_are_chains(
    t: Tree,
    scope: Map<Seq<char>, usize>,
    b: Body,
    i: int,
    j: int,
)
    requires
        t.find(i, constructs()) == Some(j),
    ensures
        ({
            let r = model::expression(t, scope, b, i);
            let parts = t.kids(j, NodeKind::Expression).len();
            let kind = t.nodes[j].kind;
            let shaped = {
                ||| kind == NodeKind::Binary && parts == 2 && t.kids(
                    j,
                    NodeKind::BinaryOperator,
                ).len() == 1
                ||| kind == NodeKind::Conditional && parts == 2 && t.kids(
                    j,
                    NodeKind::CondPredicate,
                ).len() == 1
                ||| kind == NodeKind::Ternary && parts == 3
            };
            &&& shaped ==> r == model::chained(t, scope, b, i, j)
            &&& !shaped && (kind == NodeKind::Binary || kind == NodeKind::Conditional || kind
                == NodeKind::Ternary) ==> r is Err
        }),
{
    assert(constructs() =~= model::construct_kinds());
}

/// A conditional expression whose condition is one predicate adds its two values
/// to the chain of that predicate.
pub proof fn conditions_are_chains_of_their_own(t: Tree, e: int, j: int)
    requires
        t.find(e, constructs()) == Some(j),
        t.nodes[j].kind == NodeKind::Conditional,
        t.kids(j, NodeKind::Expression).len() == 2,
        t.kids(j, NodeKind::CondPredicate).len() == 1,
    ensures
        ({
            let c = chain::chain(t, e);
            let predicate = t.kids(j, NodeKind::CondPredicate)[0];
            let inner = chain::chain(t, predicate);
            let parts = t.kids(j, NodeKind::Expression);
            if t.kids(predicate, NodeKind::Symbol).len() == 0 && inner.choice is None {
                &&& c.operands == inner.operands
                &&& c.operators == inner.operators
                &&& c.choice == Some((parts[0], parts[1]))
            } else {
                c.operands == seq![e] && c.operators.len() == 0 && c.choice is None
            }
        }),
{
    assert(constructs() =~= model::construct_kinds());
}

/// A choice between two values is made exactly where every operator of its
/// condition binds tighter than the choice does, and the condition and the two
/// values are lowered and none of them is a memory.
pub proof fn choices_are_made_where_all_parts_are_lowered(
    t: Tree,
    scope: Map<Seq<char>, usize>,
    b: Body,
    i: int,
    j: int,
)
    requires
        chain::chain(t, i).choice is Some,
    ensures
        ({
            let c = chain::chain(t, i);
            let names = c.operators.map_values(|k: int| t.text(k));
            let parts = model::parts_of(t, scope, b, j, c.operands, c.operands.len());
            let b2 = model::combine(parts->Ok_0.0, parts->Ok_0.1, names).0;
            let (yes, no) = c.choice->0;
            let first = model::expression(t, scope, b2, yes);
            let second = model::expression(t, scope, first->Ok_0.0, no);
            model::chained(t, scope, b, i, j) is Ok <==> {
                &&& parts is Ok
                &&& forall|k: int|
                    0 <= k < parts->Ok_0.1.len() ==> !(
                    parts->Ok_0.0.types[#[trigger] parts->Ok_0.1[k] as int] is Memory)
                &&& forall|k: int|
                    0 <= k < names.len() ==> chain::precedence(#[trigger] names[k]) > 0
                &&& j < yes < t.nodes.len() && j < no < t.nodes.len()
                &&& first is Ok && !(first->Ok_0.0.types[first->Ok_0.1 as int] is Memory)
                &&& second is Ok && !(second->Ok_0.0.types[second->Ok_0.1 as int] is Memory)
            }
        }),
{
    let c = chain::chain(t, i);
    let names = c.operators.map_values(|k: int| t.text(k));
    assert(names == chain::texts(t, c.operators));
    if names.len() > 0 {
        lemma_applied_last(names);
        let l = chain::loosest(names);
        assert(names[l] == names[l]);
    }
}

/// The parts of a construct are refused only where one of them is, and each goes
/// on where the ones before it end.
pub proof fn parts_are_refused_one_by_one(
    t: Tree,
    scope: Map<Seq<char>, usize>,
    b: Body,
    i: int,
    places: Seq<int>,
    n: nat,
)
    requires
        n < places.len(),
        i < places[n as int] < t.nodes.len(),
    ensures
        ({
            let before = model::parts_of(t, scope, b, i, places, n);
            let after = model::parts_of(t, scope, b, i, places, n + 1);
            &&& before is Err ==> after is Err
            &&& before matches Ok((c, values)) ==> match model::expression(
                t,
                scope,
                c,
                places[n as int],
            ) {
                Err(_) => after is Err,
                Ok((d, v)) => after matches Ok((x, more)) && x == d && more == values.push(v),
            }
            &&& model::parts_of(t, scope, b, i, places, 0) matches Ok((c, values)) && c == b
                && values.len() == 0
        }),
{
}

} // verus!
