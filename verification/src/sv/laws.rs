//! Laws of number literals, ranges and lowered modules.

use crate::sv::chain;
use crate::sv::cst::NodeKind;
use crate::sv::literal;
use crate::sv::lower;
use crate::sv::model;
use crate::sv::model::{State, Tree};
use crate::sv::module::{Body, ModuleView, PortView, SvOpKind, SvType};
use crate::sv::query;
use crate::text;
use vstd::prelude::*;

verus! {

/// A text without underscores stays as it is when underscores are dropped.
proof fn lemma_no_underscores(s: Seq<char>)
    requires
        forall|i: int| 0 <= i < s.len() ==> s[i] != '_',
    ensures
        literal::without_underscores(s) == s,
    decreases s.len(),
{
    reveal(Seq::filter);
    if s.len() > 0 {
        let t = s.drop_last();
        assert forall|i: int| 0 <= i < t.len() implies t[i] != '_' by {
            assert(t[i] == s[i]);
        }
        lemma_no_underscores(t);
        assert(t.push(s.last()) =~= s);
    }
}

/// The digits of a number in decimal, and the number that they write down.
proof fn lemma_decimal(n: nat)
    ensures
        text::decimal(n).len() > 0,
        forall|i: int|
            0 <= i < text::decimal(n).len() ==> '0' <= #[trigger] text::decimal(n)[i] <= '9',
        literal::digits_value(text::decimal(n), 10) == Some(n),
    decreases n,
{
    let s = text::decimal(n);
    let d = n % 10;
    let c = ('0' as int + d) as char;
    assert(literal::digit_value(c, 10) == Some(d));
    if n < 10 {
        assert(s.drop_last() =~= Seq::<char>::empty());
        assert(literal::digits_value(s.drop_last(), 10) == Some(0nat));
        assert(s.last() == c);
    } else {
        lemma_decimal(n / 10);
        let high = text::decimal(n / 10);
        assert(s.drop_last() =~= high);
        assert(s.last() == c);
        assert forall|i: int| 0 <= i < s.len() implies '0' <= #[trigger] s[i] <= '9' by {
            if i < high.len() {
                assert(s[i] == high[i]);
            }
        }
    }
}

/// A number in decimal is read back, in 32 bits.
pub proof fn decimal_literals_are_read(n: nat)
    requires
        n <= u64::MAX,
    ensures
        literal::literal_number(text::decimal(n)) == Some(n),
        literal::literal_meaning(text::decimal(n)) == (n, 32nat),
{
    let s = text::decimal(n);
    lemma_decimal(n);
    assert forall|i: int| 0 <= i < s.len() implies s[i] != '_' && s[i] != '\'' && s[i] != '+' by {
        assert('0' <= s[i] <= '9');
    }
    lemma_no_underscores(s);
    literal::lemma_apostrophe(s, s.len());
    assert(literal::after_sign(s) == s);
}

/// The digits of a number are digits.
proof fn lemma_all_digits(s: Seq<char>, radix: nat)
    requires
        literal::digits_value(s, radix) is Some,
    ensures
        forall|i: int| 0 <= i < s.len() ==> literal::digit_value(#[trigger] s[i], radix) is Some,
    decreases s.len(),
{
    if s.len() > 0 {
        lemma_all_digits(s.drop_last(), radix);
        assert forall|i: int| 0 <= i < s.len() implies literal::digit_value(
            #[trigger] s[i],
            radix,
        ) is Some by {
            if i < s.len() - 1 {
                assert(s.drop_last()[i] == s[i]);
            }
        }
    }
}

/// A sized literal is read back: a width, an apostrophe, the letter of a base,
/// and a number in that base.
pub proof fn sized_literals_are_read(width: nat, letter: char, digits: Seq<char>)
    requires
        width <= u32::MAX,
        literal::base_of(letter) is Some,
        digits.len() > 0,
        literal::digits_value(digits, literal::base_of(letter)->0) matches Some(v) && v <= u64::MAX,
    ensures
        literal::literal_meaning(text::decimal(width) + seq!['\'', letter] + digits) == (
            literal::digits_value(digits, literal::base_of(letter)->0)->0,
            width,
        ),
{
    let w = text::decimal(width);
    let s = w + seq!['\'', letter] + digits;
    let body = seq![letter] + digits;
    lemma_sized(w, width, body, s);
    lemma_all_digits(digits, literal::base_of(letter)->0);
    assert(literal::after_mark(body) == body);
    assert(literal::literal_digits(body) =~= digits);
    lemma_plain_digits(digits, literal::base_of(letter)->0);
}

/// A signed sized literal is read back: the letter `s` stands before the letter
/// of the base.
pub proof fn signed_literals_are_read(width: nat, mark: char, letter: char, digits: Seq<char>)
    requires
        width <= u32::MAX,
        mark == 's' || mark == 'S',
        literal::base_of(letter) is Some,
        digits.len() > 0,
        literal::digits_value(digits, literal::base_of(letter)->0) matches Some(v) && v <= u64::MAX,
    ensures
        literal::literal_meaning(text::decimal(width) + seq!['\'', mark, letter] + digits) == (
            literal::digits_value(digits, literal::base_of(letter)->0)->0,
            width,
        ),
{
    let w = text::decimal(width);
    let s = w + seq!['\'', mark, letter] + digits;
    let body = seq![mark, letter] + digits;
    lemma_sized(w, width, body, s);
    lemma_all_digits(digits, literal::base_of(letter)->0);
    assert(literal::after_mark(body) =~= seq![letter] + digits);
    assert(literal::literal_digits(body) =~= digits);
    lemma_plain_digits(digits, literal::base_of(letter)->0);
}

/// Digits hold no sign and no underscore.
proof fn lemma_plain_digits(digits: Seq<char>, radix: nat)
    requires
        digits.len() > 0,
        radix <= 16,
        forall|i: int|
            0 <= i < digits.len() ==> literal::digit_value(#[trigger] digits[i], radix) is Some,
    ensures
        literal::without_underscores(digits) == digits,
        literal::after_sign(digits) == digits,
{
    assert forall|i: int| 0 <= i < digits.len() implies digits[i] != '_' && digits[i] != '+' by {
        assert(literal::digit_value(digits[i], radix) is Some);
    }
    lemma_no_underscores(digits);
}

/// The parts of a sized literal.
proof fn lemma_sized(w: Seq<char>, width: nat, body: Seq<char>, s: Seq<char>)
    requires
        width <= u32::MAX,
        w == text::decimal(width),
        s =~= w + seq!['\''] + body,
    ensures
        literal::apostrophe(s) == w.len(),
        s.skip(w.len() as int + 1) == body,
        w.len() < s.len(),
        literal::unsigned_value(s.take(w.len() as int), 10, u32::MAX as nat) == Some(width),
{
    lemma_decimal(width);
    let p = w.len();
    assert forall|i: int| 0 <= i < p implies s[i] != '\'' by {
        assert(s[i] == w[i]);
        assert('0' <= w[i] <= '9');
    }
    assert(s[p as int] == '\'');
    literal::lemma_apostrophe(s, p);
    assert(s.skip(p as int + 1) =~= body);
    assert(s.take(p as int) =~= w);
    assert(w[0] != '+') by {
        assert('0' <= w[0] <= '9');
    }
    assert(literal::after_sign(w) == w);
}

/// A sized literal in decimal is read back.
pub proof fn sized_decimal_literals_are_read(width: nat, n: nat)
    requires
        width <= u32::MAX,
        n <= u64::MAX,
    ensures
        literal::literal_meaning(text::decimal(width) + seq!['\'', 'd'] + text::decimal(n)) == (
            n,
            width,
        ),
{
    lemma_decimal(n);
    sized_literals_are_read(width, 'd', text::decimal(n));
}

/// Underscores in an unsized literal do not change what it denotes.
pub proof fn underscores_only_group_digits(s: Seq<char>)
    requires
        !s.contains('\''),
    ensures
        literal::literal_meaning(s) == literal::literal_meaning(literal::without_underscores(s)),
{
    let t = literal::without_underscores(s);
    lemma_filtered(s);
    literal::lemma_apostrophe(s, s.len());
    literal::lemma_apostrophe(t, t.len());
    lemma_no_underscores(t);
}

/// What is left without underscores comes from the text, and has none.
proof fn lemma_filtered(s: Seq<char>)
    requires
        !s.contains('\''),
    ensures
        forall|i: int|
            0 <= i < literal::without_underscores(s).len() ==> literal::without_underscores(s)[i]
                != '_' && literal::without_underscores(s)[i] != '\'',
        forall|i: int| 0 <= i < s.len() ==> s[i] != '\'',
    decreases s.len(),
{
    reveal(Seq::filter);
    if s.len() > 0 {
        let t = s.drop_last();
        assert forall|i: int| 0 <= i < s.len() implies s[i] != '\'' by {
            assert(s.contains(s[i]));
        }
        assert(!t.contains('\'')) by {
            if t.contains('\'') {
                let i = choose|i: int| 0 <= i < t.len() && t[i] == '\'';
                assert(s[i] == '\'');
            }
        }
        lemma_filtered(t);
        let kept = literal::without_underscores(t);
        let all = literal::without_underscores(s);
        assert forall|i: int| 0 <= i < all.len() implies all[i] != '_' && all[i] != '\'' by {
            if i < kept.len() {
                assert(all[i] == kept[i]);
            } else {
                assert(all == kept.push(s.last()));
                assert(all[i] == s.last());
            }
        }
    }
}

/// A range has the same width whichever bound comes first, and so has a slice the
/// same bits.
pub proof fn ranges_run_either_way(a: int, b: int)
    ensures
        model::width_between(a, b) == model::width_between(b, a),
        model::slice_bounds(a, b) == model::slice_bounds(b, a),
{
}

/// The width of a range is the number of its bits, where that fits in 32 bits.
pub proof fn ranges_have_the_width_of_their_bits(msb: int, lsb: int)
    requires
        lsb <= msb,
        msb - lsb < u32::MAX,
    ensures
        model::width_between(msb, lsb) == Some((msb - lsb + 1) as u32),
{
}

/// A slice has the bits from its low bound to its high bound, where these fit in
/// 32 bits.
pub proof fn slices_have_the_bits_between_their_bounds(msb: int, lsb: int)
    requires
        0 <= lsb <= msb <= u32::MAX,
        msb - lsb < u32::MAX,
    ensures
        model::slice_bounds(msb, lsb) == Some((lsb as u32, (msb - lsb + 1) as u32)),
{
}

/// Whether an expression is a number literal that writes a number down in decimal.
pub open spec fn writes(t: Tree, e: int, n: nat) -> bool {
    &&& t.find(e, model::construct_kinds()) matches Some(j)
    &&& t.nodes[j].kind == NodeKind::Primary
    &&& j + 1 < t.nodes[j].end
    &&& j + 1 < t.nodes.len()
    &&& t.nodes[j + 1].kind == NodeKind::PrimaryLiteral
    &&& t.find(j + 1, seq![NodeKind::IntegralNumber]) matches Some(k)
    &&& t.text(k) == text::decimal(n)
}

/// A bound that is a number literal in decimal is the number that it writes down.
pub proof fn decimal_bounds_are_read(t: Tree, e: int, n: nat)
    requires
        n <= u64::MAX,
        writes(t, e, n),
    ensures
        chain::bound_value(t, e) == Some(n as int),
{
    decimal_literals_are_read(n);
}

/// A node without a range has one bit.
pub proof fn nodes_without_a_range_have_one_bit(t: Tree, i: int)
    requires
        t.find(i, seq![NodeKind::ConstantRange]) is None,
    ensures
        model::range_width(t, i) == Ok::<u32, Seq<char>>(1),
{
}

/// A node with a range between two bounds in decimal has the bits from the one to
/// the other, whichever is larger.
pub proof fn decimal_ranges_have_the_bits_between_their_bounds(
    t: Tree,
    i: int,
    r: int,
    msb: nat,
    lsb: nat,
)
    requires
        msb <= u64::MAX,
        lsb <= u64::MAX,
        t.find(i, seq![NodeKind::ConstantRange]) == Some(r),
        t.kids(r, NodeKind::Expression).len() == 2,
        writes(t, t.kids(r, NodeKind::Expression)[0], msb),
        writes(t, t.kids(r, NodeKind::Expression)[1], lsb),
    ensures
        ({
            let bits: int = if msb >= lsb {
                msb - lsb + 1
            } else {
                lsb - msb + 1
            };
            model::range_width(t, i) == if bits <= u32::MAX {
                Ok::<u32, Seq<char>>(bits as u32)
            } else {
                Err("range is too wide"@)
            }
        }),
{
    decimal_bounds_are_read(t, t.kids(r, NodeKind::Expression)[0], msb);
    decimal_bounds_are_read(t, t.kids(r, NodeKind::Expression)[1], lsb);
}

/// A slice between two bounds in decimal that fit in 32 bits adds one operation,
/// which takes as many bits from the lower bound on as there are from the one bound
/// to the other, whichever is larger. Only the slice of all bits is left out, whose
/// width does not fit.
pub proof fn decimal_slices_have_the_bits_between_their_bounds(
    t: Tree,
    b: Body,
    r: int,
    base: usize,
    msb: nat,
    lsb: nat,
)
    requires
        msb <= u32::MAX,
        lsb <= u32::MAX,
        msb - lsb < u32::MAX,
        lsb - msb < u32::MAX,
        t.kids(r, NodeKind::Expression).len() == 2,
        writes(t, t.kids(r, NodeKind::Expression)[0], msb),
        writes(t, t.kids(r, NodeKind::Expression)[1], lsb),
    ensures
        ({
            let low = (if msb >= lsb {
                lsb
            } else {
                msb
            }) as u32;
            let width = (if msb >= lsb {
                msb - lsb + 1
            } else {
                lsb - msb + 1
            }) as u32;
            model::slice(t, b, r, base) == model::emit_value(
                b,
                SvOpKind::Slice { low, width },
                Seq::empty(),
                seq![base],
                SvType::Integer { width },
            )
        }),
{
    decimal_bounds_are_read(t, t.kids(r, NodeKind::Expression)[0], msb);
    decimal_bounds_are_read(t, t.kids(r, NodeKind::Expression)[1], lsb);
}

/// Of two operators the one that binds tighter is applied first, and of two that
/// bind alike the first one, but for those that bind least of all.
pub proof fn operators_group_by_precedence(p: Seq<char>, q: Seq<char>)
    ensures
        chain::precedence(p) > chain::precedence(q) ==> chain::loosest(seq![p, q]) == 1,
        chain::precedence(p) < chain::precedence(q) ==> chain::loosest(seq![p, q]) == 0,
        chain::precedence(p) == chain::precedence(q) && chain::precedence(p) > 0
            ==> chain::loosest(seq![p, q]) == 1,
{
    let names = seq![p, q];
    assert(names.drop_last() =~= seq![p]);
    assert(chain::loosest(seq![p]) == 0);
}

/// A chain of two operators, from the values of its operands: the operator that is
/// applied first has its value before the other one.
pub proof fn chains_of_two_operators(b: Body, x: usize, y: usize, z: usize, p: Seq<char>, q: Seq<char>)
    requires
        b.types.len() < usize::MAX,
    ensures
        ({
            let first = b.types.len() as usize;
            let ops = model::combine(b, seq![x, y, z], seq![p, q]).0.ops;
            let n = b.ops.len() as int;
            &&& ops.len() == n + 2
            &&& ops[n].result == Some(first)
            &&& if chain::loosest(seq![p, q]) == 0 {
                &&& ops[n].name == q && ops[n].operands == seq![y, z]
                &&& ops[n + 1].name == p && ops[n + 1].operands == seq![x, first]
            } else {
                &&& ops[n].name == p && ops[n].operands == seq![x, y]
                &&& ops[n + 1].name == q && ops[n + 1].operands == seq![first, z]
            }
        }),
{
    let values = seq![x, y, z];
    let names = seq![p, q];
    chain::lemma_loosest(names);
    reveal_with_fuel(model::combine, 3);
    if chain::loosest(names) == 0 {
        assert(values.take(1) =~= seq![x]);
        assert(values.skip(1) =~= seq![y, z]);
        assert(names.take(0) =~= Seq::<Seq<char>>::empty());
        assert(names.skip(1) =~= seq![q]);
        assert(chain::loosest(seq![q]) == 0);
        assert(seq![y, z].take(1) =~= seq![y]);
        assert(seq![y, z].skip(1) =~= seq![z]);
        assert(seq![q].take(0) =~= Seq::<Seq<char>>::empty());
        assert(seq![q].skip(1) =~= Seq::<Seq<char>>::empty());
    } else {
        assert(values.take(2) =~= seq![x, y]);
        assert(values.skip(2) =~= seq![z]);
        assert(names.take(1) =~= seq![p]);
        assert(names.skip(2) =~= Seq::<Seq<char>>::empty());
        assert(chain::loosest(seq![p]) == 0);
        assert(seq![x, y].take(1) =~= seq![x]);
        assert(seq![x, y].skip(1) =~= seq![y]);
        assert(seq![p].take(0) =~= Seq::<Seq<char>>::empty());
        assert(seq![p].skip(1) =~= Seq::<Seq<char>>::empty());
    }
}

/// Whether one body goes on where another one ends: the values and operations are
/// still there, and none that was added is an output.
#[verifier::opaque]
pub open spec fn grown(b: Body, c: Body) -> bool {
    &&& b.ops.len() <= c.ops.len()
    &&& b.types.len() <= c.types.len()
    &&& forall|k: int| 0 <= k < b.ops.len() ==> #[trigger] c.ops[k] == b.ops[k]
    &&& forall|k: int| 0 <= k < b.types.len() ==> #[trigger] c.types[k] == b.types[k]
    &&& forall|k: int|
        b.ops.len() <= k < c.ops.len() ==> (#[trigger] c.ops[k]).kind != SvOpKind::Output
}

pub(crate) proof fn lemma_same_body(b: Body)
    ensures
        grown(b, b),
{
    reveal(grown);
}

pub(crate) proof fn lemma_grown(b: Body, c: Body, d: Body)
    requires
        grown(b, c),
        grown(c, d),
    ensures
        grown(b, d),
{
    reveal(grown);
    assert forall|k: int| 0 <= k < b.ops.len() implies #[trigger] d.ops[k] == b.ops[k] by {
        assert(c.ops[k] == b.ops[k]);
    }
    assert forall|k: int| 0 <= k < b.types.len() implies #[trigger] d.types[k] == b.types[k] by {
        assert(c.types[k] == b.types[k]);
    }
    assert forall|k: int| b.ops.len() <= k < d.ops.len() implies (#[trigger] d.ops[k]).kind
        != SvOpKind::Output by {
        if k < c.ops.len() {
            assert(d.ops[k] == c.ops[k]);
        }
    }
}

/// An operation that is no output, added at the end.
proof fn lemma_emitted(
    b: Body,
    c: Body,
    kind: SvOpKind,
    name: Seq<char>,
    callee: Seq<char>,
    operands: Seq<usize>,
    ty: Option<SvType>,
)
    requires
        grown(b, c),
        kind != SvOpKind::Output,
    ensures
        grown(b, model::emit(c, kind, name, callee, operands, ty)),
{
    reveal(grown);
    let d = model::emit(c, kind, name, callee, operands, ty);
    assert(grown(c, d));
    lemma_grown(b, c, d);
}

/// The parts of a construct that an expression is looked for in stand behind it.
proof fn lemma_parts_behind(t: Tree, i: int, j: int, kinds: Seq<NodeKind>, kind: NodeKind)
    requires
        t.find(i, kinds) == Some(j),
    ensures
        i <= j < t.nodes.len(),
        forall|k: int|
            0 <= k < t.kids(j, kind).len() ==> j < #[trigger] t.kids(j, kind)[k] < t.nodes.len(),
{
    query::lemma_find_from(t.nodes, i, t.nodes[i].end as int, kinds);
    query::lemma_kids_from(t.nodes, j + 1, t.nodes[j].end as int, kind);
}

/// Whether an expression is no chain of operators and no choice.
pub open spec fn is_single(t: Tree, e: int) -> bool {
    chain::chain(t, e).operators.len() == 0 && chain::chain(t, e).choice is None
}

/// A binary expression of two operands adds one operation to those of its operands:
/// with its operator, on the values of both, in order, and of the type of the left
/// one.
pub proof fn binary_expressions_apply_their_operator(
    t: Tree,
    scope: Map<Seq<char>, usize>,
    b: Body,
    i: int,
    j: int,
)
    requires
        t.find(i, model::construct_kinds()) == Some(j),
        t.nodes[j].kind == NodeKind::Binary,
        t.kids(j, NodeKind::Expression).len() == 2,
        t.kids(j, NodeKind::BinaryOperator).len() == 1,
        is_single(t, t.kids(j, NodeKind::Expression)[1]),
    ensures
        model::expression(t, scope, b, i) == (match model::expression(
            t,
            scope,
            b,
            t.kids(j, NodeKind::Expression)[0],
        ) {
            Err(e) => Err(e),
            Ok((b1, lhs)) => match model::expression(
                t,
                scope,
                b1,
                t.kids(j, NodeKind::Expression)[1],
            ) {
                Err(e) => Err(e),
                Ok((b2, rhs)) => if b2.types[lhs as int] is Memory || b2.types[rhs as int] is Memory {
                    Err(model::unsupported_expression("a memory is not an operand"@))
                } else {
                    model::emit_value(
                        b2,
                        SvOpKind::Binary,
                        t.text(t.kids(j, NodeKind::BinaryOperator)[0]),
                        seq![lhs, rhs],
                        b2.types[lhs as int],
                    )
                },
            },
        }),
{
    let parts = t.kids(j, NodeKind::Expression);
    let operators = t.kids(j, NodeKind::BinaryOperator);
    lemma_parts_behind(t, i, j, model::construct_kinds(), NodeKind::Expression);
    lemma_single(t, parts[1]);
    let c = chain::chain(t, i);
    assert(c.operands =~= seq![parts[0], parts[1]]);
    assert(c.operators =~= seq![operators[0]]);
    let names = chain::texts(t, c.operators);
    assert(names =~= seq![t.text(operators[0])]);
    assert(model::expression(t, scope, b, i) == model::chained(t, scope, b, i, j));
    lemma_parts_step(t, scope, b, j, c.operands, 1);
    lemma_parts_step(t, scope, b, j, c.operands, 2);
    if let Ok((b1, lhs)) = model::expression(t, scope, b, parts[0]) {
        if let Ok((b2, rhs)) = model::expression(t, scope, b1, parts[1]) {
            let values = Seq::<usize>::empty().push(lhs).push(rhs);
            assert(values =~= seq![lhs, rhs]);
            assert(values[0] == lhs && values[1] == rhs);
            reveal_with_fuel(model::combine, 2);
            assert(values.take(1) =~= seq![lhs]);
            assert(values.skip(1) =~= seq![rhs]);
            assert(names.take(0) =~= Seq::<Seq<char>>::empty());
            assert(names.skip(1) =~= Seq::<Seq<char>>::empty());
        }
    }
}

/// What is no chain and no choice stands alone.
proof fn lemma_single(t: Tree, e: int)
    requires
        is_single(t, e),
    ensures
        chain::chain(t, e).operands == seq![e],
{
    if let Some(j) = t.find(e, model::construct_kinds()) {
        let parts = t.kids(j, NodeKind::Expression);
        let operators = t.kids(j, NodeKind::BinaryOperator);
        if t.nodes[j].kind == NodeKind::Binary && parts.len() == 2 && operators.len() == 1 {
            assert(chain::chain(t, e).operators[0] == operators[0]);
        }
    }
}

/// A choice by a condition that is no chain adds one operation to those of its
/// parts: on the values of the condition and of both branches, in order, and of the
/// type of the first branch.
pub proof fn conditional_expressions_choose_by_their_condition(
    t: Tree,
    scope: Map<Seq<char>, usize>,
    b: Body,
    i: int,
    j: int,
)
    requires
        t.find(i, model::construct_kinds()) == Some(j),
        t.nodes[j].kind == NodeKind::Conditional,
        t.kids(j, NodeKind::Expression).len() == 2,
        t.kids(j, NodeKind::CondPredicate).len() == 1,
        t.kids(t.kids(j, NodeKind::CondPredicate)[0], NodeKind::Symbol).len() == 0,
        is_single(t, t.kids(j, NodeKind::CondPredicate)[0]),
    ensures
        model::expression(t, scope, b, i) == (match model::operand(
            t,
            scope,
            b,
            t.kids(j, NodeKind::CondPredicate)[0],
        ) {
            Err(e) => Err(e),
            Ok((b1, sel)) => match model::operand(
                t,
                scope,
                b1,
                t.kids(j, NodeKind::Expression)[0],
            ) {
                Err(e) => Err(e),
                Ok((b2, yes)) => match model::operand(
                    t,
                    scope,
                    b2,
                    t.kids(j, NodeKind::Expression)[1],
                ) {
                    Err(e) => Err(e),
                    Ok((b3, no)) => model::mux(b3, sel, yes, no),
                },
            },
        }),
{
    let parts = t.kids(j, NodeKind::Expression);
    let predicates = t.kids(j, NodeKind::CondPredicate);
    lemma_parts_behind(t, i, j, model::construct_kinds(), NodeKind::Expression);
    lemma_parts_behind(t, i, j, model::construct_kinds(), NodeKind::CondPredicate);
    lemma_single(t, predicates[0]);
    let c = chain::chain(t, i);
    assert(c.operands == seq![predicates[0]]);
    assert(chain::texts(t, c.operators) =~= Seq::<Seq<char>>::empty());
    assert(model::expression(t, scope, b, i) == model::chained(t, scope, b, i, j));
    lemma_parts_step(t, scope, b, j, c.operands, 1);
    if let Ok((b1, sel)) = model::expression(t, scope, b, predicates[0]) {
        let values = Seq::<usize>::empty().push(sel);
        assert(values[0] == sel);
        assert(model::combine(b1, values, Seq::empty()) == (b1, sel));
    }
}

/// Lowering one expression more.
proof fn lemma_parts_step(
    t: Tree,
    scope: Map<Seq<char>, usize>,
    b: Body,
    i: int,
    places: Seq<int>,
    n: nat,
)
    requires
        0 < n <= places.len(),
        i < places[n - 1] < t.nodes.len(),
    ensures
        model::parts_of(t, scope, b, i, places, 0) == Ok::<(Body, Seq<usize>), Seq<char>>(
            (b, Seq::empty()),
        ),
        model::parts_of(t, scope, b, i, places, n) == (match model::parts_of(
            t,
            scope,
            b,
            i,
            places,
            (n - 1) as nat,
        ) {
            Err(e) => Err(e),
            Ok((b1, values)) => match model::expression(t, scope, b1, places[n - 1]) {
                Err(e) => Err(e),
                Ok((b2, v)) => Ok((b2, values.push(v))),
            },
        }),
{
}

/// Lowering an expression only adds to a body, and adds no output.
pub(crate) proof fn lemma_expression_grows(t: Tree, scope: Map<Seq<char>, usize>, b: Body, i: int)
    ensures
        model::expression(t, scope, b, i) matches Ok(r) ==> grown(b, r.0),
    decreases t.nodes.len() - i, 3int, 0int,
{
    lemma_same_body(b);
    if let Some(j) = t.find(i, model::construct_kinds()) {
        lemma_parts_behind(t, i, j, model::construct_kinds(), NodeKind::Primary);
        match t.nodes[j].kind {
            NodeKind::Binary => {
                lemma_chained_grows(t, scope, b, i, j);
            },
            NodeKind::Unary => {
                let operators = t.kids(j, NodeKind::UnaryOperator);
                let operands = t.kids(j, NodeKind::Primary);
                if operands.len() == 1 && operators.len() == 1 {
                    lemma_operand_grows(t, scope, b, operands[0]);
                    if let Ok((b1, v)) = model::operand(t, scope, b, operands[0]) {
                        lemma_emitted(
                            b,
                            b1,
                            SvOpKind::Unary,
                            t.text(operators[0]),
                            Seq::empty(),
                            seq![v],
                            Some(b1.types[v as int]),
                        );
                    }
                }
            },
            NodeKind::Conditional => {
                lemma_chained_grows(t, scope, b, i, j);
            },
            NodeKind::Ternary => {
                lemma_chained_grows(t, scope, b, i, j);
            },
            NodeKind::Concatenation => {
                lemma_concatenation_grows(t, scope, b, j);
            },
            NodeKind::Primary => {
                lemma_primary_grows(t, scope, b, j);
            },
            NodeKind::IntegralNumber => {
                lemma_number_grows(b, t.text(j));
            },
            _ => {},
        }
    }
}

proof fn lemma_operand_grows(t: Tree, scope: Map<Seq<char>, usize>, b: Body, i: int)
    ensures
        model::operand(t, scope, b, i) matches Ok(r) ==> grown(b, r.0),
    decreases t.nodes.len() - i, 4int, 0int,
{
    lemma_expression_grows(t, scope, b, i);
}

/// Applying the operators of a chain only adds to a body.
pub(crate) proof fn lemma_combine_grows(b: Body, values: Seq<usize>, names: Seq<Seq<char>>)
    ensures
        grown(b, model::combine(b, values, names).0),
    decreases names.len(),
{
    lemma_same_body(b);
    if names.len() > 0 && values.len() == names.len() + 1 {
        chain::lemma_loosest(names);
        let k = chain::loosest(names);
        let (b1, lhs) = model::combine(b, values.take(k + 1), names.take(k));
        let (b2, rhs) = model::combine(b1, values.skip(k + 1), names.skip(k + 1));
        lemma_combine_grows(b, values.take(k + 1), names.take(k));
        lemma_combine_grows(b1, values.skip(k + 1), names.skip(k + 1));
        lemma_grown(b, b1, b2);
        lemma_emitted(
            b,
            b2,
            SvOpKind::Binary,
            names[k],
            Seq::empty(),
            seq![lhs, rhs],
            Some(b2.types[lhs as int]),
        );
    }
}

proof fn lemma_chained_grows(t: Tree, scope: Map<Seq<char>, usize>, b: Body, i: int, j: int)
    ensures
        model::chained(t, scope, b, i, j) matches Ok(r) ==> grown(b, r.0),
    decreases t.nodes.len() - j, 2int, 0int,
{
    let c = chain::chain(t, i);
    let names = chain::texts(t, c.operators);
    lemma_parts_grow(t, scope, b, j, c.operands, c.operands.len());
    if let Ok((b1, values)) = model::parts_of(t, scope, b, j, c.operands, c.operands.len()) {
        let (b2, v) = model::combine(b1, values, names);
        lemma_combine_grows(b1, values, names);
        lemma_grown(b, b1, b2);
        if let Some((yes, no)) = c.choice {
            if j < yes < t.nodes.len() && j < no < t.nodes.len() {
                lemma_operand_grows(t, scope, b2, yes);
                if let Ok((b3, x)) = model::operand(t, scope, b2, yes) {
                    lemma_operand_grows(t, scope, b3, no);
                    lemma_grown(b, b2, b3);
                    if let Ok((b4, y)) = model::operand(t, scope, b3, no) {
                        lemma_grown(b, b3, b4);
                        lemma_emitted(
                            b,
                            b4,
                            SvOpKind::Mux,
                            Seq::empty(),
                            Seq::empty(),
                            seq![v, x, y],
                            Some(b4.types[x as int]),
                        );
                    }
                }
            }
        }
    }
}

/// A constant only adds to a body.
proof fn lemma_constant_grows(b: Body, value: u64, width: u32)
    ensures
        model::constant(b, value, width) matches Ok(r) ==> grown(b, r.0),
{
    lemma_same_body(b);
    lemma_emitted(
        b,
        b,
        SvOpKind::Constant { value: lower::low_bits(value, width) as u64, width },
        Seq::empty(),
        Seq::empty(),
        Seq::empty(),
        Some(SvType::Integer { width }),
    );
}

proof fn lemma_number_grows(b: Body, s: Seq<char>)
    ensures
        model::number(b, s) matches Ok(r) ==> grown(b, r.0),
{
    lemma_constant_grows(
        b,
        literal::literal_meaning(s).0 as u64,
        literal::literal_meaning(s).1 as u32,
    );
}

pub(crate) proof fn lemma_parts_grow(
    t: Tree,
    scope: Map<Seq<char>, usize>,
    b: Body,
    i: int,
    places: Seq<int>,
    n: nat,
)
    ensures
        model::parts_of(t, scope, b, i, places, n) matches Ok(r) ==> grown(b, r.0),
    decreases t.nodes.len() - i, 0int, n as int,
{
    lemma_same_body(b);
    if n > 0 && n <= places.len() {
        lemma_parts_grow(t, scope, b, i, places, (n - 1) as nat);
        if let Ok((b1, values)) = model::parts_of(t, scope, b, i, places, (n - 1) as nat) {
            let k = places[n - 1];
            if i < k < t.nodes.len() {
                lemma_expression_grows(t, scope, b1, k);
                if let Ok((b2, v)) = model::expression(t, scope, b1, k) {
                    lemma_grown(b, b1, b2);
                }
            }
        }
    }
}

proof fn lemma_concatenation_grows(t: Tree, scope: Map<Seq<char>, usize>, b: Body, i: int)
    ensures
        model::concatenation(t, scope, b, i) matches Ok(r) ==> grown(b, r.0),
    decreases t.nodes.len() - i, 1int, 0int,
{
    let places = t.kids(i, NodeKind::Expression);
    lemma_parts_grow(t, scope, b, i, places, places.len());
    if let Ok((b1, values)) = model::parts_of(t, scope, b, i, places, places.len()) {
        lemma_emitted(
            b,
            b1,
            SvOpKind::Concat,
            Seq::empty(),
            Seq::empty(),
            values,
            Some(SvType::Integer { width: model::total_bits(b1.types, values) as u32 }),
        );
    }
}

proof fn lemma_primary_grows(t: Tree, scope: Map<Seq<char>, usize>, b: Body, i: int)
    ensures
        model::primary(t, scope, b, i) matches Ok(r) ==> grown(b, r.0),
    decreases t.nodes.len() - i, 2int, 0int,
{
    lemma_same_body(b);
    let c = i + 1;
    if 0 <= i && c < t.nodes[i].end && c < t.nodes.len() {
        match t.nodes[c].kind {
            NodeKind::Parenthesized => {
                let kinds = seq![NodeKind::Expression];
                if let Some(k) = model::inside(t, c) {
                    query::lemma_find_from(t.nodes, c, t.nodes[c].end as int, kinds);
                    lemma_expression_grows(t, scope, b, k);
                }
            },
            NodeKind::PrimaryHierarchical => {
                lemma_hierarchical_grows(t, scope, b, c);
            },
            NodeKind::PrimaryConcatenation => {
                let kinds = seq![NodeKind::Concatenation];
                if let Some(k) = t.find(c, kinds) {
                    query::lemma_find_from(t.nodes, c, t.nodes[c].end as int, kinds);
                    lemma_concatenation_grows(t, scope, b, k);
                }
            },
            NodeKind::PrimaryLiteral => {
                let kinds = seq![NodeKind::IntegralNumber, NodeKind::UnbasedUnsizedLiteral];
                if let Some(k) = t.find(c, kinds) {
                    lemma_number_grows(b, t.text(k));
                }
            },
            _ => {},
        }
    }
}

proof fn lemma_hierarchical_grows(t: Tree, scope: Map<Seq<char>, usize>, b: Body, i: int)
    ensures
        model::hierarchical(t, scope, b, i) matches Ok(r) ==> grown(b, r.0),
    decreases t.nodes.len() - i, 2int, 0int,
{
    lemma_same_body(b);
    let names = t.kids(i, NodeKind::HierarchicalIdentifier);
    if let Ok(base) = model::resolve(scope, t.text(names[0])) {
        if let Some(s) = t.find(i, seq![NodeKind::Select]) {
            query::lemma_find_from(t.nodes, i, t.nodes[i].end as int, seq![NodeKind::Select]);
            lemma_selected_grows(t, scope, b, s, base);
        }
    }
}

proof fn lemma_selected_grows(
    t: Tree,
    scope: Map<Seq<char>, usize>,
    b: Body,
    s: int,
    base: usize,
)
    ensures
        model::selected(t, scope, b, s, base) matches Ok(r) ==> grown(b, r.0),
    decreases t.nodes.len() - s, 1int, 0int,
{
    lemma_same_body(b);
    let ranges = t.kids(s, NodeKind::PartSelectRange);
    let bit_selects = t.kids(s, NodeKind::BitSelect);
    if bit_selects.len() == 1 && ranges.len() <= 1 && s >= 0 {
        let indices = t.kids(bit_selects[0], NodeKind::Expression);
        if ranges.len() == 1 {
            if let Some(r) = t.find(ranges[0], seq![NodeKind::ConstantRange]) {
                if let Ok((x, y)) = model::range_bounds(t, r) {
                    if let Some((low, width)) = model::slice_bounds(x, y) {
                        lemma_emitted(
                            b,
                            b,
                            SvOpKind::Slice { low, width },
                            Seq::empty(),
                            Seq::empty(),
                            seq![base],
                            Some(SvType::Integer { width }),
                        );
                    }
                }
            }
        } else if indices.len() == 1 {
            query::lemma_kids_from(t.nodes, s + 1, t.nodes[s].end as int, NodeKind::BitSelect);
            query::lemma_kids_from(
                t.nodes,
                bit_selects[0] + 1,
                t.nodes[bit_selects[0]].end as int,
                NodeKind::Expression,
            );
            assert(s < bit_selects[0] < indices[0] < t.nodes.len());
            lemma_operand_grows(t, scope, b, indices[0]);
            if let Ok((b1, index)) = model::operand(t, scope, b, indices[0]) {
                lemma_emitted(
                    b,
                    b1,
                    SvOpKind::Index,
                    Seq::empty(),
                    Seq::empty(),
                    seq![base, index],
                    Some(SvType::Integer { width: 1 }),
                );
            }
        }
    }
}

/// Whether one state goes on where another one ends: its body does, with at least
/// one operation more, and where a name has got another meaning, it is the name of
/// the last operation, which stands for that operation's result.
pub open spec fn advances(st: State, s: State) -> bool {
    &&& grown(st.body, s.body)
    &&& st.body.ops.len() < s.body.ops.len()
    &&& s.scope == st.scope || (s.body.ops.last().result is Some && s.scope == st.scope.insert(
        s.body.ops.last().name,
        s.body.ops.last().result->0,
    ))
}

/// An operation added to a body that a state's body grew to.
proof fn lemma_added(
    st: State,
    b: Body,
    kind: SvOpKind,
    name: Seq<char>,
    callee: Seq<char>,
    operands: Seq<usize>,
)
    requires
        grown(st.body, b),
        kind != SvOpKind::Output,
    ensures
        advances(
            st,
            (State { body: model::emit(b, kind, name, callee, operands, None), scope: st.scope }),
        ),
{
    lemma_emitted(st.body, b, kind, name, callee, operands, None);
    reveal(grown);
}

/// A named value added to a body that a state's body grew to.
proof fn lemma_defined(
    st: State,
    b: Body,
    kind: SvOpKind,
    name: Seq<char>,
    operands: Seq<usize>,
    ty: SvType,
)
    requires
        grown(st.body, b),
        kind != SvOpKind::Output,
    ensures
        advances(
            st,
            model::define(State { body: b, scope: st.scope }, kind, name, operands, ty),
        ),
{
    lemma_emitted(st.body, b, kind, name, Seq::empty(), operands, Some(ty));
    reveal(grown);
}

/// Whether one state goes on where another one ends and lets the name of its last
/// operation, which is of a kind, stand for that operation's result; every other
/// name stands for what it stood for before.
pub open spec fn drives(st: State, s: State, kind: SvOpKind, name: Seq<char>) -> bool {
    &&& advances(st, s)
    &&& s.body.ops.last().kind == kind
    &&& s.body.ops.last().name == name
    &&& s.body.ops.last().result is Some
    &&& s.scope == st.scope.insert(name, s.body.ops.last().result->0)
}

proof fn lemma_drive(t: Tree, st: State, kind: SvOpKind, target: Seq<char>, value: int)
    requires
        kind != SvOpKind::Output,
    ensures
        model::drive(t, st, kind, target, value) matches Ok(s) ==> drives(st, s, kind, target),
{
    lemma_expression_grows(t, st.scope, st.body, value);
    if let Ok((b, v)) = model::expression(t, st.scope, st.body, value) {
        lemma_defined(st, b, kind, target, seq![v], b.types[v as int]);
    }
}

/// A continuous assignment drives its target: afterwards the target stands for
/// the result of the assignment, which is the last operation, and every other
/// name for what it stood for before.
pub proof fn assignments_drive_their_targets(t: Tree, st: State, i: int)
    ensures
        model::continuous_assign(t, st, i) matches Ok(s) ==> (model::continuous_parts(t, i) matches Ok(
            parts,
        ) && drives(st, s, SvOpKind::Assign, parts.0)),
{
    if let Ok((target, value)) = model::continuous_parts(t, i) {
        lemma_drive(t, st, SvOpKind::Assign, target, value);
    }
}

/// A combinational block drives its target.
pub proof fn combinational_blocks_drive_their_targets(t: Tree, st: State, i: int)
    ensures
        model::always_comb(t, st, i) matches Ok(s) ==> (model::assignment_in(t, i) matches Ok(parts)
            && drives(st, s, SvOpKind::AlwaysComb, parts.0)),
{
    if let Ok((target, value)) = model::assignment_in(t, i) {
        lemma_drive(t, st, SvOpKind::AlwaysComb, target, value);
    }
}

proof fn lemma_without_reset(t: Tree, st: State, i: int, clk: usize)
    ensures
        model::without_reset(t, st, i, clk) matches Ok(s) ==> (model::assignment_in(t, i) matches Ok(
            parts,
        ) && drives(st, s, SvOpKind::AlwaysFfNoReset, parts.0)),
{
    if let Ok((target, value)) = model::assignment_in(t, i) {
        lemma_expression_grows(t, st.scope, st.body, value);
        if let Ok((b, v)) = model::expression(t, st.scope, st.body, value) {
            lemma_defined(
                st,
                b,
                SvOpKind::AlwaysFfNoReset,
                target,
                seq![clk, v],
                b.types[v as int],
            );
        }
    }
}

proof fn lemma_with_reset(
    t: Tree,
    st: State,
    i: int,
    c: int,
    clk: usize,
    event: Option<(Seq<char>, bool)>,
)
    ensures
        model::with_reset(t, st, i, c, clk, event) matches Ok(s) ==> (model::reset_of(t, c, event) matches Ok(
            reset,
        ) && model::branch_assignments(t, c) matches Ok(parts) && drives(
            st,
            s,
            SvOpKind::AlwaysFf { is_async: event is Some, active_low: reset.1 },
            parts.0,
        )),
{
    if let Ok((name, active_low)) = model::reset_of(t, c, event) {
        if let Ok((target, at_reset, next)) = model::branch_assignments(t, c) {
            lemma_expression_grows(t, st.scope, st.body, at_reset);
            if let Ok((b1, reset_value)) = model::expression(t, st.scope, st.body, at_reset) {
                lemma_expression_grows(t, st.scope, b1, next);
                if let Ok((b2, next_value)) = model::expression(t, st.scope, b1, next) {
                    lemma_grown(st.body, b1, b2);
                    if let Ok(rst) = model::resolve(st.scope, name) {
                        lemma_defined(
                            st,
                            b2,
                            SvOpKind::AlwaysFf { is_async: event is Some, active_low },
                            target,
                            seq![clk, next_value, rst, reset_value],
                            b2.types[next_value as int],
                        );
                    }
                }
            }
        }
    }
}

/// A clocked block drives its target: it is the target of its one assignment, or
/// of both assignments of its conditional statement.
pub proof fn clocked_blocks_drive_their_targets(t: Tree, st: State, i: int)
    ensures
        model::always_ff(t, st, i) matches Ok(s) ==> exists|kind: SvOpKind, name: Seq<char>|
            #[trigger] drives(st, s, kind, name) && (match t.find(
                i,
                seq![NodeKind::ConditionalStatement],
            ) {
                Some(c) => model::branch_assignments(t, c) matches Ok(parts) && parts.0 == name
                    && kind is AlwaysFf,
                None => model::assignment_in(t, i) matches Ok(parts) && parts.0 == name && kind
                    == SvOpKind::AlwaysFfNoReset,
            }),
{
    if let Some(p) = t.find(i, seq![NodeKind::ProceduralTimingControlStatement]) {
        let controls = t.kids(p, NodeKind::ProceduralTimingControl);
        if controls.len() > 0 {
            if let Ok((clock, event)) = model::sensitivity(t, controls[0]) {
                if let Ok(clk) = model::resolve(st.scope, clock) {
                    lemma_without_reset(t, st, i, clk);
                    if let Some(c) = t.find(i, seq![NodeKind::ConditionalStatement]) {
                        lemma_with_reset(t, st, i, c, clk, event);
                    }
                }
            }
        }
    }
}

proof fn lemma_always_construct(t: Tree, st: State, i: int)
    ensures
        model::always_construct(t, st, i) matches Ok(s) ==> advances(st, s),
{
    let statements = t.kids(i, NodeKind::Statement);
    if statements.len() > 0 {
        combinational_blocks_drive_their_targets(t, st, statements[0]);
        clocked_blocks_drive_their_targets(t, st, statements[0]);
    }
}

pub(crate) proof fn lemma_connections_grow(
    t: Tree,
    scope: Map<Seq<char>, usize>,
    b: Body,
    i: int,
    j: int,
)
    ensures
        model::connections(t, scope, b, i, j) matches Ok(r) ==> grown(b, r.0),
    decreases j - i,
{
    lemma_same_body(b);
    if i < j {
        lemma_connections_grow(t, scope, b, i, j - 1);
        if let Ok((b1, values)) = model::connections(t, scope, b, i, j - 1) {
            let exprs = t.kids(j - 1, NodeKind::Expression);
            lemma_same_body(b1);
            if exprs.len() > 0 {
                lemma_expression_grows(t, scope, b1, exprs[0]);
            }
            if let Ok((b2, v)) = model::connection(t, scope, b1, j - 1) {
                lemma_grown(b, b1, b2);
            }
        }
    }
}

proof fn lemma_instances_grow(t: Tree, st: State, i: int, n: nat)
    ensures
        model::instances(t, st.scope, st.body, i, n) matches Ok(b) ==> grown(st.body, b) && (n > 0
            ==> advances(st, (State { body: b, scope: st.scope }))),
    decreases n,
{
    lemma_same_body(st.body);
    if n > 0 {
        lemma_instances_grow(t, st, i, (n - 1) as nat);
        if let Ok(b1) = model::instances(t, st.scope, st.body, i, (n - 1) as nat) {
            let at = t.kids(i, NodeKind::HierarchicalInstance)[n - 1];
            let end = t.nodes[at].end as int;
            lemma_connections_grow(t, st.scope, b1, at, end);
            if let Ok((b2, values)) = model::connections(t, st.scope, b1, at, end) {
                lemma_grown(st.body, b1, b2);
                let modules = t.kids(i, NodeKind::ModuleIdentifier);
                let names = t.kids(at, NodeKind::NameOfInstance);
                lemma_added(
                    st,
                    b2,
                    SvOpKind::Instance,
                    if names.len() > 0 {
                        t.text(names[0])
                    } else {
                        Seq::empty()
                    },
                    if modules.len() > 0 {
                        t.text(modules[0])
                    } else {
                        Seq::empty()
                    },
                    values,
                );
            }
        }
    }
}

/// An instantiation adds its instances to the body and leaves every name as it is.
pub proof fn instantiations_keep_the_names(t: Tree, st: State, i: int)
    ensures
        model::module_instantiation(t, st, i) matches Ok(s) ==> {
            &&& s.scope == st.scope
            &&& t.kids(i, NodeKind::HierarchicalInstance).len() > 0 ==> advances(st, s)
        },
{
    lemma_instances_grow(t, st, i, t.kids(i, NodeKind::HierarchicalInstance).len());
}

/// Whether a node holds an instantiation without instances.
pub open spec fn instantiates_nothing(t: Tree, i: int) -> bool {
    match t.find(i, seq![NodeKind::ModuleInstantiation]) {
        Some(m) => t.kids(m, NodeKind::HierarchicalInstance).len() == 0,
        None => false,
    }
}

/// A sensitivity list with one event, the rising edge of a signal, names that signal
/// as the clock, whatever its name is, and no reset.
pub proof fn single_events_name_the_clock(t: Tree, i: int, e: int)
    requires
        model::all(t, i, NodeKind::Event) == seq![e],
        t.find(i, seq![NodeKind::OtherEvent]) is None,
        t.kids(e, NodeKind::Expression).len() == 1,
        model::event_edge(t, e) == "posedge"@,
    ensures
        model::sensitivity(t, i) == Ok::<(Seq<char>, Option<(Seq<char>, bool)>), Seq<char>>(
            (t.text(t.kids(e, NodeKind::Expression)[0]), None),
        ),
{
}

/// A second event names the reset, which is active when low just where the event is
/// a falling edge.
pub proof fn second_events_name_the_reset(t: Tree, i: int, e: int, r: int)
    requires
        model::all(t, i, NodeKind::Event) == seq![e, r],
        t.find(i, seq![NodeKind::OtherEvent]) is None,
        t.kids(e, NodeKind::Expression).len() == 1,
        model::event_edge(t, e) == "posedge"@,
        t.kids(r, NodeKind::Expression).len() == 1,
        model::event_edge(t, r) == "posedge"@ || model::event_edge(t, r) == "negedge"@,
    ensures
        model::sensitivity(t, i) == Ok::<(Seq<char>, Option<(Seq<char>, bool)>), Seq<char>>(
            (
                t.text(t.kids(e, NodeKind::Expression)[0]),
                Some(
                    (
                        t.text(t.kids(r, NodeKind::Expression)[0]),
                        model::event_edge(t, r) == "negedge"@,
                    ),
                ),
            ),
        ),
{
    reveal_strlit("posedge");
    reveal_strlit("negedge");
    assert("posedge"@[0] != "negedge"@[0]);
}

/// An item of a kind that is not supported is refused as such, whatever it holds.
pub proof fn unsupported_items_are_refused(t: Tree, st: State, i: int)
    requires
        t.find(i, seq![NodeKind::OtherItem]) is Some,
    ensures
        model::item(t, st, i) == Err::<State, Seq<char>>(
            model::unsupported_item("unsupported module item"@),
        ),
{
    reveal(model::item);
}

/// An item of a module is refused, or it adds at least one operation, or all that
/// it does is declared before the items are lowered: nothing is dropped silently.
/// It changes no operation and no value that was there, and gives another meaning
/// to at most one name.
pub proof fn no_item_is_dropped(t: Tree, st: State, i: int)
    requires
        !instantiates_nothing(t, i),
    ensures
        model::item(t, st, i) matches Ok(s) ==> advances(st, s) || (s == st && (model::declared(
            t,
            i,
        ) matches Ok(list) ==> list.len() > 0)),
{
    lemma_item(t, st, i);
}

proof fn lemma_item(t: Tree, st: State, i: int)
    ensures
        model::item(t, st, i) matches Ok(s) ==> grown(st.body, s.body) && (
        !instantiates_nothing(t, i) ==> advances(st, s) || (s == st && (model::declared(
            t,
            i,
        ) matches Ok(list) ==> list.len() > 0))),
{
    reveal(model::item);
    lemma_same_body(st.body);
    match t.find(i, seq![NodeKind::ContinuousAssign]) {
        Some(a) => {
            assignments_drive_their_targets(t, st, a);
        },
        None => match t.find(i, seq![NodeKind::NetDeclaration]) {
            Some(d) => {
                lemma_net_declaration(t, st, d);
                let places = model::all(t, d, NodeKind::NetDeclAssignment);
                if let Ok(width) = model::type_width(t, d) {
                    lemma_declarators(t, places, SvOpKind::WireDecl, width, places.len());
                }
            },
            None => match t.find(i, seq![NodeKind::DataDeclaration]) {
                Some(d) => {
                    let places = model::all(t, d, NodeKind::VariableDeclAssignment);
                    if let Ok(width) = model::type_width(t, d) {
                        lemma_declarators(t, places, SvOpKind::RegDecl, width, places.len());
                        lemma_declarators(t, places, SvOpKind::LogicDecl, width, places.len());
                    }
                },
                None => match t.find(i, seq![NodeKind::AlwaysConstruct]) {
                    Some(c) => {
                        lemma_always_construct(t, st, c);
                    },
                    None => match t.find(i, seq![NodeKind::ModuleInstantiation]) {
                        Some(m) => {
                            lemma_instances_grow(
                                t,
                                st,
                                m,
                                t.kids(m, NodeKind::HierarchicalInstance).len(),
                            );
                        },
                        None => {},
                    },
                },
            },
        },
    }
}

/// Each declarator declares one name.
proof fn lemma_declarators(t: Tree, places: Seq<int>, kind: SvOpKind, width: u32, n: nat)
    ensures
        model::declarators(t, places, kind, width, n) matches Ok(list) ==> list.len() == n && (kind
            != SvOpKind::Output ==> forall|k: int|
            0 <= k < n ==> (#[trigger] list[k]).kind != SvOpKind::Output),
    decreases n,
{
    if n > 0 {
        lemma_declarators(t, places, kind, width, (n - 1) as nat);
    }
}

proof fn lemma_net_declaration(t: Tree, st: State, i: int)
    ensures
        model::net_declaration(t, st, i) matches Ok(s) ==> s == st || advances(st, s),
{
    if let Ok(Some(a)) = model::net_value(t, i) {
        if let Some(id) = t.find(a, model::name_kinds(SvOpKind::WireDecl)) {
            let value = t.kids(a, NodeKind::Expression)[0];
            lemma_drive(t, st, SvOpKind::Assign, t.text(id), value);
        }
    }
}

/// What an item declares is no output.
proof fn lemma_declared(t: Tree, i: int)
    ensures
        model::declared(t, i) matches Ok(list) ==> forall|k: int|
            0 <= k < list.len() ==> (#[trigger] list[k]).kind != SvOpKind::Output,
{
    if let Some(d) = t.find(i, seq![NodeKind::NetDeclaration]) {
        let places = model::all(t, d, NodeKind::NetDeclAssignment);
        if let Ok(width) = model::type_width(t, d) {
            lemma_declarators(t, places, SvOpKind::WireDecl, width, places.len());
        }
    } else if let Some(d) = t.find(i, seq![NodeKind::DataDeclaration]) {
        let places = model::all(t, d, NodeKind::VariableDeclAssignment);
        if let Ok(width) = model::type_width(t, d) {
            lemma_declarators(t, places, SvOpKind::RegDecl, width, places.len());
            lemma_declarators(t, places, SvOpKind::LogicDecl, width, places.len());
        }
    }
}

/// Declarations only add to a body and to the names, and their names are in scope.
proof fn lemma_declare_all(st: State, list: Seq<model::Declared>)
    requires
        forall|k: int| 0 <= k < list.len() ==> (#[trigger] list[k]).kind != SvOpKind::Output,
    ensures
        grown(st.body, model::declare_all(st, list).body),
        st.scope.dom().subset_of(model::declare_all(st, list).scope.dom()),
        forall|k: int|
            0 <= k < list.len() ==> model::declare_all(st, list).scope.dom().contains(
                (#[trigger] list[k]).name,
            ),
    decreases list.len(),
{
    lemma_same_body(st.body);
    if list.len() > 0 {
        let rest = list.drop_last();
        let d = list.last();
        assert forall|k: int| 0 <= k < rest.len() implies (#[trigger] rest[k]).kind
            != SvOpKind::Output by {
            assert(rest[k] == list[k]);
        }
        lemma_declare_all(st, rest);
        let before = model::declare_all(st, rest);
        lemma_emitted(
            st.body,
            before.body,
            d.kind,
            d.name,
            Seq::empty(),
            Seq::empty(),
            Some(d.ty),
        );
        assert forall|k: int| 0 <= k < list.len() implies model::declare_all(
            st,
            list,
        ).scope.dom().contains((#[trigger] list[k]).name) by {
            if k < rest.len() {
                assert(rest[k] == list[k]);
            }
        }
    }
}

proof fn lemma_declarations(t: Tree, st: State, places: Seq<int>, n: nat)
    ensures
        model::declarations(t, st, places, n) matches Ok(s) ==> {
            &&& grown(st.body, s.body)
            &&& st.scope.dom().subset_of(s.scope.dom())
            &&& forall|k: int|
                0 <= k < n ==> (model::declared(t, #[trigger] places[k]) matches Ok(list)
                    && all_in_scope(list, s.scope))
        },
    decreases n,
{
    lemma_same_body(st.body);
    if n > 0 {
        lemma_declarations(t, st, places, (n - 1) as nat);
        if let Ok(s) = model::declarations(t, st, places, (n - 1) as nat) {
            lemma_declared(t, places[n - 1]);
            if let Ok(list) = model::declared(t, places[n - 1]) {
                lemma_declare_all(s, list);
                lemma_grown(st.body, s.body, model::declare_all(s, list).body);
            }
        }
    }
}

/// Whether all names that some declarators declare are in scope.
pub open spec fn all_in_scope(list: Seq<model::Declared>, scope: Map<Seq<char>, usize>) -> bool {
    forall|k: int| 0 <= k < list.len() ==> scope.dom().contains((#[trigger] list[k]).name)
}

proof fn lemma_read_outputs(t: Tree, i: int, st: State, list: Seq<PortView>, n: nat)
    ensures
        grown(st.body, model::read_outputs(t, i, st, list, n).body),
        st.scope.dom().subset_of(model::read_outputs(t, i, st, list, n).scope.dom()),
    decreases n,
{
    lemma_same_body(st.body);
    if n > 0 {
        let before = model::read_outputs(t, i, st, list, (n - 1) as nat);
        lemma_read_outputs(t, i, st, list, (n - 1) as nat);
        lemma_emitted(
            st.body,
            before.body,
            SvOpKind::LogicDecl,
            list[n - 1].name,
            Seq::empty(),
            Seq::empty(),
            Some(SvType::Integer { width: list[n - 1].bit_width }),
        );
    }
}

/// What the items of a module declare is in scope before the first of them is
/// lowered, wherever in the module it is declared: a name can be used before its
/// declaration.
pub proof fn declarations_come_first(t: Tree, i: int, list: Seq<PortView>, k: int)
    requires
        0 <= k < t.kids(i, NodeKind::NonPortModuleItem).len(),
    ensures
        model::declared_state(t, i, list) matches Ok(s) ==> (model::declared(
            t,
            t.kids(i, NodeKind::NonPortModuleItem)[k],
        ) matches Ok(names) && all_in_scope(names, s.scope)),
{
    let places = t.kids(i, NodeKind::NonPortModuleItem);
    let start = model::read_outputs(t, i, model::initial_state(list), list, list.len());
    lemma_declarations(t, start, places, places.len());
    assert(places[k] == t.kids(i, NodeKind::NonPortModuleItem)[k]);
}

/// Names stay in scope from one item to the next.
pub proof fn names_stay_in_scope(t: Tree, st: State, places: Seq<int>, n: nat)
    ensures
        model::items(t, st, places, n) matches Ok(s) ==> st.scope.dom().subset_of(s.scope.dom()),
    decreases n,
{
    if n > 0 {
        names_stay_in_scope(t, st, places, (n - 1) as nat);
        if let Ok(s) = model::items(t, st, places, (n - 1) as nat) {
            let i = places[n - 1];
            lemma_item(t, s, i);
            if instantiates_nothing(t, i) {
                reveal(model::item);
                if let Some(a) = t.find(i, seq![NodeKind::ContinuousAssign]) {
                    assignments_drive_their_targets(t, s, a);
                }
                if let Some(d) = t.find(i, seq![NodeKind::NetDeclaration]) {
                    lemma_net_declaration(t, s, d);
                }
                if let Some(c) = t.find(i, seq![NodeKind::AlwaysConstruct]) {
                    lemma_always_construct(t, s, c);
                }
            }
        }
    }
}

/// An item that is refused refuses the module, with the same error.
pub proof fn refused_items_refuse_the_module(
    t: Tree,
    i: int,
    name: Seq<char>,
    list: Seq<PortView>,
    k: nat,
)
    requires
        k < t.kids(i, NodeKind::NonPortModuleItem).len(),
    ensures
        model::declared_state(t, i, list) matches Ok(start) ==> (model::items(
            t,
            start,
            t.kids(i, NodeKind::NonPortModuleItem),
            k,
        ) matches Ok(s) ==> (model::item(t, s, t.kids(i, NodeKind::NonPortModuleItem)[k as int]) matches Err(
            e,
        ) ==> model::module_body(t, i, name, list) == Err::<ModuleView, Seq<char>>(e))),
{
    let places = t.kids(i, NodeKind::NonPortModuleItem);
    if let Ok(start) = model::declared_state(t, i, list) {
        if let Ok(s) = model::items(t, start, places, k) {
            if let Err(e) = model::item(t, s, places[k as int]) {
                assert(model::items(t, start, places, k + 1) == Err::<State, Seq<char>>(e));
                lower::lemma_items_fail(t, start, places, k + 1, places.len());
            }
        }
    }
}

/// A declaration that is refused refuses the module.
pub proof fn refused_declarations_refuse_the_module(
    t: Tree,
    i: int,
    name: Seq<char>,
    list: Seq<PortView>,
    k: int,
)
    requires
        0 <= k < t.kids(i, NodeKind::NonPortModuleItem).len(),
        model::declared(t, t.kids(i, NodeKind::NonPortModuleItem)[k]) is Err,
    ensures
        model::module_body(t, i, name, list) is Err,
{
    declarations_come_first(t, i, list, k);
}

proof fn lemma_items_grow(t: Tree, st: State, places: Seq<int>, n: nat)
    ensures
        model::items(t, st, places, n) matches Ok(s) ==> grown(st.body, s.body),
    decreases n,
{
    lemma_same_body(st.body);
    if n > 0 {
        lemma_items_grow(t, st, places, (n - 1) as nat);
        if let Ok(s) = model::items(t, st, places, (n - 1) as nat) {
            lemma_item(t, s, places[n - 1]);
            if let Ok(r) = model::item(t, s, places[n - 1]) {
                lemma_grown(st.body, s.body, r.body);
            }
        }
    }
}

/// The number of output ports among the first `n` ports.
pub open spec fn output_count(list: Seq<PortView>, n: nat) -> nat
    decreases n,
{
    if n == 0 {
        0
    } else if list[n - 1].is_output {
        output_count(list, (n - 1) as nat) + 1
    } else {
        output_count(list, (n - 1) as nat)
    }
}

/// Whether a value is the constant 0 of a width.
pub open spec fn is_zero(b: Body, v: usize, width: u32) -> bool {
    exists|k: int|
        0 <= k < b.ops.len() && (#[trigger] b.ops[k]).result == Some(v) && b.ops[k].kind
            == (SvOpKind::Constant { value: 0, width })
}

/// A value that is the constant 0 stays so.
proof fn lemma_zero(b: Body, c: Body, v: usize, width: u32)
    requires
        grown(b, c),
        is_zero(b, v, width),
    ensures
        is_zero(c, v, width),
{
    reveal(grown);
    let k = choose|k: int|
        0 <= k < b.ops.len() && (#[trigger] b.ops[k]).result == Some(v) && b.ops[k].kind == (
        SvOpKind::Constant { value: 0, width });
    assert(c.ops[k] == b.ops[k]);
}

/// The outputs of a module: one for each output port, in order; what the name of
/// the port stands for, or else the constant 0 of the width of the port.
pub proof fn output_ports_are_driven(
    scope: Map<Seq<char>, usize>,
    b: Body,
    list: Seq<PortView>,
    n: nat,
)
    ensures
        model::outputs(scope, b, list, n) matches Ok(r) ==> {
            &&& grown(b, r.0)
            &&& r.1.len() == output_count(list, n)
            &&& forall|k: nat|
                k < n && (#[trigger] list[k as int]).is_output ==> {
                    &&& output_count(list, k) < r.1.len()
                    &&& if scope.dom().contains(list[k as int].name) {
                        r.1[output_count(list, k) as int] == scope[list[k as int].name]
                    } else {
                        is_zero(
                            r.0,
                            r.1[output_count(list, k) as int],
                            list[k as int].bit_width,
                        )
                    }
                }
        },
    decreases n,
{
    lemma_same_body(b);
    if n > 0 {
        let m = (n - 1) as nat;
        output_ports_are_driven(scope, b, list, m);
        if let Ok((b1, values)) = model::outputs(scope, b, list, m) {
            lemma_constant_grows(b1, 0, list[m as int].bit_width);
            if let Ok((b2, all)) = model::outputs(scope, b, list, n) {
                let p = list[m as int];
                lemma_same_body(b1);
                assert(grown(b1, b2));
                lemma_grown(b, b1, b2);
                if p.is_output && !scope.dom().contains(p.name) {
                    assert(is_zero(b2, all.last(), p.bit_width)) by {
                        assert(lower::low_bits(0, p.bit_width) == 0) by {
                            vstd::arithmetic::power2::lemma_pow2_pos(p.bit_width as nat);
                        }
                        let at = b2.ops.len() - 1;
                        assert(b2.ops[at].result == Some(all.last()));
                    }
                }
                assert forall|k: nat| k < n && (#[trigger] list[k as int]).is_output implies {
                    &&& output_count(list, k) < all.len()
                    &&& if scope.dom().contains(list[k as int].name) {
                        all[output_count(list, k) as int] == scope[list[k as int].name]
                    } else {
                        is_zero(
                            b2,
                            all[output_count(list, k) as int],
                            list[k as int].bit_width,
                        )
                    }
                } by {
                    if k < m {
                        assert(all[output_count(list, k) as int] == values[output_count(
                            list,
                            k,
                        ) as int]);
                        if !scope.dom().contains(list[k as int].name) {
                            lemma_zero(
                                b1,
                                b2,
                                values[output_count(list, k) as int],
                                list[k as int].bit_width,
                            );
                        }
                    }
                }
            }
        }
    }
}

/// A lowered module comes of the ports in its header, and its body of its items.
proof fn lemma_module(t: Tree)
    ensures
        model::lowered_module(t) matches Ok(m) ==> {
            &&& exists|header: int| model::header_ports(t, header) == Ok::<
                Seq<PortView>,
                Seq<char>,
            >(m.ports)
            &&& exists|i: int| #[trigger] model::module_body(t, i, m.name, m.ports) == Ok::<
                ModuleView,
                Seq<char>,
            >(m)
        },
{
    let n = t.nodes.len() as int;
    if let Some(i) = query::find_from(t.nodes, 0, n, seq![NodeKind::ModuleDeclarationAnsi]) {
        if let Ok(m) = model::ansi_module(t, i) {
            let header = t.kids(i, NodeKind::ModuleAnsiHeader)[0];
            assert(model::header_ports(t, header) == Ok::<Seq<PortView>, Seq<char>>(m.ports));
            assert(model::module_body(t, i, m.name, m.ports) == Ok::<ModuleView, Seq<char>>(m));
        }
    }
}

/// A lowered module ends with its outputs, one value for each output port, and
/// has no other outputs.
pub proof fn modules_end_with_their_outputs(t: Tree)
    ensures
        model::lowered_module(t) matches Ok(m) ==> {
            &&& m.body.ops.len() > 0
            &&& m.body.ops.last().kind == SvOpKind::Output
            &&& m.body.ops.last().operands.len() == output_count(m.ports, m.ports.len())
            &&& m.body.ops.last().result is None
            &&& forall|k: int|
                0 <= k < m.body.ops.len() - 1 ==> (#[trigger] m.body.ops[k]).kind
                    != SvOpKind::Output
        },
{
    lemma_module(t);
    if let Ok(m) = model::lowered_module(t) {
        let i = choose|i: int| #[trigger]
            model::module_body(t, i, m.name, m.ports) == Ok::<ModuleView, Seq<char>>(m);
        lemma_body(t, i, m);
        reveal(grown);
    }
}

/// A lowered module begins with its inputs: its first values are those that the
/// input ports bring, in order.
pub proof fn modules_begin_with_their_inputs(t: Tree)
    ensures
        model::lowered_module(t) matches Ok(m) ==> {
            &&& m.num_inputs == model::input_types(m.ports).len()
            &&& m.num_inputs <= m.body.types.len()
            &&& m.body.types.take(m.num_inputs as int) == model::input_types(m.ports)
        },
{
    lemma_module(t);
    if let Ok(m) = model::lowered_module(t) {
        let i = choose|i: int| #[trigger]
            model::module_body(t, i, m.name, m.ports) == Ok::<ModuleView, Seq<char>>(m);
        lemma_body(t, i, m);
        reveal(grown);
        assert(m.body.types.take(m.num_inputs as int) =~= model::input_types(m.ports));
    }
}

/// The body of a lowered module: what was added to the inputs, and the outputs.
proof fn lemma_body(t: Tree, i: int, m: ModuleView)
    requires
        model::module_body(t, i, m.name, m.ports) == Ok::<ModuleView, Seq<char>>(m),
    ensures
        m.num_inputs == model::input_types(m.ports).len(),
        exists|b: Body, values: Seq<usize>|
            grown(model::initial_state(m.ports).body, b) && values.len() == output_count(
                m.ports,
                m.ports.len(),
            ) && m.body == #[trigger] model::emit(
                b,
                SvOpKind::Output,
                Seq::empty(),
                Seq::empty(),
                values,
                None,
            ),
{
    let places = t.kids(i, NodeKind::NonPortModuleItem);
    let inputs = model::initial_state(m.ports);
    let read = model::read_outputs(t, i, inputs, m.ports, m.ports.len());
    lemma_read_outputs(t, i, inputs, m.ports, m.ports.len());
    lemma_declarations(t, read, places, places.len());
    let start = model::declared_state(t, i, m.ports)->Ok_0;
    lemma_grown(inputs.body, read.body, start.body);
    lemma_items_grow(t, start, places, places.len());
    if let Ok(st) = model::items(t, start, places, places.len()) {
        lemma_grown(inputs.body, start.body, st.body);
        output_ports_are_driven(st.scope, st.body, m.ports, m.ports.len());
        if let Ok((b, values)) = model::outputs(st.scope, st.body, m.ports, m.ports.len()) {
            lemma_grown(inputs.body, st.body, b);
            assert(m.body == model::emit(
                b,
                SvOpKind::Output,
                Seq::empty(),
                Seq::empty(),
                values,
                None,
            ));
        }
    }
}

/// Whether the clocks and resets among some ports are those with a name for one
/// and a width of one bit.
pub open spec fn told_by_name(list: Seq<PortView>) -> bool {
    forall|k: int|
        0 <= k < list.len() ==> {
            &&& (#[trigger] list[k]).is_clock <==> (list[k].name == "clk"@ || list[k].name
                == "clock"@) && list[k].bit_width == 1
            &&& list[k].is_reset <==> (list[k].name == "rst"@ || list[k].name == "reset"@)
                && list[k].bit_width == 1
        }
}

proof fn lemma_ports(t: Tree, places: Seq<int>, n: nat)
    ensures
        model::ports(t, places, n) matches Ok(list) ==> told_by_name(list) && list.len() == n,
    decreases n,
{
    if n > 0 {
        lemma_ports(t, places, (n - 1) as nat);
    }
}

/// The clocks of a lowered module are its ports `clk` and `clock`, and its resets
/// the ports `rst` and `reset`, of one bit each.
pub proof fn clocks_and_resets_are_told_by_name(t: Tree)
    ensures
        model::lowered_module(t) matches Ok(m) ==> told_by_name(m.ports),
{
    lemma_module(t);
    if let Ok(m) = model::lowered_module(t) {
        let header = choose|header: int|
            model::header_ports(t, header) == Ok::<Seq<PortView>, Seq<char>>(m.ports);
        let lists = t.kids(header, NodeKind::ListOfPortDeclarations);
        if lists.len() > 0 {
            let places = query::all_from(
                t.nodes,
                lists[0],
                t.nodes[lists[0]].end as int,
                NodeKind::AnsiPortDeclaration,
            );
            lemma_ports(t, places, places.len());
        }
    }
}

} // verus!
