//! How syntax trees, texts and numbers are read, said of the nodes, characters
//! and digits themselves.

use crate::sv::chain;
use crate::sv::cst;
use crate::sv::cst::{CstNode, EventView, NodeKind};
use crate::sv::grouping;
use crate::sv::literal;
use crate::sv::model;
use crate::sv::model::Tree;
use crate::sv::module::{Body, SvOpKind, SvType};
use crate::sv::query;
use crate::sv::rules;
use crate::sv::span;
use vstd::arithmetic::power2::pow2;
use vstd::prelude::*;

verus! {

/// What is found is the first node in range of one of the kinds, and nothing is
/// found only where there is none.
pub proof fn the_first_node_is_found(
    nodes: Seq<CstNode>,
    j: int,
    end: int,
    kinds: Seq<NodeKind>,
    k: int,
)
    requires
        0 <= j,
        end <= nodes.len(),
    ensures
        query::find_from(nodes, j, end, kinds) == Some(k) <==> {
            &&& j <= k < end
            &&& kinds.contains(nodes[k].kind)
            &&& forall|m: int| j <= m < k ==> !kinds.contains((#[trigger] nodes[m]).kind)
        },
        query::find_from(nodes, j, end, kinds) is None <==> forall|m: int|
            j <= m < end ==> !kinds.contains((#[trigger] nodes[m]).kind),
    decreases end - j,
{
    if j < end {
        if !kinds.contains(nodes[j].kind) {
            the_first_node_is_found(nodes, j + 1, end, kinds, k);
        }
    }
}

/// What is found at the end is the last node in range of the kind.
pub proof fn the_last_node_is_found(
    nodes: Seq<CstNode>,
    j: int,
    end: int,
    kind: NodeKind,
    k: int,
)
    requires
        0 <= j,
        end <= nodes.len(),
    ensures
        query::find_last(nodes, j, end, kind) == Some(k) <==> {
            &&& j <= k < end
            &&& nodes[k].kind == kind
            &&& forall|m: int| k < m < end ==> (#[trigger] nodes[m]).kind != kind
        },
    decreases end - j,
{
    if j < end && nodes[end - 1].kind != kind {
        the_last_node_is_found(nodes, j, end - 1, kind, k);
    }
}

/// All nodes in range of a kind are listed, each once and in order.
pub proof fn all_nodes_are_listed(nodes: Seq<CstNode>, j: int, end: int, kind: NodeKind)
    requires
        0 <= j,
        end <= nodes.len(),
    ensures
        ({
            let all = query::all_from(nodes, j, end, kind);
            &&& forall|k: int|
                j <= k < end && (#[trigger] nodes[k]).kind == kind ==> all.contains(k)
            &&& forall|a: int|
                0 <= a < all.len() ==> j <= #[trigger] all[a] < end && nodes[all[a]].kind == kind
            &&& forall|a: int, b: int|
                0 <= a < b < all.len() ==> #[trigger] all[a] < #[trigger] all[b]
        }),
    decreases end - j,
{
    if j < end {
        let rest = query::all_from(nodes, j + 1, end, kind);
        let all = query::all_from(nodes, j, end, kind);
        all_nodes_are_listed(nodes, j + 1, end, kind);
        if nodes[j].kind == kind {
            assert forall|k: int|
                j <= k < end && (#[trigger] nodes[k]).kind == kind implies all.contains(k) by {
                if k == j {
                    assert(all[0] == j);
                } else {
                    assert(rest.contains(k));
                    let a = choose|a: int| 0 <= a < rest.len() && rest[a] == k;
                    assert(all[a + 1] == k);
                }
            }
            assert forall|a: int| 0 <= a < all.len() implies j <= #[trigger] all[a] < end
                && nodes[all[a]].kind == kind by {
                if a > 0 {
                    assert(all[a] == rest[a - 1]);
                }
            }
            assert forall|a: int, b: int| 0 <= a < b < all.len() implies #[trigger] all[a]
                < #[trigger] all[b] by {
                assert(all[b] == rest[b - 1]);
                if a > 0 {
                    assert(all[a] == rest[a - 1]);
                }
            }
        }
    }
}

/// Whether `c` is a child of `i`: it lies within it, and within no node between
/// them.
pub open spec fn is_child(nodes: Seq<CstNode>, i: int, c: int) -> bool {
    &&& i < c < nodes[i].end
    &&& forall|d: int| i < d < c ==> (#[trigger] nodes[d]).end <= c
}

proof fn lemma_children(nodes: Seq<CstNode>, i: int, c: int, kind: NodeKind)
    requires
        cst::nested(nodes),
        0 <= i < c <= nodes[i].end <= nodes.len(),
        i < nodes.len(),
        forall|d: int| i < d < c ==> (#[trigger] nodes[d]).end <= c,
    ensures
        ({
            let kids = query::kids_from(nodes, c, nodes[i].end as int, kind);
            &&& forall|k: int|
                c <= k && #[trigger] is_child(nodes, i, k) && nodes[k].kind == kind
                    ==> kids.contains(k)
            &&& forall|a: int|
                0 <= a < kids.len() ==> c <= #[trigger] kids[a] && is_child(nodes, i, kids[a])
                    && nodes[kids[a]].kind == kind
            &&& forall|a: int, b: int|
                0 <= a < b < kids.len() ==> #[trigger] kids[a] < #[trigger] kids[b]
        }),
    decreases nodes[i].end - c,
{
    let end = nodes[i].end as int;
    if c < end {
        let next = nodes[c].end as int;
        assert(c < next <= end);
        assert forall|d: int| i < d < next implies (#[trigger] nodes[d]).end <= next by {}
        lemma_children(nodes, i, next, kind);
        let rest = query::kids_from(nodes, next, end, kind);
        let kids = query::kids_from(nodes, c, end, kind);
        assert(is_child(nodes, i, c));
        assert forall|k: int|
            c <= k && #[trigger] is_child(nodes, i, k) && nodes[k].kind == kind implies kids.contains(
            k,
        ) by {
            if k == c {
                assert(kids[0] == c);
            } else {
                assert(nodes[c].end <= k);
                assert(rest.contains(k));
                let a = choose|a: int| 0 <= a < rest.len() && rest[a] == k;
                if nodes[c].kind == kind {
                    assert(kids[a + 1] == k);
                } else {
                    assert(kids[a] == k);
                }
            }
        }
        assert forall|a: int| 0 <= a < kids.len() implies c <= #[trigger] kids[a] && is_child(
            nodes,
            i,
            kids[a],
        ) && nodes[kids[a]].kind == kind by {
            if nodes[c].kind == kind {
                if a > 0 {
                    assert(kids[a] == rest[a - 1]);
                }
            } else {
                assert(kids[a] == rest[a]);
            }
        }
        assert forall|a: int, b: int| 0 <= a < b < kids.len() implies #[trigger] kids[a]
            < #[trigger] kids[b] by {
            if nodes[c].kind == kind {
                assert(kids[b] == rest[b - 1]);
                if a > 0 {
                    assert(kids[a] == rest[a - 1]);
                }
            } else {
                assert(kids[a] == rest[a] && kids[b] == rest[b]);
            }
        }
    } else {
        assert forall|k: int| c <= k && #[trigger] is_child(nodes, i, k) implies false by {}
    }
}

/// The children of a node of a kind are all listed, each once and in order, and
/// nothing else is.
pub proof fn all_children_are_listed(nodes: Seq<CstNode>, i: int, kind: NodeKind)
    requires
        cst::nested(nodes),
        0 <= i < nodes.len(),
    ensures
        ({
            let kids = query::kids(nodes, i, kind);
            &&& forall|k: int| #[trigger]
                is_child(nodes, i, k) && nodes[k].kind == kind ==> kids.contains(k)
            &&& forall|a: int|
                0 <= a < kids.len() ==> is_child(nodes, i, #[trigger] kids[a])
                    && nodes[kids[a]].kind == kind
            &&& forall|a: int, b: int|
                0 <= a < b < kids.len() ==> #[trigger] kids[a] < #[trigger] kids[b]
        }),
{
    lemma_children(nodes, i, i + 1, kind);
}

/// Whether `r` is what is left of `s` once everything that is dropped is taken
/// from both of its ends.
pub open spec fn trimmed(s: Seq<char>, drop: spec_fn(char) -> bool, r: Seq<char>) -> bool {
    exists|a: int, b: int|
        {
            &&& 0 <= a <= b <= s.len()
            &&& r == #[trigger] s.subrange(a, b)
            &&& forall|k: int| 0 <= k < a ==> drop(#[trigger] s[k])
            &&& forall|k: int| b <= k < s.len() ==> drop(#[trigger] s[k])
            &&& r.len() > 0 ==> !drop(r[0]) && !drop(r[r.len() - 1])
        }
}

proof fn lemma_trim_start(s: Seq<char>, drop: spec_fn(char) -> bool) -> (n: int)
    ensures
        0 <= n <= s.len(),
        span::trim_start(s, drop) == s.skip(n),
        forall|k: int| 0 <= k < n ==> drop(#[trigger] s[k]),
        n < s.len() ==> !drop(s[n]),
    decreases s.len(),
{
    if s.len() > 0 && drop(s[0]) {
        let rest = s.skip(1);
        let n = lemma_trim_start(rest, drop);
        assert(rest.skip(n) =~= s.skip(n + 1));
        assert forall|k: int| 0 <= k < n + 1 implies drop(#[trigger] s[k]) by {
            if k > 0 {
                assert(s[k] == rest[k - 1]);
            }
        }
        if n + 1 < s.len() {
            assert(s[n + 1] == rest[n]);
        }
        n + 1
    } else {
        assert(s.skip(0) =~= s);
        0
    }
}

proof fn lemma_trim_end(s: Seq<char>, drop: spec_fn(char) -> bool) -> (n: int)
    ensures
        0 <= n <= s.len(),
        span::trim_end(s, drop) == s.take(n),
        forall|k: int| n <= k < s.len() ==> drop(#[trigger] s[k]),
        n > 0 ==> !drop(s[n - 1]),
    decreases s.len(),
{
    if s.len() > 0 && drop(s.last()) {
        let rest = s.drop_last();
        let n = lemma_trim_end(rest, drop);
        assert(rest.take(n) =~= s.take(n));
        assert forall|k: int| n <= k < s.len() implies drop(#[trigger] s[k]) by {
            if k < rest.len() {
                assert(s[k] == rest[k]);
            }
        }
        n
    } else {
        assert(s.take(s.len() as int) =~= s);
        s.len() as int
    }
}

/// Trimming takes what is dropped from both ends, all of it and nothing else.
pub proof fn trimming_takes_both_ends(s: Seq<char>, drop: spec_fn(char) -> bool)
    ensures
        trimmed(s, drop, span::trim_both(s, drop)),
{
    let a = lemma_trim_start(s, drop);
    let mid = s.skip(a);
    let n = lemma_trim_end(mid, drop);
    let b = a + n;
    assert(mid.take(n) =~= s.subrange(a, b));
    assert forall|k: int| b <= k < s.len() implies drop(#[trigger] s[k]) by {
        assert(mid[k - a] == s[k]);
    }
    let r = s.subrange(a, b);
    if r.len() > 0 {
        assert(r[0] == s[a]);
        assert(r[r.len() - 1] == mid[n - 1]);
    }
}

/// The text of a node runs from its first token to its last one, without the
/// blanks at its ends; a node without a token has none.
pub proof fn texts_run_from_token_to_token(t: Tree, i: int, f: int, l: int)
    requires
        0 <= i < t.nodes.len(),
        t.nodes[i].end <= t.nodes.len(),
        i <= f <= l < t.nodes[i].end,
        t.nodes[f].kind == NodeKind::Locate,
        t.nodes[l].kind == NodeKind::Locate,
        forall|m: int| i <= m < f ==> (#[trigger] t.nodes[m]).kind != NodeKind::Locate,
        forall|m: int| l < m < t.nodes[i].end ==> (#[trigger] t.nodes[m]).kind != NodeKind::Locate,
    ensures
        trimmed(
            t.src.subrange(t.nodes[f].span.from as int, t.nodes[l].span.to as int),
            |c: char| span::is_space(c),
            t.text(i),
        ),
        t.token(i) == t.src.subrange(t.nodes[f].span.from as int, t.nodes[f].span.to as int),
{
    let end = t.nodes[i].end as int;
    let kinds = seq![NodeKind::Locate];
    assert(kinds[0] == NodeKind::Locate);
    assert forall|m: int| i <= m < f implies !kinds.contains((#[trigger] t.nodes[m]).kind) by {}
    the_first_node_is_found(t.nodes, i, end, kinds, f);
    the_last_node_is_found(t.nodes, i, end, NodeKind::Locate, l);
    trimming_takes_both_ends(
        t.src.subrange(t.nodes[f].span.from as int, t.nodes[l].span.to as int),
        |c: char| span::is_space(c),
    );
}

/// The condition of a clocked statement is that of a reset: a name between the
/// brackets, active low exactly where `!` or `~` stands before it. What stands
/// in more brackets is the same without them.
pub proof fn conditions_name_the_reset(t: Tree, c: int)
    ensures
        ({
            let r = model::condition_reset(t, c);
            let symbols = t.kids(c, NodeKind::Symbol);
            let whole = query::text_between(
                t.src,
                t.nodes,
                symbols[0],
                t.nodes[symbols[1]].end as int,
            );
            let bare = span::trim(span::trim_set(whole, seq!['(', ')']));
            let negated = bare.len() > 0 && (bare[0] == '!' || bare[0] == '~');
            let rest = span::trim(bare.skip(1));
            &&& r is Ok <==> symbols.len() >= 2
            &&& r matches Ok((name, low)) ==> {
                &&& low == negated
                &&& !negated ==> name == bare
                &&& negated ==> name == span::trim(span::trim_set(rest, seq!['(', ')']))
            }
        }),
{
}

/// The letters of the bases, in either case: sixteen, ten, eight and two.
pub proof fn letters_name_their_base()
    ensures
        literal::base_of('h') == Some(16nat) && literal::base_of('H') == Some(16nat),
        literal::base_of('d') == Some(10nat) && literal::base_of('D') == Some(10nat),
        literal::base_of('o') == Some(8nat) && literal::base_of('O') == Some(8nat),
        literal::base_of('b') == Some(2nat) && literal::base_of('B') == Some(2nat),
        forall|c: char| #[trigger]
            literal::base_of(c) is Some ==> c == 'h' || c == 'H' || c == 'd' || c == 'D' || c == 'o'
                || c == 'O' || c == 'b' || c == 'B',
{
}

/// The digits below ten stand for themselves, and the letters behind them for
/// ten and on, in either case, as far as the base goes.
pub proof fn digits_count_from_zero(k: nat, radix: nat)
    requires
        radix <= 36,
        k < 36,
    ensures
        k < 10 ==> literal::digit_value(('0' as int + k) as char, radix) == (if k < radix {
            Some(k)
        } else {
            None
        }),
        k >= 10 ==> literal::digit_value(('a' as int + k - 10) as char, radix) == (if k < radix {
            Some(k)
        } else {
            None
        }),
        k >= 10 ==> literal::digit_value(('A' as int + k - 10) as char, radix) == (if k < radix {
            Some(k)
        } else {
            None
        }),
        literal::digit_value('_', radix) is None,
        literal::digit_value('x', 16) is None && literal::digit_value('z', 16) is None,
{
}

/// Each digit counts by its place: appending one multiplies what stands before
/// it by the base. Without a value are the texts that hold something else.
pub proof fn digits_count_by_their_place(s: Seq<char>, c: char, radix: nat)
    ensures
        literal::digits_value(s.push(c), radix) is Some <==> literal::digits_value(s, radix) is Some
            && literal::digit_value(c, radix) is Some,
        literal::digits_value(s.push(c), radix) is Some ==> literal::digits_value(s.push(c), radix)->0
            == literal::digits_value(s, radix)->0 * radix + literal::digit_value(c, radix)->0,
        literal::digits_value(Seq::empty(), radix) == Some(0nat),
{
    assert(s.push(c).drop_last() =~= s);
}

/// A literal without an apostrophe, or whose width cannot be read, is 32 bits
/// wide; a literal whose digits cannot be read stands for zero.
pub proof fn unreadable_literals_have_stand_ins(s: Seq<char>)
    ensures
        literal::literal_width(s) is None ==> literal::literal_meaning(s).1 == 32,
        literal::literal_number(s) is None ==> literal::literal_meaning(s).0 == 0,
        !s.contains('\'') ==> literal::literal_meaning(s).1 == 32,
        literal::literal_width(s) matches Some(w) ==> literal::literal_meaning(s).1 == w,
        literal::literal_number(s) matches Some(v) ==> literal::literal_meaning(s).0 == v,
{
    if !s.contains('\'') {
        assert forall|i: int| 0 <= i < s.len() implies s[i] != '\'' by {
            assert(s.contains(s[i]));
        }
        literal::lemma_apostrophe(s, s.len());
    }
}

/// In a literal with an apostrophe, what stands before the first one is the
/// width in decimal, and what stands behind it is the number: a sign mark and a
/// base letter, each of which may be missing, and digits in that base, between
/// which underscores do not count.
pub proof fn literals_split_at_the_apostrophe(w: Seq<char>, body: Seq<char>)
    requires
        !w.contains('\''),
    ensures
        ({
            let s = w + seq!['\''] + body;
            let signed = body.len() > 0 && (body[0] == 's' || body[0] == 'S');
            let rest = if signed {
                body.skip(1)
            } else {
                body
            };
            let based = rest.len() > 0 && literal::base_of(rest[0]) is Some;
            let digits = literal::without_underscores(
                if based {
                    rest.skip(1)
                } else {
                    rest
                },
            );
            let radix = if based {
                literal::base_of(rest[0])->0
            } else {
                10
            };
            &&& literal::literal_width(s) == literal::unsigned_value(w, 10, u32::MAX as nat)
            &&& literal::literal_number(s) == literal::unsigned_value(
                digits,
                radix,
                u64::MAX as nat,
            )
        }),
{
    let s = w + seq!['\''] + body;
    assert forall|i: int| 0 <= i < w.len() implies s[i] != '\'' by {
        assert(w.contains(w[i]));
        assert(s[i] == w[i]);
    }
    literal::lemma_apostrophe(s, w.len());
    assert(s.skip(w.len() as int + 1) =~= body);
    assert(s.take(w.len() as int) =~= w);
}

/// A number is read exactly where it has digits, all of them of the base, behind
/// an optional plus sign, and does not pass the limit.
pub proof fn numbers_are_read_up_to_their_limit(digits: Seq<char>, radix: nat, max: nat)
    requires
        digits.len() > 0,
        digits[0] != '+',
    ensures
        ({
            let v = literal::digits_value(digits, radix);
            let read = literal::unsigned_value(digits, radix, max);
            &&& v is Some && v->0 <= max ==> read == v
            &&& v is None || v->0 > max ==> read is None
            &&& literal::unsigned_value(seq!['+'] + digits, radix, max) == read
        }),
        literal::unsigned_value(Seq::empty(), radix, max) is None,
{
    assert((seq!['+'] + digits).skip(1) =~= digits);
}

/// A constant of some width keeps that many low bits of its number: it is below
/// the power of two, and differs from the number by a multiple of it. There is
/// no constant without bits.
pub proof fn constants_keep_their_low_bits(b: Body, value: u64, width: u32)
    ensures
        ({
            let r = model::constant(b, value, width);
            &&& r is Ok <==> width > 0
            &&& r matches Ok((c, v)) ==> exists|kept: u64|
                {
                    &&& #[trigger] keeps(value, kept, pow2(width as nat))
                    &&& v == b.types.len() as usize
                    &&& rules::adds(
                        b,
                        c,
                        SvOpKind::Constant { value: kept, width },
                        Seq::empty(),
                        Seq::empty(),
                        SvType::Integer { width },
                    )
                }
        }),
{
    if width > 0 {
        let m = pow2(width as nat) as int;
        vstd::arithmetic::power2::lemma_pow2_pos(width as nat);
        vstd::arithmetic::div_mod::lemma_fundamental_div_mod(value as int, m);
        vstd::arithmetic::div_mod::lemma_mod_bound(value as int, m);
        vstd::arithmetic::div_mod::lemma_mod_decreases(value as nat, m as nat);
        let kept = (value as int % m) as u64;
        let q = value as int / m;
        assert(value as int == q * m + kept) by (nonlinear_arith)
            requires
                value as int == m * q + value as int % m,
                kept == value as int % m,
        ;
        assert(q >= 0) by {
            vstd::arithmetic::div_mod::lemma_div_pos_is_pos(value as int, m);
        }
        assert(is_part(value, kept, m as nat, q as nat));
        assert(keeps(value, kept, m as nat));
    }
}

/// Whether `kept` is below `m` and differs from `value` by a multiple of it.
pub open spec fn keeps(value: u64, kept: u64, m: nat) -> bool {
    kept < m && exists|q: nat| #[trigger] is_part(value, kept, m, q)
}

/// Whether `value` is `q` times `m` and `kept`.
pub open spec fn is_part(value: u64, kept: u64, m: nat, q: nat) -> bool {
    value == q * m + kept
}

/// The operators on constant bounds compute what they compute on integers; the
/// quotient and the remainder are taken of numbers that are not negative, by
/// numbers that are positive. Other operators, and numbers beyond the limit,
/// give no bound.
pub proof fn bounds_are_computed_as_integers(op: Seq<char>, a: int, b: int)
    ensures
        ({
            let small = -chain::LARGEST_BOUND <= a <= chain::LARGEST_BOUND && -chain::LARGEST_BOUND
                <= b <= chain::LARGEST_BOUND;
            &&& small ==> chain::arithmetic("+"@, a, b) == Some(a + b)
            &&& small ==> chain::arithmetic("-"@, a, b) == Some(a - b)
            &&& small ==> chain::arithmetic("*"@, a, b) == Some(a * b)
            &&& small && a >= 0 && b > 0 ==> chain::arithmetic("/"@, a, b) == Some(a / b)
            &&& small && a >= 0 && b > 0 ==> chain::arithmetic("%"@, a, b) == Some(a % b)
            &&& chain::arithmetic(op, a, b) is Some ==> small && (op == "+"@ || op == "-"@ || op
                == "*"@ || ((op == "/"@ || op == "%"@) && a >= 0 && b > 0))
        }),
{
    reveal_strlit("+");
    reveal_strlit("-");
    reveal_strlit("*");
    reveal_strlit("/");
    reveal_strlit("%");
    assert("+"@[0] != "-"@[0] && "+"@[0] != "*"@[0] && "+"@[0] != "/"@[0] && "+"@[0] != "%"@[0]);
    assert("-"@[0] != "*"@[0] && "-"@[0] != "/"@[0] && "-"@[0] != "%"@[0]);
    assert("*"@[0] != "/"@[0] && "*"@[0] != "%"@[0] && "/"@[0] != "%"@[0]);
}

/// Whether `v` is what the operators `names` compute of `values`: the operator
/// that is applied last, on what those before it and those behind it compute.
pub open spec fn amounts(v: int, values: Seq<int>, names: Seq<Seq<char>>) -> bool
    decreases names.len(),
{
    &&& values.len() == names.len() + 1
    &&& if names.len() == 0 {
        v == values[0]
    } else {
        exists|k: int, a: int, b: int|
            {
                &&& 0 <= k < names.len()
                &&& grouping::applied_last(names, k)
                &&& #[trigger] chain::arithmetic(names[k], a, b) == Some(v)
                &&& amounts(a, values.take(k + 1), names.take(k))
                &&& amounts(b, values.skip(k + 1), names.skip(k + 1))
            }
    }
}

/// A chain of constants amounts to what its operators compute, grouped as the
/// operators of any other chain are.
pub proof fn constant_chains_are_grouped_alike(values: Seq<int>, names: Seq<Seq<char>>, v: int)
    ensures
        chain::computed(values, names) == Some(v) <==> amounts(v, values, names),
    decreases names.len(),
{
    if names.len() > 0 && values.len() == names.len() + 1 {
        let k = chain::loosest(names);
        chain::lemma_loosest(names);
        grouping::chains_are_split_at_the_loosest_operator(names, k);
        let left = chain::computed(values.take(k + 1), names.take(k));
        let right = chain::computed(values.skip(k + 1), names.skip(k + 1));
        if chain::computed(values, names) == Some(v) {
            constant_chains_are_grouped_alike(values.take(k + 1), names.take(k), left->0);
            constant_chains_are_grouped_alike(values.skip(k + 1), names.skip(k + 1), right->0);
            assert(chain::arithmetic(names[k], left->0, right->0) == Some(v));
        }
        if amounts(v, values, names) {
            let (j, a, b) = choose|j: int, a: int, b: int|
                {
                    &&& 0 <= j < names.len()
                    &&& grouping::applied_last(names, j)
                    &&& #[trigger] chain::arithmetic(names[j], a, b) == Some(v)
                    &&& amounts(a, values.take(j + 1), names.take(j))
                    &&& amounts(b, values.skip(j + 1), names.skip(j + 1))
                };
            grouping::chains_are_split_at_the_loosest_operator(names, j);
            constant_chains_are_grouped_alike(values.take(k + 1), names.take(k), a);
            constant_chains_are_grouped_alike(values.skip(k + 1), names.skip(k + 1), b);
        }
    }
}

/// A bound is a number where its expression is: a literal that can be read; the
/// same in brackets; with a sign, its negative or itself; a chain of bounds,
/// what its operators compute. Nothing else is a constant.
pub proof fn bounds_are_constant_expressions(t: Tree, i: int, j: int)
    requires
        t.find(i, grouping::constructs()) == Some(j),
    ensures
        ({
            let r = chain::bound_value(t, i);
            let kind = t.nodes[j].kind;
            let c = j + 1;
            let held = c < t.nodes[j].end && c < t.nodes.len();
            let inner = t.find(c, seq![NodeKind::Expression]);
            let number = t.find(c, seq![NodeKind::IntegralNumber]);
            let operators = t.kids(j, NodeKind::UnaryOperator);
            let operands = t.kids(j, NodeKind::Primary);
            let under = chain::bound_value(t, operands[0]);
            let links = chain::chain(t, i);
            let names = links.operators.map_values(|k: int| t.text(k));
            &&& kind == NodeKind::IntegralNumber ==> r == read_number(t, j)
            &&& kind == NodeKind::Primary && held && t.nodes[c].kind == NodeKind::PrimaryLiteral
                ==> r == (if number is Some {
                read_number(t, number->0)
            } else {
                None
            })
            &&& kind == NodeKind::Primary && held && t.nodes[c].kind == NodeKind::Parenthesized
                ==> r == (if inner is Some && t.find(c, seq![NodeKind::MinTypMax]) is None {
                chain::bound_value(t, inner->0)
            } else {
                None
            })
            &&& kind == NodeKind::Primary && (!held || (t.nodes[c].kind != NodeKind::PrimaryLiteral
                && t.nodes[c].kind != NodeKind::Parenthesized)) ==> r is None
            &&& kind == NodeKind::Unary ==> {
                let single = operators.len() == 1 && operands.len() == 1 && under is Some;
                &&& single && t.text(operators[0]) == "-"@ ==> r == Some(-(under->0))
                &&& single && t.text(operators[0]) == "+"@ ==> r == under
                &&& r is Some ==> single && (t.text(operators[0]) == "-"@ || t.text(operators[0])
                    == "+"@)
            }
            &&& kind == NodeKind::Binary ==> match r {
                Some(v) => links.choice is None && exists|values: Seq<int>| #[trigger]
                    are_bounds(t, links.operands, values) && amounts(v, values, names),
                None => true,
            }
            &&& kind == NodeKind::Conditional || kind == NodeKind::Ternary || kind
                == NodeKind::Concatenation || kind == NodeKind::SimpleIdentifier || kind
                == NodeKind::EscapedIdentifier || kind == NodeKind::OtherExpression ==> r is None
        }),
{
    assert(grouping::constructs() =~= model::construct_kinds());
    reveal_strlit("-");
    reveal_strlit("+");
    assert("-"@[0] != "+"@[0]);
    let links = chain::chain(t, i);
    let names = links.operators.map_values(|k: int| t.text(k));
    assert(names == chain::texts(t, links.operators));
    if t.nodes[j].kind == NodeKind::Binary && chain::bound_value(t, i) is Some {
        let v = chain::bound_value(t, i)->0;
        let values = chain::bound_values(t, j, links.operands, links.operands.len())->0;
        lemma_are_bounds(t, j, links.operands, links.operands.len());
        assert(links.operands.take(links.operands.len() as int) =~= links.operands);
        constant_chains_are_grouped_alike(values, names, v);
        assert(are_bounds(t, links.operands, values));
    }
}

/// The number that a literal is read as.
pub open spec fn read_number(t: Tree, i: int) -> Option<int> {
    match literal::literal_number(t.text(i)) {
        Some(v) => Some(v as int),
        None => None,
    }
}

/// Whether the expressions at `places` are the bounds `values`, one by one.
pub open spec fn are_bounds(t: Tree, places: Seq<int>, values: Seq<int>) -> bool {
    &&& values.len() == places.len()
    &&& forall|k: int|
        0 <= k < values.len() ==> chain::bound_value(t, places[k]) == Some(#[trigger] values[k])
}

proof fn lemma_are_bounds(t: Tree, j: int, places: Seq<int>, n: nat)
    requires
        n <= places.len(),
    ensures
        chain::bound_values(t, j, places, n) matches Some(values) ==> are_bounds(
            t,
            places.take(n as int),
            values,
        ),
    decreases n,
{
    if n > 0 {
        lemma_are_bounds(t, j, places, (n - 1) as nat);
        if chain::bound_values(t, j, places, n) is Some {
            let values = chain::bound_values(t, j, places, n)->0;
            let before = chain::bound_values(t, j, places, (n - 1) as nat)->0;
            assert forall|k: int| 0 <= k < values.len() implies chain::bound_value(
                t,
                places.take(n as int)[k],
            ) == Some(#[trigger] values[k]) by {
                if k < n - 1 {
                    assert(values[k] == before[k]);
                    assert(places.take(n - 1)[k] == places[k]);
                }
            }
        }
    }
}

/// The steps of a walk that enter a node.
pub open spec fn entered(events: Seq<EventView>, n: nat) -> Seq<EventView> {
    events.take(n as int).filter(|e: EventView| e.0)
}

/// The nodes that are open on a walk are nodes of it.
proof fn lemma_open(src: Seq<char>, events: Seq<EventView>, n: nat)
    requires
        n <= events.len(),
    ensures
        cst::walk(src, events, n) matches Some(w) ==> forall|k: int|
            0 <= k < w.open.len() ==> 0 <= #[trigger] w.open[k] < w.nodes.len(),
    decreases n,
{
    if n > 0 {
        lemma_open(src, events, (n - 1) as nat);
    }
}

/// A walk through a tree gives one node for each step that enters one, in order.
/// A node has the kind of the step's name, where tokens among blanks are blank,
/// and a token has its place in the text.
pub proof fn walks_give_a_node_for_each_entry(src: Seq<char>, events: Seq<EventView>, n: nat)
    requires
        n <= events.len(),
    ensures
        cst::walk(src, events, n) matches Some(w) ==> {
            let steps = entered(events, n);
            &&& w.nodes.len() == steps.len()
            &&& forall|k: int|
                0 <= k < w.nodes.len() ==> {
                    let kind = cst::kind_of(steps[k].1);
                    &&& (#[trigger] w.nodes[k]).kind == kind || (kind == NodeKind::Locate
                        && w.nodes[k].kind == NodeKind::Blank)
                    &&& cst::span_of(src, steps[k]) == Some(w.nodes[k].span)
                }
        },
    decreases n,
{
    reveal(Seq::filter);
    if n > 0 {
        walks_give_a_node_for_each_entry(src, events, (n - 1) as nat);
        let e = events[n - 1];
        let whole = events.take(n as int);
        let before = entered(events, (n - 1) as nat);
        let steps = entered(events, n);
        assert(whole.drop_last() =~= events.take(n - 1));
        assert(steps == if e.0 { before.push(e) } else { before });
        lemma_open(src, events, (n - 1) as nat);
        if let Some(v) = cst::walk(src, events, (n - 1) as nat) {
            if let Some(w) = cst::walk(src, events, n) {
                assert forall|k: int| 0 <= k < w.nodes.len() implies {
                    let kind = cst::kind_of(steps[k].1);
                    &&& (#[trigger] w.nodes[k]).kind == kind || (kind == NodeKind::Locate
                        && w.nodes[k].kind == NodeKind::Blank)
                    &&& cst::span_of(src, steps[k]) == Some(w.nodes[k].span)
                } by {
                    if k < v.nodes.len() {
                        assert(v.nodes[k].kind == w.nodes[k].kind);
                        assert(v.nodes[k].span == w.nodes[k].span);
                        assert(steps[k] == before[k]);
                    }
                }
            }
        }
    }
}

/// A token lies where its bytes do: the characters before it have as many bytes
/// as its offset, and those in it as many as its length.
pub proof fn tokens_lie_where_their_bytes_do(src: Seq<char>, e: EventView)
    requires
        cst::kind_of(e.1) == NodeKind::Locate,
        src.len() <= usize::MAX,
    ensures
        cst::span_of(src, e) matches Some(s) ==> {
            &&& s.from <= src.len() && s.to <= src.len()
            &&& cst::byte_pos(src, s.from as int) == e.2
            &&& cst::byte_pos(src, s.to as int) == e.2 + e.3
        },
        cst::span_of(src, e) is None ==> !(exists|from: int, to: int|
            0 <= from <= src.len() && 0 <= to <= src.len() && #[trigger] cst::byte_pos(src, from)
                == e.2 && #[trigger] cst::byte_pos(src, to) == e.2 + e.3),
{
    if exists|from: int, to: int|
        0 <= from <= src.len() && 0 <= to <= src.len() && #[trigger] cst::byte_pos(src, from) == e.2
            && #[trigger] cst::byte_pos(src, to) == e.2 + e.3 {
        let (from, to) = choose|from: int, to: int|
            0 <= from <= src.len() && 0 <= to <= src.len() && #[trigger] cst::byte_pos(src, from)
                == e.2 && #[trigger] cst::byte_pos(src, to) == e.2 + e.3;
        assert(cst::begins_at(src, e.2 as nat, from));
        assert(cst::begins_at(src, e.2 as nat + e.3 as nat, to));
    }
}

/// Characters have the lengths that UTF-8 gives them, and the position of a
/// character counts the bytes of all characters before it.
pub proof fn characters_count_their_bytes(src: Seq<char>, c: char)
    ensures
        (c as int) < 0x80 ==> cst::byte_len(c) == 1,
        0x80 <= (c as int) < 0x800 ==> cst::byte_len(c) == 2,
        0x800 <= (c as int) < 0x10000 ==> cst::byte_len(c) == 3,
        0x10000 <= (c as int) ==> cst::byte_len(c) == 4,
        cst::byte_pos(src, 0) == 0,
        cst::byte_pos(src.push(c), src.len() as int + 1) == cst::byte_pos(src, src.len() as int)
            + cst::byte_len(c),
{
    lemma_byte_pos_prefix(src, src.push(c), src.len() as int);
}

proof fn lemma_byte_pos_prefix(a: Seq<char>, b: Seq<char>, k: int)
    requires
        0 <= k <= a.len(),
        a.len() <= b.len(),
        forall|i: int| 0 <= i < a.len() ==> #[trigger] a[i] == b[i],
    ensures
        cst::byte_pos(a, k) == cst::byte_pos(b, k),
    decreases k,
{
    if k > 0 {
        lemma_byte_pos_prefix(a, b, k - 1);
    }
}

/// A number without its underscores holds every other character of it, in
/// order, and no underscore.
pub proof fn only_underscores_are_left_out(s: Seq<char>, c: char)
    ensures
        literal::without_underscores(Seq::empty()).len() == 0,
        literal::without_underscores(s.push(c)) == if c == '_' {
            literal::without_underscores(s)
        } else {
            literal::without_underscores(s).push(c)
        },
{
    reveal(Seq::filter);
    assert(s.push(c).drop_last() =~= s);
}

/// A literal without an apostrophe is a number in decimal.
pub proof fn literals_without_an_apostrophe_are_decimal(s: Seq<char>)
    requires
        !s.contains('\''),
    ensures
        literal::literal_width(s) is None,
        literal::literal_number(s) == literal::unsigned_value(
            literal::without_underscores(s),
            10,
            u64::MAX as nat,
        ),
        literal::unsigned_value(seq!['+'], 10, u64::MAX as nat) is None,
{
    assert forall|i: int| 0 <= i < s.len() implies s[i] != '\'' by {
        assert(s.contains(s[i]));
    }
    literal::lemma_apostrophe(s, s.len());
}

/// A node without tokens has no text.
pub proof fn nodes_without_tokens_have_no_text(t: Tree, i: int)
    requires
        0 <= i < t.nodes.len(),
        t.nodes[i].end <= t.nodes.len(),
        forall|m: int| i <= m < t.nodes[i].end ==> (#[trigger] t.nodes[m]).kind != NodeKind::Locate,
    ensures
        t.text(i).len() == 0,
        t.token(i).len() == 0,
{
    let kinds = seq![NodeKind::Locate];
    assert forall|m: int| i <= m < t.nodes[i].end implies !kinds.contains(
        (#[trigger] t.nodes[m]).kind,
    ) by {}
    the_first_node_is_found(t.nodes, i, t.nodes[i].end as int, kinds, i);
}

/// Blanks are the white space characters; letters, digits and underscores, and
/// all other printable characters of ASCII, are none.
pub proof fn printable_characters_are_no_blanks(c: char)
    ensures
        span::is_space(' ') && span::is_space('\t') && span::is_space('\n') && span::is_space('\r'),
        0x20 < (c as int) < 0x7f ==> !span::is_space(c),
        (c as int) < 9 ==> !span::is_space(c),
{
}

/// Each step of a walk enters a node or leaves the one entered last. A node that
/// is entered stands behind all others and is open; it is of the kind of its
/// name, but for a token directly within blanks, which is blank. A node that is
/// left ends where the nodes entered so far do.
pub proof fn steps_enter_and_leave_nodes(src: Seq<char>, events: Seq<EventView>, n: nat)
    requires
        n < events.len(),
        cst::walk(src, events, n) is Some,
    ensures
        ({
            let v = cst::walk(src, events, n)->0;
            let after = cst::walk(src, events, n + 1);
            let e = events[n as int];
            let m = v.nodes.len() as int;
            let blank = v.open.len() > 0 && v.nodes[v.open[v.open.len() - 1]].kind
                == NodeKind::Blank;
            let kind = cst::kind_of(e.1);
            &&& e.0 ==> (after is Some <==> cst::span_of(src, e) is Some)
            &&& e.0 ==> (after matches Some(w) ==> {
                &&& w.nodes.len() == m + 1
                &&& forall|k: int| 0 <= k < m ==> #[trigger] w.nodes[k] == v.nodes[k]
                &&& w.nodes[m].kind == if kind == NodeKind::Locate && blank {
                    NodeKind::Blank
                } else {
                    kind
                }
                &&& cst::span_of(src, e) == Some(w.nodes[m].span)
                &&& w.open == v.open.push(m)
            })
            &&& !e.0 ==> (after is Some <==> v.open.len() > 0)
            &&& !e.0 ==> (after matches Some(w) ==> {
                let top = v.open[v.open.len() - 1];
                &&& w.nodes.len() == m
                &&& forall|k: int|
                    0 <= k < m && k != top ==> #[trigger] w.nodes[k] == v.nodes[k]
                &&& w.nodes[top].kind == v.nodes[top].kind
                &&& w.nodes[top].span == v.nodes[top].span
                &&& w.nodes[top].end == m as usize
                &&& w.open == v.open.drop_last()
            })
        }),
{
    lemma_open(src, events, n);
}

/// A tree is taken exactly where the walk through it leaves every node that it
/// enters, and its tokens stand in the order of the text.
pub proof fn complete_walks_give_trees(src: Seq<char>, events: Seq<EventView>)
    ensures
        match cst::nodes_of(src, events) {
            Some(nodes) => {
                &&& cst::walk(src, events, events.len()) matches Some(w) && w.open.len() == 0
                    && w.nodes == nodes
                &&& forall|i: int, j: int|
                    0 <= i < j < nodes.len() && (#[trigger] nodes[i]).kind == NodeKind::Locate && (
                    #[trigger] nodes[j]).kind == NodeKind::Locate ==> nodes[i].span.to
                        <= nodes[j].span.from
            },
            None => cst::walk(src, events, events.len()) matches Some(w) ==> w.open.len() > 0
                || exists|i: int, j: int|
                0 <= i < j < w.nodes.len() && (#[trigger] w.nodes[i]).kind == NodeKind::Locate && (
                #[trigger] w.nodes[j]).kind == NodeKind::Locate && w.nodes[i].span.to
                    > w.nodes[j].span.from,
        },
{
}

} // verus!
