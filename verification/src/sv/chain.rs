//! Chains of binary operators: which operator is applied when, and the numbers
//! that chains of constants stand for.

use crate::sv::cst::{NodeKind, SyntaxTree};
use crate::sv::literal;
use crate::sv::literal::read_number_literal;
use crate::sv::model;
use crate::sv::model::Tree;
use crate::sv::query;
use crate::text::same_text;
use vstd::prelude::*;

verus! {

/// How tightly a binary operator binds; one that binds less is applied later.
pub open spec fn precedence(op: Seq<char>) -> nat {
    if op == "**"@ {
        11
    } else if op == "*"@ || op == "/"@ || op == "%"@ {
        10
    } else if op == "+"@ || op == "-"@ {
        9
    } else if op == "<<"@ || op == ">>"@ || op == "<<<"@ || op == ">>>"@ {
        8
    } else if op == "<"@ || op == "<="@ || op == ">"@ || op == ">="@ {
        7
    } else if op == "=="@ || op == "!="@ || op == "==="@ || op == "!=="@ || op == "==?"@ || op
        == "!=?"@ {
        6
    } else if op == "&"@ {
        5
    } else if op == "^"@ || op == "~^"@ || op == "^~"@ {
        4
    } else if op == "|"@ {
        3
    } else if op == "&&"@ {
        2
    } else if op == "||"@ {
        1
    } else {
        0
    }
}

/// The operator of a chain that is applied last: one that binds least, of several
/// the last one. Those that bind less than all others group the other way.
pub open spec fn loosest(names: Seq<Seq<char>>) -> int
    decreases names.len(),
{
    if names.len() <= 1 {
        0
    } else {
        let k = loosest(names.drop_last());
        let p = precedence(names.last());
        if p < precedence(names[k]) || (p == precedence(names[k]) && p > 0) {
            names.len() - 1
        } else {
            k
        }
    }
}

/// The operator that is applied last is one of the chain.
pub proof fn lemma_loosest(names: Seq<Seq<char>>)
    requires
        names.len() > 0,
    ensures
        0 <= loosest(names) < names.len(),
    decreases names.len(),
{
    if names.len() > 1 {
        lemma_loosest(names.drop_last());
    }
}

/// A chain `a + b * c`, where it is the condition of a choice `a + b * c ? x : y`
/// with that choice: the places of its operands and of its operators, in order.
pub struct Chain {
    pub operands: Seq<int>,
    pub operators: Seq<int>,
    pub choice: Option<(int, int)>,
}

/// The chain that an expression is; one without operators where it is no chain.
/// The right part of a binary expression goes on with the chain, and what a
/// choice depends on is the whole chain before it.
pub open spec fn chain(t: Tree, e: int) -> Chain
    decreases t.nodes.len() - e,
{
    let alone = Chain { operands: seq![e], operators: Seq::empty(), choice: None };
    match t.find(e, model::construct_kinds()) {
        None => alone,
        Some(j) => {
            proof {
                query::lemma_find_from(t.nodes, e, t.nodes[e].end as int, model::construct_kinds());
                query::lemma_kids_from(t.nodes, j + 1, t.nodes[j].end as int, NodeKind::Expression);
                query::lemma_kids_from(
                    t.nodes,
                    j + 1,
                    t.nodes[j].end as int,
                    NodeKind::CondPredicate,
                );
            }
            let parts = t.kids(j, NodeKind::Expression);
            let operators = t.kids(j, NodeKind::BinaryOperator);
            let predicates = t.kids(j, NodeKind::CondPredicate);
            if t.nodes[j].kind == NodeKind::Binary && parts.len() == 2 && operators.len() == 1 {
                let rest = chain(t, parts[1]);
                Chain {
                    operands: seq![parts[0]] + rest.operands,
                    operators: seq![operators[0]] + rest.operators,
                    choice: rest.choice,
                }
            } else if t.nodes[j].kind == NodeKind::Conditional && parts.len() == 2
                && predicates.len() == 1 && t.kids(predicates[0], NodeKind::Symbol).len() == 0 {
                let rest = chain(t, predicates[0]);
                if rest.choice is None {
                    Chain { choice: Some((parts[0], parts[1])), ..rest }
                } else {
                    alone
                }
            } else if t.nodes[j].kind == NodeKind::Ternary && parts.len() == 3 {
                let rest = chain(t, parts[0]);
                if rest.choice is None {
                    Chain { choice: Some((parts[1], parts[2])), ..rest }
                } else {
                    alone
                }
            } else {
                alone
            }
        },
    }
}

/// The texts of some nodes.
pub open spec fn texts(t: Tree, places: Seq<int>) -> Seq<Seq<char>> {
    places.map_values(|k: int| t.text(k))
}

/// A chain has one operand more than operators.
pub proof fn lemma_chain(t: Tree, e: int)
    ensures
        chain(t, e).operands.len() == chain(t, e).operators.len() + 1,
    decreases t.nodes.len() - e,
{
    if let Some(j) = t.find(e, model::construct_kinds()) {
        query::lemma_find_from(t.nodes, e, t.nodes[e].end as int, model::construct_kinds());
        query::lemma_kids_from(t.nodes, j + 1, t.nodes[j].end as int, NodeKind::Expression);
        query::lemma_kids_from(t.nodes, j + 1, t.nodes[j].end as int, NodeKind::CondPredicate);
        let parts = t.kids(j, NodeKind::Expression);
        let predicates = t.kids(j, NodeKind::CondPredicate);
        if t.nodes[j].kind == NodeKind::Binary && parts.len() == 2 {
            lemma_chain(t, parts[1]);
        } else if t.nodes[j].kind == NodeKind::Conditional && predicates.len() == 1 {
            lemma_chain(t, predicates[0]);
        } else if t.nodes[j].kind == NodeKind::Ternary && parts.len() == 3 {
            lemma_chain(t, parts[0]);
        }
    }
}

/// The largest number that arithmetic on bounds takes.
pub const LARGEST_BOUND: i128 = 0x4000_0000_0000_0000;

/// What an operator makes of two numbers, where it is one of `+ - * / %` and the
/// numbers are not too large; a quotient or a remainder only of a number that is
/// not negative by one that is positive.
pub open spec fn arithmetic(op: Seq<char>, a: int, b: int) -> Option<int> {
    if a > LARGEST_BOUND || a < -LARGEST_BOUND || b > LARGEST_BOUND || b < -LARGEST_BOUND {
        None
    } else if op == "+"@ {
        Some(a + b)
    } else if op == "-"@ {
        Some(a - b)
    } else if op == "*"@ {
        Some(a * b)
    } else if op == "/"@ && a >= 0 && b > 0 {
        Some(a / b)
    } else if op == "%"@ && a >= 0 && b > 0 {
        Some(a % b)
    } else {
        None
    }
}

/// The number that a chain of numbers stands for.
pub open spec fn computed(values: Seq<int>, names: Seq<Seq<char>>) -> Option<int>
    decreases names.len(),
{
    if values.len() != names.len() + 1 {
        None
    } else if names.len() == 0 {
        Some(values[0])
    } else {
        proof {
            lemma_loosest(names);
        }
        let k = loosest(names);
        match (computed(values.take(k + 1), names.take(k)), computed(
            values.skip(k + 1),
            names.skip(k + 1),
        )) {
            (Some(a), Some(b)) => arithmetic(names[k], a, b),
            _ => None,
        }
    }
}

/// The number that a constant expression stands for: one that is made of number
/// literals, parentheses, signs and the operators `+ - * / %`.
pub open spec fn bound_value(t: Tree, i: int) -> Option<int>
    decreases t.nodes.len() - i, 1int, 0int,
{
    match t.find(i, model::construct_kinds()) {
        None => None,
        Some(j) => {
            proof {
                query::lemma_find_from(t.nodes, i, t.nodes[i].end as int, model::construct_kinds());
                query::lemma_kids_from(t.nodes, j + 1, t.nodes[j].end as int, NodeKind::Primary);
            }
            match t.nodes[j].kind {
                NodeKind::Binary => {
                    let c = chain(t, i);
                    if c.choice is Some {
                        None
                    } else {
                        match bound_values(t, j, c.operands, c.operands.len()) {
                            None => None,
                            Some(values) => computed(values, texts(t, c.operators)),
                        }
                    }
                },
                NodeKind::Unary => {
                    let operators = t.kids(j, NodeKind::UnaryOperator);
                    let operands = t.kids(j, NodeKind::Primary);
                    if operands.len() != 1 || operators.len() != 1 {
                        None
                    } else {
                        match bound_value(t, operands[0]) {
                            None => None,
                            Some(v) => if t.text(operators[0]) == "-"@ {
                                Some(-v)
                            } else if t.text(operators[0]) == "+"@ {
                                Some(v)
                            } else {
                                None
                            },
                        }
                    }
                },
                NodeKind::Primary => {
                    let c = j + 1;
                    if c >= t.nodes[j].end || c >= t.nodes.len() {
                        None
                    } else if t.nodes[c].kind == NodeKind::Parenthesized {
                        match model::inside(t, c) {
                            None => None,
                            Some(k) => {
                                proof {
                                    query::lemma_find_from(
                                        t.nodes,
                                        c,
                                        t.nodes[c].end as int,
                                        seq![NodeKind::Expression],
                                    );
                                }
                                bound_value(t, k)
                            },
                        }
                    } else if t.nodes[c].kind == NodeKind::PrimaryLiteral {
                        match t.find(c, seq![NodeKind::IntegralNumber]) {
                            None => None,
                            Some(k) => literal_at(t, k),
                        }
                    } else {
                        None
                    }
                },
                NodeKind::IntegralNumber => literal_at(t, j),
                _ => None,
            }
        },
    }
}

/// The number that a literal writes down.
pub open spec fn literal_at(t: Tree, i: int) -> Option<int> {
    match literal::literal_number(t.text(i)) {
        Some(v) => Some(v as int),
        None => None,
    }
}

/// The numbers that the first `n` of some expressions behind place `j` stand for.
pub open spec fn bound_values(t: Tree, j: int, places: Seq<int>, n: nat) -> Option<Seq<int>>
    decreases t.nodes.len() - j, 0int, n as int,
{
    if n == 0 || n > places.len() {
        Some(Seq::empty())
    } else if !(j < places[n - 1] < t.nodes.len()) {
        None
    } else {
        match (bound_values(t, j, places, (n - 1) as nat), bound_value(t, places[n - 1])) {
            (Some(values), Some(v)) => Some(values.push(v)),
            _ => None,
        }
    }
}

/// What has no number among the first expressions has none among all of them.
proof fn lemma_bound_values(t: Tree, j: int, places: Seq<int>, k: nat, n: nat)
    requires
        k <= n <= places.len(),
        bound_values(t, j, places, k) is None,
    ensures
        bound_values(t, j, places, n) is None,
    decreases n,
{
    if k < n {
        lemma_bound_values(t, j, places, k, (n - 1) as nat);
    }
}

/// How tightly a binary operator binds.
pub fn binding(op: &str) -> (r: u32)
    ensures
        r == precedence(op@),
{
    if same_text(op, "**") {
        11
    } else if same_text(op, "*") || same_text(op, "/") || same_text(op, "%") {
        10
    } else if same_text(op, "+") || same_text(op, "-") {
        9
    } else if same_text(op, "<<") || same_text(op, ">>") || same_text(op, "<<<") || same_text(
        op,
        ">>>",
    ) {
        8
    } else if same_text(op, "<") || same_text(op, "<=") || same_text(op, ">") || same_text(
        op,
        ">=",
    ) {
        7
    } else if same_text(op, "==") || same_text(op, "!=") || same_text(op, "===") || same_text(
        op,
        "!==",
    ) || same_text(op, "==?") || same_text(op, "!=?") {
        6
    } else if same_text(op, "&") {
        5
    } else if same_text(op, "^") || same_text(op, "~^") || same_text(op, "^~") {
        4
    } else if same_text(op, "|") {
        3
    } else if same_text(op, "&&") {
        2
    } else if same_text(op, "||") {
        1
    } else {
        0
    }
}

/// Some texts.
pub open spec fn views(names: Seq<String>) -> Seq<Seq<char>> {
    names.map_values(|s: String| s@)
}

/// The operator that is applied last among those from place `from` on, before
/// place `to`.
pub fn find_loosest(names: &Vec<String>, from: usize, to: usize) -> (r: usize)
    requires
        from < to <= names@.len(),
    ensures
        from <= r < to,
        r - from == loosest(views(names@).subrange(from as int, to as int)),
        precedence(names@[r as int]@) == precedence(
            views(names@).subrange(from as int, to as int)[r - from],
        ),
{
    let ghost all = views(names@);
    let mut best: usize = from;
    let mut tightness: u32 = binding(names[from].as_str());
    let mut k: usize = from + 1;
    assert(all[from as int] == names@[from as int]@);
    while k < to
        invariant
            from <= best < k <= to <= names@.len(),
            all == views(names@),
            best - from == loosest(all.subrange(from as int, k as int)),
            tightness == precedence(names@[best as int]@),
        decreases to - k,
    {
        let p: u32 = binding(names[k].as_str());
        proof {
            let longer = all.subrange(from as int, k + 1);
            assert(longer.drop_last() =~= all.subrange(from as int, k as int));
            assert(longer.last() == names@[k as int]@);
            assert(longer[best - from] == names@[best as int]@);
        }
        if p < tightness || (p == tightness && p > 0) {
            best = k;
            tightness = p;
        }
        k += 1;
    }
    best
}

/// The places of the operands and of the operators of a chain, and those of its
/// choice.
pub struct ChainParts {
    pub operands: Vec<usize>,
    pub operators: Vec<usize>,
    pub choice: Option<(usize, usize)>,
}

impl ChainParts {
    /// The chain that the places make up.
    pub open spec fn is_chain(&self, c: Chain) -> bool {
        &&& query::places(self.operands@) == c.operands
        &&& query::places(self.operators@) == c.operators
        &&& match self.choice {
            Some((yes, no)) => c.choice == Some((yes as int, no as int)),
            None => c.choice is None,
        }
    }

    /// Whether all places are before some place.
    pub open spec fn within(&self, n: int) -> bool {
        &&& forall|k: int| 0 <= k < self.operands@.len() ==> #[trigger] self.operands@[k] < n
        &&& forall|k: int| 0 <= k < self.operators@.len() ==> #[trigger] self.operators@[k] < n
        &&& self.choice matches Some(p) ==> p.0 < n && p.1 < n
    }
}

/// The number that a chain of numbers stands for.
fn compute(values: &Vec<i128>, names: &Vec<String>, from: usize, to: usize) -> (r: Option<i128>)
    requires
        from <= to <= names@.len(),
        values@.len() == names@.len() + 1,
        forall|k: int| 0 <= k < values@.len() ==> is_small(#[trigger] values@[k]),
    ensures
        ({
            let expected = computed(
                values@.subrange(from as int, to + 1).map_values(|v: i128| v as int),
                views(names@).subrange(from as int, to as int),
            );
            match r {
                Some(v) => expected == Some(v as int) && is_small(v),
                None => expected is None,
            }
        }),
    decreases to - from,
{
    let ghost numbers = values@.subrange(from as int, to + 1).map_values(|v: i128| v as int);
    let ghost ops = views(names@).subrange(from as int, to as int);
    if from == to {
        assert(numbers[0] == values@[from as int]);
        return Some(values[from]);
    }
    let at: usize = find_loosest(names, from, to);
    let ghost k = at - from;
    proof {
        lemma_loosest(ops);
        assert(numbers.take(k + 1) =~= values@.subrange(from as int, at + 1).map_values(
            |v: i128| v as int,
        ));
        assert(numbers.skip(k + 1) =~= values@.subrange(at + 1, to + 1).map_values(
            |v: i128| v as int,
        ));
        assert(ops.take(k) =~= views(names@).subrange(from as int, at as int));
        assert(ops.skip(k + 1) =~= views(names@).subrange(at + 1, to as int));
        assert(ops[k] == names@[at as int]@);
    }
    let a = match compute(values, names, from, at) {
        Some(v) => v,
        None => {
            return None;
        },
    };
    let b = match compute(values, names, at + 1, to) {
        Some(v) => v,
        None => {
            return None;
        },
    };
    apply(names[at].as_str(), a, b)
}

/// Whether a number is one that arithmetic on bounds can give.
pub open spec fn is_small(v: i128) -> bool {
    -0x1000_0000_0000_0000_0000_0000_0000_0000 <= v <= 0x1000_0000_0000_0000_0000_0000_0000_0000
}

/// What an operator makes of two numbers.
fn apply(op: &str, a: i128, b: i128) -> (r: Option<i128>)
    ensures
        match r {
            Some(v) => arithmetic(op@, a as int, b as int) == Some(v as int) && is_small(v),
            None => arithmetic(op@, a as int, b as int) is None,
        },
{
    if a > LARGEST_BOUND || a < -LARGEST_BOUND || b > LARGEST_BOUND || b < -LARGEST_BOUND {
        None
    } else if same_text(op, "+") {
        Some(a + b)
    } else if same_text(op, "-") {
        Some(a - b)
    } else if same_text(op, "*") {
        assert(-0x1000_0000_0000_0000_0000_0000_0000_0000 <= a * b
            <= 0x1000_0000_0000_0000_0000_0000_0000_0000) by (nonlinear_arith)
            requires
                -0x4000_0000_0000_0000 <= a <= 0x4000_0000_0000_0000,
                -0x4000_0000_0000_0000 <= b <= 0x4000_0000_0000_0000,
        ;
        Some(a * b)
    } else if same_text(op, "/") && a >= 0 && b > 0 {
        assert(0 <= a as int / b as int <= a) by (nonlinear_arith)
            requires
                a >= 0,
                b > 0,
        ;
        Some(a / b)
    } else if same_text(op, "%") && a >= 0 && b > 0 {
        assert(0 <= a as int % b as int <= b) by (nonlinear_arith)
            requires
                a >= 0,
                b > 0,
        ;
        Some(a % b)
    } else {
        None
    }
}

impl SyntaxTree {
    /// The tree, as text and nodes. The string that it holds besides is the same text.
    pub open spec fn as_tree(&self) -> Tree {
        Tree { src: self.source@, nodes: self.nodes@ }
    }

    /// The construct that says what an expression is.
    pub fn construct(&self, i: usize) -> (r: Option<usize>)
        requires
            self.wf(),
            i < self.nodes@.len(),
        ensures
            r is Some <==> self.as_tree().find(i as int, model::construct_kinds()) is Some,
            r matches Some(j) ==> self.as_tree().find(i as int, model::construct_kinds()) == Some(
                j as int,
            ) && i <= j < self.nodes@.len(),
    {
        let kinds = [
            NodeKind::Binary,
            NodeKind::Unary,
            NodeKind::Conditional,
            NodeKind::Ternary,
            NodeKind::OtherExpression,
            NodeKind::Concatenation,
            NodeKind::Primary,
            NodeKind::IntegralNumber,
            NodeKind::SimpleIdentifier,
            NodeKind::EscapedIdentifier,
        ];
        assert(kinds@ =~= model::construct_kinds());
        self.find(i, &kinds)
    }

    /// The expression in parentheses, where they hold one expression.
    pub fn inside(&self, c: usize) -> (r: Option<usize>)
        requires
            self.wf(),
            c < self.nodes@.len(),
        ensures
            r is Some <==> model::inside(self.as_tree(), c as int) is Some,
            r matches Some(k) ==> model::inside(self.as_tree(), c as int) == Some(k as int) && c
                <= k < self.nodes@.len(),
    {
        let choices = [NodeKind::MinTypMax];
        assert(choices@ =~= seq![NodeKind::MinTypMax]);
        if self.find(c, &choices).is_some() {
            return None;
        }
        let kinds = [NodeKind::Expression];
        assert(kinds@ =~= seq![NodeKind::Expression]);
        self.find(c, &kinds)
    }

    /// The chain that an expression is.
    pub fn chain(&self, e: usize) -> (r: ChainParts)
        requires
            self.wf(),
            e < self.nodes@.len(),
        ensures
            r.is_chain(chain(self.as_tree(), e as int)),
            r.within(self.nodes@.len() as int),
        decreases self.nodes@.len() - e,
    {
        let ghost t = self.as_tree();
        let mut operands: Vec<usize> = Vec::new();
        operands.push(e);
        assert(query::places(operands@) =~= seq![e as int]);
        assert(query::places(Seq::<usize>::empty()) =~= Seq::<int>::empty());
        let j = match self.construct(e) {
            Some(j) => j,
            None => {
                return ChainParts { operands, operators: Vec::new(), choice: None };
            },
        };
        let kind = self.nodes[j].kind;
        let parts = self.kids(j, NodeKind::Expression);
        let found = self.kids(j, NodeKind::BinaryOperator);
        let predicates = self.kids(j, NodeKind::CondPredicate);
        proof {
            assert forall|k: int| 0 <= k < parts@.len() implies query::places(parts@)[k]
                == #[trigger] parts@[k] by {}
            assert forall|k: int| 0 <= k < found@.len() implies query::places(found@)[k]
                == #[trigger] found@[k] by {}
            assert forall|k: int| 0 <= k < predicates@.len() implies query::places(predicates@)[k]
                == #[trigger] predicates@[k] by {}
        }
        if kind == NodeKind::Binary && parts.len() == 2 && found.len() == 1 {
            let mut rest = self.chain(parts[1]);
            let ghost c = chain(t, parts@[1] as int);
            let mut all: Vec<usize> = Vec::new();
            all.push(parts[0]);
            let mut operators: Vec<usize> = Vec::new();
            operators.push(found[0]);
            let ghost (more, further) = (rest.operands@, rest.operators@);
            all.append(&mut rest.operands);
            operators.append(&mut rest.operators);
            proof {
                assert(all@ =~= seq![parts@[0]] + more);
                assert(operators@ =~= seq![found@[0]] + further);
                assert(query::places(all@) =~= seq![parts@[0] as int] + c.operands) by {
                    assert(query::places(more) == c.operands);
                    assert forall|k: int| 0 <= k < all@.len() implies #[trigger] query::places(
                        all@,
                    )[k] == (seq![parts@[0] as int] + c.operands)[k] by {
                        if k > 0 {
                            assert(c.operands[k - 1] == more[k - 1]);
                        }
                    }
                }
                assert(query::places(operators@) =~= seq![found@[0] as int] + c.operators) by {
                    assert(query::places(further) == c.operators);
                    assert forall|k: int|
                        0 <= k < operators@.len() implies #[trigger] query::places(operators@)[k]
                        == (seq![found@[0] as int] + c.operators)[k] by {
                        if k > 0 {
                            assert(c.operators[k - 1] == further[k - 1]);
                        }
                    }
                }
                assert forall|k: int| 0 <= k < all@.len() implies #[trigger] all@[k]
                    < self.nodes@.len() by {
                    if k > 0 {
                        assert(all@[k] == more[k - 1]);
                    }
                }
                assert forall|k: int| 0 <= k < operators@.len() implies #[trigger] operators@[k]
                    < self.nodes@.len() by {
                    if k > 0 {
                        assert(operators@[k] == further[k - 1]);
                    }
                }
            }
            ChainParts { operands: all, operators, choice: rest.choice }
        } else if kind == NodeKind::Conditional && parts.len() == 2 && predicates.len() == 1
            && self.kids(predicates[0], NodeKind::Symbol).len() == 0 {
            let rest = self.chain(predicates[0]);
            if rest.choice.is_none() {
                ChainParts {
                    operands: rest.operands,
                    operators: rest.operators,
                    choice: Some((parts[0], parts[1])),
                }
            } else {
                ChainParts { operands, operators: Vec::new(), choice: None }
            }
        } else if kind == NodeKind::Ternary && parts.len() == 3 {
            let rest = self.chain(parts[0]);
            if rest.choice.is_none() {
                ChainParts {
                    operands: rest.operands,
                    operators: rest.operators,
                    choice: Some((parts[1], parts[2])),
                }
            } else {
                ChainParts { operands, operators: Vec::new(), choice: None }
            }
        } else {
            ChainParts { operands, operators: Vec::new(), choice: None }
        }
    }

    /// The texts of some nodes.
    pub fn node_texts(&self, at: &Vec<usize>) -> (r: Vec<String>)
        requires
            self.wf(),
            forall|k: int| 0 <= k < at@.len() ==> #[trigger] at@[k] < self.nodes@.len(),
        ensures
            views(r@) == texts(self.as_tree(), query::places(at@)),
            r@.len() == at@.len(),
    {
        let mut out: Vec<String> = Vec::new();
        let mut k: usize = 0;
        while k < at.len()
            invariant
                self.wf(),
                forall|x: int| 0 <= x < at@.len() ==> #[trigger] at@[x] < self.nodes@.len(),
                k <= at@.len(),
                out@.len() == k,
                forall|x: int|
                    0 <= x < k ==> (#[trigger] out@[x])@ == self.as_tree().text(at@[x] as int),
            decreases at@.len() - k,
        {
            out.push(self.node_text(at[k]));
            k += 1;
        }
        assert(views(out@) =~= texts(self.as_tree(), query::places(at@)));
        out
    }

    /// The number that a literal writes down.
    fn literal_number(&self, i: usize) -> (r: Option<i128>)
        requires
            self.wf(),
            i < self.nodes@.len(),
        ensures
            match r {
                Some(v) => literal_at(self.as_tree(), i as int) == Some(v as int) && is_small(v),
                None => literal_at(self.as_tree(), i as int) is None,
            },
    {
        let text = self.node_text(i);
        match read_number_literal(text.as_str()).0 {
            Some(v) => Some(v as i128),
            None => None,
        }
    }

    /// The number that a constant expression stands for.
    pub fn bound_value(&self, i: usize) -> (r: Option<i128>)
        requires
            self.wf(),
            i < self.nodes@.len(),
        ensures
            match r {
                Some(v) => bound_value(self.as_tree(), i as int) == Some(v as int) && is_small(v),
                None => bound_value(self.as_tree(), i as int) is None,
            },
        decreases self.nodes@.len() - i, 1int,
    {
        let j = match self.construct(i) {
            Some(j) => j,
            None => {
                return None;
            },
        };
        match self.nodes[j].kind {
            NodeKind::Binary => {
                let c = self.chain(i);
                proof {
                    lemma_chain(self.as_tree(), i as int);
                    assert(query::places(c.operands@).len() == c.operands@.len());
                    assert(query::places(c.operators@).len() == c.operators@.len());
                }
                if c.choice.is_some() {
                    return None;
                }
                let values = match self.bound_values(j, &c.operands) {
                    Some(values) => values,
                    None => {
                        return None;
                    },
                };
                let names = self.node_texts(&c.operators);
                let n: usize = names.len();
                proof {
                    assert(values@.subrange(0, n + 1) =~= values@);
                    assert(views(names@).subrange(0, n as int) =~= views(names@));
                }
                compute(&values, &names, 0, n)
            },
            NodeKind::Unary => {
                let operators = self.kids(j, NodeKind::UnaryOperator);
                let operands = self.kids(j, NodeKind::Primary);
                if operands.len() != 1 || operators.len() != 1 {
                    return None;
                }
                proof {
                    assert(query::places(operands@)[0] == operands@[0]);
                    assert(query::places(operators@)[0] == operators@[0]);
                }
                let sign = self.node_text(operators[0]);
                match self.bound_value(operands[0]) {
                    Some(v) => if same_text(sign.as_str(), "-") {
                        Some(-v)
                    } else if same_text(sign.as_str(), "+") {
                        Some(v)
                    } else {
                        None
                    },
                    None => None,
                }
            },
            NodeKind::Primary => {
                proof {
                    self.lemma_end(j as int);
                }
                if j + 1 >= self.nodes[j].end {
                    return None;
                }
                let c: usize = j + 1;
                if self.nodes[c].kind == NodeKind::Parenthesized {
                    match self.inside(c) {
                        Some(k) => self.bound_value(k),
                        None => None,
                    }
                } else if self.nodes[c].kind == NodeKind::PrimaryLiteral {
                    let kinds = [NodeKind::IntegralNumber];
                    assert(kinds@ =~= seq![NodeKind::IntegralNumber]);
                    match self.find(c, &kinds) {
                        Some(k) => self.literal_number(k),
                        None => None,
                    }
                } else {
                    None
                }
            },
            NodeKind::IntegralNumber => self.literal_number(j),
            _ => None,
        }
    }

    /// The numbers that some expressions behind place `j` stand for.
    fn bound_values(&self, j: usize, at: &Vec<usize>) -> (r: Option<Vec<i128>>)
        requires
            self.wf(),
            j < self.nodes@.len(),
            forall|k: int| 0 <= k < at@.len() ==> #[trigger] at@[k] < self.nodes@.len(),
        ensures
            match r {
                Some(v) => bound_values(
                    self.as_tree(),
                    j as int,
                    query::places(at@),
                    at@.len(),
                ) == Some(v@.map_values(|x: i128| x as int)) && v@.len() == at@.len() && forall|
                    k: int,
                | 0 <= k < v@.len() ==> is_small(#[trigger] v@[k]),
                None => bound_values(
                    self.as_tree(),
                    j as int,
                    query::places(at@),
                    at@.len(),
                ) is None,
            },
        decreases self.nodes@.len() - j, 0int,
    {
        let ghost t = self.as_tree();
        let ghost places = query::places(at@);
        assert forall|k: int| 0 <= k < at@.len() implies places[k] == #[trigger] at@[k] by {}
        let mut out: Vec<i128> = Vec::new();
        let mut k: usize = 0;
        assert(out@.map_values(|x: i128| x as int) =~= Seq::<int>::empty());
        while k < at.len()
            invariant
                self.wf(),
                t == self.as_tree(),
                j < self.nodes@.len(),
                places == query::places(at@),
                forall|x: int|
                    0 <= x < at@.len() ==> #[trigger] at@[x] < self.nodes@.len() && places[x]
                        == at@[x],
                k <= at@.len(),
                out@.len() == k,
                bound_values(t, j as int, places, k as nat) == Some(
                    out@.map_values(|x: i128| x as int),
                ),
                forall|x: int| 0 <= x < out@.len() ==> is_small(#[trigger] out@[x]),
            decreases at@.len() - k,
        {
            let ghost before = out@;
            if at[k] <= j {
                proof {
                    lemma_bound_values(t, j as int, places, (k + 1) as nat, at@.len());
                }
                return None;
            }
            match self.bound_value(at[k]) {
                Some(v) => {
                    out.push(v);
                    assert(out@.map_values(|x: i128| x as int) =~= before.map_values(
                        |x: i128| x as int,
                    ).push(v as int));
                },
                None => {
                    proof {
                        lemma_bound_values(t, j as int, places, (k + 1) as nat, at@.len());
                    }
                    return None;
                },
            }
            k += 1;
        }
        Some(out)
    }
}

} // verus!
