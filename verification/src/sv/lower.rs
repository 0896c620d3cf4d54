//! Lowering of SystemVerilog modules: from a syntax tree to ports, values and
//! operations.

use crate::ir::attributes::{identifier_accepts, Attribute};
use crate::sv::chain;
use crate::sv::cst;
use crate::sv::cst::{CstEvent, NodeKind, SyntaxTree};
use crate::sv::literal::parse_number_literal;
use crate::sv::model;
use crate::sv::module;
use crate::sv::module::{refuse, Body, ParsedPort, SvError, SvModule, SvOp, SvOpKind, SvType};
use crate::sv::parse;
use crate::sv::parse::{parse_events, ParseView};
use crate::sv::query;
use crate::sv::scope::Scope;
use crate::sv::span::{trim_set_span, trim_span, Span};
use crate::text::same_text;
use vstd::prelude::*;

verus! {

/// The `width` low bits of `value`.
pub open spec fn low_bits(value: u64, width: u32) -> nat {
    value as nat % vstd::arithmetic::power2::pow2(width as nat)
}

/// Calls `pliron::utils::apint::APInt::from_u64` on a width that
/// `awint::bw` makes, and reads the number back with `APInt::to_u64`. The
/// number holds the `width` low bits of `value`; there is no number of width 0.
#[verifier::external_body]
fn apint_value(value: u64, width: u32) -> (r: u64)
    requires
        width > 0,
    ensures
        r as nat == low_bits(value, width),
{
    pliron::utils::apint::APInt::from_u64(value, awint::bw(width as usize)).to_u64()
}

/// Helper to construct integer attributes with specified bit width.
pub fn int_attr(width: u32, val: u64) -> (r: Attribute)
    requires
        width > 0,
    ensures
        r matches Attribute::Integer { width: w, value: v } && w == width && v as nat == low_bits(
            val,
            width,
        ),
{
    Attribute::Integer { width, value: apint_value(val, width) }
}

/// Lowers a syntax tree into the operations of a module.
pub struct SvModuleLowerer<'a> {
    tree: &'a SyntaxTree,
    scope: Scope,
    ports: Vec<ParsedPort>,
    num_inputs: usize,
    types: Vec<SvType>,
    ops: Vec<SvOp>,
}

/// What a step of the lowering reports: a value, or the text of an error.
pub open spec fn value_outcome(r: Result<usize, SvError>) -> Result<usize, Seq<char>> {
    match r {
        Ok(v) => Ok(v),
        Err(e) => Err(e@),
    }
}

impl<'a> SvModuleLowerer<'a> {
    /// The syntax tree that is lowered.
    pub closed spec fn syntax(&self) -> model::Tree {
        model::Tree { src: self.tree.source@, nodes: self.tree.nodes@ }
    }

    /// The names that are in scope.
    pub closed spec fn names(&self) -> Map<Seq<char>, usize> {
        self.scope@
    }

    /// The ports of the module.
    pub closed spec fn port_list(&self) -> Seq<module::PortView> {
        module::port_views(self.ports@)
    }

    /// The number of inputs of the module.
    pub closed spec fn inputs(&self) -> nat {
        self.num_inputs as nat
    }

    /// The operations that are there so far, and the types of the values.
    pub closed spec fn body(&self) -> Body {
        Body { ops: module::op_views(self.ops@), types: self.types@ }
    }

    /// Names stand for values that are there, and the operations use only values
    /// that are there before them.
    pub closed spec fn inv(&self) -> bool {
        &&& self.tree.wf()
        &&& forall|name: Seq<char>| #[trigger]
            self.scope@.dom().contains(name) ==> self.scope@[name] < self.types@.len()
        &&& module::in_ssa_form(self.num_inputs as nat, self.body())
    }

    /// The operations and values that were there are still there.
    pub closed spec fn extends(&self, before: &Self) -> bool {
        &&& self.ops@.len() >= before.ops@.len()
        &&& self.types@.len() >= before.types@.len()
        &&& forall|k: int| 0 <= k < before.ops@.len() ==> #[trigger] self.ops@[k] == before.ops@[k]
        &&& forall|k: int|
            0 <= k < before.types@.len() ==> #[trigger] self.types@[k] == before.types@[k]
    }

    /// Everything is as it was, but for operations and values that were added.
    pub closed spec fn same_frame(&self, before: &Self) -> bool {
        &&& self.tree == before.tree
        &&& self.scope@ == before.scope@
        &&& self.ports@ == before.ports@
        &&& self.num_inputs == before.num_inputs
        &&& self.extends(before)
    }

    /// A lowerer for a syntax tree.
    pub fn new(tree: &'a SyntaxTree) -> (r: Self)
        requires
            tree.wf(),
        ensures
            r.inv(),
            r.syntax() == (model::Tree { src: tree.source@, nodes: tree.nodes@ }),
            r.names() == Map::<Seq<char>, usize>::empty(),
            r.port_list().len() == 0,
            r.inputs() == 0,
            r.body().ops.len() == 0,
            r.body().types.len() == 0,
    {
        proof {
            reveal(module::in_ssa_form);
        }
        SvModuleLowerer {
            tree,
            scope: Scope::new(),
            ports: Vec::new(),
            num_inputs: 0,
            types: Vec::new(),
            ops: Vec::new(),
        }
    }

    /// Adds an operation; its result, where it has one, is the next value.
    fn emit(
        &mut self,
        kind: SvOpKind,
        name: String,
        callee: String,
        operands: Vec<usize>,
        ty: Option<SvType>,
    ) -> (r: usize)
        requires
            old(self).inv(),
            forall|i: int| 0 <= i < operands@.len() ==> #[trigger] operands@[i] < old(self).types@.len(),
        ensures
            final(self).inv(),
            final(self).same_frame(old(self)),
            final(self).body() == model::emit(
                old(self).body(),
                kind,
                name@,
                callee@,
                operands@,
                ty,
            ),
            r == old(self).types@.len(),
            ty is Some ==> r < final(self).types@.len(),
    {
        let r: usize = self.types.len();
        let result: Option<usize> = match ty {
            Some(_) => Some(r),
            None => None,
        };
        let ghost before = self.body();
        self.ops.push(SvOp { kind, name, callee, operands, result });
        if let Some(t) = ty {
            self.types.push(t);
        }
        proof {
            let after = self.body();
            assert(after.ops =~= before.ops.push(self.ops@.last()@));
            assert(after =~= model::emit(before, kind, name@, callee@, operands@, ty));
            lemma_ssa_emit(
                self.num_inputs as nat,
                before,
                kind,
                name@,
                callee@,
                operands@,
                ty,
            );
        }
        r
    }

    /// Takes away the operations and values that were added.
    fn restore(&mut self, ops: usize, types: usize, Ghost(before): Ghost<SvModuleLowerer<'a>>)
        requires
            before.inv(),
            old(self).same_frame(&before),
            ops == before.ops@.len(),
            types == before.types@.len(),
        ensures
            final(self).inv(),
            final(self).same_frame(&before),
            final(self).body() == before.body(),
            final(self).names() == before.names(),
            final(self).syntax() == before.syntax(),
    {
        self.ops.truncate(ops);
        self.types.truncate(types);
        proof {
            assert(self.ops@ =~= before.ops@);
            assert(self.types@ =~= before.types@);
        }
    }
}

/// The number of values before an operation does not depend on later ones.
proof fn lemma_defined_before(
    inputs: nat,
    ops: Seq<module::OpView>,
    more: Seq<module::OpView>,
    k: int,
)
    requires
        0 <= k <= ops.len() <= more.len(),
        forall|i: int| 0 <= i < ops.len() ==> #[trigger] more[i] == ops[i],
    ensures
        module::defined_before(inputs, more, k) == module::defined_before(inputs, ops, k),
    decreases k,
{
    if k > 0 {
        lemma_defined_before(inputs, ops, more, k - 1);
        assert(more[k - 1] == ops[k - 1]);
    }
}

/// There are at most as many values before an operation as there are in the end.
proof fn lemma_defined_monotone(inputs: nat, ops: Seq<module::OpView>, j: int, k: int)
    requires
        0 <= j <= k <= ops.len(),
    ensures
        module::defined_before(inputs, ops, j) <= module::defined_before(inputs, ops, k),
    decreases k,
{
    if j < k {
        lemma_defined_monotone(inputs, ops, j, k - 1);
    }
}

/// An operation on values that are there keeps the form.
proof fn lemma_ssa_emit(
    inputs: nat,
    b: Body,
    kind: SvOpKind,
    name: Seq<char>,
    callee: Seq<char>,
    operands: Seq<usize>,
    ty: Option<SvType>,
)
    requires
        module::in_ssa_form(inputs, b),
        forall|i: int| 0 <= i < operands.len() ==> #[trigger] operands[i] < b.types.len(),
        b.types.len() <= usize::MAX,
    ensures
        module::in_ssa_form(inputs, model::emit(b, kind, name, callee, operands, ty)),
{
    reveal(module::in_ssa_form);
    let after = model::emit(b, kind, name, callee, operands, ty);
    let n = b.ops.len() as int;
    assert forall|i: int| 0 <= i < n implies #[trigger] after.ops[i] == b.ops[i] by {}
    assert forall|k: int| 0 <= k <= n implies #[trigger] module::defined_before(
        inputs,
        after.ops,
        k,
    ) == module::defined_before(inputs, b.ops, k) by {
        lemma_defined_before(inputs, b.ops, after.ops, k);
    }
    assert(module::defined_before(inputs, after.ops, n) == b.types.len());
    assert forall|k: int, i: int|
        0 <= k < after.ops.len() && 0 <= i < after.ops[k].operands.len() implies (
    #[trigger] after.ops[k].operands[i]) < module::defined_before(inputs, after.ops, k) by {
        if k < n {
            assert(b.ops[k].operands[i] < module::defined_before(inputs, b.ops, k));
        } else {
            assert(operands[i] < b.types.len());
        }
    }
    assert forall|k: int| 0 <= k < after.ops.len() implies ((
    #[trigger] after.ops[k]).result matches Some(v) ==> v == module::defined_before(
        inputs,
        after.ops,
        k,
    )) by {
        if k < n {
            assert(after.ops[k] == b.ops[k]);
        }
    }
}

/// Whether a step did what the model says: it gave the value and left the body
/// that the model gives, or reported the error that the model gives.
pub open spec fn lowered_to(r: Result<usize, SvError>, after: Body, expected: model::Lowered) -> bool {
    match expected {
        Ok((b, v)) => r == Ok::<usize, SvError>(v) && after == b && v < b.types.len(),
        Err(e) => r matches Err(x) && x@ == e,
    }
}

/// The text of the error for an expression that is not supported.
fn unsupported(what: &str) -> (e: SvError)
    ensures
        e@ == model::unsupported_expression(what@),
{
    SvError { message: "unsupported SystemVerilog expression: ".to_owned().concat(what) }
}

/// Two values.
fn pair(a: usize, b: usize) -> (r: Vec<usize>)
    ensures
        r@ == seq![a, b],
{
    let mut v: Vec<usize> = Vec::new();
    v.push(a);
    v.push(b);
    v
}

/// One value.
fn single(a: usize) -> (r: Vec<usize>)
    ensures
        r@ == seq![a],
{
    let mut v: Vec<usize> = Vec::new();
    v.push(a);
    v
}

impl<'a> SvModuleLowerer<'a> {
    /// Adds an operation with a result.
    fn emit_value(&mut self, kind: SvOpKind, name: String, operands: Vec<usize>, ty: SvType) -> (r:
        usize)
        requires
            old(self).inv(),
            forall|i: int|
                0 <= i < operands@.len() ==> #[trigger] operands@[i] < old(self).body().types.len(),
        ensures
            final(self).inv(),
            final(self).same_frame(old(self)),
            lowered_to(
                Ok(r),
                final(self).body(),
                model::emit_value(old(self).body(), kind, name@, operands@, ty),
            ),
    {
        self.emit(kind, name, String::new(), operands, Some(ty))
    }

    /// Resolve an identifier against the current module symbol scope.
    fn resolve_val(&self, name: &str) -> (r: Result<usize, SvError>)
        requires
            self.inv(),
        ensures
            value_outcome(r) == model::resolve(self.names(), name@),
            r matches Ok(v) ==> v < self.body().types.len(),
    {
        match self.scope.get(name) {
            Some(v) => Ok(v),
            None => Err(
                SvError {
                    message: "unresolved identifier '".to_owned().concat(name).concat("'"),
                },
            ),
        }
    }

    /// Adds a constant.
    fn lower_constant(&mut self, value: u64, width: u32) -> (r: Result<usize, SvError>)
        requires
            old(self).inv(),
        ensures
            final(self).inv(),
            final(self).same_frame(old(self)),
            lowered_to(r, final(self).body(), model::constant(old(self).body(), value, width)),
    {
        if width == 0 {
            return Err(refuse("a constant cannot have width 0"));
        }
        let value = apint_value(value, width);
        Ok(
            self.emit_value(
                SvOpKind::Constant { value, width },
                String::new(),
                Vec::new(),
                SvType::Integer { width },
            ),
        )
    }

    /// Lower numeric constant literals.
    fn lower_number_literal(&mut self, i: usize) -> (r: Result<usize, SvError>)
        requires
            old(self).inv(),
            i < old(self).syntax().nodes.len(),
        ensures
            final(self).inv(),
            final(self).same_frame(old(self)),
            lowered_to(
                r,
                final(self).body(),
                model::number(old(self).body(), old(self).syntax().text(i as int)),
            ),
    {
        let text = self.tree.node_text(i);
        let (value, width) = parse_number_literal(text.as_str());
        self.lower_constant(value, width)
    }

    /// The value that the text of a node stands for.
    fn lower_name(&self, i: usize) -> (r: Result<usize, SvError>)
        requires
            self.inv(),
            i < self.syntax().nodes.len(),
        ensures
            lowered_to(
                r,
                self.body(),
                model::named_value(self.names(), self.body(), self.syntax().text(i as int)),
            ),
    {
        let text = self.tree.node_text(i);
        self.resolve_val(text.as_str())
    }

    /// Recursively lower an expression into a value. Where it is refused, nothing is
    /// added.
    pub fn lower_expression(&mut self, i: usize) -> (r: Result<usize, SvError>)
        requires
            old(self).inv(),
            i < old(self).syntax().nodes.len(),
        ensures
            final(self).inv(),
            final(self).same_frame(old(self)),
            lowered_to(
                r,
                final(self).body(),
                model::expression(old(self).syntax(), old(self).names(), old(self).body(), i as int),
            ),
            r is Err ==> final(self).body() == old(self).body(),
        decreases old(self).syntax().nodes.len() - i, 5int, 0int,
    {
        let ops: usize = self.ops.len();
        let types: usize = self.types.len();
        match self.lower_construct(i) {
            Ok(v) => Ok(v),
            Err(e) => {
                self.restore(ops, types, Ghost(*old(self)));
                Err(e)
            },
        }
    }

    /// Lower an expression that is an operand.
    fn lower_operand(&mut self, i: usize) -> (r: Result<usize, SvError>)
        requires
            old(self).inv(),
            i < old(self).syntax().nodes.len(),
        ensures
            final(self).inv(),
            final(self).same_frame(old(self)),
            lowered_to(
                r,
                final(self).body(),
                model::operand(old(self).syntax(), old(self).names(), old(self).body(), i as int),
            ),
        decreases old(self).syntax().nodes.len() - i, 6int, 0int,
    {
        let v = match self.lower_expression(i) {
            Ok(v) => v,
            Err(e) => {
                return Err(e);
            },
        };
        match self.types[v] {
            SvType::Memory { .. } => Err(unsupported("a memory is not an operand")),
            _ => Ok(v),
        }
    }

    /// Lower an expression by its outermost construct.
    fn lower_construct(&mut self, i: usize) -> (r: Result<usize, SvError>)
        requires
            old(self).inv(),
            i < old(self).syntax().nodes.len(),
        ensures
            final(self).inv(),
            final(self).same_frame(old(self)),
            lowered_to(
                r,
                final(self).body(),
                model::expression(old(self).syntax(), old(self).names(), old(self).body(), i as int),
            ),
        decreases old(self).syntax().nodes.len() - i, 4int, 0int,
    {
        let j = match self.tree.construct(i) {
            Some(j) => j,
            None => {
                return Err(unsupported("unsupported expression"));
            },
        };
        match self.tree.nodes[j].kind {
            NodeKind::Binary => self.lower_binary_expression(i, j),
            NodeKind::Unary => self.lower_unary_expression(i, j),
            NodeKind::Conditional => self.lower_conditional_expression(i, j),
            NodeKind::Ternary => self.lower_conditional_expression(i, j),
            NodeKind::Concatenation => self.lower_concatenation(j),
            NodeKind::Primary => self.lower_primary(j),
            NodeKind::IntegralNumber => self.lower_number_literal(j),
            NodeKind::SimpleIdentifier => self.lower_name(j),
            NodeKind::EscapedIdentifier => self.lower_name(j),
            _ => Err(unsupported("unsupported expression")),
        }
    }

    /// Lower binary expression: `a + b`, `a == b`, etc.
    fn lower_binary_expression(&mut self, i: usize, j: usize) -> (r: Result<usize, SvError>)
        requires
            old(self).inv(),
            j < old(self).syntax().nodes.len(),
            i < old(self).syntax().nodes.len(),
            old(self).syntax().find(i as int, model::construct_kinds()) == Some(j as int),
            old(self).syntax().nodes[j as int].kind == NodeKind::Binary,
        ensures
            final(self).inv(),
            final(self).same_frame(old(self)),
            lowered_to(
                r,
                final(self).body(),
                model::expression(old(self).syntax(), old(self).names(), old(self).body(), i as int),
            ),
        decreases old(self).syntax().nodes.len() - j, 3int, 0int,
    {
        let parts = self.tree.kids(j, NodeKind::Expression);
        let operators = self.tree.kids(j, NodeKind::BinaryOperator);
        assert(query::places(parts@).len() == parts@.len());
        assert(query::places(operators@).len() == operators@.len());
        if parts.len() != 2 || operators.len() != 1 {
            return Err(refuse("invalid binary expression"));
        }
        self.lower_chained(i, j)
    }

    /// Lower a chain of binary operators, and the choice that depends on it.
    fn lower_chained(&mut self, i: usize, j: usize) -> (r: Result<usize, SvError>)
        requires
            old(self).inv(),
            j < old(self).syntax().nodes.len(),
            i < old(self).syntax().nodes.len(),
        ensures
            final(self).inv(),
            final(self).same_frame(old(self)),
            lowered_to(
                r,
                final(self).body(),
                model::chained(
                    old(self).syntax(),
                    old(self).names(),
                    old(self).body(),
                    i as int,
                    j as int,
                ),
            ),
        decreases old(self).syntax().nodes.len() - j, 2int, 0int,
    {
        let ghost t = self.syntax();
        let c = self.tree.chain(i);
        proof {
            chain::lemma_chain(t, i as int);
            assert(query::places(c.operands@).len() == c.operands@.len());
            assert(query::places(c.operators@).len() == c.operators@.len());
        }
        let values = match self.lower_parts(j, &c.operands) {
            Ok(values) => values,
            Err(e) => {
                return Err(e);
            },
        };
        if self.any_memory(&values) {
            return Err(unsupported("a memory is not an operand"));
        }
        let names = self.tree.node_texts(&c.operators);
        let n: usize = names.len();
        proof {
            assert(values@.subrange(0, n + 1) =~= values@);
            assert(chain::views(names@).subrange(0, n as int) =~= chain::views(names@));
        }
        let choosing: bool = n == 0 || self.can_choose(&names);
        let v: usize = self.lower_combined(&values, &names, 0, n);
        let (yes, no) = match c.choice {
            Some(places) => places,
            None => {
                return Ok(v);
            },
        };
        if !choosing || yes <= j || no <= j {
            return Err(unsupported("unsupported expression"));
        }
        let x = match self.lower_operand(yes) {
            Ok(v) => v,
            Err(e) => {
                return Err(e);
            },
        };
        let y = match self.lower_operand(no) {
            Ok(v) => v,
            Err(e) => {
                return Err(e);
            },
        };
        let ty = self.types[x];
        let mut operands = pair(v, x);
        operands.push(y);
        assert(operands@ =~= seq![v, x, y]);
        Ok(self.emit_value(SvOpKind::Mux, String::new(), operands, ty))
    }

    /// Whether one of some values is a memory.
    fn any_memory(&self, values: &Vec<usize>) -> (r: bool)
        requires
            self.inv(),
            forall|x: int| 0 <= x < values@.len() ==> #[trigger] values@[x] < self.body().types.len(),
        ensures
            r == model::any_memory(self.body().types, values@),
    {
        let ghost types = self.body().types;
        let mut k: usize = 0;
        while k < values.len()
            invariant
                self.inv(),
                types == self.body().types,
                forall|x: int| 0 <= x < values@.len() ==> #[trigger] values@[x] < types.len(),
                k <= values@.len(),
                forall|x: int| 0 <= x < k ==> types[#[trigger] values@[x] as int] !is Memory,
            decreases values@.len() - k,
        {
            if let SvType::Memory { .. } = self.types[values[k]] {
                assert(types[values@[k as int] as int] is Memory);
                return true;
            }
            k += 1;
        }
        false
    }

    /// Whether a choice can depend on a chain of operators.
    fn can_choose(&self, names: &Vec<String>) -> (r: bool)
        requires
            names@.len() > 0,
        ensures
            r == model::can_choose(chain::views(names@)),
    {
        let k: usize = chain::find_loosest(names, 0, names.len());
        proof {
            assert(chain::views(names@).subrange(0, names@.len() as int) =~= chain::views(names@));
        }
        chain::binding(names[k].as_str()) > 0
    }

    /// Lower some expressions behind a place, in order.
    fn lower_parts(&mut self, i: usize, parts: &Vec<usize>) -> (r: Result<Vec<usize>, SvError>)
        requires
            old(self).inv(),
            i < old(self).syntax().nodes.len(),
            forall|x: int|
                0 <= x < parts@.len() ==> #[trigger] parts@[x] < old(self).syntax().nodes.len(),
        ensures
            final(self).inv(),
            final(self).same_frame(old(self)),
            match model::parts_of(
                old(self).syntax(),
                old(self).names(),
                old(self).body(),
                i as int,
                query::places(parts@),
                parts@.len(),
            ) {
                Ok((b, values)) => r matches Ok(v) && v@ == values && final(self).body() == b
                    && v@.len() == parts@.len() && forall|x: int|
                    0 <= x < v@.len() ==> #[trigger] v@[x] < b.types.len(),
                Err(e) => r matches Err(x) && x@ == e,
            },
        decreases old(self).syntax().nodes.len() - i, 0int, 0int,
    {
        let ghost t = self.syntax();
        let ghost scope = self.names();
        let ghost b0 = self.body();
        let ghost places = query::places(parts@);
        let mut values: Vec<usize> = Vec::new();
        let mut k: usize = 0;
        proof {
            assert forall|x: int| 0 <= x < parts@.len() implies places[x] == #[trigger] parts@[x] by {}
        }
        while k < parts.len()
            invariant
                self.inv(),
                self.same_frame(old(self)),
                t == old(self).syntax(),
                self.syntax() == t,
                self.names() == scope,
                scope == old(self).names(),
                b0 == old(self).body(),
                i < t.nodes.len(),
                places == query::places(parts@),
                forall|x: int|
                    0 <= x < parts@.len() ==> #[trigger] parts@[x] < t.nodes.len() && places[x]
                        == parts@[x],
                k <= parts@.len(),
                model::parts_of(t, scope, b0, i as int, places, k as nat) == Ok::<
                    (Body, Seq<usize>),
                    Seq<char>,
                >((self.body(), values@)),
                values@.len() == k,
                forall|x: int| 0 <= x < k ==> #[trigger] values@[x] < self.body().types.len(),
            decreases parts@.len() - k,
        {
            if parts[k] <= i {
                proof {
                    lemma_parts_fail(t, scope, b0, i as int, places, (k + 1) as nat, parts@.len());
                }
                return Err(unsupported("unsupported expression"));
            }
            match self.lower_expression(parts[k]) {
                Ok(v) => {
                    values.push(v);
                },
                Err(e) => {
                    proof {
                        lemma_parts_fail(
                            t,
                            scope,
                            b0,
                            i as int,
                            places,
                            (k + 1) as nat,
                            parts@.len(),
                        );
                    }
                    return Err(e);
                },
            }
            k += 1;
        }
        Ok(values)
    }

    /// Apply the operators of a chain to its values.
    fn lower_combined(&mut self, values: &Vec<usize>, names: &Vec<String>, from: usize, to: usize) -> (r:
        usize)
        requires
            old(self).inv(),
            from <= to <= names@.len(),
            values@.len() == names@.len() + 1,
            forall|x: int|
                0 <= x < values@.len() ==> #[trigger] values@[x] < old(self).body().types.len(),
        ensures
            final(self).inv(),
            final(self).same_frame(old(self)),
            (final(self).body(), r) == model::combine(
                old(self).body(),
                values@.subrange(from as int, to + 1),
                chain::views(names@).subrange(from as int, to as int),
            ),
            r < final(self).body().types.len(),
        decreases to - from,
    {
        let ghost numbers = values@.subrange(from as int, to + 1);
        let ghost ops = chain::views(names@).subrange(from as int, to as int);
        if from == to {
            assert(numbers[0] == values@[from as int]);
            return values[from];
        }
        let at: usize = chain::find_loosest(names, from, to);
        let ghost k = at - from;
        proof {
            chain::lemma_loosest(ops);
            assert(numbers.take(k + 1) =~= values@.subrange(from as int, at + 1));
            assert(numbers.skip(k + 1) =~= values@.subrange(at + 1, to + 1));
            assert(ops.take(k) =~= chain::views(names@).subrange(from as int, at as int));
            assert(ops.skip(k + 1) =~= chain::views(names@).subrange(at + 1, to as int));
            assert(ops[k] == names@[at as int]@);
        }
        let lhs: usize = self.lower_combined(values, names, from, at);
        let rhs: usize = self.lower_combined(values, names, at + 1, to);
        let ty = self.types[lhs];
        let operands = pair(lhs, rhs);
        self.emit_value(SvOpKind::Binary, names[at].clone(), operands, ty)
    }

    /// Lower unary expression: `~a`, `!a`.
    fn lower_unary_expression(&mut self, i: usize, j: usize) -> (r: Result<usize, SvError>)
        requires
            old(self).inv(),
            j < old(self).syntax().nodes.len(),
            i < old(self).syntax().nodes.len(),
            old(self).syntax().find(i as int, model::construct_kinds()) == Some(j as int),
            old(self).syntax().nodes[j as int].kind == NodeKind::Unary,
        ensures
            final(self).inv(),
            final(self).same_frame(old(self)),
            lowered_to(
                r,
                final(self).body(),
                model::expression(old(self).syntax(), old(self).names(), old(self).body(), i as int),
            ),
        decreases old(self).syntax().nodes.len() - j, 2int, 0int,
    {
        let operands = self.tree.kids(j, NodeKind::Primary);
        let operators = self.tree.kids(j, NodeKind::UnaryOperator);
        if operands.len() != 1 || operators.len() != 1 {
            return Err(refuse("invalid unary expression"));
        }
        proof {
            assert(query::places(operands@)[0] == operands@[0]);
            assert(query::places(operators@)[0] == operators@[0]);
        }
        let op_text = self.tree.node_text(operators[0]);
        let v = match self.lower_operand(operands[0]) {
            Ok(v) => v,
            Err(e) => {
                return Err(e);
            },
        };
        let ty = self.types[v];
        let operands = single(v);
        Ok(self.emit_value(SvOpKind::Unary, op_text, operands, ty))
    }

    /// Lower conditional expression: `sel ? a : b`.
    fn lower_conditional_expression(&mut self, i: usize, j: usize) -> (r: Result<usize, SvError>)
        requires
            old(self).inv(),
            j < old(self).syntax().nodes.len(),
            i < old(self).syntax().nodes.len(),
            old(self).syntax().find(i as int, model::construct_kinds()) == Some(j as int),
            old(self).syntax().nodes[j as int].kind == NodeKind::Conditional || old(
                self,
            ).syntax().nodes[j as int].kind == NodeKind::Ternary,
        ensures
            final(self).inv(),
            final(self).same_frame(old(self)),
            lowered_to(
                r,
                final(self).body(),
                model::expression(old(self).syntax(), old(self).names(), old(self).body(), i as int),
            ),
        decreases old(self).syntax().nodes.len() - j, 3int, 0int,
    {
        let parts = self.tree.kids(j, NodeKind::Expression);
        let predicates = self.tree.kids(j, NodeKind::CondPredicate);
        assert(query::places(parts@).len() == parts@.len());
        assert(query::places(predicates@).len() == predicates@.len());
        let constant: bool = self.tree.nodes[j].kind == NodeKind::Ternary;
        if constant {
            if parts.len() != 3 {
                return Err(refuse("invalid conditional expression"));
            }
        } else if predicates.len() != 1 || parts.len() != 2 {
            return Err(refuse("invalid conditional expression"));
        }
        self.lower_chained(i, j)
    }

    /// Lower concatenation expression: `{a, b}`.
    fn lower_concatenation(&mut self, i: usize) -> (r: Result<usize, SvError>)
        requires
            old(self).inv(),
            i < old(self).syntax().nodes.len(),
        ensures
            final(self).inv(),
            final(self).same_frame(old(self)),
            lowered_to(
                r,
                final(self).body(),
                model::concatenation(old(self).syntax(), old(self).names(), old(self).body(), i as int),
            ),
        decreases old(self).syntax().nodes.len() - i, 1int, 0int,
    {
        let parts = self.tree.kids(i, NodeKind::Expression);
        assert(query::places(parts@).len() == parts@.len());
        let values = match self.lower_parts(i, &parts) {
            Ok(values) => values,
            Err(e) => {
                return Err(e);
            },
        };
        if parts.len() == 0 {
            return Err(refuse("concatenation cannot be empty"));
        }
        let total = match self.width_of(&values) {
            Some(w) => w,
            None => {
                return Err(refuse("concatenation is too wide"));
            },
        };
        Ok(
            self.emit_value(
                SvOpKind::Concat,
                String::new(),
                values,
                SvType::Integer { width: total },
            ),
        )
    }

    /// The number of bits of a concatenation of values.
    fn width_of(&self, values: &Vec<usize>) -> (r: Option<u32>)
        requires
            self.inv(),
            forall|x: int| 0 <= x < values@.len() ==> #[trigger] values@[x] < self.body().types.len(),
        ensures
            match r {
                Some(w) => w == model::total_bits(self.body().types, values@),
                None => model::total_bits(self.body().types, values@) > u32::MAX,
            },
    {
        let ghost types = self.body().types;
        let mut total: u32 = 0;
        let mut k: usize = 0;
        while k < values.len()
            invariant
                self.inv(),
                types == self.body().types,
                forall|x: int| 0 <= x < values@.len() ==> #[trigger] values@[x] < types.len(),
                k <= values@.len(),
                total == model::total_bits(types, values@.take(k as int)),
            decreases values@.len() - k,
        {
            proof {
                assert(values@.take(k + 1).drop_last() =~= values@.take(k as int));
                assert(values@.take(k + 1).last() == values@[k as int]);
            }
            let w: u32 = match self.types[values[k]] {
                SvType::Integer { width } => width,
                _ => 1,
            };
            match total.checked_add(w) {
                Some(sum) => {
                    total = sum;
                },
                None => {
                    proof {
                        lemma_total_bits(types, values@, k + 1);
                    }
                    return None;
                },
            }
            k += 1;
        }
        assert(values@.take(k as int) =~= values@);
        Some(total)
    }

    /// Whether a node is a text.
    fn text_is(&self, i: usize, text: &str) -> (r: bool)
        requires
            self.inv(),
            i < self.syntax().nodes.len(),
        ensures
            r == (self.syntax().text(i as int) == text@),
    {
        let own = self.tree.node_text(i);
        same_text(own.as_str(), text)
    }

    /// Lower primary expressions (numbers, identifiers, slices, indexing).
    fn lower_primary(&mut self, i: usize) -> (r: Result<usize, SvError>)
        requires
            old(self).inv(),
            i < old(self).syntax().nodes.len(),
        ensures
            final(self).inv(),
            final(self).same_frame(old(self)),
            lowered_to(
                r,
                final(self).body(),
                model::primary(old(self).syntax(), old(self).names(), old(self).body(), i as int),
            ),
        decreases old(self).syntax().nodes.len() - i, 2int, 0int,
    {
        proof {
            self.tree.lemma_end(i as int);
        }
        if i + 1 >= self.tree.nodes[i].end {
            return Err(unsupported("unsupported primary expression"));
        }
        let c: usize = i + 1;
        match self.tree.nodes[c].kind {
            NodeKind::Parenthesized => {
                match self.tree.inside(c) {
                    Some(k) => self.lower_expression(k),
                    None => Err(unsupported("unsupported primary expression")),
                }
            },
            NodeKind::PrimaryHierarchical => self.lower_primary_hierarchical(c),
            NodeKind::PrimaryConcatenation => {
                let kinds = [NodeKind::Concatenation];
                assert(kinds@ =~= seq![NodeKind::Concatenation]);
                match self.tree.find(c, &kinds) {
                    Some(k) => if self.tree.nodes[k].end != self.tree.nodes[c].end {
                        Err(unsupported("unsupported primary expression"))
                    } else {
                        self.lower_concatenation(k)
                    },
                    None => Err(unsupported("unsupported primary expression")),
                }
            },
            NodeKind::PrimaryLiteral => {
                let kinds = [NodeKind::IntegralNumber, NodeKind::UnbasedUnsizedLiteral];
                assert(kinds@ =~= seq![
                    NodeKind::IntegralNumber,
                    NodeKind::UnbasedUnsizedLiteral,
                ]);
                match self.tree.find(c, &kinds) {
                    Some(k) => if self.tree.nodes[k].kind == NodeKind::UnbasedUnsizedLiteral
                        && !self.text_is(k, "'0") {
                        Err(unsupported("unsupported primary expression"))
                    } else {
                        self.lower_number_literal(k)
                    },
                    None => Err(unsupported("unsupported primary expression")),
                }
            },
            NodeKind::PrimaryName => {
                let kinds = [NodeKind::SimpleIdentifier, NodeKind::EscapedIdentifier];
                assert(kinds@ =~= seq![NodeKind::SimpleIdentifier, NodeKind::EscapedIdentifier]);
                match self.tree.find(c, &kinds) {
                    Some(k) => {
                        let name = self.tree.node_text(k);
                        let whole = self.tree.node_text(c);
                        if name != whole {
                            Err(unsupported("unsupported primary expression"))
                        } else {
                            self.lower_name(k)
                        }
                    },
                    None => Err(unsupported("unsupported primary expression")),
                }
            },
            _ => Err(unsupported("unsupported primary expression")),
        }
    }

    /// Lower hierarchical primary (ident, slice `a[msb:lsb]`, index `a[sel]`).
    fn lower_primary_hierarchical(&mut self, i: usize) -> (r: Result<usize, SvError>)
        requires
            old(self).inv(),
            i < old(self).syntax().nodes.len(),
        ensures
            final(self).inv(),
            final(self).same_frame(old(self)),
            lowered_to(
                r,
                final(self).body(),
                model::hierarchical(old(self).syntax(), old(self).names(), old(self).body(), i as int),
            ),
        decreases old(self).syntax().nodes.len() - i, 2int, 0int,
    {
        let names = self.tree.kids(i, NodeKind::HierarchicalIdentifier);
        assert(query::places(names@).len() == names@.len());
        if names.len() == 0 {
            return Err(refuse("missing variable identifier"));
        }
        assert(query::places(names@)[0] == names@[0]);
        let id: usize = names[0];
        let tokens = [NodeKind::Locate];
        assert(tokens@ =~= seq![NodeKind::Locate]);
        if let Some(k) = self.tree.find(i, &tokens) {
            if k < id {
                return Err(unsupported("unsupported scope"));
            }
        }
        let name = self.tree.node_text(id);
        let base = match self.resolve_val(name.as_str()) {
            Ok(v) => v,
            Err(e) => {
                return Err(e);
            },
        };
        let selects = [NodeKind::Select];
        assert(selects@ =~= seq![NodeKind::Select]);
        match self.tree.find(i, &selects) {
            Some(s) => self.lower_select(s, base),
            None => Ok(base),
        }
    }

    /// Lower a select of a value: a slice or an index.
    fn lower_select(&mut self, s: usize, base: usize) -> (r: Result<usize, SvError>)
        requires
            old(self).inv(),
            s < old(self).syntax().nodes.len(),
            base < old(self).body().types.len(),
        ensures
            final(self).inv(),
            final(self).same_frame(old(self)),
            lowered_to(
                r,
                final(self).body(),
                model::selected(old(self).syntax(), old(self).names(), old(self).body(), s as int, base),
            ),
        decreases old(self).syntax().nodes.len() - s, 1int, 0int,
    {
        let ranges = self.tree.kids(s, NodeKind::PartSelectRange);
        let bit_selects = self.tree.kids(s, NodeKind::BitSelect);
        let members = self.tree.kids(s, NodeKind::MemberIdentifier);
        if bit_selects.len() != 1 || ranges.len() > 1 || members.len() > 0 {
            return Err(unsupported("unsupported select"));
        }
        assert(query::places(bit_selects@)[0] == bit_selects@[0]);
        let indices = self.tree.kids(bit_selects[0], NodeKind::Expression);
        if ranges.len() == 1 {
            assert(query::places(ranges@)[0] == ranges@[0]);
            if indices.len() > 0 {
                return Err(unsupported("unsupported select"));
            }
            let kinds = [NodeKind::ConstantRange];
            assert(kinds@ =~= seq![NodeKind::ConstantRange]);
            return match self.tree.find(ranges[0], &kinds) {
                Some(range) => self.lower_slice(range, base),
                None => Err(unsupported("unsupported select")),
            };
        }
        if indices.len() == 0 {
            return Ok(base);
        }
        if indices.len() > 1 {
            return Err(unsupported("unsupported select"));
        }
        assert(query::places(indices@)[0] == indices@[0]);
        let index = match self.lower_operand(indices[0]) {
            Ok(v) => v,
            Err(e) => {
                return Err(e);
            },
        };
        let operands = pair(base, index);
        Ok(
            self.emit_value(
                SvOpKind::Index,
                String::new(),
                operands,
                SvType::Integer { width: 1 },
            ),
        )
    }

    /// Lower the slice of a value that a constant range says.
    fn lower_slice(&mut self, range: usize, base: usize) -> (r: Result<usize, SvError>)
        requires
            old(self).inv(),
            range < old(self).syntax().nodes.len(),
            base < old(self).body().types.len(),
        ensures
            final(self).inv(),
            final(self).same_frame(old(self)),
            lowered_to(
                r,
                final(self).body(),
                model::slice(old(self).syntax(), old(self).body(), range as int, base),
            ),
    {
        let (a, b) = match self.range_bounds(range) {
            Ok(bounds) => bounds,
            Err(e) => {
                return Err(e);
            },
        };
        match slice_bounds(a, b) {
            Some((low, width)) => {
                let operands = single(base);
                Ok(
                    self.emit_value(
                        SvOpKind::Slice { low, width },
                        String::new(),
                        operands,
                        SvType::Integer { width },
                    ),
                )
            },
            None => Err(refuse("slice bounds are out of range")),
        }
    }

    /// The bounds of a constant range.
    fn range_bounds(&self, range: usize) -> (r: Result<(i128, i128), SvError>)
        requires
            self.inv(),
            range < self.syntax().nodes.len(),
        ensures
            match model::range_bounds(self.syntax(), range as int) {
                Ok((a, b)) => r matches Ok(x) && x.0 == a && x.1 == b && chain::is_small(x.0)
                    && chain::is_small(x.1),
                Err(e) => r matches Err(x) && x@ == e,
            },
    {
        let bounds = self.tree.kids(range, NodeKind::Expression);
        if bounds.len() != 2 {
            return Err(refuse("invalid range"));
        }
        proof {
            assert(query::places(bounds@)[0] == bounds@[0]);
            assert(query::places(bounds@)[1] == bounds@[1]);
        }
        let a = self.tree.bound_value(bounds[0]);
        let b = self.tree.bound_value(bounds[1]);
        match (a, b) {
            (Some(x), Some(y)) => Ok((x, y)),
            _ => Err(refuse("range bound is not a constant")),
        }
    }

    /// Extract bit width from a node containing optional range expressions.
    pub fn extract_range_width(&self, i: usize) -> (r: Result<u32, SvError>)
        requires
            self.inv(),
            i < self.syntax().nodes.len(),
        ensures
            match model::range_width(self.syntax(), i as int) {
                Ok(w) => r == Ok::<u32, SvError>(w),
                Err(e) => r matches Err(x) && x@ == e,
            },
    {
        let kinds = [NodeKind::ConstantRange];
        assert(kinds@ =~= seq![NodeKind::ConstantRange]);
        let range = match self.tree.find(i, &kinds) {
            Some(r) => r,
            None => {
                return Ok(1);
            },
        };
        let (a, b) = match self.range_bounds(range) {
            Ok(bounds) => bounds,
            Err(e) => {
                return Err(e);
            },
        };
        let width: i128 = if a >= b {
            a - b + 1
        } else {
            b - a + 1
        };
        if width > 0xffff_ffff {
            Err(refuse("range is too wide"))
        } else {
            Ok(width as u32)
        }
    }
}

/// The low end and the width of the slice from one bound to the other.
fn slice_bounds(a: i128, b: i128) -> (r: Option<(u32, u32)>)
    requires
        chain::is_small(a),
        chain::is_small(b),
    ensures
        r == model::slice_bounds(a as int, b as int),
{
    let (low, high): (i128, i128) = if a <= b {
        (a, b)
    } else {
        (b, a)
    };
    if low < 0 || high > 0xffff_ffff || high - low + 1 > 0xffff_ffff {
        None
    } else {
        Some((low as u32, (high - low + 1) as u32))
    }
}

/// What cannot be lowered among the first expressions cannot be lowered among all
/// of them.
proof fn lemma_parts_fail(
    t: model::Tree,
    scope: Map<Seq<char>, usize>,
    b: Body,
    i: int,
    places: Seq<int>,
    k: nat,
    n: nat,
)
    requires
        k <= n <= places.len(),
        model::parts_of(t, scope, b, i, places, k) is Err,
    ensures
        model::parts_of(t, scope, b, i, places, n) == model::parts_of(t, scope, b, i, places, k),
    decreases n,
{
    if k < n {
        lemma_parts_fail(t, scope, b, i, places, k, (n - 1) as nat);
    }
}

/// More values have at least as many bits.
proof fn lemma_total_bits(types: Seq<SvType>, values: Seq<usize>, k: int)
    requires
        0 <= k <= values.len(),
    ensures
        model::total_bits(types, values.take(k)) <= model::total_bits(types, values),
    decreases values.len(),
{
    if k == values.len() {
        assert(values.take(k) =~= values);
    } else {
        lemma_total_bits(types, values.drop_last(), k);
        assert(values.drop_last().take(k) =~= values.take(k));
    }
}

/// Whether a step did what the model says: it left the state that the model
/// gives, or reported the error that the model gives and left the state as it was.
pub open spec fn advanced_to(
    r: Result<(), SvError>,
    before: model::State,
    after: model::State,
    expected: model::Advanced,
) -> bool {
    match expected {
        Ok(st) => r is Ok && after == st,
        Err(e) => r matches Err(x) && x@ == e && after == before,
    }
}

/// Whether a search for a target and an expression found what the model says.
pub open spec fn parts_found(
    r: Result<(String, usize), SvError>,
    expected: Result<(Seq<char>, int), Seq<char>>,
    bound: int,
) -> bool {
    match expected {
        Ok((name, place)) => r matches Ok(x) && x.0@ == name && x.1 == place && place < bound,
        Err(e) => r matches Err(x) && x@ == e,
    }
}

/// The text of the error for an item that is not supported.
fn unsupported_item(what: &str) -> (e: SvError)
    ensures
        e@ == model::unsupported_item(what@),
{
    SvError { message: "unsupported SystemVerilog construct: ".to_owned().concat(what) }
}

/// What a declarator declares.
struct Declarator {
    kind: SvOpKind,
    name: String,
    ty: SvType,
}

impl View for Declarator {
    type V = model::Declared;

    closed spec fn view(&self) -> model::Declared {
        model::Declared { kind: self.kind, name: self.name@, ty: self.ty }
    }
}

/// What some declarators declare.
spec fn declared_views(list: Seq<Declarator>) -> Seq<model::Declared> {
    list.map_values(|d: Declarator| d@)
}

impl<'a> SvModuleLowerer<'a> {
    /// The body and the names in scope.
    pub closed spec fn state(&self) -> model::State {
        model::State { body: self.body(), scope: self.names() }
    }

    /// The tree, the ports and the number of inputs are as they were.
    pub closed spec fn same_setting(&self, before: &Self) -> bool {
        &&& self.tree == before.tree
        &&& self.ports@ == before.ports@
        &&& self.num_inputs == before.num_inputs
        &&& self.extends(before)
    }

    /// Adds an operation whose result a name stands for from then on.
    fn define(&mut self, kind: SvOpKind, name: String, operands: Vec<usize>, ty: SvType)
        requires
            old(self).inv(),
            forall|i: int|
                0 <= i < operands@.len() ==> #[trigger] operands@[i] < old(self).body().types.len(),
        ensures
            final(self).inv(),
            final(self).same_setting(old(self)),
            final(self).state() == model::define(old(self).state(), kind, name@, operands@, ty),
    {
        let target = name.clone();
        let v: usize = self.emit(kind, name, String::new(), operands, Some(ty));
        self.scope.insert(target, v);
    }

    /// The text of the first child of a kind, or the empty text where there is
    /// none.
    fn kid_text(&self, i: usize, kind: NodeKind) -> (r: String)
        requires
            self.inv(),
            i < self.syntax().nodes.len(),
        ensures
            r@ == (if self.syntax().kids(i as int, kind).len() > 0 {
                self.syntax().text(self.syntax().kids(i as int, kind)[0])
            } else {
                Seq::empty()
            }),
    {
        let kids = self.tree.kids(i, kind);
        if kids.len() > 0 {
            assert(query::places(kids@)[0] == kids@[0]);
            self.tree.node_text(kids[0])
        } else {
            String::new()
        }
    }

    /// Whether a node or one of its descendants is of a kind.
    fn has(&self, i: usize, kind: NodeKind) -> (r: bool)
        requires
            self.inv(),
            i < self.syntax().nodes.len(),
        ensures
            r == (self.syntax().find(i as int, seq![kind]) is Some),
    {
        let kinds = [kind];
        assert(kinds@ =~= seq![kind]);
        self.tree.find(i, &kinds).is_some()
    }

    /// The number of nodes of a kind among a node and its descendants.
    fn count(&self, i: usize, kind: NodeKind) -> (r: usize)
        requires
            self.inv(),
            i < self.syntax().nodes.len(),
        ensures
            r == model::all(self.syntax(), i as int, kind).len(),
            r <= self.syntax().nodes.len(),
    {
        let places = self.tree.all_of(i, kind);
        assert(query::places(places@).len() == places@.len());
        proof {
            self.tree.lemma_end(i as int);
            lemma_count(self.syntax().nodes, i as int, self.syntax().nodes[i as int].end as int, kind);
        }
        places.len()
    }

    /// The name that an assignment is to.
    fn target_name(&self, i: usize) -> (r: Result<String, SvError>)
        requires
            self.inv(),
            i < self.syntax().nodes.len(),
        ensures
            match model::target_name(self.syntax(), i as int) {
                Ok(name) => r matches Ok(x) && x@ == name,
                Err(e) => r matches Err(x) && x@ == e,
            },
    {
        let kinds = [NodeKind::SimpleIdentifier, NodeKind::EscapedIdentifier];
        assert(kinds@ =~= seq![NodeKind::SimpleIdentifier, NodeKind::EscapedIdentifier]);
        match self.tree.find(i, &kinds) {
            Some(id) => {
                let name = self.tree.node_text(id);
                let whole = self.tree.node_text(i);
                if name != whole {
                    Err(unsupported_item("unsupported assignment target"))
                } else {
                    Ok(whole)
                }
            },
            None => Err(unsupported_item("unsupported assignment target")),
        }
    }

    /// The target and the expression of an assignment.
    fn assigned(&self, a: usize, kind: NodeKind, missing: &str) -> (r: Result<
        (String, usize),
        SvError,
    >)
        requires
            self.inv(),
            a < self.syntax().nodes.len(),
        ensures
            parts_found(
                r,
                model::assigned(self.syntax(), a as int, kind, missing@),
                self.syntax().nodes.len() as int,
            ),
    {
        let targets = self.tree.kids(a, kind);
        let values = self.tree.kids(a, NodeKind::Expression);
        let n: usize = values.len();
        assert(query::places(targets@).len() == targets@.len());
        assert(query::places(values@).len() == values@.len());
        if targets.len() == 0 || n == 0 {
            return Err(refuse(missing));
        }
        assert(query::places(targets@)[0] == targets@[0]);
        assert(query::places(values@)[n - 1] == values@[n - 1]);
        match self.target_name(targets[0]) {
            Ok(name) => Ok((name, values[n - 1])),
            Err(e) => Err(e),
        }
    }

    /// The target and the expression of the one assignment of a kind in a node.
    fn single_assignment(
        &self,
        i: usize,
        kind: NodeKind,
        target: NodeKind,
        missing: &str,
    ) -> (r: Result<(String, usize), SvError>)
        requires
            self.inv(),
            i < self.syntax().nodes.len(),
        ensures
            parts_found(
                r,
                model::single_assignment(self.syntax(), i as int, kind, target, missing@),
                self.syntax().nodes.len() as int,
            ),
    {
        let places = self.tree.all_of(i, kind);
        assert(query::places(places@).len() == places@.len());
        if places.len() == 0 {
            return Err(refuse("continuous assign missing assignment"));
        }
        if places.len() > 1 {
            return Err(unsupported_item("unsupported list of assignments"));
        }
        assert(query::places(places@)[0] == places@[0]);
        self.assigned(places[0], target, missing)
    }

    /// The target and the expression of a continuous assignment.
    fn continuous_parts(&self, i: usize) -> (r: Result<(String, usize), SvError>)
        requires
            self.inv(),
            i < self.syntax().nodes.len(),
        ensures
            parts_found(
                r,
                model::continuous_parts(self.syntax(), i as int),
                self.syntax().nodes.len() as int,
            ),
    {
        if self.has(i, NodeKind::Delay) {
            return Err(unsupported_item("unsupported delay or strength"));
        }
        let nets = self.tree.kids(i, NodeKind::ContinuousAssignNet);
        let variables = self.tree.kids(i, NodeKind::ContinuousAssignVariable);
        assert(query::places(nets@).len() == nets@.len());
        assert(query::places(variables@).len() == variables@.len());
        if nets.len() > 0 {
            assert(query::places(nets@)[0] == nets@[0]);
            self.single_assignment(
                nets[0],
                NodeKind::NetAssignment,
                NodeKind::NetLvalue,
                "invalid net assignment",
            )
        } else if variables.len() > 0 {
            assert(query::places(variables@)[0] == variables@[0]);
            self.single_assignment(
                variables[0],
                NodeKind::VariableAssignment,
                NodeKind::VariableLvalue,
                "invalid variable assignment",
            )
        } else {
            Err(refuse("expected continuous assignment"))
        }
    }

    /// Lower an expression and let a name stand for its value.
    fn lower_drive(&mut self, kind: SvOpKind, target: String, value: usize) -> (r: Result<
        (),
        SvError,
    >)
        requires
            old(self).inv(),
            value < old(self).syntax().nodes.len(),
        ensures
            final(self).inv(),
            final(self).same_setting(old(self)),
            advanced_to(
                r,
                old(self).state(),
                final(self).state(),
                model::drive(
                    old(self).syntax(),
                    old(self).state(),
                    kind,
                    target@,
                    value as int,
                ),
            ),
    {
        let v = match self.lower_expression(value) {
            Ok(v) => v,
            Err(e) => {
                return Err(e);
            },
        };
        let ty = self.types[v];
        let operands = single(v);
        self.define(kind, target, operands, ty);
        Ok(())
    }

    /// Lower continuous assignment `assign lhs = rhs;`.
    fn lower_continuous_assign(&mut self, i: usize) -> (r: Result<(), SvError>)
        requires
            old(self).inv(),
            i < old(self).syntax().nodes.len(),
        ensures
            final(self).inv(),
            final(self).same_setting(old(self)),
            advanced_to(
                r,
                old(self).state(),
                final(self).state(),
                model::continuous_assign(old(self).syntax(), old(self).state(), i as int),
            ),
    {
        let (target, value) = match self.continuous_parts(i) {
            Ok(parts) => parts,
            Err(e) => {
                return Err(e);
            },
        };
        self.lower_drive(SvOpKind::Assign, target, value)
    }

    /// Whether the type in a node is made of bits.
    fn made_of_bits(&self, i: usize) -> (r: bool)
        requires
            self.inv(),
            i < self.syntax().nodes.len(),
        ensures
            r == model::made_of_bits(self.syntax(), i as int),
    {
        let kinds = [NodeKind::DataType];
        assert(kinds@ =~= seq![NodeKind::DataType]);
        match self.tree.find(i, &kinds) {
            Some(d) => d + 1 < self.tree.nodes.len() && self.tree.nodes[d + 1].kind
                == NodeKind::VectorType,
            None => true,
        }
    }

    /// The width of the type in a node.
    fn type_width(&self, i: usize) -> (r: Result<u32, SvError>)
        requires
            self.inv(),
            i < self.syntax().nodes.len(),
        ensures
            match model::type_width(self.syntax(), i as int) {
                Ok(w) => r == Ok::<u32, SvError>(w),
                Err(e) => r matches Err(x) && x@ == e,
            },
    {
        if !self.made_of_bits(i) {
            return Err(unsupported_item("unsupported data type"));
        }
        let dimensions = self.tree.all_of(i, NodeKind::PackedDimension);
        assert(query::places(dimensions@).len() == dimensions@.len());
        if dimensions.len() > 1 {
            return Err(unsupported_item("unsupported packed dimensions"));
        }
        if dimensions.len() == 0 {
            return Ok(1);
        }
        assert(query::places(dimensions@)[0] == dimensions@[0]);
        if self.has(dimensions[0], NodeKind::OtherDimension) {
            return Err(unsupported_item("unsupported packed dimensions"));
        }
        self.extract_range_width(dimensions[0])
    }

    /// The number of elements of an unpacked dimension.
    fn dimension_depth(&self, d: usize) -> (r: Result<u32, SvError>)
        requires
            self.inv(),
            d < self.syntax().nodes.len(),
        ensures
            match model::dimension_depth(self.syntax(), d as int) {
                Ok(n) => r == Ok::<u32, SvError>(n),
                Err(e) => r matches Err(x) && x@ == e,
            },
    {
        if self.has(d, NodeKind::OtherDimension) {
            return Err(unsupported_item("unsupported unpacked dimension"));
        }
        if self.has(d, NodeKind::ConstantRange) {
            return self.extract_range_width(d);
        }
        let kinds = [NodeKind::Expression];
        assert(kinds@ =~= seq![NodeKind::Expression]);
        match self.tree.find(d, &kinds) {
            Some(e) => match self.tree.bound_value(e) {
                Some(n) => if n < 1 || n > 0xffff_ffff {
                    Err(refuse("memory depth is out of range"))
                } else {
                    Ok(n as u32)
                },
                None => Err(refuse("range bound is not a constant")),
            },
            None => Err(unsupported_item("unsupported unpacked dimension")),
        }
    }

    /// The node that names what a declarator declares.
    fn declared_name(&self, a: usize, net: bool) -> (r: Option<usize>)
        requires
            self.inv(),
            a < self.syntax().nodes.len(),
        ensures
            ({
                let expected = self.syntax().find(
                    a as int,
                    model::name_kinds(
                        if net {
                            SvOpKind::WireDecl
                        } else {
                            SvOpKind::LogicDecl
                        },
                    ),
                );
                match r {
                    Some(id) => expected == Some(id as int) && id < self.syntax().nodes.len(),
                    None => expected is None,
                }
            }),
    {
        let first = if net {
            NodeKind::NetIdentifier
        } else {
            NodeKind::VariableIdentifier
        };
        let kinds = [first, NodeKind::SimpleIdentifier, NodeKind::EscapedIdentifier];
        assert(kinds@ =~= seq![first, NodeKind::SimpleIdentifier, NodeKind::EscapedIdentifier]);
        self.tree.find(a, &kinds)
    }

    /// What a declarator declares.
    fn declarator(&self, a: usize, kind: SvOpKind, width: u32) -> (r: Result<Declarator, SvError>)
        requires
            self.inv(),
            a < self.syntax().nodes.len(),
        ensures
            match model::declarator(self.syntax(), a as int, kind, width) {
                Ok(d) => r matches Ok(x) && x@ == d,
                Err(e) => r matches Err(x) && x@ == e,
            },
    {
        let net: bool = kind == SvOpKind::WireDecl;
        let id = match self.declared_name(a, net) {
            Some(id) => id,
            None => {
                return if net {
                    Err(refuse("net declaration missing identifier"))
                } else {
                    Err(refuse("data declaration missing identifier"))
                };
            },
        };
        let name = self.tree.node_text(id);
        let values = self.tree.kids(a, NodeKind::Expression);
        let dimensions = self.tree.kids(a, NodeKind::Dimension);
        assert(query::places(values@).len() == values@.len());
        assert(query::places(dimensions@).len() == dimensions@.len());
        if !net && values.len() > 0 {
            return Err(unsupported_item("unsupported initial value"));
        }
        if dimensions.len() == 0 {
            return Ok(Declarator { kind, name, ty: SvType::Integer { width } });
        }
        if net || dimensions.len() > 1 {
            return Err(unsupported_item("unsupported unpacked dimension"));
        }
        assert(query::places(dimensions@)[0] == dimensions@[0]);
        match self.dimension_depth(dimensions[0]) {
            Ok(depth) => if depth > 1 {
                Ok(
                    Declarator {
                        kind: SvOpKind::MemDecl,
                        name,
                        ty: SvType::Memory { depth: depth as u64, width },
                    },
                )
            } else {
                Ok(Declarator { kind, name, ty: SvType::Integer { width } })
            },
            Err(e) => Err(e),
        }
    }

    /// What some declarators declare.
    fn declarators(&self, places: &Vec<usize>, kind: SvOpKind, width: u32) -> (r: Result<
        Vec<Declarator>,
        SvError,
    >)
        requires
            self.inv(),
            forall|k: int|
                0 <= k < places@.len() ==> #[trigger] places@[k] < self.syntax().nodes.len(),
        ensures
            match model::declarators(
                self.syntax(),
                query::places(places@),
                kind,
                width,
                places@.len(),
            ) {
                Ok(list) => r matches Ok(x) && declared_views(x@) == list,
                Err(e) => r matches Err(x) && x@ == e,
            },
    {
        let ghost t = self.syntax();
        let ghost at = query::places(places@);
        assert forall|k: int| 0 <= k < places@.len() implies at[k] == #[trigger] places@[k] by {}
        let mut list: Vec<Declarator> = Vec::new();
        let mut k: usize = 0;
        assert(declared_views(list@) =~= Seq::<model::Declared>::empty());
        while k < places.len()
            invariant
                self.inv(),
                t == self.syntax(),
                at == query::places(places@),
                forall|x: int|
                    0 <= x < places@.len() ==> #[trigger] places@[x] < t.nodes.len() && at[x]
                        == places@[x],
                k <= places@.len(),
                model::declarators(t, at, kind, width, k as nat) == Ok::<
                    Seq<model::Declared>,
                    Seq<char>,
                >(declared_views(list@)),
            decreases places@.len() - k,
        {
            let ghost before = list@;
            match self.declarator(places[k], kind, width) {
                Ok(d) => {
                    list.push(d);
                    assert(declared_views(list@) =~= declared_views(before).push(d@));
                },
                Err(e) => {
                    proof {
                        lemma_declarators_fail(t, at, kind, width, (k + 1) as nat, places@.len());
                    }
                    return Err(e);
                },
            }
            k += 1;
        }
        Ok(list)
    }

    /// What a net declaration declares: `wire [7:0] w;`.
    fn net_declared(&self, i: usize) -> (r: Result<Vec<Declarator>, SvError>)
        requires
            self.inv(),
            i < self.syntax().nodes.len(),
        ensures
            match model::net_declared(self.syntax(), i as int) {
                Ok(list) => r matches Ok(x) && declared_views(x@) == list,
                Err(e) => r matches Err(x) && x@ == e,
            },
    {
        if self.has(i, NodeKind::Delay) {
            return Err(unsupported_item("unsupported delay or strength"));
        }
        let width: u32 = match self.type_width(i) {
            Ok(w) => w,
            Err(e) => {
                return Err(e);
            },
        };
        let places = self.tree.all_of(i, NodeKind::NetDeclAssignment);
        assert(query::places(places@).len() == places@.len());
        if places.len() == 0 {
            return Err(refuse("net declaration missing identifier"));
        }
        self.declarators(&places, SvOpKind::WireDecl, width)
    }

    /// Whether a data declaration declares registers.
    fn is_register(&self, i: usize) -> (r: bool)
        requires
            self.inv(),
            i < self.syntax().nodes.len(),
        ensures
            r == model::is_register(self.syntax(), i as int),
    {
        let kinds = [NodeKind::VectorType];
        assert(kinds@ =~= seq![NodeKind::VectorType]);
        match self.tree.find(i, &kinds) {
            Some(v) => self.token_is(v, "reg"),
            None => false,
        }
    }

    /// Whether the first token of a node is a word.
    fn token_is(&self, i: usize, word: &str) -> (r: bool)
        requires
            self.inv(),
            i < self.syntax().nodes.len(),
        ensures
            r == (self.syntax().token(i as int) == word@),
    {
        let token = self.tree.token_span(i);
        let text = self.tree.string_of(token);
        same_text(text.as_str(), word)
    }

    /// What a data declaration declares: `logic [7:0] l;` or `reg [7:0] r;` or
    /// memory `logic [7:0] mem [0:15];`.
    fn data_declared(&self, i: usize) -> (r: Result<Vec<Declarator>, SvError>)
        requires
            self.inv(),
            i < self.syntax().nodes.len(),
        ensures
            match model::data_declared(self.syntax(), i as int) {
                Ok(list) => r matches Ok(x) && declared_views(x@) == list,
                Err(e) => r matches Err(x) && x@ == e,
            },
    {
        if !self.has(i, NodeKind::DataDeclarationVariable) {
            return Err(unsupported_item("unsupported data declaration"));
        }
        let width: u32 = match self.type_width(i) {
            Ok(w) => w,
            Err(e) => {
                return Err(e);
            },
        };
        let places = self.tree.all_of(i, NodeKind::VariableDeclAssignment);
        assert(query::places(places@).len() == places@.len());
        if places.len() == 0 {
            return Err(refuse("data declaration missing identifier"));
        }
        let kind = if self.is_register(i) {
            SvOpKind::RegDecl
        } else {
            SvOpKind::LogicDecl
        };
        self.declarators(&places, kind, width)
    }

    /// What an item of a module declares.
    fn declared(&self, i: usize) -> (r: Result<Vec<Declarator>, SvError>)
        requires
            self.inv(),
            i < self.syntax().nodes.len(),
        ensures
            match model::declared(self.syntax(), i as int) {
                Ok(list) => r matches Ok(x) && declared_views(x@) == list,
                Err(e) => r matches Err(x) && x@ == e,
            },
    {
        let none: Vec<Declarator> = Vec::new();
        assert(declared_views(none@) =~= Seq::<model::Declared>::empty());
        if self.has(i, NodeKind::OtherItem) || self.has(i, NodeKind::ContinuousAssign) {
            return Ok(none);
        }
        let nets = [NodeKind::NetDeclaration];
        assert(nets@ =~= seq![NodeKind::NetDeclaration]);
        if let Some(d) = self.tree.find(i, &nets) {
            return self.net_declared(d);
        }
        let data = [NodeKind::DataDeclaration];
        assert(data@ =~= seq![NodeKind::DataDeclaration]);
        match self.tree.find(i, &data) {
            Some(d) => self.data_declared(d),
            None => Ok(none),
        }
    }

    /// Add the declarations of an item of a module.
    fn lower_declarations(&mut self, i: usize) -> (r: Result<(), SvError>)
        requires
            old(self).inv(),
            i < old(self).syntax().nodes.len(),
        ensures
            final(self).inv(),
            final(self).same_setting(old(self)),
            match model::declared(old(self).syntax(), i as int) {
                Ok(list) => r is Ok && final(self).state() == model::declare_all(
                    old(self).state(),
                    list,
                ),
                Err(e) => r matches Err(x) && x@ == e && final(self).state() == old(self).state(),
            },
    {
        let list = match self.declared(i) {
            Ok(list) => list,
            Err(e) => {
                return Err(e);
            },
        };
        let ghost all = declared_views(list@);
        let ghost start = self.state();
        let mut k: usize = 0;
        assert(all.take(0) =~= Seq::<model::Declared>::empty());
        while k < list.len()
            invariant
                self.inv(),
                self.same_setting(old(self)),
                all == declared_views(list@),
                k <= list@.len(),
                self.state() == model::declare_all(start, all.take(k as int)),
            decreases list@.len() - k,
        {
            proof {
                assert(all.take(k + 1).drop_last() =~= all.take(k as int));
                assert(all.take(k + 1).last() == list@[k as int]@);
            }
            self.define(list[k].kind, list[k].name.clone(), Vec::new(), list[k].ty);
            k += 1;
        }
        assert(all.take(k as int) =~= all);
        Ok(())
    }

    /// The declarator of a net declaration that has an initial value.
    fn net_value(&self, i: usize) -> (r: Result<Option<usize>, SvError>)
        requires
            self.inv(),
            i < self.syntax().nodes.len(),
        ensures
            match model::net_value(self.syntax(), i as int) {
                Ok(Some(a)) => r matches Ok(Some(x)) && x == a && a < self.syntax().nodes.len()
                    && self.syntax().kids(a, NodeKind::Expression).len() > 0,
                Ok(None) => r matches Ok(None),
                Err(e) => r matches Err(x) && x@ == e,
            },
    {
        let ghost t = self.syntax();
        let places = self.tree.all_of(i, NodeKind::NetDeclAssignment);
        let ghost at = query::places(places@);
        assert forall|k: int| 0 <= k < places@.len() implies at[k] == #[trigger] places@[k] by {}
        let mut k: usize = 0;
        while k < places.len()
            invariant
                self.inv(),
                t == self.syntax(),
                i < t.nodes.len(),
                at == query::places(places@),
                at == model::all(t, i as int, NodeKind::NetDeclAssignment),
                forall|x: int|
                    0 <= x < places@.len() ==> #[trigger] places@[x] < t.nodes.len() && at[x]
                        == places@[x],
                k <= places@.len(),
                forall|x: int|
                    0 <= x < k ==> t.kids(#[trigger] at[x], NodeKind::Expression).len() == 0,
            decreases places@.len() - k,
        {
            let values = self.tree.kids(places[k], NodeKind::Expression);
            assert(query::places(values@).len() == values@.len());
            assert(at[k as int] == places@[k as int]);
            if values.len() > 0 {
                return if places.len() == 1 {
                    Ok(Some(places[0]))
                } else {
                    Err(unsupported_item("unsupported list of assignments"))
                };
            }
            k += 1;
        }
        Ok(None)
    }

    /// Lower a net declaration, which has been declared: its initial value.
    fn lower_net_declaration(&mut self, i: usize) -> (r: Result<(), SvError>)
        requires
            old(self).inv(),
            i < old(self).syntax().nodes.len(),
        ensures
            final(self).inv(),
            final(self).same_setting(old(self)),
            advanced_to(
                r,
                old(self).state(),
                final(self).state(),
                model::net_declaration(old(self).syntax(), old(self).state(), i as int),
            ),
    {
        let a = match self.net_value(i) {
            Ok(Some(a)) => a,
            Ok(None) => {
                return Ok(());
            },
            Err(e) => {
                return Err(e);
            },
        };
        let id = match self.declared_name(a, true) {
            Some(id) => id,
            None => {
                return Err(refuse("net declaration missing identifier"));
            },
        };
        let name = self.tree.node_text(id);
        let values = self.tree.kids(a, NodeKind::Expression);
        assert(query::places(values@).len() == values@.len());
        assert(query::places(values@)[0] == values@[0]);
        self.lower_drive(SvOpKind::Assign, name, values[0])
    }

    /// Extract target identifier and expression from a procedural statement.
    fn extract_assignment_from_statement(&self, i: usize) -> (r: Result<(String, usize), SvError>)
        requires
            self.inv(),
            i < self.syntax().nodes.len(),
        ensures
            parts_found(
                r,
                model::assignment_in(self.syntax(), i as int),
                self.syntax().nodes.len() as int,
            ),
    {
        let kinds = [NodeKind::ProceduralAssignment];
        assert(kinds@ =~= seq![NodeKind::ProceduralAssignment]);
        let a = match self.tree.find(i, &kinds) {
            Some(a) => a,
            None => {
                return Err(refuse("cannot find assignment inside procedural block"));
            },
        };
        let operators = self.tree.kids(a, NodeKind::AssignmentOperator);
        assert(query::places(operators@).len() == operators@.len());
        if operators.len() > 0 {
            assert(query::places(operators@)[0] == operators@[0]);
            if !self.token_is(operators[0], "=") {
                return Err(unsupported_item("unsupported assignment operator"));
            }
        }
        self.assigned(
            a,
            NodeKind::VariableLvalue,
            "cannot find assignment inside procedural block",
        )
    }

    /// Whether a statement consists of some assignments and conditional statements.
    fn consists_of(&self, i: usize, assignments: usize, conditionals: usize) -> (r: bool)
        requires
            self.inv(),
            i < self.syntax().nodes.len(),
        ensures
            r == model::consists_of(
                self.syntax(),
                i as int,
                assignments as nat,
                conditionals as nat,
            ),
    {
        let kinds = [NodeKind::BlockItemDeclaration, NodeKind::Delay];
        assert(kinds@ =~= seq![NodeKind::BlockItemDeclaration, NodeKind::Delay]);
        if self.tree.find(i, &kinds).is_some() {
            return false;
        }
        let assigned: usize = self.count(i, NodeKind::ProceduralAssignment);
        let tested: usize = self.count(i, NodeKind::ConditionalStatement);
        let statements: usize = self.count(i, NodeKind::StatementItem);
        let blocks: usize = self.count(i, NodeKind::SeqBlock);
        let timings: usize = self.count(i, NodeKind::ProceduralTimingControlStatement);
        assigned == assignments && tested == conditionals && statements as u128 == assigned as u128
            + tested as u128 + blocks as u128 + timings as u128
    }

    /// Lower `always_comb begin target = expr; end`.
    fn lower_always_comb(&mut self, i: usize) -> (r: Result<(), SvError>)
        requires
            old(self).inv(),
            i < old(self).syntax().nodes.len(),
        ensures
            final(self).inv(),
            final(self).same_setting(old(self)),
            advanced_to(
                r,
                old(self).state(),
                final(self).state(),
                model::always_comb(old(self).syntax(), old(self).state(), i as int),
            ),
    {
        let (target, value) = match self.extract_assignment_from_statement(i) {
            Ok(parts) => parts,
            Err(e) => {
                return Err(e);
            },
        };
        let timings: usize = self.count(i, NodeKind::ProceduralTimingControlStatement);
        if !self.consists_of(i, 1, 0) || timings > 0 {
            return Err(unsupported_item("unsupported procedural statement"));
        }
        self.lower_drive(SvOpKind::AlwaysComb, target, value)
    }
}

/// A reset: the signal that it is, and whether it is active when low.
pub struct ResetEvent {
    pub name: String,
    pub active_low: bool,
}

/// What a reset says.
pub open spec fn reset_view(r: Option<ResetEvent>) -> Option<(Seq<char>, bool)> {
    match r {
        Some(e) => Some((e.name@, e.active_low)),
        None => None,
    }
}

impl<'a> SvModuleLowerer<'a> {
    /// The signal of an event of a sensitivity list.
    fn event_signal(&self, e: usize) -> (r: Result<String, SvError>)
        requires
            self.inv(),
            e < self.syntax().nodes.len(),
        ensures
            match model::event_signal(self.syntax(), e as int) {
                Ok(name) => r matches Ok(x) && x@ == name,
                Err(m) => r matches Err(x) && x@ == m,
            },
    {
        let signals = self.tree.kids(e, NodeKind::Expression);
        assert(query::places(signals@).len() == signals@.len());
        if signals.len() != 1 {
            return Err(unsupported_item("unsupported event"));
        }
        assert(query::places(signals@)[0] == signals@[0]);
        Ok(self.tree.node_text(signals[0]))
    }

    /// The edge of an event.
    fn event_edge(&self, e: usize) -> (r: String)
        requires
            self.inv(),
            e < self.syntax().nodes.len(),
        ensures
            r@ == model::event_edge(self.syntax(), e as int),
    {
        let edges = self.tree.kids(e, NodeKind::EdgeIdentifier);
        assert(query::places(edges@).len() == edges@.len());
        if edges.len() > 0 {
            assert(query::places(edges@)[0] == edges@[0]);
            let token = self.tree.token_span(edges[0]);
            self.tree.string_of(token)
        } else {
            String::new()
        }
    }

    /// Extract clock and optional reset event details from sensitivity event
    /// control.
    pub fn extract_clock_and_reset_events(&self, i: usize) -> (r: Result<
        (String, Option<ResetEvent>),
        SvError,
    >)
        requires
            self.inv(),
            i < self.syntax().nodes.len(),
        ensures
            match model::sensitivity(self.syntax(), i as int) {
                Ok((clock, event)) => r matches Ok(x) && x.0@ == clock && reset_view(x.1) == event,
                Err(e) => r matches Err(x) && x@ == e,
            },
    {
        let events = self.tree.all_of(i, NodeKind::Event);
        let n: usize = events.len();
        assert(query::places(events@).len() == events@.len());
        if n > 2 || self.has(i, NodeKind::OtherEvent) {
            return Err(unsupported_item("unsupported event"));
        }
        if n == 0 {
            return Err(refuse("cannot extract clock from sensitivity list"));
        }
        assert(query::places(events@)[0] == events@[0]);
        let clock = match self.event_signal(events[0]) {
            Ok(name) => name,
            Err(e) => {
                return Err(e);
            },
        };
        let edge = self.event_edge(events[0]);
        if !same_text(edge.as_str(), "posedge") {
            return Err(unsupported_item("unsupported clock edge"));
        }
        if n == 1 {
            return Ok((clock, None));
        }
        assert(query::places(events@)[1] == events@[1]);
        let name = match self.event_signal(events[1]) {
            Ok(name) => name,
            Err(e) => {
                return Err(e);
            },
        };
        let edge = self.event_edge(events[1]);
        if same_text(edge.as_str(), "negedge") {
            Ok((clock, Some(ResetEvent { name, active_low: true })))
        } else if same_text(edge.as_str(), "posedge") {
            Ok((clock, Some(ResetEvent { name, active_low: false })))
        } else {
            Err(unsupported_item("unsupported reset edge"))
        }
    }

    /// The reset that the condition of a statement names.
    fn extract_reset_condition(&self, i: usize) -> (r: Result<ResetEvent, SvError>)
        requires
            self.inv(),
            i < self.syntax().nodes.len(),
        ensures
            match model::condition_reset(self.syntax(), i as int) {
                Ok((name, low)) => r matches Ok(x) && x.name@ == name && x.active_low == low,
                Err(e) => r matches Err(x) && x@ == e,
            },
    {
        let symbols = self.tree.kids(i, NodeKind::Symbol);
        if symbols.len() < 2 {
            return Err(refuse("cannot extract reset condition"));
        }
        proof {
            assert(query::places(symbols@)[0] == symbols@[0]);
            assert(query::places(symbols@)[1] == symbols@[1]);
            self.tree.lemma_end(symbols@[1] as int);
            self.tree.lemma_kids_ordered(i as int, NodeKind::Symbol, 0, 1);
        }
        let brackets: Vec<char> = vec!['(', ')'];
        assert(brackets@ =~= seq!['(', ')']);
        let src = &self.tree.source;
        let whole = self.tree.span_between(symbols[0], self.tree.nodes[symbols[1]].end);
        let inner = trim_set_span(src, whole, &brackets);
        let text = trim_span(src, inner);
        if text.from < text.to && (src[text.from] == '!' || src[text.from] == '~') {
            assert(text.of(src@)[0] == src@[text.from as int]);
            let positive = Span { from: text.from + 1, to: text.to };
            assert(positive.of(src@) =~= text.of(src@).skip(1));
            let unbracketed = trim_set_span(src, trim_span(src, positive), &brackets);
            let name = trim_span(src, unbracketed);
            Ok(ResetEvent { name: self.tree.string_of(name), active_low: true })
        } else {
            proof {
                if text.from < text.to {
                    assert(text.of(src@)[0] == src@[text.from as int]);
                }
            }
            Ok(ResetEvent { name: self.tree.string_of(text), active_low: false })
        }
    }

    /// Extract reset and next-state assignments from a conditional statement.
    fn extract_if_else_assignments(&self, i: usize) -> (r: Result<(String, usize, usize), SvError>)
        requires
            self.inv(),
            i < self.syntax().nodes.len(),
        ensures
            match model::branch_assignments(self.syntax(), i as int) {
                Ok((target, at_reset, next)) => r matches Ok(x) && x.0@ == target && x.1 == at_reset
                    && x.2 == next && at_reset < self.syntax().nodes.len() && next
                    < self.syntax().nodes.len(),
                Err(e) => r matches Err(x) && x@ == e,
            },
    {
        let branches = self.tree.kids(i, NodeKind::StatementOrNull);
        let n: usize = branches.len();
        if n == 0 {
            return Err(refuse("expected ConditionalStatement"));
        }
        assert(query::places(branches@)[0] == branches@[0]);
        assert(query::places(branches@)[n - 1] == branches@[n - 1]);
        let (target, at_reset) = match self.extract_assignment_from_statement(branches[0]) {
            Ok(parts) => parts,
            Err(e) => {
                return Err(e);
            },
        };
        let keywords = self.tree.kids(i, NodeKind::Keyword);
        if keywords.len() % 2 == 1 {
            return Err(refuse("conditional statement missing else branch"));
        }
        let (other, next) = match self.extract_assignment_from_statement(branches[n - 1]) {
            Ok(parts) => parts,
            Err(e) => {
                return Err(e);
            },
        };
        if n != 2 {
            return Err(unsupported_item("unsupported conditional statement"));
        }
        if target != other {
            return Err(
                SvError {
                    message: "reset target '".to_owned().concat(target.as_str()).concat(
                        "' does not match next-state target '",
                    ).concat(other.as_str()).concat("'"),
                },
            );
        }
        Ok((target, at_reset, next))
    }

    /// Lower `always_ff @(posedge clk ...)`, with or without a reset.
    fn lower_always_ff(&mut self, i: usize) -> (r: Result<(), SvError>)
        requires
            old(self).inv(),
            i < old(self).syntax().nodes.len(),
        ensures
            final(self).inv(),
            final(self).same_setting(old(self)),
            advanced_to(
                r,
                old(self).state(),
                final(self).state(),
                model::always_ff(old(self).syntax(), old(self).state(), i as int),
            ),
    {
        let timings = [NodeKind::ProceduralTimingControlStatement];
        assert(timings@ =~= seq![NodeKind::ProceduralTimingControlStatement]);
        let p = match self.tree.find(i, &timings) {
            Some(p) => p,
            None => {
                return Err(refuse("always_ff requires timing control"));
            },
        };
        let controls = self.tree.kids(p, NodeKind::ProceduralTimingControl);
        if controls.len() == 0 {
            return Err(refuse("invalid procedural timing statement"));
        }
        assert(query::places(controls@)[0] == controls@[0]);
        let (clock, event) = match self.extract_clock_and_reset_events(controls[0]) {
            Ok(events) => events,
            Err(e) => {
                return Err(e);
            },
        };
        let clk = match self.clock_value(clock.as_str()) {
            Ok(v) => v,
            Err(e) => {
                return Err(e);
            },
        };
        let conditionals = [NodeKind::ConditionalStatement];
        assert(conditionals@ =~= seq![NodeKind::ConditionalStatement]);
        match self.tree.find(i, &conditionals) {
            Some(c) => self.lower_ff_with_reset(i, c, clk, event),
            None => if event.is_some() {
                Err(unsupported_item("the reset is not used"))
            } else {
                self.lower_ff_without_reset(i, clk)
            },
        }
    }

    /// The value of a clock.
    fn clock_value(&self, name: &str) -> (r: Result<usize, SvError>)
        requires
            self.inv(),
        ensures
            value_outcome(r) == model::clock_value(self.state(), name@),
            r matches Ok(v) ==> v < self.body().types.len(),
    {
        let v = match self.resolve_val(name) {
            Ok(v) => v,
            Err(e) => {
                return Err(e);
            },
        };
        match self.types[v] {
            SvType::Clock => Ok(v),
            SvType::Integer { width } if width == 1 => Ok(v),
            _ => Err(refuse("the clock is not a single bit")),
        }
    }

    /// Lower a clocked statement without a reset.
    fn lower_ff_without_reset(&mut self, i: usize, clk: usize) -> (r: Result<(), SvError>)
        requires
            old(self).inv(),
            i < old(self).syntax().nodes.len(),
            clk < old(self).body().types.len(),
        ensures
            final(self).inv(),
            final(self).same_setting(old(self)),
            advanced_to(
                r,
                old(self).state(),
                final(self).state(),
                model::without_reset(old(self).syntax(), old(self).state(), i as int, clk),
            ),
    {
        let (target, value) = match self.extract_assignment_from_statement(i) {
            Ok(parts) => parts,
            Err(e) => {
                return Err(e);
            },
        };
        let timings: usize = self.count(i, NodeKind::ProceduralTimingControlStatement);
        if !self.consists_of(i, 1, 0) || timings != 1 {
            return Err(unsupported_item("unsupported procedural statement"));
        }
        let v = match self.lower_expression(value) {
            Ok(v) => v,
            Err(e) => {
                return Err(e);
            },
        };
        let ty = self.types[v];
        let operands = pair(clk, v);
        self.define(SvOpKind::AlwaysFfNoReset, target, operands, ty);
        Ok(())
    }

    /// Lower a clocked conditional statement.
    fn lower_ff_with_reset(
        &mut self,
        i: usize,
        c: usize,
        clk: usize,
        event: Option<ResetEvent>,
    ) -> (r: Result<(), SvError>)
        requires
            old(self).inv(),
            i < old(self).syntax().nodes.len(),
            c < old(self).syntax().nodes.len(),
            clk < old(self).body().types.len(),
        ensures
            final(self).inv(),
            final(self).same_setting(old(self)),
            advanced_to(
                r,
                old(self).state(),
                final(self).state(),
                model::with_reset(
                    old(self).syntax(),
                    old(self).state(),
                    i as int,
                    c as int,
                    clk,
                    reset_view(event),
                ),
            ),
    {
        let is_async: bool = event.is_some();
        let reset = match self.extract_reset_condition(c) {
            Ok(e) => e,
            Err(e) => {
                return Err(e);
            },
        };
        if let Some(e) = &event {
            if e.name != reset.name || e.active_low != reset.active_low {
                return Err(unsupported_item("the condition is not that of the reset"));
            }
        }
        let rst = match self.resolve_val(reset.name.as_str()) {
            Ok(v) => v,
            Err(e) => {
                return Err(e);
            },
        };
        let (target, at_reset, next) = match self.extract_if_else_assignments(c) {
            Ok(parts) => parts,
            Err(e) => {
                return Err(e);
            },
        };
        let timings: usize = self.count(i, NodeKind::ProceduralTimingControlStatement);
        if !self.consists_of(i, 2, 1) || timings != 1 {
            return Err(unsupported_item("unsupported procedural statement"));
        }
        let ops: usize = self.ops.len();
        let types: usize = self.types.len();
        let reset_value = match self.lower_expression(at_reset) {
            Ok(v) => v,
            Err(e) => {
                return Err(e);
            },
        };
        let next_value = match self.lower_expression(next) {
            Ok(v) => v,
            Err(e) => {
                self.restore(ops, types, Ghost(*old(self)));
                return Err(e);
            },
        };
        let ty = self.types[next_value];
        let mut operands = pair(clk, next_value);
        operands.push(rst);
        operands.push(reset_value);
        assert(operands@ =~= seq![clk, next_value, rst, reset_value]);
        self.define(
            SvOpKind::AlwaysFf { is_async, active_low: reset.active_low },
            target,
            operands,
            ty,
        );
        Ok(())
    }

    /// Lower procedural blocks: `always_comb` and `always_ff`.
    fn lower_always_construct(&mut self, i: usize) -> (r: Result<(), SvError>)
        requires
            old(self).inv(),
            i < old(self).syntax().nodes.len(),
        ensures
            final(self).inv(),
            final(self).same_setting(old(self)),
            advanced_to(
                r,
                old(self).state(),
                final(self).state(),
                model::always_construct(old(self).syntax(), old(self).state(), i as int),
            ),
    {
        let keywords = self.tree.kids(i, NodeKind::AlwaysKeyword);
        let statements = self.tree.kids(i, NodeKind::Statement);
        if keywords.len() == 0 || statements.len() == 0 {
            return Err(refuse("expected AlwaysConstruct"));
        }
        assert(query::places(keywords@)[0] == keywords@[0]);
        assert(query::places(statements@)[0] == statements@[0]);
        if self.token_is(keywords[0], "always_comb") {
            self.lower_always_comb(statements[0])
        } else if self.token_is(keywords[0], "always_ff") {
            self.lower_always_ff(statements[0])
        } else {
            Err(unsupported_item("unsupported always construct type"))
        }
    }
}

impl<'a> SvModuleLowerer<'a> {
    /// The value that a node connects to a port, where it connects one.
    fn lower_connection(&mut self, j: usize) -> (r: Result<Option<usize>, SvError>)
        requires
            old(self).inv(),
            j < old(self).syntax().nodes.len(),
        ensures
            final(self).inv(),
            final(self).same_frame(old(self)),
            match model::connection(
                old(self).syntax(),
                old(self).names(),
                old(self).body(),
                j as int,
            ) {
                Ok((b, v)) => r == Ok::<Option<usize>, SvError>(v) && final(self).body() == b && (
                v matches Some(x) ==> x < b.types.len()),
                Err(e) => r matches Err(x) && x@ == e,
            },
    {
        let kind = self.tree.nodes[j].kind;
        if kind == NodeKind::NamedPortConnectionAsterisk {
            return Err(unsupported_item("unsupported port connection"));
        }
        if kind != NodeKind::OrderedPortConnection && kind
            != NodeKind::NamedPortConnectionIdentifier {
            return Ok(None);
        }
        let values = self.tree.kids(j, NodeKind::Expression);
        let symbols = self.tree.kids(j, NodeKind::Symbol);
        assert(query::places(symbols@).len() == symbols@.len());
        assert(query::places(values@).len() == values@.len());
        if kind == NodeKind::OrderedPortConnection || symbols.len() >= 2 {
            if values.len() == 0 {
                return Ok(None);
            }
            assert(query::places(values@)[0] == values@[0]);
            match self.lower_expression(values[0]) {
                Ok(v) => Ok(Some(v)),
                Err(e) => Err(e),
            }
        } else {
            let name = self.kid_text(j, NodeKind::PortIdentifier);
            match self.resolve_val(name.as_str()) {
                Ok(v) => Ok(Some(v)),
                Err(e) => Err(e),
            }
        }
    }

    /// The values that the descendants of an instance connect to its ports.
    fn lower_connections(&mut self, i: usize) -> (r: Result<Vec<usize>, SvError>)
        requires
            old(self).inv(),
            i < old(self).syntax().nodes.len(),
        ensures
            final(self).inv(),
            final(self).same_frame(old(self)),
            match model::connections(
                old(self).syntax(),
                old(self).names(),
                old(self).body(),
                i as int,
                old(self).syntax().nodes[i as int].end as int,
            ) {
                Ok((b, values)) => r matches Ok(x) && x@ == values && final(self).body() == b && (
                forall|k: int| 0 <= k < x@.len() ==> #[trigger] x@[k] < b.types.len()),
                Err(e) => r matches Err(x) && x@ == e,
            },
    {
        let ghost t = self.syntax();
        let ghost scope = self.names();
        let ghost b0 = self.body();
        proof {
            self.tree.lemma_end(i as int);
        }
        let end: usize = self.tree.nodes[i].end;
        let mut values: Vec<usize> = Vec::new();
        let mut j: usize = i;
        while j < end
            invariant
                self.inv(),
                self.same_frame(old(self)),
                t == old(self).syntax(),
                self.syntax() == t,
                self.names() == scope,
                scope == old(self).names(),
                b0 == old(self).body(),
                i < t.nodes.len(),
                end == t.nodes[i as int].end,
                i <= j <= end <= t.nodes.len(),
                model::connections(t, scope, b0, i as int, j as int) == Ok::<
                    (Body, Seq<usize>),
                    Seq<char>,
                >((self.body(), values@)),
                forall|k: int|
                    0 <= k < values@.len() ==> #[trigger] values@[k] < self.body().types.len(),
            decreases end - j,
        {
            match self.lower_connection(j) {
                Ok(Some(v)) => {
                    values.push(v);
                },
                Ok(None) => {},
                Err(e) => {
                    proof {
                        lemma_connections_fail(t, scope, b0, i as int, j + 1, end as int);
                    }
                    return Err(e);
                },
            }
            j += 1;
        }
        Ok(values)
    }

    /// Lower module instantiation: `child_module u1 (in1, in2);` or `.a(in1)`.
    fn lower_module_instantiation(&mut self, i: usize) -> (r: Result<(), SvError>)
        requires
            old(self).inv(),
            i < old(self).syntax().nodes.len(),
        ensures
            final(self).inv(),
            final(self).same_setting(old(self)),
            advanced_to(
                r,
                old(self).state(),
                final(self).state(),
                model::module_instantiation(old(self).syntax(), old(self).state(), i as int),
            ),
    {
        let ghost t = self.syntax();
        let ghost scope = self.names();
        let ghost b0 = self.body();
        if self.has(i, NodeKind::ParameterValueAssignment) {
            return Err(unsupported_item("unsupported parameter values"));
        }
        if self.has(i, NodeKind::Dimension) {
            return Err(unsupported_item("unsupported instance array"));
        }
        let ops: usize = self.ops.len();
        let types: usize = self.types.len();
        let insts = self.tree.kids(i, NodeKind::HierarchicalInstance);
        assert forall|k: int| 0 <= k < insts@.len() implies query::places(insts@)[k]
            == #[trigger] insts@[k] by {}
        let mut k: usize = 0;
        while k < insts.len()
            invariant
                self.inv(),
                self.same_frame(old(self)),
                t == old(self).syntax(),
                self.syntax() == t,
                self.names() == scope,
                scope == old(self).names(),
                b0 == old(self).body(),
                i < t.nodes.len(),
                query::places(insts@) == t.kids(i as int, NodeKind::HierarchicalInstance),
                forall|x: int|
                    0 <= x < insts@.len() ==> i < #[trigger] insts@[x] < t.nodes.len()
                        && query::places(insts@)[x] == insts@[x],
                k <= insts@.len(),
                old(self).inv(),
                t.find(i as int, seq![NodeKind::ParameterValueAssignment]) is None,
                t.find(i as int, seq![NodeKind::Dimension]) is None,
                ops == old(self).ops@.len(),
                types == old(self).types@.len(),
                model::instances(t, scope, b0, i as int, k as nat) == Ok::<Body, Seq<char>>(
                    self.body(),
                ),
            decreases insts@.len() - k,
        {
            let target_mod = self.kid_text(i, NodeKind::ModuleIdentifier);
            let inst_name = self.kid_text(insts[k], NodeKind::NameOfInstance);
            let port_vals = match self.lower_connections(insts[k]) {
                Ok(values) => values,
                Err(e) => {
                    proof {
                        lemma_instances_fail(
                            t,
                            scope,
                            b0,
                            i as int,
                            (k + 1) as nat,
                            insts@.len(),
                        );
                    }
                    self.restore(ops, types, Ghost(*old(self)));
                    return Err(e);
                },
            };
            let _ = self.emit(SvOpKind::Instance, inst_name, target_mod, port_vals, None);
            k += 1;
        }
        Ok(())
    }

    /// Lower a module body item.
    fn lower_non_port_module_item(&mut self, i: usize) -> (r: Result<(), SvError>)
        requires
            old(self).inv(),
            i < old(self).syntax().nodes.len(),
        ensures
            final(self).inv(),
            final(self).same_setting(old(self)),
            advanced_to(
                r,
                old(self).state(),
                final(self).state(),
                model::item(old(self).syntax(), old(self).state(), i as int),
            ),
    {
        proof {
            reveal(model::item);
        }
        if self.has(i, NodeKind::OtherItem) {
            return Err(unsupported_item("unsupported module item"));
        }
        let assigns = [NodeKind::ContinuousAssign];
        assert(assigns@ =~= seq![NodeKind::ContinuousAssign]);
        if let Some(a) = self.tree.find(i, &assigns) {
            return self.lower_continuous_assign(a);
        }
        let nets = [NodeKind::NetDeclaration];
        assert(nets@ =~= seq![NodeKind::NetDeclaration]);
        if let Some(d) = self.tree.find(i, &nets) {
            return self.lower_net_declaration(d);
        }
        if self.has(i, NodeKind::DataDeclaration) {
            return Ok(());
        }
        let always = [NodeKind::AlwaysConstruct];
        assert(always@ =~= seq![NodeKind::AlwaysConstruct]);
        if let Some(c) = self.tree.find(i, &always) {
            return self.lower_always_construct(c);
        }
        let instantiations = [NodeKind::ModuleInstantiation];
        assert(instantiations@ =~= seq![NodeKind::ModuleInstantiation]);
        if let Some(m) = self.tree.find(i, &instantiations) {
            return self.lower_module_instantiation(m);
        }
        Err(unsupported_item("unsupported module item"))
    }

    /// The direction of a port; where it says none, that of the port before it.
    fn port_direction(&self, i: usize, before: (bool, bool)) -> (r: Result<(bool, bool), SvError>)
        requires
            self.inv(),
            i < self.syntax().nodes.len(),
        ensures
            match model::direction(self.syntax(), i as int, before) {
                Ok(d) => r == Ok::<(bool, bool), SvError>(d),
                Err(e) => r matches Err(x) && x@ == e,
            },
    {
        let kinds = [NodeKind::PortDirection];
        assert(kinds@ =~= seq![NodeKind::PortDirection]);
        match self.tree.find(i, &kinds) {
            Some(d) => {
                if self.token_is(d, "input") {
                    Ok((true, false))
                } else if self.token_is(d, "output") {
                    Ok((false, true))
                } else if self.token_is(d, "inout") {
                    Ok((true, true))
                } else if self.token_is(d, "ref") {
                    Err(refuse("ref ports are not supported in RTL"))
                } else {
                    Ok(before)
                }
            },
            None => Ok(before),
        }
    }

    /// Lower a single ANSI port declaration.
    fn lower_single_ansi_port(&self, i: usize, prev_dir: (bool, bool)) -> (r: Result<
        ParsedPort,
        SvError,
    >)
        requires
            self.inv(),
            i < self.syntax().nodes.len(),
        ensures
            module::outcome(r) == model::port(self.syntax(), i as int, prev_dir),
    {
        let kinds = [NodeKind::PortIdentifier];
        assert(kinds@ =~= seq![NodeKind::PortIdentifier]);
        let id = match self.tree.find(i, &kinds) {
            Some(id) => id,
            None => {
                return Err(refuse("port missing identifier"));
            },
        };
        let name = self.tree.node_text(id);
        let dir = match self.port_direction(i, prev_dir) {
            Ok(d) => d,
            Err(e) => {
                return Err(e);
            },
        };
        if !self.is_plain_port(i) {
            return Err(unsupported_item("unsupported port"));
        }
        let width: u32 = match self.type_width(i) {
            Ok(w) => w,
            Err(e) => {
                return Err(e);
            },
        };
        let is_clock: bool = (same_text(name.as_str(), "clk") || same_text(name.as_str(), "clock"))
            && width == 1;
        let is_reset: bool = (same_text(name.as_str(), "rst") || same_text(name.as_str(), "reset"))
            && width == 1;
        Ok(
            ParsedPort {
                name,
                is_input: dir.0,
                is_output: dir.1,
                bit_width: width,
                is_clock,
                is_reset,
            },
        )
    }

    /// Whether a port is a signal.
    fn is_plain_port(&self, i: usize) -> (r: bool)
        requires
            self.inv(),
            i < self.syntax().nodes.len(),
        ensures
            r == model::is_plain_port(self.syntax(), i as int),
    {
        let kinds = [NodeKind::InterfacePortHeader, NodeKind::Dimension];
        assert(kinds@ =~= seq![NodeKind::InterfacePortHeader, NodeKind::Dimension]);
        if self.tree.find(i, &kinds).is_some() {
            return false;
        }
        proof {
            self.tree.lemma_end(i as int);
        }
        if i + 1 >= self.tree.nodes[i].end {
            return true;
        }
        let values = self.tree.kids(i + 1, NodeKind::Expression);
        assert(query::places(values@).len() == values@.len());
        values.len() == 0
    }

    /// Parse ANSI port list into structured `ParsedPort` vector.
    fn lower_ansi_port_list(&self, list: usize) -> (r: Result<Vec<ParsedPort>, SvError>)
        requires
            self.inv(),
            list < self.syntax().nodes.len(),
        ensures
            match model::ports(
                self.syntax(),
                query::all_from(
                    self.syntax().nodes,
                    list as int,
                    self.syntax().nodes[list as int].end as int,
                    NodeKind::AnsiPortDeclaration,
                ),
                query::all_from(
                    self.syntax().nodes,
                    list as int,
                    self.syntax().nodes[list as int].end as int,
                    NodeKind::AnsiPortDeclaration,
                ).len(),
            ) {
                Ok(ports) => r matches Ok(x) && module::port_views(x@) == ports,
                Err(e) => r matches Err(x) && x@ == e,
            },
    {
        let ghost t = self.syntax();
        let places = self.tree.all_of(list, NodeKind::AnsiPortDeclaration);
        let ghost all = query::places(places@);
        assert forall|k: int| 0 <= k < places@.len() implies all[k] == #[trigger] places@[k] by {}
        let mut ports: Vec<ParsedPort> = Vec::new();
        let mut prev_dir: (bool, bool) = (true, false);
        let mut k: usize = 0;
        assert(module::port_views(ports@) =~= Seq::<module::PortView>::empty());
        while k < places.len()
            invariant
                self.inv(),
                t == self.syntax(),
                all == query::places(places@),
                all == query::all_from(
                    t.nodes,
                    list as int,
                    t.nodes[list as int].end as int,
                    NodeKind::AnsiPortDeclaration,
                ),
                forall|x: int|
                    0 <= x < places@.len() ==> #[trigger] places@[x] < t.nodes.len() && all[x]
                        == places@[x],
                k <= places@.len(),
                model::ports(t, all, k as nat) == Ok::<Seq<module::PortView>, Seq<char>>(
                    module::port_views(ports@),
                ),
                prev_dir == model::last_direction(module::port_views(ports@)),
            decreases places@.len() - k,
        {
            let ghost before = ports@;
            match self.lower_single_ansi_port(places[k], prev_dir) {
                Ok(p) => {
                    prev_dir = (p.is_input, p.is_output);
                    ports.push(p);
                    assert(module::port_views(ports@) =~= module::port_views(before).push(p@));
                },
                Err(e) => {
                    proof {
                        lemma_ports_fail(t, all, (k + 1) as nat, all.len());
                    }
                    return Err(e);
                },
            }
            k += 1;
        }
        Ok(ports)
    }

    /// Takes over the ports of the module, and binds the inputs to the scope.
    fn bind_ports(&mut self, ports: Vec<ParsedPort>)
        requires
            old(self).inv(),
            old(self).names() == Map::<Seq<char>, usize>::empty(),
            old(self).inputs() == 0,
            old(self).body().ops.len() == 0,
            old(self).body().types.len() == 0,
        ensures
            final(self).inv(),
            final(self).syntax() == old(self).syntax(),
            final(self).port_list() == module::port_views(ports@),
            final(self).inputs() == model::input_types(module::port_views(ports@)).len(),
            final(self).state() == (model::State {
                body: Body {
                    ops: Seq::empty(),
                    types: model::input_types(module::port_views(ports@)),
                },
                scope: model::input_scope(module::port_views(ports@)),
            }),
    {
        let ghost all = module::port_views(ports@);
        let mut k: usize = 0;
        assert(all.take(0) =~= Seq::<module::PortView>::empty());
        assert(self.types@ =~= model::input_types(all.take(0)));
        while k < ports.len()
            invariant
                self.tree == old(self).tree,
                self.tree.wf(),
                self.ops@.len() == 0,
                all == module::port_views(ports@),
                k <= ports@.len(),
                self.types@ == model::input_types(all.take(k as int)),
                self.scope@ == model::input_scope(all.take(k as int)),
                forall|name: Seq<char>| #[trigger]
                    self.scope@.dom().contains(name) ==> self.scope@[name] < self.types@.len(),
            decreases ports@.len() - k,
        {
            proof {
                assert(all.take(k + 1).drop_last() =~= all.take(k as int));
                assert(all.take(k + 1).last() == ports@[k as int]@);
            }
            if ports[k].is_input {
                let ty = if ports[k].is_clock {
                    SvType::Clock
                } else if ports[k].is_reset {
                    SvType::Reset
                } else {
                    SvType::Integer { width: ports[k].bit_width }
                };
                let v: usize = self.types.len();
                self.scope.insert(ports[k].name.clone(), v);
                self.types.push(ty);
            }
            k += 1;
        }
        assert(all.take(k as int) =~= all);
        self.num_inputs = self.types.len();
        self.ports = ports;
        proof {
            reveal(module::in_ssa_form);
            assert(self.body().ops =~= Seq::<module::OpView>::empty());
        }
    }

    /// Finalize module output ports with an output operation.
    fn finalize_outputs(&mut self) -> (r: Result<(), SvError>)
        requires
            old(self).inv(),
        ensures
            final(self).inv(),
            final(self).same_frame(old(self)),
            match model::outputs(
                old(self).names(),
                old(self).body(),
                old(self).port_list(),
                old(self).port_list().len(),
            ) {
                Ok((b, values)) => r is Ok && final(self).body() == model::emit(
                    b,
                    SvOpKind::Output,
                    Seq::empty(),
                    Seq::empty(),
                    values,
                    None,
                ),
                Err(e) => r matches Err(x) && x@ == e,
            },
    {
        let ghost scope = self.names();
        let ghost b0 = self.body();
        let ghost list = self.port_list();
        let mut values: Vec<usize> = Vec::new();
        let mut k: usize = 0;
        while k < self.ports.len()
            invariant
                self.inv(),
                self.same_frame(old(self)),
                scope == old(self).names(),
                self.names() == scope,
                b0 == old(self).body(),
                list == old(self).port_list(),
                self.port_list() == list,
                k <= list.len(),
                model::outputs(scope, b0, list, k as nat) == Ok::<(Body, Seq<usize>), Seq<char>>(
                    (self.body(), values@),
                ),
                forall|x: int|
                    0 <= x < values@.len() ==> #[trigger] values@[x] < self.body().types.len(),
            decreases list.len() - k,
        {
            assert(list[k as int] == self.ports@[k as int]@);
            if self.ports[k].is_output {
                let width: u32 = self.ports[k].bit_width;
                let found = self.scope.get(self.ports[k].name.as_str());
                match found {
                    Some(v) => {
                        values.push(v);
                    },
                    None => match self.lower_constant(0, width) {
                        Ok(v) => {
                            values.push(v);
                        },
                        Err(e) => {
                            proof {
                                lemma_outputs_fail(scope, b0, list, (k + 1) as nat, list.len());
                            }
                            return Err(e);
                        },
                    },
                }
            }
            k += 1;
        }
        let _ = self.emit(SvOpKind::Output, String::new(), String::new(), values, None);
        Ok(())
    }
}

/// There are not more nodes of a kind than nodes that were searched.
proof fn lemma_count(nodes: Seq<cst::CstNode>, j: int, end: int, kind: NodeKind)
    requires
        0 <= j <= end,
    ensures
        query::all_from(nodes, j, end, kind).len() <= end - j,
    decreases end - j,
{
    if !(j >= end || j >= nodes.len()) {
        lemma_count(nodes, j + 1, end, kind);
    }
}

/// What fails at some declarator fails in the end.
proof fn lemma_declarators_fail(
    t: model::Tree,
    places: Seq<int>,
    kind: SvOpKind,
    width: u32,
    k: nat,
    n: nat,
)
    requires
        k <= n,
        model::declarators(t, places, kind, width, k) is Err,
    ensures
        model::declarators(t, places, kind, width, n) == model::declarators(
            t,
            places,
            kind,
            width,
            k,
        ),
    decreases n,
{
    if k < n {
        lemma_declarators_fail(t, places, kind, width, k, (n - 1) as nat);
    }
}

/// What fails at some declaration fails in the end.
pub proof fn lemma_declarations_fail(
    t: model::Tree,
    st: model::State,
    places: Seq<int>,
    k: nat,
    n: nat,
)
    requires
        k <= n,
        model::declarations(t, st, places, k) is Err,
    ensures
        model::declarations(t, st, places, n) == model::declarations(t, st, places, k),
    decreases n,
{
    if k < n {
        lemma_declarations_fail(t, st, places, k, (n - 1) as nat);
    }
}

/// What fails at some node fails in the end.
proof fn lemma_connections_fail(
    t: model::Tree,
    scope: Map<Seq<char>, usize>,
    b: Body,
    i: int,
    j: int,
    end: int,
)
    requires
        j <= end,
        model::connections(t, scope, b, i, j) is Err,
    ensures
        model::connections(t, scope, b, i, end) == model::connections(t, scope, b, i, j),
    decreases end - j,
{
    if j < end {
        lemma_connections_fail(t, scope, b, i, j, end - 1);
    }
}

/// What fails at some instance fails in the end.
proof fn lemma_instances_fail(
    t: model::Tree,
    scope: Map<Seq<char>, usize>,
    b: Body,
    i: int,
    k: nat,
    n: nat,
)
    requires
        k <= n,
        model::instances(t, scope, b, i, k) is Err,
    ensures
        model::instances(t, scope, b, i, n) == model::instances(t, scope, b, i, k),
    decreases n,
{
    if k < n {
        lemma_instances_fail(t, scope, b, i, k, (n - 1) as nat);
    }
}

/// What fails at some port fails in the end.
proof fn lemma_ports_fail(t: model::Tree, places: Seq<int>, k: nat, n: nat)
    requires
        k <= n,
        model::ports(t, places, k) is Err,
    ensures
        model::ports(t, places, n) == model::ports(t, places, k),
    decreases n,
{
    if k < n {
        lemma_ports_fail(t, places, k, (n - 1) as nat);
    }
}

/// What fails at some output fails in the end.
proof fn lemma_outputs_fail(
    scope: Map<Seq<char>, usize>,
    b: Body,
    list: Seq<module::PortView>,
    k: nat,
    n: nat,
)
    requires
        k <= n,
        model::outputs(scope, b, list, k) is Err,
    ensures
        model::outputs(scope, b, list, n) == model::outputs(scope, b, list, k),
    decreases n,
{
    if k < n {
        lemma_outputs_fail(scope, b, list, k, (n - 1) as nat);
    }
}

/// What fails at some item fails in the end.
pub proof fn lemma_items_fail(t: model::Tree, st: model::State, places: Seq<int>, k: nat, n: nat)
    requires
        k <= n,
        model::items(t, st, places, k) is Err,
    ensures
        model::items(t, st, places, n) == model::items(t, st, places, k),
    decreases n,
{
    if k < n {
        lemma_items_fail(t, st, places, k, (n - 1) as nat);
    }
}

/// Whether a lowering gave the module, or reported the error, that is expected.
pub open spec fn built(r: Result<SvModule, SvError>, expected: model::Built) -> bool {
    match expected {
        Ok(m) => r matches Ok(x) && x@ == m && module::in_ssa_form(m.num_inputs, m.body),
        Err(e) => r matches Err(x) && x@ == e,
    }
}

impl<'a> SvModuleLowerer<'a> {
    /// Whether nothing has been lowered yet.
    spec fn is_fresh(&self) -> bool {
        &&& self.inv()
        &&& self.names() == Map::<Seq<char>, usize>::empty()
        &&& self.inputs() == 0
        &&& self.body().ops.len() == 0
        &&& self.body().types.len() == 0
    }

    /// Entry point to lower a syntax tree into a module: the first ANSI style
    /// module declaration in it.
    pub fn lower_module(&self) -> (r: Result<SvModule, SvError>)
        requires
            self.inv(),
        ensures
            built(r, model::lowered_module(self.syntax())),
    {
        let ansi = self.tree.first_of(NodeKind::ModuleDeclarationAnsi);
        if let Some(m) = ansi {
            let lowerer = SvModuleLowerer::new(self.tree);
            return lowerer.lower_module_ansi(m);
        }
        match self.tree.first_of(NodeKind::ModuleDeclarationNonansi) {
            Some(_) => Err(refuse("non-ANSI module declarations are not yet supported")),
            None => Err(
                refuse("no supported SystemVerilog module declaration found in syntax tree"),
            ),
        }
    }

    /// Lower an ANSI style module declaration: `module foo (...); ... endmodule`.
    fn lower_module_ansi(self, i: usize) -> (r: Result<SvModule, SvError>)
        requires
            self.is_fresh(),
            i < self.syntax().nodes.len(),
        ensures
            built(r, model::ansi_module(self.syntax(), i as int)),
    {
        let headers = self.tree.kids(i, NodeKind::ModuleAnsiHeader);
        if headers.len() == 0 {
            return Err(refuse("module header is missing"));
        }
        assert(query::places(headers@)[0] == headers@[0]);
        let name = self.kid_text(headers[0], NodeKind::ModuleIdentifier);
        if name.as_str().unicode_len() == 0 {
            return Err(refuse("module name cannot be empty"));
        }
        let lists = self.tree.kids(headers[0], NodeKind::ListOfPortDeclarations);
        let ports: Vec<ParsedPort> = if lists.len() > 0 {
            assert(query::places(lists@)[0] == lists@[0]);
            match self.lower_ansi_port_list(lists[0]) {
                Ok(ports) => ports,
                Err(e) => {
                    return Err(e);
                },
            }
        } else {
            let none: Vec<ParsedPort> = Vec::new();
            assert(module::port_views(none@) =~= Seq::<module::PortView>::empty());
            none
        };
        if !identifier_accepts(name.as_str()) {
            return Err(
                SvError {
                    message: "invalid module identifier '".to_owned().concat(name.as_str()).concat(
                        "'",
                    ),
                },
            );
        }
        self.lower_body(i, name, ports)
    }

    /// Whether an expression in a node reads a name.
    fn reads(&self, i: usize, name: &str) -> (r: bool)
        requires
            self.inv(),
            i < self.syntax().nodes.len(),
        ensures
            r == model::reads(self.syntax(), i as int, name@),
    {
        let ghost t = self.syntax();
        let uses = self.tree.all_of(i, NodeKind::PrimaryHierarchical);
        let ghost at = query::places(uses@);
        assert forall|k: int| 0 <= k < uses@.len() implies at[k] == #[trigger] uses@[k] by {}
        let mut k: usize = 0;
        while k < uses.len()
            invariant
                self.inv(),
                t == self.syntax(),
                at == query::places(uses@),
                at == model::all(t, i as int, NodeKind::PrimaryHierarchical),
                forall|x: int|
                    0 <= x < uses@.len() ==> #[trigger] uses@[x] < t.nodes.len() && at[x]
                        == uses@[x],
                k <= uses@.len(),
                forall|x: int| 0 <= x < k ==> !#[trigger] model::reads_at(t, at[x], name@),
            decreases uses@.len() - k,
        {
            let u: usize = uses[k];
            assert(at[k as int] == u);
            let text = self.kid_text(u, NodeKind::HierarchicalIdentifier);
            let names = self.tree.kids(u, NodeKind::HierarchicalIdentifier);
            assert(query::places(names@).len() == names@.len());
            if names.len() > 0 && same_text(text.as_str(), name) {
                assert(model::reads_at(t, at[k as int], name@));
                return true;
            }
            k += 1;
        }
        false
    }

    /// Add a variable for each output that is read.
    fn declare_read_outputs(&mut self, i: usize)
        requires
            old(self).inv(),
            i < old(self).syntax().nodes.len(),
        ensures
            final(self).inv(),
            final(self).same_setting(old(self)),
            final(self).state() == model::read_outputs(
                old(self).syntax(),
                i as int,
                old(self).state(),
                old(self).port_list(),
                old(self).port_list().len(),
            ),
    {
        let ghost t = self.syntax();
        let ghost list = self.port_list();
        let ghost start = self.state();
        let mut k: usize = 0;
        while k < self.ports.len()
            invariant
                self.inv(),
                self.same_setting(old(self)),
                t == old(self).syntax(),
                self.syntax() == t,
                i < t.nodes.len(),
                list == old(self).port_list(),
                self.port_list() == list,
                start == old(self).state(),
                k <= list.len(),
                self.state() == model::read_outputs(t, i as int, start, list, k as nat),
            decreases list.len() - k,
        {
            assert(list[k as int] == self.ports@[k as int]@);
            if self.ports[k].is_output && !self.ports[k].is_input && self.reads(
                i,
                self.ports[k].name.as_str(),
            ) {
                let name = self.ports[k].name.clone();
                let width: u32 = self.ports[k].bit_width;
                self.define(SvOpKind::LogicDecl, name, Vec::new(), SvType::Integer { width });
            }
            k += 1;
        }
    }

    /// Add what some items of a module declare.
    fn lower_all_declarations(&mut self, items: &Vec<usize>) -> (r: Result<(), SvError>)
        requires
            old(self).inv(),
            forall|x: int|
                0 <= x < items@.len() ==> #[trigger] items@[x] < old(self).syntax().nodes.len(),
        ensures
            final(self).inv(),
            final(self).same_setting(old(self)),
            match model::declarations(
                old(self).syntax(),
                old(self).state(),
                query::places(items@),
                items@.len(),
            ) {
                Ok(st) => r is Ok && final(self).state() == st,
                Err(e) => r matches Err(x) && x@ == e,
            },
    {
        let ghost t = self.syntax();
        let ghost start = self.state();
        let ghost places = query::places(items@);
        assert forall|k: int| 0 <= k < items@.len() implies places[k] == #[trigger] items@[k] by {}
        let mut k: usize = 0;
        while k < items.len()
            invariant
                self.inv(),
                self.same_setting(old(self)),
                t == old(self).syntax(),
                self.syntax() == t,
                start == old(self).state(),
                places == query::places(items@),
                forall|x: int|
                    0 <= x < items@.len() ==> #[trigger] items@[x] < t.nodes.len() && places[x]
                        == items@[x],
                k <= items@.len(),
                model::declarations(t, start, places, k as nat) == Ok::<model::State, Seq<char>>(
                    self.state(),
                ),
            decreases items@.len() - k,
        {
            match self.lower_declarations(items[k]) {
                Ok(()) => {},
                Err(e) => {
                    proof {
                        lemma_declarations_fail(t, start, places, (k + 1) as nat, places.len());
                    }
                    return Err(e);
                },
            }
            k += 1;
        }
        Ok(())
    }

    /// Lower some items of a module.
    fn lower_items(&mut self, items: &Vec<usize>) -> (r: Result<(), SvError>)
        requires
            old(self).inv(),
            forall|x: int|
                0 <= x < items@.len() ==> #[trigger] items@[x] < old(self).syntax().nodes.len(),
        ensures
            final(self).inv(),
            final(self).same_setting(old(self)),
            match model::items(
                old(self).syntax(),
                old(self).state(),
                query::places(items@),
                items@.len(),
            ) {
                Ok(st) => r is Ok && final(self).state() == st,
                Err(e) => r matches Err(x) && x@ == e,
            },
    {
        let ghost t = self.syntax();
        let ghost start = self.state();
        let ghost places = query::places(items@);
        assert forall|k: int| 0 <= k < items@.len() implies places[k] == #[trigger] items@[k] by {}
        let mut k: usize = 0;
        while k < items.len()
            invariant
                self.inv(),
                self.same_setting(old(self)),
                t == old(self).syntax(),
                self.syntax() == t,
                start == old(self).state(),
                places == query::places(items@),
                forall|x: int|
                    0 <= x < items@.len() ==> #[trigger] items@[x] < t.nodes.len() && places[x]
                        == items@[x],
                k <= items@.len(),
                model::items(t, start, places, k as nat) == Ok::<model::State, Seq<char>>(
                    self.state(),
                ),
            decreases items@.len() - k,
        {
            match self.lower_non_port_module_item(items[k]) {
                Ok(()) => {},
                Err(e) => {
                    proof {
                        lemma_items_fail(t, start, places, (k + 1) as nat, places.len());
                    }
                    return Err(e);
                },
            }
            k += 1;
        }
        Ok(())
    }

    /// Lower the items of a module and add its outputs.
    fn lower_body(self, i: usize, name: String, ports: Vec<ParsedPort>) -> (r: Result<
        SvModule,
        SvError,
    >)
        requires
            self.is_fresh(),
            i < self.syntax().nodes.len(),
        ensures
            built(
                r,
                model::module_body(
                    self.syntax(),
                    i as int,
                    name@,
                    module::port_views(ports@),
                ),
            ),
    {
        let ghost t = self.syntax();
        let ghost list = module::port_views(ports@);
        let mut lowerer = self;
        lowerer.bind_ports(ports);
        lowerer.declare_read_outputs(i);
        let items = lowerer.tree.kids(i, NodeKind::NonPortModuleItem);
        let ghost places = query::places(items@);
        assert forall|k: int| 0 <= k < items@.len() implies places[k] == #[trigger] items@[k] by {}
        match lowerer.lower_all_declarations(&items) {
            Ok(()) => {},
            Err(e) => {
                return Err(e);
            },
        }
        match lowerer.lower_items(&items) {
            Ok(()) => {},
            Err(e) => {
                return Err(e);
            },
        }
        match lowerer.finalize_outputs() {
            Ok(()) => Ok(
                SvModule {
                    name,
                    ports: lowerer.ports,
                    num_inputs: lowerer.num_inputs,
                    types: lowerer.types,
                    ops: lowerer.ops,
                },
            ),
            Err(e) => Err(e),
        }
    }
}

/// Lowers the first module of a text, from the walk through the text's syntax
/// tree.
pub fn lower_events(text: &str, events: &Vec<CstEvent>) -> (r: Result<SvModule, SvError>)
    ensures
        built(r, model::module_from(Ok((text@, cst::steps(events@))))),
{
    match SyntaxTree::from_events(text, events) {
        Some(tree) => {
            let lowerer = SvModuleLowerer::new(&tree);
            lowerer.lower_module()
        },
        None => Err(refuse("the syntax tree does not match the source text")),
    }
}

/// Convenience entry point to parse a SystemVerilog source string into a module.
///
/// What comes of it is what `lower_events` makes of the parse. Of a source text that
/// stands alone, so that neither it nor its macros bring in a file, the parse is
/// always the same.
pub fn parse_sv_module(source: &str) -> (r: Result<SvModule, SvError>)
    ensures
        exists|outcome: ParseView| built(r, #[trigger] model::module_from(outcome)),
        parse::stands_alone(source@) ==> built(r, model::module_from(parse::parsed(source@))),
{
    let parse = parse_events(source);
    let ghost outcome = parse::parse_view(parse);
    let r = match parse {
        Ok(tree) => lower_events(tree.0.as_str(), &tree.1),
        Err(e) => Err(
            SvError { message: "sv-parser syntax error: ".to_owned().concat(e.as_str()) },
        ),
    };
    assert(built(r, model::module_from(outcome)));
    r
}

} // verus!
