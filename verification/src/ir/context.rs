//! The context: an arena of operations, blocks and regions that refer to each
//! other by handle.

use crate::ir::attributes::AttributeDict;
use crate::ir::types;
use crate::ir::types::{Composite, Shape, Signedness, TypeHandle};
use crate::text;
use vstd::prelude::*;

verus! {

/// A handle of an operation.
#[derive(Clone, Copy, PartialEq, Eq, Structural, Debug, Hash)]
pub struct OpPtr {
    pub idx: usize,
}

/// A handle of a block.
#[derive(Clone, Copy, PartialEq, Eq, Structural, Debug, Hash)]
pub struct BlockPtr {
    pub idx: usize,
}

/// A handle of a region.
#[derive(Clone, Copy, PartialEq, Eq, Structural, Debug, Hash)]
pub struct RegionPtr {
    pub idx: usize,
}

/// An SSA value: a result of an operation or an argument of a block.
#[derive(Clone, Copy, PartialEq, Eq, Structural, Debug, Hash)]
pub enum Value {
    OpResult { op: OpPtr, idx: usize },
    BlockArgument { block: BlockPtr, idx: usize },
}

impl Value {
    /// The operation that the value is a result of.
    pub open spec fn spec_defining_op(self) -> Option<OpPtr> {
        match self {
            Value::OpResult { op, .. } => Some(op),
            Value::BlockArgument { .. } => None,
        }
    }

    /// The operation that the value is a result of.
    pub fn defining_op(&self) -> (r: Option<OpPtr>)
        ensures
            r == self.spec_defining_op(),
    {
        match self {
            Value::OpResult { op, .. } => Some(*op),
            Value::BlockArgument { .. } => None,
        }
    }
}

/// What an operation is.
#[derive(Clone, Copy, PartialEq, Eq, Structural, Debug, Hash)]
pub enum OpKind {
    /// `fsm.machine`
    Machine,
    /// `fsm.state`
    State,
    /// `fsm.output`
    Output,
    /// `fsm.transition`
    Transition,
    /// `fsm.return`
    Return,
    /// `fsm.variable`
    Variable,
    /// `fsm.update`
    Update,
    /// `fsm.instance`
    Instance,
    /// `fsm.trigger`
    Trigger,
    /// `fsm.hw_instance`
    HwInstance,
    /// Any operation of another dialect.
    Other,
}

/// The numbers of results, operands and regions that operations of a kind have.
pub open spec fn kind_fits(kind: OpKind, results: nat, operands: nat, regions: nat) -> bool {
    match kind {
        OpKind::Machine => results == 0 && operands == 0 && regions == 1,
        OpKind::State | OpKind::Transition => results == 0 && operands == 0 && regions == 2,
        OpKind::Output | OpKind::Return => results == 0 && regions == 0,
        OpKind::Variable | OpKind::Instance => results == 1 && operands == 0 && regions == 0,
        OpKind::Update => results == 0 && operands == 2 && regions == 0,
        OpKind::Trigger | OpKind::HwInstance => regions == 0,
        OpKind::Other => true,
    }
}

/// An operation.
pub struct OpData {
    pub kind: OpKind,
    pub attributes: AttributeDict,
    pub operands: Vec<Value>,
    pub results: Vec<TypeHandle>,
    pub regions: Vec<RegionPtr>,
    /// The block that the operation stands in.
    pub parent: Option<BlockPtr>,
}

/// A block: its arguments and its operations, in order.
pub struct BlockData {
    pub args: Vec<TypeHandle>,
    pub ops: Vec<OpPtr>,
    /// The region that the block stands in.
    pub parent: Option<RegionPtr>,
}

/// A region: the operation that it belongs to, and its blocks in order.
pub struct RegionData {
    pub parent: OpPtr,
    pub blocks: Vec<BlockPtr>,
}

/// The arena that holds every operation, block, region and composite type.
pub struct Context {
    pub ops: Vec<OpData>,
    pub blocks: Vec<BlockData>,
    pub regions: Vec<RegionData>,
    pub types: Vec<Composite>,
}

impl Context {
    /// Whether `p` is an operation of this context.
    pub open spec fn has_op(&self, p: OpPtr) -> bool {
        p.idx < self.ops@.len()
    }

    /// Whether `b` is a block of this context.
    pub open spec fn has_block(&self, b: BlockPtr) -> bool {
        b.idx < self.blocks@.len()
    }

    /// Whether `r` is a region of this context.
    pub open spec fn has_region(&self, r: RegionPtr) -> bool {
        r.idx < self.regions@.len()
    }

    /// The operation behind a handle.
    pub open spec fn op(&self, p: OpPtr) -> OpData {
        self.ops@[p.idx as int]
    }

    /// The block behind a handle.
    pub open spec fn block(&self, b: BlockPtr) -> BlockData {
        self.blocks@[b.idx as int]
    }

    /// The region behind a handle.
    pub open spec fn region(&self, r: RegionPtr) -> RegionData {
        self.regions@[r.idx as int]
    }

    /// Whether a value is defined in this context.
    pub open spec fn has_value(&self, v: Value) -> bool {
        match v {
            Value::OpResult { op, idx } => self.has_op(op) && idx < self.op(op).results@.len(),
            Value::BlockArgument { block, idx } => self.has_block(block) && idx < self.block(
                block,
            ).args@.len(),
        }
    }

    /// The type of a value.
    pub open spec fn value_type(&self, v: Value) -> TypeHandle {
        match v {
            Value::OpResult { op, idx } => self.op(op).results@[idx as int],
            Value::BlockArgument { block, idx } => self.block(block).args@[idx as int],
        }
    }

    /// The region that an operation stands in.
    pub open spec fn parent_region(&self, p: OpPtr) -> Option<RegionPtr> {
        match self.op(p).parent {
            Some(b) => self.block(b).parent,
            None => None,
        }
    }

    /// The operation that a block belongs to.
    pub open spec fn block_owner(&self, b: BlockPtr) -> Option<OpPtr> {
        match self.block(b).parent {
            Some(r) => Some(self.region(r).parent),
            None => None,
        }
    }

    /// The operation that immediately encloses an operation.
    pub open spec fn parent_op(&self, p: OpPtr) -> Option<OpPtr> {
        match self.op(p).parent {
            Some(b) => self.block_owner(b),
            None => None,
        }
    }

    /// The operation that encloses `p` at a distance of `n`: itself for 0, its
    /// parent for 1, and so on.
    pub open spec fn ancestor(&self, p: OpPtr, n: nat) -> Option<OpPtr>
        decreases n,
    {
        if n == 0 {
            Some(p)
        } else {
            match self.ancestor(p, (n - 1) as nat) {
                Some(q) => self.parent_op(q),
                None => None,
            }
        }
    }

    /// Whether `outer` is `inner` or encloses it.
    pub open spec fn encloses(&self, outer: OpPtr, inner: OpPtr) -> bool {
        exists|n: nat| #[trigger] self.ancestor(inner, n) == Some(outer)
    }

    /// Whether the operations that enclose `p` come to an end.
    pub open spec fn rooted(&self, p: OpPtr) -> bool {
        exists|n: nat| #[trigger] self.ancestor(p, n) is None
    }

    /// The first block of a region.
    pub open spec fn entry_block(&self, r: RegionPtr) -> Option<BlockPtr> {
        if self.region(r).blocks@.len() > 0 {
            Some(self.region(r).blocks@[0])
        } else {
            None
        }
    }

    /// The operations of the entry block of a region, in order; none where the
    /// region has no block.
    pub open spec fn entry_ops(&self, r: RegionPtr) -> Seq<OpPtr> {
        match self.entry_block(r) {
            Some(b) => self.block(b).ops@,
            None => Seq::empty(),
        }
    }

    /// Whether an operation has the shape of its kind.
    pub open spec fn shape_ok(&self, o: OpData) -> bool {
        &&& kind_fits(o.kind, o.results@.len(), o.operands@.len(), o.regions@.len())
        &&& o.kind is Machine ==> self.entry_block(o.regions@[0]) is Some
    }

    /// Whether what an operation refers to is there, and refers back.
    pub open spec fn op_ok(&self, i: int) -> bool {
        let o = self.ops@[i];
        let p = OpPtr { idx: i as usize };
        &&& forall|k: int|
            0 <= k < o.regions@.len() ==> self.has_region(#[trigger] o.regions@[k]) && self.region(
                o.regions@[k],
            ).parent == p
        &&& o.regions@.no_duplicates()
        &&& (o.parent matches Some(b) ==> self.has_block(b) && self.block(b).ops@.contains(p))
        &&& forall|k: int| 0 <= k < o.operands@.len() ==> self.has_value(#[trigger] o.operands@[k])
        &&& o.attributes.wf()
        &&& self.shape_ok(o)
    }

    /// Whether what a block refers to is there, and refers back.
    pub open spec fn block_ok(&self, i: int) -> bool {
        let d = self.blocks@[i];
        let b = BlockPtr { idx: i as usize };
        &&& forall|k: int|
            0 <= k < d.ops@.len() ==> self.has_op(#[trigger] d.ops@[k]) && self.op(
                d.ops@[k],
            ).parent == Some(b)
        &&& d.ops@.no_duplicates()
        &&& (d.parent matches Some(r) ==> self.has_region(r) && self.region(r).blocks@.contains(b))
    }

    /// Whether what a region refers to is there, and refers back.
    pub open spec fn region_ok(&self, i: int) -> bool {
        let d = self.regions@[i];
        let r = RegionPtr { idx: i as usize };
        &&& self.has_op(d.parent)
        &&& self.op(d.parent).regions@.contains(r)
        &&& forall|k: int|
            0 <= k < d.blocks@.len() ==> self.has_block(#[trigger] d.blocks@[k]) && self.block(
                d.blocks@[k],
            ).parent == Some(r)
        &&& d.blocks@.no_duplicates()
    }

    /// What every context that the functions of this crate make satisfies.
    pub open spec fn wf(&self) -> bool {
        &&& forall|i: int| 0 <= i < self.ops@.len() ==> #[trigger] self.op_ok(i)
        &&& forall|i: int| 0 <= i < self.blocks@.len() ==> #[trigger] self.block_ok(i)
        &&& forall|i: int| 0 <= i < self.regions@.len() ==> #[trigger] self.region_ok(i)
        &&& forall|p: OpPtr| self.has_op(p) ==> #[trigger] self.rooted(p)
        &&& self.types_ok()
    }

    /// No function type stands in the type table twice.
    pub open spec fn types_ok(&self) -> bool {
        forall|i: int, j: int|
            0 <= i < j < self.types@.len() ==> !same_function(
                #[trigger] self.types@[i],
                #[trigger] self.types@[j],
            )
    }

    /// The inputs and the results of a type: those of a function type, or the
    /// ports of a module type. Other types have none.
    pub open spec fn type_signature(&self, ty: TypeHandle) -> Option<(Seq<TypeHandle>, Seq<TypeHandle>)> {
        match ty {
            TypeHandle::Composite { id } => if id < self.types@.len() {
                match self.types@[id as int].shape {
                    Shape::Function { inputs, results } => Some((inputs@, results@)),
                    Shape::Module { ins, outs } => Some(
                        (types::field_types(ins@), types::field_types(outs@)),
                    ),
                    Shape::Opaque => None,
                }
            } else {
                None
            },
            _ => None,
        }
    }

    /// How a type is written: the name of its kind, a space, and its
    /// parameters.
    pub open spec fn type_text(&self, ty: TypeHandle) -> Seq<char> {
        match ty {
            TypeHandle::Integer { width, signedness } => "builtin.integer "@ + (match signedness {
                Signedness::Signed => "si"@,
                Signedness::Unsigned => "ui"@,
                Signedness::Signless => "i"@,
            }) + text::decimal(width as nat),
            TypeHandle::Clock => "seq.clock "@,
            TypeHandle::Reset => "seq.reset "@,
            TypeHandle::Instance => "fsm.instance "@,
            TypeHandle::InstanceAlias => "fsm.instancetype "@,
            TypeHandle::Composite { id } => if id < self.types@.len() {
                self.types@[id as int].text@
            } else {
                ""@
            },
        }
    }

    /// The texts of some types, with a comma and a space between them.
    pub open spec fn types_text(&self, tys: Seq<TypeHandle>) -> Seq<char>
        decreases tys.len(),
    {
        if tys.len() == 0 {
            Seq::empty()
        } else if tys.len() == 1 {
            self.type_text(tys[0])
        } else {
            self.types_text(tys.drop_last()) + ", "@ + self.type_text(tys.last())
        }
    }

    /// How the function type from `inputs` to `results` is written.
    pub open spec fn function_text(&self, inputs: Seq<TypeHandle>, results: Seq<TypeHandle>) -> Seq<
        char,
    > {
        "builtin.function <("@ + self.types_text(inputs) + ") -> ("@ + self.types_text(results)
            + ")>"@
    }

    /// Everything that `before` holds is there unchanged, in the same place.
    pub open spec fn extends(&self, before: &Context) -> bool {
        &&& before.ops@.is_prefix_of(self.ops@)
        &&& before.blocks@.is_prefix_of(self.blocks@)
        &&& before.regions@.is_prefix_of(self.regions@)
        &&& before.types@.is_prefix_of(self.types@)
    }
}

/// Whether two types are one and the same function type.
pub open spec fn same_function(a: Composite, b: Composite) -> bool {
    match (a.shape, b.shape) {
        (
            Shape::Function { inputs: i0, results: r0 },
            Shape::Function { inputs: i1, results: r1 },
        ) => i0@ == i1@ && r0@ == r1@,
        _ => false,
    }
}

/// Where the enclosing operations of the operations of `before` stay the same,
/// so do their ancestors.
pub proof fn lemma_ancestor_frame(before: &Context, after: &Context, p: OpPtr, n: nat)
    requires
        before.wf(),
        before.has_op(p),
        forall|q: OpPtr|
            before.has_op(q) ==> #[trigger] after.parent_op(q) == before.parent_op(q),
    ensures
        after.ancestor(p, n) == before.ancestor(p, n),
        before.ancestor(p, n) matches Some(q) ==> before.has_op(q),
    decreases n,
{
    if n > 0 {
        lemma_ancestor_frame(before, after, p, (n - 1) as nat);
        if let Some(q) = before.ancestor(p, (n - 1) as nat) {
            assert(after.parent_op(q) == before.parent_op(q));
            before.lemma_parent_op(q);
        }
    }
}

impl Context {
    /// The operation that encloses another is there.
    pub proof fn lemma_parent_op(&self, p: OpPtr)
        requires
            self.wf(),
            self.has_op(p),
        ensures
            self.parent_op(p) matches Some(q) ==> self.has_op(q),
            self.parent_region(p) matches Some(r) ==> self.has_region(r),
            self.op(p).parent matches Some(b) ==> self.has_block(b),
    {
        assert(self.op_ok(p.idx as int));
        if let Some(b) = self.op(p).parent {
            assert(self.block_ok(b.idx as int));
            if let Some(r) = self.block(b).parent {
                assert(self.region_ok(r.idx as int));
            }
        }
    }

    /// An operation without blocks encloses no other operation.
    pub proof fn blockless_operations_enclose_nothing(&self, p: OpPtr, q: OpPtr)
        requires
            self.wf(),
            self.has_op(p),
            self.has_op(q),
            p != q,
            forall|k: int|
                0 <= k < self.op(p).regions@.len() ==> self.entry_block(
                    #[trigger] self.op(p).regions@[k],
                ) is None,
        ensures
            !self.encloses(p, q),
    {
        assert forall|n: nat| #[trigger] self.ancestor(q, n) != Some(p) by {
            if n > 0 {
                lemma_ancestor_frame(self, self, q, (n - 1) as nat);
                if let Some(x) = self.ancestor(q, (n - 1) as nat) {
                    if self.parent_op(x) == Some(p) {
                        self.lemma_parent_op(x);
                        let b = self.op(x).parent->0;
                        let r = self.block(b).parent->0;
                        assert(self.block_ok(b.idx as int));
                        assert(self.region_ok(r.idx as int));
                        let k = self.op(p).regions@.index_of(r);
                        assert(self.op(p).regions@[k] == r);
                        let j = self.region(r).blocks@.index_of(b);
                        assert(self.region(r).blocks@[j] == b);
                    }
                }
            }
        }
    }

    /// An operation that stands in no block is enclosed by no other operation.
    pub proof fn outermost_operations_are_not_enclosed(&self, p: OpPtr, q: OpPtr)
        requires
            self.op(q).parent is None,
            p != q,
        ensures
            !self.encloses(p, q),
    {
        assert forall|n: nat| #[trigger] self.ancestor(q, n) != Some(p) by {
            if n > 0 {
                self.lemma_outermost(q, n);
            }
        }
    }

    /// Nothing lies further out than an operation that stands in no block.
    proof fn lemma_outermost(&self, q: OpPtr, n: nat)
        requires
            self.op(q).parent is None,
            n > 0,
        ensures
            self.ancestor(q, n) is None,
        decreases n,
    {
        assert(self.ancestor(q, 0) == Some(q));
        if n > 1 {
            self.lemma_outermost(q, (n - 1) as nat);
        }
    }

    /// A context without anything in it.
    pub fn new() -> (r: Self)
        ensures
            r.wf(),
            r.ops@.len() == 0,
            r.blocks@.len() == 0,
            r.regions@.len() == 0,
            r.types@.len() == 0,
    {
        Context { ops: Vec::new(), blocks: Vec::new(), regions: Vec::new(), types: Vec::new() }
    }

    /// The region that an operation stands in.
    pub fn get_parent_region(&self, p: OpPtr) -> (r: Option<RegionPtr>)
        requires
            self.wf(),
            self.has_op(p),
        ensures
            r == self.parent_region(p),
            r matches Some(x) ==> self.has_region(x),
    {
        proof {
            self.lemma_parent_op(p);
        }
        match self.ops[p.idx].parent {
            Some(b) => self.blocks[b.idx].parent,
            None => None,
        }
    }

    /// The operation that immediately encloses an operation.
    pub fn get_parent_op(&self, p: OpPtr) -> (r: Option<OpPtr>)
        requires
            self.wf(),
            self.has_op(p),
        ensures
            r == self.parent_op(p),
            r matches Some(q) ==> self.has_op(q),
    {
        proof {
            self.lemma_parent_op(p);
        }
        match self.get_parent_region(p) {
            Some(r) => Some(self.regions[r.idx].parent),
            None => None,
        }
    }

    /// The first block of a region.
    pub fn get_entry_block(&self, r: RegionPtr) -> (b: Option<BlockPtr>)
        requires
            self.wf(),
            self.has_region(r),
        ensures
            b == self.entry_block(r),
            b matches Some(x) ==> self.has_block(x),
    {
        assert(self.region_ok(r.idx as int));
        if self.regions[r.idx].blocks.len() > 0 {
            Some(self.regions[r.idx].blocks[0])
        } else {
            None
        }
    }

    /// The type of a value.
    pub fn get_type(&self, v: Value) -> (ty: TypeHandle)
        requires
            self.has_value(v),
        ensures
            ty == self.value_type(v),
    {
        match v {
            Value::OpResult { op, idx } => self.ops[op.idx].results[idx],
            Value::BlockArgument { block, idx } => self.blocks[block.idx].args[idx],
        }
    }
}

} // verus!
