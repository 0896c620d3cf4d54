//! What changes a context: new operations and blocks, links between them,
//! attributes, and new types.

use crate::ir::attributes;
use crate::ir::attributes::{AttrKey, Attribute, AttributeDict};
use crate::ir::context;
use crate::ir::context::{BlockData, BlockPtr, Context, OpData, OpKind, OpPtr, RegionData, RegionPtr, Value};
use crate::ir::types::{same_types, Composite, Shape, Signedness, TypeHandle};
use crate::text::decimal_text;
use vstd::prelude::*;

verus! {

impl Context {
    /// What a context that only grew by unlinked parts keeps.
    proof fn lemma_grown(before: &Context, after: &Context)
        requires
            before.wf(),
            after.extends(before),
            forall|i: int| before.ops@.len() <= i < after.ops@.len() ==> #[trigger] after.op_ok(i),
            forall|i: int|
                before.ops@.len() <= i < after.ops@.len() ==> (#[trigger] after.ops@[i]).parent is None,
            forall|i: int|
                before.blocks@.len() <= i < after.blocks@.len() ==> #[trigger] after.block_ok(i),
            forall|i: int|
                before.regions@.len() <= i < after.regions@.len() ==> #[trigger] after.region_ok(i),
            after.types_ok(),
        ensures
            after.wf(),
    {
        assert forall|i: int| 0 <= i < after.ops@.len() implies #[trigger] after.op_ok(i) by {
            if i < before.ops@.len() {
                assert(before.op_ok(i));
                let o = before.ops@[i];
                assert(after.ops@[i] == o);
                assert forall|k: int| 0 <= k < o.regions@.len() implies after.has_region(
                    #[trigger] o.regions@[k],
                ) && after.region(o.regions@[k]).parent == (OpPtr { idx: i as usize }) by {
                    assert(before.has_region(o.regions@[k]));
                }
                assert forall|k: int| 0 <= k < o.operands@.len() implies after.has_value(
                    #[trigger] o.operands@[k],
                ) by {
                    assert(before.has_value(o.operands@[k]));
                }
                if o.kind is Machine {
                    assert(before.has_region(o.regions@[0]));
                }
            }
        }
        assert forall|i: int| 0 <= i < after.blocks@.len() implies #[trigger] after.block_ok(i) by {
            if i < before.blocks@.len() {
                assert(before.block_ok(i));
                let d = before.blocks@[i];
                assert(after.blocks@[i] == d);
                assert forall|k: int| 0 <= k < d.ops@.len() implies after.has_op(#[trigger] d.ops@[k])
                    && after.op(d.ops@[k]).parent == Some(BlockPtr { idx: i as usize }) by {
                    assert(before.has_op(d.ops@[k]));
                }
            }
        }
        assert forall|i: int| 0 <= i < after.regions@.len() implies #[trigger] after.region_ok(
            i,
        ) by {
            if i < before.regions@.len() {
                assert(before.region_ok(i));
                let d = before.regions@[i];
                assert(after.regions@[i] == d);
                assert forall|k: int| 0 <= k < d.blocks@.len() implies after.has_block(
                    #[trigger] d.blocks@[k],
                ) && after.block(d.blocks@[k]).parent == Some(RegionPtr { idx: i as usize }) by {
                    assert(before.has_block(d.blocks@[k]));
                }
            }
        }
        assert forall|q: OpPtr| before.has_op(q) implies #[trigger] after.parent_op(q)
            == before.parent_op(q) by {
            before.lemma_parent_op(q);
            assert(after.op(q) == before.op(q));
        }
        assert forall|p: OpPtr| after.has_op(p) implies #[trigger] after.rooted(p) by {
            if before.has_op(p) {
                assert(before.rooted(p));
                let n = choose|n: nat| #[trigger] before.ancestor(p, n) is None;
                context::lemma_ancestor_frame(before, after, p, n);
                assert(after.ancestor(p, n) is None);
            } else {
                assert(after.op(p).parent is None);
                assert(after.ancestor(p, 0) == Some(p));
                assert(after.ancestor(p, 1) is None);
            }
        }
    }

    /// Makes an operation with `num_regions` empty regions, in no block.
    pub fn new_operation(
        &mut self,
        kind: OpKind,
        results: Vec<TypeHandle>,
        operands: Vec<Value>,
        num_regions: usize,
    ) -> (p: OpPtr)
        requires
            old(self).wf(),
            forall|k: int| 0 <= k < operands@.len() ==> old(self).has_value(#[trigger] operands@[k]),
            kind != OpKind::Machine,
            context::kind_fits(kind, results@.len(), operands@.len(), num_regions as nat),
        ensures
            final(self).wf(),
            final(self).extends(old(self)),
            p.idx == old(self).ops@.len(),
            final(self).ops@.len() == old(self).ops@.len() + 1,
            final(self).op(p).kind == kind,
            final(self).op(p).results@ == results@,
            final(self).op(p).operands@ == operands@,
            final(self).op(p).parent is None,
            final(self).op(p).regions@.len() == num_regions,
            forall|key: AttrKey| #[trigger] final(self).op(p).attributes.at(key) is None,
            forall|k: int|
                0 <= k < num_regions ==> (#[trigger] final(self).op(p).regions@[k]).idx == old(
                    self,
                ).regions@.len() + k && final(self).entry_block(final(self).op(p).regions@[k]) is None,
            final(self).regions@.len() == old(self).regions@.len() + num_regions,
            final(self).blocks@ == old(self).blocks@,
            final(self).types@ == old(self).types@,
    {
        let p = OpPtr { idx: self.ops.len() };
        let mut regions: Vec<RegionPtr> = Vec::new();
        let mut k: usize = 0;
        while k < num_regions
            invariant
                k <= num_regions,
                p.idx == old(self).ops@.len(),
                self.ops == old(self).ops,
                self.blocks == old(self).blocks,
                self.types == old(self).types,
                self.regions@.len() == old(self).regions@.len() + k,
                old(self).regions@.is_prefix_of(self.regions@),
                regions@.len() == k,
                forall|j: int|
                    0 <= j < k ==> (#[trigger] regions@[j]).idx == old(self).regions@.len() + j,
                forall|j: int|
                    old(self).regions@.len() <= j < self.regions@.len() ==> (
                    #[trigger] self.regions@[j]).parent == p && self.regions@[j].blocks@.len() == 0,
            decreases num_regions - k,
        {
            regions.push(RegionPtr { idx: self.regions.len() });
            self.regions.push(RegionData { parent: p, blocks: Vec::new() });
            k += 1;
        }
        self.ops.push(
            OpData { kind, attributes: AttributeDict::new(), operands, results, regions, parent: None },
        );
        proof {
            let o = self.ops@[p.idx as int];
            assert(self.extends(old(self)));
            assert forall|j: int| 0 <= j < o.operands@.len() implies self.has_value(
                #[trigger] o.operands@[j],
            ) by {
                assert(old(self).has_value(o.operands@[j]));
            }
            assert(self.op_ok(p.idx as int));
            assert forall|i: int| old(self).regions@.len() <= i < self.regions@.len() implies
                #[trigger] self.region_ok(i) by {
                assert(self.regions@[i].parent == p);
                let j = i - old(self).regions@.len();
                assert(o.regions@[j] == (RegionPtr { idx: i as usize }));
                assert(o.regions@.contains(RegionPtr { idx: i as usize }));
            }
            Self::lemma_grown(old(self), self);
        }
        p
    }

    /// Makes a block with the given arguments, as the first one of a region.
    pub fn add_block(&mut self, r: RegionPtr, args: Vec<TypeHandle>) -> (b: BlockPtr)
        requires
            old(self).wf(),
            old(self).has_region(r),
        ensures
            final(self).wf(),
            b.idx == old(self).blocks@.len(),
            final(self).blocks@.len() == old(self).blocks@.len() + 1,
            old(self).blocks@.is_prefix_of(final(self).blocks@),
            final(self).block(b).args@ == args@,
            final(self).block(b).ops@.len() == 0,
            final(self).block(b).parent == Some(r),
            final(self).region(r).parent == old(self).region(r).parent,
            final(self).region(r).blocks@ == old(self).region(r).blocks@.insert(0, b),
            final(self).regions@ == old(self).regions@.update(r.idx as int, final(self).region(r)),
            final(self).ops@ == old(self).ops@,
            final(self).types@ == old(self).types@,
    {
        let b = BlockPtr { idx: self.blocks.len() };
        self.blocks.push(BlockData { args, ops: Vec::new(), parent: Some(r) });
        self.regions[r.idx].blocks.insert(0, b);
        proof {
            let before = *old(self);
            let ri = r.idx as int;
            assert(before.region_ok(ri));
            assert forall|i: int| 0 <= i < self.ops@.len() implies #[trigger] self.op_ok(i) by {
                assert(before.op_ok(i));
                let o = before.ops@[i];
                assert forall|k: int| 0 <= k < o.operands@.len() implies self.has_value(
                    #[trigger] o.operands@[k],
                ) by {
                    assert(before.has_value(o.operands@[k]));
                }
                assert forall|k: int| 0 <= k < o.regions@.len() implies self.has_region(
                    #[trigger] o.regions@[k],
                ) && self.region(o.regions@[k]).parent == (OpPtr { idx: i as usize }) by {
                    assert(before.has_region(o.regions@[k]));
                }
            }
            assert forall|i: int| 0 <= i < self.blocks@.len() implies #[trigger] self.block_ok(i) by {
                if i < before.blocks@.len() {
                    assert(before.block_ok(i));
                    let x = BlockPtr { idx: i as usize };
                    if before.blocks@[i].parent == Some(r) {
                        let k = before.region(r).blocks@.index_of(x);
                        assert(self.region(r).blocks@[k + 1] == x);
                    }
                } else {
                    assert(self.region(r).blocks@[0] == b);
                }
            }
            assert forall|i: int| 0 <= i < self.regions@.len() implies #[trigger] self.region_ok(
                i,
            ) by {
                assert(before.region_ok(i));
                let d = self.regions@[i];
                assert forall|k: int| 0 <= k < d.blocks@.len() implies self.has_block(
                    #[trigger] d.blocks@[k],
                ) && self.block(d.blocks@[k]).parent == Some(RegionPtr { idx: i as usize }) by {
                    if i == ri {
                        if k > 0 {
                            assert(d.blocks@[k] == before.regions@[i].blocks@[k - 1]);
                        }
                    } else {
                        assert(before.has_block(before.regions@[i].blocks@[k]));
                    }
                }
                if i == ri {
                    assert forall|j: int, k: int|
                        0 <= j < d.blocks@.len() && 0 <= k < d.blocks@.len() && j
                            != k implies d.blocks@[j] != d.blocks@[k] by {
                        if j > 0 {
                            assert(d.blocks@[j] == before.regions@[i].blocks@[j - 1]);
                            assert(before.has_block(before.regions@[i].blocks@[j - 1]));
                        }
                        if k > 0 {
                            assert(d.blocks@[k] == before.regions@[i].blocks@[k - 1]);
                            assert(before.has_block(before.regions@[i].blocks@[k - 1]));
                        }
                    }
                }
            }
            Self::lemma_same_parents(&before, self);
        }
        b
    }

    /// Where no operation changed its place, all of them stay rooted.
    proof fn lemma_same_parents(before: &Context, after: &Context)
        requires
            before.wf(),
            after.ops@.len() == before.ops@.len(),
            forall|q: OpPtr|
                before.has_op(q) ==> (#[trigger] after.op(q)).parent == before.op(q).parent,
            forall|b: BlockPtr|
                before.has_block(b) ==> (#[trigger] after.block(b)).parent == before.block(b).parent,
            forall|r: RegionPtr|
                before.has_region(r) ==> (#[trigger] after.region(r)).parent == before.region(r).parent,
        ensures
            forall|p: OpPtr| after.has_op(p) ==> #[trigger] after.rooted(p),
    {
        assert forall|q: OpPtr| before.has_op(q) implies #[trigger] after.parent_op(q)
            == before.parent_op(q) by {
            before.lemma_parent_op(q);
            assert(after.op(q).parent == before.op(q).parent);
            if let Some(b) = before.op(q).parent {
                assert(after.block(b).parent == before.block(b).parent);
                if let Some(r) = before.block(b).parent {
                    assert(after.region(r).parent == before.region(r).parent);
                }
            }
        }
        assert forall|p: OpPtr| after.has_op(p) implies #[trigger] after.rooted(p) by {
            assert(before.rooted(p));
            let n = choose|n: nat| #[trigger] before.ancestor(p, n) is None;
            context::lemma_ancestor_frame(before, after, p, n);
            assert(after.ancestor(p, n) is None);
        }
    }

    /// Makes a machine operation, in no block, whose region holds one block
    /// with the given arguments.
    pub fn new_machine_operation(&mut self, args: Vec<TypeHandle>) -> (p: OpPtr)
        requires
            old(self).wf(),
        ensures
            final(self).wf(),
            final(self).extends(old(self)),
            p.idx == old(self).ops@.len(),
            final(self).ops@.len() == old(self).ops@.len() + 1,
            final(self).op(p).kind == OpKind::Machine,
            final(self).op(p).parent is None,
            forall|key: AttrKey| #[trigger] final(self).op(p).attributes.at(key) is None,
            final(self).regions@.len() == old(self).regions@.len() + 1,
            final(self).op(p).regions@[0].idx == old(self).regions@.len(),
            final(self).blocks@.len() == old(self).blocks@.len() + 1,
            final(self).region(final(self).op(p).regions@[0]).blocks@.len() == 1,
            final(self).region(final(self).op(p).regions@[0]).blocks@[0].idx == old(
                self,
            ).blocks@.len(),
            final(self).blocks@[old(self).blocks@.len() as int].args@ == args@,
            final(self).blocks@[old(self).blocks@.len() as int].ops@.len() == 0,
            final(self).types@ == old(self).types@,
    {
        let p = OpPtr { idx: self.ops.len() };
        let b = BlockPtr { idx: self.blocks.len() };
        let r = RegionPtr { idx: self.regions.len() };
        let mut regions: Vec<RegionPtr> = Vec::new();
        regions.push(r);
        let mut blocks: Vec<BlockPtr> = Vec::new();
        blocks.push(b);
        self.blocks.push(BlockData { args, ops: Vec::new(), parent: Some(r) });
        self.regions.push(RegionData { parent: p, blocks });
        self.ops.push(
            OpData {
                kind: OpKind::Machine,
                attributes: AttributeDict::new(),
                operands: Vec::new(),
                results: Vec::new(),
                regions,
                parent: None,
            },
        );
        proof {
            assert(self.region(r).blocks@[0] == b);
            assert(self.op(p).regions@[0] == r);
            assert(self.op_ok(p.idx as int));
            assert(self.block_ok(b.idx as int));
            assert(self.region_ok(r.idx as int));
            Self::lemma_grown(old(self), self);
        }
        p
    }

    /// Puts an operation that stands in no block behind the last one of `b`.
    /// The operation must not enclose the block.
    pub fn insert_at_back(&mut self, p: OpPtr, b: BlockPtr)
        requires
            old(self).wf(),
            old(self).has_op(p),
            old(self).has_block(b),
            old(self).op(p).parent is None,
            old(self).block_owner(b) matches Some(owner) ==> !old(self).encloses(p, owner),
        ensures
            final(self).wf(),
            final(self).op(p) == (OpData { parent: Some(b), ..old(self).op(p) }),
            final(self).ops@ == old(self).ops@.update(p.idx as int, final(self).op(p)),
            final(self).block(b).ops@ == old(self).block(b).ops@.push(p),
            final(self).block(b).args == old(self).block(b).args,
            final(self).block(b).parent == old(self).block(b).parent,
            final(self).blocks@ == old(self).blocks@.update(b.idx as int, final(self).block(b)),
            final(self).regions == old(self).regions,
            final(self).types == old(self).types,
    {
        self.ops[p.idx].parent = Some(b);
        self.blocks[b.idx].ops.push(p);
        proof {
            let before = *old(self);
            let pi = p.idx as int;
            let bi = b.idx as int;
            assert(before.block_ok(bi));
            assert(!before.block(b).ops@.contains(p)) by {
                if before.block(b).ops@.contains(p) {
                    let k = before.block(b).ops@.index_of(p);
                    assert(before.block(b).ops@[k] == p);
                }
            }
            assert(self.block(b).ops@.last() == p);
            assert forall|i: int| 0 <= i < self.ops@.len() implies #[trigger] self.op_ok(i) by {
                assert(before.op_ok(i));
                let o = before.ops@[i];
                let x = OpPtr { idx: i as usize };
                assert forall|k: int| 0 <= k < o.operands@.len() implies self.has_value(
                    #[trigger] o.operands@[k],
                ) by {
                    assert(before.has_value(o.operands@[k]));
                }
                if let Some(q) = o.parent {
                    if q == b {
                        let k = before.block(b).ops@.index_of(x);
                        assert(self.block(b).ops@[k] == x);
                    }
                }
            }
            assert forall|i: int| 0 <= i < self.blocks@.len() implies #[trigger] self.block_ok(i) by {
                assert(before.block_ok(i));
                let d = self.blocks@[i];
                assert forall|k: int| 0 <= k < d.ops@.len() implies self.has_op(#[trigger] d.ops@[k])
                    && self.op(d.ops@[k]).parent == Some(BlockPtr { idx: i as usize }) by {
                    if k < before.blocks@[i].ops@.len() {
                        assert(d.ops@[k] == before.blocks@[i].ops@[k]);
                        assert(before.op(before.blocks@[i].ops@[k]).parent is Some);
                    }
                }
                if i == bi {
                    assert forall|j: int, k: int|
                        0 <= j < d.ops@.len() && 0 <= k < d.ops@.len() && j != k implies d.ops@[j]
                            != d.ops@[k] by {
                        let e = before.blocks@[i].ops@;
                        if j < e.len() {
                            assert(d.ops@[j] == e[j]);
                        }
                        if k < e.len() {
                            assert(d.ops@[k] == e[k]);
                        }
                    }
                }
            }
            assert forall|i: int| 0 <= i < self.regions@.len() implies #[trigger] self.region_ok(
                i,
            ) by {
                assert(before.region_ok(i));
                let d = before.regions@[i];
                assert forall|k: int| 0 <= k < d.blocks@.len() implies self.has_block(
                    #[trigger] d.blocks@[k],
                ) && self.block(d.blocks@[k]).parent == Some(RegionPtr { idx: i as usize }) by {
                    assert(before.has_block(d.blocks@[k]));
                }
            }
            assert forall|x: OpPtr| self.has_op(x) implies #[trigger] self.rooted(x) by {
                Self::lemma_rooted_after_link(&before, self, p, b, x);
            }
        }
    }

    /// Where the link from `p` to the owner of `b` is the only new one, and
    /// closes no circle, every operation stays rooted.
    proof fn lemma_rooted_after_link(
        before: &Context,
        after: &Context,
        p: OpPtr,
        b: BlockPtr,
        x: OpPtr,
    )
        requires
            before.wf(),
            before.has_op(p),
            before.has_op(x),
            before.has_block(b),
            before.op(p).parent is None,
            before.block_owner(b) matches Some(owner) ==> !before.encloses(p, owner),
            forall|q: OpPtr|
                before.has_op(q) && q != p ==> (#[trigger] after.op(q)).parent == before.op(
                    q,
                ).parent,
            after.op(p).parent == Some(b),
            forall|c: BlockPtr|
                before.has_block(c) ==> (#[trigger] after.block(c)).parent == before.block(c).parent,
            after.regions == before.regions,
        ensures
            after.rooted(x),
    {
        assert(before.rooted(x));
        let n = choose|n: nat| #[trigger] before.ancestor(x, n) is None;
        assert forall|q: OpPtr| before.has_op(q) && q != p implies #[trigger] after.parent_op(q)
            == before.parent_op(q) by {
            before.lemma_parent_op(q);
            assert(after.op(q).parent == before.op(q).parent);
            if let Some(c) = before.op(q).parent {
                assert(after.block(c).parent == before.block(c).parent);
            }
        }
        assert(after.block(b).parent == before.block(b).parent);
        assert(after.parent_op(p) == before.block_owner(b));
        if exists|k: nat| k < n && #[trigger] before.ancestor(x, k) == Some(p) {
            let k = choose|k: nat| k < n && #[trigger] before.ancestor(x, k) == Some(p);
            Self::lemma_path_to(before, after, p, x, k);
            match before.block_owner(b) {
                None => {
                    assert(after.ancestor(x, k + 1) is None);
                },
                Some(owner) => {
                    assert(before.has_op(owner)) by {
                        assert(before.block_ok(b.idx as int));
                        if let Some(r) = before.block(b).parent {
                            assert(before.region_ok(r.idx as int));
                        }
                    }
                    assert(before.rooted(owner));
                    let m = choose|m: nat| #[trigger] before.ancestor(owner, m) is None;
                    Self::lemma_path_off(before, after, p, owner, m);
                    assert(after.ancestor(x, k + 1) == Some(owner));
                    Self::lemma_ancestor_sum(after, x, k + 1, owner, m);
                    assert(after.ancestor(x, k + 1 + m) is None);
                },
            }
        } else {
            Self::lemma_path_off_until(before, after, p, x, n, n);
            assert(after.ancestor(x, n) is None);
        }
    }

    /// Ancestors of ancestors are ancestors.
    proof fn lemma_ancestor_sum(ctx: &Context, x: OpPtr, k: nat, q: OpPtr, m: nat)
        requires
            ctx.ancestor(x, k) == Some(q),
        ensures
            ctx.ancestor(x, k + m) == ctx.ancestor(q, m),
        decreases m,
    {
        if m > 0 {
            Self::lemma_ancestor_sum(ctx, x, k, q, (m - 1) as nat);
        }
    }

    /// A path that does not meet `p` among the first `m` steps stays the same.
    proof fn lemma_path_off_until(
        before: &Context,
        after: &Context,
        p: OpPtr,
        x: OpPtr,
        n: nat,
        m: nat,
    )
        requires
            before.wf(),
            before.has_op(x),
            m <= n,
            forall|k: nat| k < n ==> #[trigger] before.ancestor(x, k) != Some(p),
            forall|q: OpPtr|
                before.has_op(q) && q != p ==> #[trigger] after.parent_op(q) == before.parent_op(q),
        ensures
            after.ancestor(x, m) == before.ancestor(x, m),
            before.ancestor(x, m) matches Some(q) ==> before.has_op(q),
        decreases m,
    {
        if m > 0 {
            Self::lemma_path_off_until(before, after, p, x, n, (m - 1) as nat);
            if let Some(q) = before.ancestor(x, (m - 1) as nat) {
                before.lemma_parent_op(q);
                assert(after.parent_op(q) == before.parent_op(q));
            }
        }
    }

    /// A path that never meets `p` stays the same.
    proof fn lemma_path_off(before: &Context, after: &Context, p: OpPtr, x: OpPtr, m: nat)
        requires
            before.wf(),
            before.has_op(x),
            !before.encloses(p, x),
            forall|q: OpPtr|
                before.has_op(q) && q != p ==> #[trigger] after.parent_op(q) == before.parent_op(q),
        ensures
            after.ancestor(x, m) == before.ancestor(x, m),
    {
        Self::lemma_path_off_until(before, after, p, x, m, m);
    }

    /// The path up to `p`, which had no parent before, stays the same.
    proof fn lemma_path_to(before: &Context, after: &Context, p: OpPtr, x: OpPtr, k: nat)
        requires
            before.wf(),
            before.has_op(x),
            before.op(p).parent is None,
            before.ancestor(x, k) == Some(p),
            forall|q: OpPtr|
                before.has_op(q) && q != p ==> #[trigger] after.parent_op(q) == before.parent_op(q),
        ensures
            after.ancestor(x, k) == Some(p),
    {
        assert forall|j: nat| j < k implies #[trigger] before.ancestor(x, j) != Some(p) by {
            if before.ancestor(x, j) == Some(p) {
                Self::lemma_ancestor_sum(before, x, j, p, (k - j) as nat);
                Self::lemma_top(before, p, (k - j) as nat);
            }
        }
        Self::lemma_path_off_until(before, after, p, x, k, k);
    }

    /// Nothing encloses an operation that stands in no block.
    proof fn lemma_top(ctx: &Context, p: OpPtr, n: nat)
        requires
            ctx.op(p).parent is None,
            n > 0,
        ensures
            ctx.ancestor(p, n) is None,
        decreases n,
    {
        if n > 1 {
            Self::lemma_top(ctx, p, (n - 1) as nat);
        } else {
            assert(ctx.ancestor(p, 0) == Some(p));
        }
    }

    /// Takes an operation out of its block. What it holds stays its own.
    pub fn erase(&mut self, p: OpPtr)
        requires
            old(self).wf(),
            old(self).has_op(p),
        ensures
            final(self).wf(),
            final(self).op(p) == (OpData { parent: None, ..old(self).op(p) }),
            final(self).ops@ == old(self).ops@.update(p.idx as int, final(self).op(p)),
            old(self).op(p).parent is None ==> final(self).blocks@ == old(self).blocks@,
            old(self).op(p).parent matches Some(b) ==> {
                &&& final(self).block(b).ops@ == old(self).block(b).ops@.remove(
                    old(self).block(b).ops@.index_of(p),
                )
                &&& final(self).block(b).args == old(self).block(b).args
                &&& final(self).block(b).parent == old(self).block(b).parent
                &&& final(self).blocks@ == old(self).blocks@.update(
                    b.idx as int,
                    final(self).block(b),
                )
            },
            final(self).regions == old(self).regions,
            final(self).types == old(self).types,
    {
        proof {
            self.lemma_parent_op(p);
            assert(self.op_ok(p.idx as int));
        }
        let b = match self.ops[p.idx].parent {
            Some(b) => b,
            None => {
                proof {
                    assert(self.ops@.update(p.idx as int, self.op(p)) == self.ops@);
                }
                return ;
            },
        };
        assert(self.block_ok(b.idx as int));
        let ghost at = self.block(b).ops@.index_of(p);
        assert(0 <= at < self.block(b).ops@.len() && self.block(b).ops@[at] == p);
        let count: usize = self.blocks[b.idx].ops.len();
        let mut k: usize = 0;
        while self.blocks[b.idx].ops[k] != p
            invariant
                self.has_block(b),
                count == self.block(b).ops@.len(),
                0 <= k <= at < count,
                self.block(b).ops@[at] == p,
            decreases count - k,
        {
            k += 1;
        }
        assert(k == at);
        self.ops[p.idx].parent = None;
        self.blocks[b.idx].ops.remove(k);
        proof {
            let before = *old(self);
            let pi = p.idx as int;
            let bi = b.idx as int;
            let e = before.block(b).ops@;
            assert(self.ops@.len() == self.ops.len());
            assert(self.blocks@.len() == self.blocks.len());
            assert forall|i: int| 0 <= i < self.ops@.len() implies #[trigger] self.op_ok(i) by {
                assert(before.op_ok(i));
                let o = before.ops@[i];
                let x = OpPtr { idx: i as usize };
                assert forall|j: int| 0 <= j < o.operands@.len() implies self.has_value(
                    #[trigger] o.operands@[j],
                ) by {
                    assert(before.has_value(o.operands@[j]));
                }
                if o.parent == Some(b) && i != pi {
                    assert(x != p);
                    let j = e.index_of(x);
                    assert(e[j] == x);
                    if j < k {
                        assert(self.block(b).ops@[j] == x);
                    } else {
                        assert(self.block(b).ops@[j - 1] == x);
                    }
                }
            }
            assert forall|i: int| 0 <= i < self.blocks@.len() implies #[trigger] self.block_ok(i) by {
                assert(before.block_ok(i));
                let d = self.blocks@[i];
                assert forall|j: int| 0 <= j < d.ops@.len() implies self.has_op(#[trigger] d.ops@[j])
                    && self.op(d.ops@[j]).parent == Some(BlockPtr { idx: i as usize }) by {
                    if i == bi {
                        let j0 = if j < k {
                            j
                        } else {
                            j + 1
                        };
                        assert(d.ops@[j] == e[j0]);
                        assert(before.op(e[j0]).parent == Some(b));
                        assert(e[j0] != e[k as int]);
                        assert(self.op(e[j0]) == before.op(e[j0]));
                    } else {
                        let y = before.blocks@[i].ops@[j];
                        assert(before.op(y).parent == Some(BlockPtr { idx: i as usize }));
                        assert(BlockPtr { idx: i as usize } != b);
                        assert(self.op(y) == before.op(y));
                    }
                }
                if i == bi {
                    assert forall|j: int, m: int|
                        0 <= j < d.ops@.len() && 0 <= m < d.ops@.len() && j != m implies d.ops@[j]
                            != d.ops@[m] by {
                        let j0 = if j < k {
                            j
                        } else {
                            j + 1
                        };
                        let m0 = if m < k {
                            m
                        } else {
                            m + 1
                        };
                        assert(d.ops@[j] == e[j0]);
                        assert(d.ops@[m] == e[m0]);
                    }
                }
            }
            assert forall|i: int| 0 <= i < self.regions@.len() implies #[trigger] self.region_ok(
                i,
            ) by {
                assert(before.region_ok(i));
                let d = before.regions@[i];
                assert forall|j: int| 0 <= j < d.blocks@.len() implies self.has_block(
                    #[trigger] d.blocks@[j],
                ) && self.block(d.blocks@[j]).parent == Some(RegionPtr { idx: i as usize }) by {
                    assert(before.has_block(d.blocks@[j]));
                }
            }
            assert forall|q: OpPtr| before.has_op(q) && q != p implies #[trigger] self.parent_op(q)
                == before.parent_op(q) by {
                before.lemma_parent_op(q);
                assert(self.op(q).parent == before.op(q).parent);
                if let Some(c) = before.op(q).parent {
                    assert(self.block(c).parent == before.block(c).parent);
                }
            }
            assert forall|x: OpPtr| self.has_op(x) implies #[trigger] self.rooted(x) by {
                assert(before.rooted(x));
                let n = choose|n: nat| #[trigger] before.ancestor(x, n) is None;
                Self::lemma_shorter_path(&before, self, p, x, n);
            }
        }
    }

    /// Where `p` lost its parent and nothing else moved, a path ends no later
    /// than it did.
    proof fn lemma_shorter_path(before: &Context, after: &Context, p: OpPtr, x: OpPtr, n: nat)
        requires
            before.wf(),
            before.has_op(x),
            before.ancestor(x, n) is None,
            after.op(p).parent is None,
            forall|q: OpPtr|
                before.has_op(q) && q != p ==> #[trigger] after.parent_op(q) == before.parent_op(q),
        ensures
            after.rooted(x),
    {
        if exists|k: nat| #[trigger] after.ancestor(x, k) == Some(p) {
            let k = choose|k: nat| #[trigger] after.ancestor(x, k) == Some(p);
            assert(after.ancestor(x, k + 1) is None);
        } else {
            Self::lemma_same_path(before, after, p, x, n);
            assert(after.ancestor(x, n) is None);
        }
    }

    proof fn lemma_same_path(before: &Context, after: &Context, p: OpPtr, x: OpPtr, n: nat)
        requires
            before.wf(),
            before.has_op(x),
            forall|k: nat| #[trigger] after.ancestor(x, k) != Some(p),
            forall|q: OpPtr|
                before.has_op(q) && q != p ==> #[trigger] after.parent_op(q) == before.parent_op(q),
        ensures
            after.ancestor(x, n) == before.ancestor(x, n),
            before.ancestor(x, n) matches Some(q) ==> before.has_op(q),
        decreases n,
    {
        if n > 0 {
            Self::lemma_same_path(before, after, p, x, (n - 1) as nat);
            assert(after.ancestor(x, (n - 1) as nat) != Some(p));
            if let Some(q) = before.ancestor(x, (n - 1) as nat) {
                before.lemma_parent_op(q);
                assert(after.parent_op(q) == before.parent_op(q));
            }
        }
    }

    /// Stores an attribute of an operation, in place of what was there.
    pub fn set_attribute(&mut self, p: OpPtr, key: AttrKey, value: Attribute)
        requires
            old(self).wf(),
            old(self).has_op(p),
            value matches Attribute::Identifier(s) ==> attributes::is_identifier(s@),
        ensures
            final(self).wf(),
            final(self).op(p).attributes.at(key) == Some(value),
            forall|other: AttrKey|
                other != key ==> #[trigger] final(self).op(p).attributes.at(other) == old(self).op(
                    p,
                ).attributes.at(other),
            final(self).op(p) == (OpData {
                attributes: final(self).op(p).attributes,
                ..old(self).op(p)
            }),
            final(self).ops@ == old(self).ops@.update(p.idx as int, final(self).op(p)),
            final(self).blocks == old(self).blocks,
            final(self).regions == old(self).regions,
            final(self).types == old(self).types,
    {
        assert(self.op_ok(p.idx as int));
        self.ops[p.idx].attributes.set(key, value);
        proof {
            let before = *old(self);
            assert forall|i: int| 0 <= i < self.ops@.len() implies #[trigger] self.op_ok(i) by {
                assert(before.op_ok(i));
                let o = before.ops@[i];
                assert forall|j: int| 0 <= j < o.operands@.len() implies self.has_value(
                    #[trigger] o.operands@[j],
                ) by {
                    assert(before.has_value(o.operands@[j]));
                }
            }
            assert forall|i: int| 0 <= i < self.blocks@.len() implies #[trigger] self.block_ok(i) by {
                assert(before.block_ok(i));
                let d = before.blocks@[i];
                assert forall|j: int| 0 <= j < d.ops@.len() implies self.has_op(#[trigger] d.ops@[j])
                    && self.op(d.ops@[j]).parent == Some(BlockPtr { idx: i as usize }) by {
                    assert(before.has_op(d.ops@[j]));
                }
            }
            assert forall|i: int| 0 <= i < self.regions@.len() implies #[trigger] self.region_ok(
                i,
            ) by {
                assert(before.region_ok(i));
            }
            Self::lemma_same_parents(&before, self);
        }
    }

    /// Writes a type.
    pub fn display_type(&self, ty: TypeHandle) -> (r: String)
        ensures
            r@ == self.type_text(ty),
    {
        match ty {
            TypeHandle::Integer { width, signedness } => {
                let mut s = "builtin.integer ".to_owned();
                match signedness {
                    Signedness::Signed => s.append("si"),
                    Signedness::Unsigned => s.append("ui"),
                    Signedness::Signless => s.append("i"),
                }
                s.append(decimal_text(width as u64).as_str());
                s
            },
            TypeHandle::Clock => "seq.clock ".to_owned(),
            TypeHandle::Reset => "seq.reset ".to_owned(),
            TypeHandle::Instance => "fsm.instance ".to_owned(),
            TypeHandle::InstanceAlias => "fsm.instancetype ".to_owned(),
            TypeHandle::Composite { id } => if id < self.types.len() {
                self.types[id].text.clone()
            } else {
                "".to_owned()
            },
        }
    }

    /// Writes some types, with a comma and a space between them.
    fn display_types(&self, tys: &Vec<TypeHandle>) -> (r: String)
        ensures
            r@ == self.types_text(tys@),
    {
        let mut s = String::new();
        let mut i: usize = 0;
        while i < tys.len()
            invariant
                i <= tys@.len(),
                s@ == self.types_text(tys@.take(i as int)),
            decreases tys@.len() - i,
        {
            assert(tys@.take(i + 1).drop_last() == tys@.take(i as int));
            if i > 0 {
                s.append(", ");
            }
            s.append(self.display_type(tys[i]).as_str());
            i += 1;
        }
        assert(tys@.take(i as int) == tys@);
        s
    }

    /// The function type from `inputs` to `results`.
    pub fn function_type(&mut self, inputs: Vec<TypeHandle>, results: Vec<TypeHandle>) -> (r:
        TypeHandle)
        requires
            old(self).wf(),
        ensures
            final(self).wf(),
            final(self).extends(old(self)),
            final(self).ops == old(self).ops,
            final(self).blocks == old(self).blocks,
            final(self).regions == old(self).regions,
            final(self).type_signature(r) == Some((inputs@, results@)),
            r is Composite,
            final(self).types@.len() > old(self).types@.len() ==> final(self).type_text(r) == old(
                self,
            ).function_text(inputs@, results@),
    {
        let mut i: usize = 0;
        while i < self.types.len()
            invariant
                i <= self.types@.len(),
                *self == *old(self),
                self.wf(),
                forall|j: int|
                    0 <= j < i ==> !((#[trigger] self.types@[j]).shape matches Shape::Function {
                        inputs: a,
                        results: b,
                    } && a@ == inputs@ && b@ == results@),
            decreases self.types@.len() - i,
        {
            if let Shape::Function { inputs: a, results: b } = &self.types[i].shape {
                if same_types(a, &inputs) && same_types(b, &results) {
                    return TypeHandle::Composite { id: i };
                }
            }
            i += 1;
        }
        let mut text = "builtin.function <(".to_owned();
        text.append(self.display_types(&inputs).as_str());
        text.append(") -> (");
        text.append(self.display_types(&results).as_str());
        text.append(")>");
        let ghost ins = inputs@;
        let ghost outs = results@;
        let id: usize = self.types.len();
        self.types.push(Composite { shape: Shape::Function { inputs, results }, text });
        proof {
            assert(self.types_ok());
            Self::lemma_grown(old(self), self);
            assert(self.type_text(TypeHandle::Composite { id }) == old(self).function_text(ins, outs));
        }
        TypeHandle::Composite { id }
    }
}

} // verus!
