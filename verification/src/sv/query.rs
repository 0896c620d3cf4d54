//! Questions about a syntax tree: the first descendant of some kinds, the
//! children of a kind, and the text of a node.

use crate::sv::cst;
use crate::sv::cst::{CstNode, NodeKind, SyntaxTree};
use crate::sv::span;
use crate::sv::span::{trim_span, Span};
use vstd::prelude::*;

verus! {

/// The first node of some kinds from place `j` on, before place `end`.
pub open spec fn find_from(nodes: Seq<CstNode>, j: int, end: int, kinds: Seq<NodeKind>) -> Option<
    int,
>
    decreases end - j,
{
    if j < 0 || j >= end || j >= nodes.len() {
        None
    } else if kinds.contains(nodes[j].kind) {
        Some(j)
    } else {
        find_from(nodes, j + 1, end, kinds)
    }
}

/// The first of a node and its descendants that is of some kinds.
pub open spec fn find(nodes: Seq<CstNode>, i: int, kinds: Seq<NodeKind>) -> Option<int> {
    find_from(nodes, i, nodes[i].end as int, kinds)
}

/// The last node of a kind from place `j` on, before place `end`.
pub open spec fn find_last(nodes: Seq<CstNode>, j: int, end: int, kind: NodeKind) -> Option<int>
    decreases end - j,
{
    if j < 0 || j >= end || end > nodes.len() {
        None
    } else if nodes[end - 1].kind == kind {
        Some(end - 1)
    } else {
        find_last(nodes, j, end - 1, kind)
    }
}

/// The siblings of a kind from place `c` on, before place `end`.
pub open spec fn kids_from(nodes: Seq<CstNode>, c: int, end: int, kind: NodeKind) -> Seq<int>
    decreases end - c,
{
    if c < 0 || c >= end || c >= nodes.len() || !(c < nodes[c].end <= end) {
        Seq::empty()
    } else if nodes[c].kind == kind {
        seq![c] + kids_from(nodes, nodes[c].end as int, end, kind)
    } else {
        kids_from(nodes, nodes[c].end as int, end, kind)
    }
}

/// The children of a node that are of a kind, in order.
pub open spec fn kids(nodes: Seq<CstNode>, i: int, kind: NodeKind) -> Seq<int> {
    kids_from(nodes, i + 1, nodes[i].end as int, kind)
}

/// The nodes of a kind from place `j` on, before place `end`.
pub open spec fn all_from(nodes: Seq<CstNode>, j: int, end: int, kind: NodeKind) -> Seq<int>
    decreases end - j,
{
    if j < 0 || j >= end || j >= nodes.len() {
        Seq::empty()
    } else if nodes[j].kind == kind {
        seq![j] + all_from(nodes, j + 1, end, kind)
    } else {
        all_from(nodes, j + 1, end, kind)
    }
}

/// The text from the first token to the last one among the nodes from place `a`
/// on, before place `b`, without the white space at its ends.
pub open spec fn text_between(src: Seq<char>, nodes: Seq<CstNode>, a: int, b: int) -> Seq<char> {
    match (find_from(nodes, a, b, seq![NodeKind::Locate]), find_last(nodes, a, b, NodeKind::Locate)) {
        (Some(f), Some(l)) => span::trim(
            src.subrange(nodes[f].span.from as int, nodes[l].span.to as int),
        ),
        _ => Seq::empty(),
    }
}

/// The text of a node, without the white space at its ends.
pub open spec fn text(src: Seq<char>, nodes: Seq<CstNode>, i: int) -> Seq<char> {
    text_between(src, nodes, i, nodes[i].end as int)
}

/// The first token of a node.
pub open spec fn token(src: Seq<char>, nodes: Seq<CstNode>, i: int) -> Seq<char> {
    match find(nodes, i, seq![NodeKind::Locate]) {
        Some(j) => nodes[j].span.of(src),
        None => Seq::empty(),
    }
}

/// Where a search finds something, it is within what was searched.
pub proof fn lemma_find_from(nodes: Seq<CstNode>, j: int, end: int, kinds: Seq<NodeKind>)
    ensures
        find_from(nodes, j, end, kinds) matches Some(k) ==> 0 <= j <= k < end && k < nodes.len()
            && kinds.contains(nodes[k].kind),
        0 <= j && end <= nodes.len() && find_from(nodes, j, end, kinds) is None ==> forall|k: int|
            j <= k < end ==> !kinds.contains((#[trigger] nodes[k]).kind),
    decreases end - j,
{
    if !(j < 0 || j >= end || j >= nodes.len()) && !kinds.contains(nodes[j].kind) {
        lemma_find_from(nodes, j + 1, end, kinds);
    }
}

/// Where a search from the end finds something, it is within what was searched.
pub proof fn lemma_find_last(nodes: Seq<CstNode>, j: int, end: int, kind: NodeKind)
    ensures
        find_last(nodes, j, end, kind) matches Some(k) ==> 0 <= j <= k < end && k < nodes.len()
            && nodes[k].kind == kind && forall|m: int|
            k < m < end ==> (#[trigger] nodes[m]).kind != kind,
        0 <= j && end <= nodes.len() && find_last(nodes, j, end, kind) is None ==> forall|k: int|
            j <= k < end ==> (#[trigger] nodes[k]).kind != kind,
    decreases end - j,
{
    if !(j < 0 || j >= end || end > nodes.len()) && nodes[end - 1].kind != kind {
        lemma_find_last(nodes, j, end - 1, kind);
    }
}

/// Children stand behind their parent and before its end.
pub proof fn lemma_kids_from(nodes: Seq<CstNode>, c: int, end: int, kind: NodeKind)
    ensures
        forall|k: int|
            0 <= k < kids_from(nodes, c, end, kind).len() ==> 0 <= c <= #[trigger] kids_from(
                nodes,
                c,
                end,
                kind,
            )[k] < end && kids_from(nodes, c, end, kind)[k] < nodes.len() && nodes[kids_from(
                nodes,
                c,
                end,
                kind,
            )[k]].kind == kind,
    decreases end - c,
{
    if !(c < 0 || c >= end || c >= nodes.len() || !(c < nodes[c].end <= end)) {
        let rest = kids_from(nodes, nodes[c].end as int, end, kind);
        lemma_kids_from(nodes, nodes[c].end as int, end, kind);
        let all = kids_from(nodes, c, end, kind);
        assert forall|k: int| 0 <= k < all.len() implies 0 <= c <= #[trigger] all[k] < end && all[k]
            < nodes.len() && nodes[all[k]].kind == kind by {
            if nodes[c].kind == kind {
                if k > 0 {
                    assert(all[k] == rest[k - 1]);
                }
            } else {
                assert(all[k] == rest[k]);
            }
        }
    }
}

/// The nodes of a kind are among those that were searched.
pub proof fn lemma_all_from(nodes: Seq<CstNode>, j: int, end: int, kind: NodeKind)
    ensures
        forall|k: int|
            0 <= k < all_from(nodes, j, end, kind).len() ==> 0 <= j <= #[trigger] all_from(
                nodes,
                j,
                end,
                kind,
            )[k] < end && all_from(nodes, j, end, kind)[k] < nodes.len() && nodes[all_from(
                nodes,
                j,
                end,
                kind,
            )[k]].kind == kind,
    decreases end - j,
{
    if !(j < 0 || j >= end || j >= nodes.len()) {
        let rest = all_from(nodes, j + 1, end, kind);
        lemma_all_from(nodes, j + 1, end, kind);
        let all = all_from(nodes, j, end, kind);
        assert forall|k: int| 0 <= k < all.len() implies 0 <= j <= #[trigger] all[k] < end && all[k]
            < nodes.len() && nodes[all[k]].kind == kind by {
            if nodes[j].kind == kind {
                if k > 0 {
                    assert(all[k] == rest[k - 1]);
                }
            } else {
                assert(all[k] == rest[k]);
            }
        }
    }
}

/// Whether a kind is one of some.
fn kind_in(kind: NodeKind, kinds: &[NodeKind]) -> (r: bool)
    ensures
        r == kinds@.contains(kind),
{
    let mut i: usize = 0;
    while i < kinds.len()
        invariant
            i <= kinds@.len(),
            forall|k: int| 0 <= k < i ==> kinds@[k] != kind,
        decreases kinds@.len() - i,
    {
        if kinds[i] == kind {
            assert(kinds@[i as int] == kind);
            return true;
        }
        i += 1;
    }
    false
}

/// The places that some numbers are.
pub open spec fn places(v: Seq<usize>) -> Seq<int> {
    v.map_values(|i: usize| i as int)
}

/// Later children stand behind earlier ones.
proof fn lemma_kids_from_ordered(
    nodes: Seq<CstNode>,
    c: int,
    end: int,
    kind: NodeKind,
    a: int,
    b: int,
)
    requires
        0 <= a < b < kids_from(nodes, c, end, kind).len(),
    ensures
        nodes[kids_from(nodes, c, end, kind)[a]].end <= kids_from(nodes, c, end, kind)[b],
    decreases end - c,
{
    let all = kids_from(nodes, c, end, kind);
    let rest = kids_from(nodes, nodes[c].end as int, end, kind);
    if nodes[c].kind == kind {
        assert(all[b] == rest[b - 1]);
        lemma_kids_from(nodes, nodes[c].end as int, end, kind);
        if a > 0 {
            assert(all[a] == rest[a - 1]);
            lemma_kids_from_ordered(nodes, nodes[c].end as int, end, kind, a - 1, b - 1);
        }
    } else {
        lemma_kids_from_ordered(nodes, nodes[c].end as int, end, kind, a, b);
    }
}

impl SyntaxTree {
    /// Later children of a node stand behind earlier ones.
    pub proof fn lemma_kids_ordered(&self, i: int, kind: NodeKind, a: int, b: int)
        requires
            0 <= a < b < kids(self.nodes@, i, kind).len(),
        ensures
            self.nodes@[kids(self.nodes@, i, kind)[a]].end <= kids(self.nodes@, i, kind)[b],
            self.wf() && 0 <= i < self.nodes@.len() ==> kids(self.nodes@, i, kind)[a] < kids(
                self.nodes@,
                i,
                kind,
            )[b],
    {
        let end = self.nodes@[i].end as int;
        lemma_kids_from(self.nodes@, i + 1, end, kind);
        lemma_kids_from_ordered(self.nodes@, i + 1, end, kind, a, b);
        if self.wf() && 0 <= i < self.nodes@.len() {
            self.lemma_end(kids(self.nodes@, i, kind)[a]);
        }
    }

    /// Every node ends behind its beginning and within the tree.
    pub proof fn lemma_end(&self, i: int)
        requires
            self.wf(),
            0 <= i < self.nodes@.len(),
        ensures
            i < self.nodes@[i].end <= self.nodes@.len(),
    {
        reveal(cst::well_formed);
    }

    /// The first of a node and its descendants that is of some kinds.
    pub fn find(&self, i: usize, kinds: &[NodeKind]) -> (r: Option<usize>)
        requires
            self.wf(),
            i < self.nodes@.len(),
        ensures
            r is Some <==> find(self.nodes@, i as int, kinds@) is Some,
            r matches Some(k) ==> find(self.nodes@, i as int, kinds@) == Some(k as int) && i <= k
                < self.nodes@[i as int].end && k < self.nodes@.len() && kinds@.contains(
                self.nodes@[k as int].kind,
            ) && self.nodes@[k as int].end <= self.nodes@[i as int].end,
    {
        proof {
            reveal(cst::well_formed);
        }
        let ghost nodes = self.nodes@;
        let end: usize = self.nodes[i].end;
        let mut j: usize = i;
        assert(i < nodes[i as int].end <= nodes.len());
        while j < end
            invariant
                self.wf(),
                nodes == self.nodes@,
                i <= j <= end,
                i < nodes.len(),
                end == nodes[i as int].end,
                end <= nodes.len(),
                find(nodes, i as int, kinds@) == find_from(nodes, j as int, end as int, kinds@),
            decreases end - j,
        {
            proof {
                reveal(cst::well_formed);
            }
            if kind_in(self.nodes[j].kind, kinds) {
                return Some(j);
            }
            j += 1;
        }
        None
    }

    /// The first node of a kind.
    pub fn first_of(&self, kind: NodeKind) -> (r: Option<usize>)
        ensures
            r is Some <==> find_from(self.nodes@, 0, self.nodes@.len() as int, seq![kind]) is Some,
            r matches Some(k) ==> find_from(self.nodes@, 0, self.nodes@.len() as int, seq![kind])
                == Some(k as int) && k < self.nodes@.len(),
    {
        let ghost nodes = self.nodes@;
        let ghost end = nodes.len() as int;
        let mut j: usize = 0;
        assert(seq![kind][0] == kind);
        assert forall|x: NodeKind| seq![kind].contains(x) <==> x == kind by {
            if seq![kind].contains(x) {
                let i = seq![kind].index_of(x);
                assert(seq![kind][i] == x);
            }
        }
        while j < self.nodes.len()
            invariant
                nodes == self.nodes@,
                end == nodes.len(),
                j <= nodes.len(),
                forall|x: NodeKind| seq![kind].contains(x) <==> x == kind,
                find_from(nodes, 0, end, seq![kind]) == find_from(nodes, j as int, end, seq![kind]),
            decreases end - j,
        {
            if self.nodes[j].kind == kind {
                return Some(j);
            }
            j += 1;
        }
        None
    }

    /// The children of a node that are of a kind, in order.
    pub fn kids(&self, i: usize, kind: NodeKind) -> (r: Vec<usize>)
        requires
            self.wf(),
            i < self.nodes@.len(),
        ensures
            places(r@) == kids(self.nodes@, i as int, kind),
            forall|k: int|
                0 <= k < r@.len() ==> i < #[trigger] r@[k] < self.nodes@[i as int].end && r@[k]
                    < self.nodes@.len() && self.nodes@[r@[k] as int].kind == kind,
    {
        proof {
            reveal(cst::well_formed);
        }
        let ghost nodes = self.nodes@;
        let end: usize = self.nodes[i].end;
        let mut out: Vec<usize> = Vec::new();
        let mut c: usize = i + 1;
        assert(i < nodes[i as int].end <= nodes.len());
        assert(places(out@) + kids_from(nodes, c as int, end as int, kind) =~= kids(
            nodes,
            i as int,
            kind,
        ));
        while c < end
            invariant
                self.wf(),
                nodes == self.nodes@,
                i < c <= end,
                i < nodes.len(),
                end == nodes[i as int].end,
                end <= nodes.len(),
                places(out@) + kids_from(nodes, c as int, end as int, kind) == kids(
                    nodes,
                    i as int,
                    kind,
                ),
                forall|k: int|
                    0 <= k < out@.len() ==> i < #[trigger] out@[k] < end && out@[k] < nodes.len()
                        && nodes[out@[k] as int].kind == kind,
            decreases end - c,
        {
            proof {
                reveal(cst::well_formed);
            }
            let ghost before = out@;
            assert(c < nodes[c as int].end <= nodes[i as int].end);
            if self.nodes[c].kind == kind {
                out.push(c);
                assert(places(out@) =~= places(before).push(c as int));
                assert(places(before).push(c as int) + kids_from(
                    nodes,
                    nodes[c as int].end as int,
                    end as int,
                    kind,
                ) =~= places(before) + (seq![c as int] + kids_from(
                    nodes,
                    nodes[c as int].end as int,
                    end as int,
                    kind,
                )));
            }
            c = self.nodes[c].end;
        }
        assert(places(out@) + kids_from(nodes, c as int, end as int, kind) =~= places(out@));
        out
    }

    /// The nodes of a kind among a node and its descendants, in order.
    pub fn all_of(&self, i: usize, kind: NodeKind) -> (r: Vec<usize>)
        requires
            self.wf(),
            i < self.nodes@.len(),
        ensures
            places(r@) == all_from(self.nodes@, i as int, self.nodes@[i as int].end as int, kind),
            forall|k: int|
                0 <= k < r@.len() ==> i <= #[trigger] r@[k] < self.nodes@[i as int].end && r@[k]
                    < self.nodes@.len() && self.nodes@[r@[k] as int].kind == kind,
    {
        proof {
            reveal(cst::well_formed);
        }
        let ghost nodes = self.nodes@;
        let end: usize = self.nodes[i].end;
        let mut out: Vec<usize> = Vec::new();
        let mut j: usize = i;
        let ghost all = all_from(nodes, i as int, end as int, kind);
        assert(i < nodes[i as int].end <= nodes.len());
        assert(places(out@) + all_from(nodes, j as int, end as int, kind) =~= all);
        while j < end
            invariant
                self.wf(),
                nodes == self.nodes@,
                i <= j <= end,
                end <= nodes.len(),
                all == all_from(nodes, i as int, end as int, kind),
                places(out@) + all_from(nodes, j as int, end as int, kind) == all,
                forall|k: int|
                    0 <= k < out@.len() ==> i <= #[trigger] out@[k] < end && out@[k] < nodes.len()
                        && nodes[out@[k] as int].kind == kind,
            decreases end - j,
        {
            proof {
                reveal(cst::well_formed);
            }
            let ghost before = out@;
            if self.nodes[j].kind == kind {
                out.push(j);
                assert(places(out@) =~= places(before).push(j as int));
                assert(places(before).push(j as int) + all_from(
                    nodes,
                    j + 1,
                    end as int,
                    kind,
                ) =~= places(before) + (seq![j as int] + all_from(
                    nodes,
                    j + 1,
                    end as int,
                    kind,
                )));
            }
            j += 1;
        }
        assert(places(out@) + all_from(nodes, j as int, end as int, kind) =~= places(out@));
        out
    }

    /// The part of the source text from the first token to the last one among the
    /// nodes from place `a` on, before place `b`, without the white space at its
    /// ends.
    pub fn span_between(&self, a: usize, b: usize) -> (r: Span)
        requires
            self.wf(),
            a <= b <= self.nodes@.len(),
        ensures
            r.fits(self.source@),
            r.of(self.source@) == text_between(self.source@, self.nodes@, a as int, b as int),
    {
        proof {
            reveal(cst::well_formed);
        }
        let ghost nodes = self.nodes@;
        let ghost locate = seq![NodeKind::Locate];
        assert(locate[0] == NodeKind::Locate);
        assert forall|k: NodeKind| locate.contains(k) <==> k == NodeKind::Locate by {
            if locate.contains(k) {
                let i = locate.index_of(k);
                assert(locate[i] == k);
            }
        }
        let mut f: usize = a;
        while f < b && self.nodes[f].kind != NodeKind::Locate
            invariant
                nodes == self.nodes@,
                a <= f <= b <= nodes.len(),
                locate == seq![NodeKind::Locate],
                forall|k: NodeKind| locate.contains(k) <==> k == NodeKind::Locate,
                find_from(nodes, a as int, b as int, locate) == find_from(
                    nodes,
                    f as int,
                    b as int,
                    locate,
                ),
            decreases b - f,
        {
            proof {
                reveal(cst::well_formed);
            }
            f += 1;
        }
        if f == b {
            return Span { from: 0, to: 0 };
        }
        let mut l: usize = b;
        while self.nodes[l - 1].kind != NodeKind::Locate
            invariant
                nodes == self.nodes@,
                a <= f < l <= b <= nodes.len(),
                nodes[f as int].kind == NodeKind::Locate,
                find_last(nodes, a as int, b as int, NodeKind::Locate) == find_last(
                    nodes,
                    a as int,
                    l as int,
                    NodeKind::Locate,
                ),
            decreases l,
        {
            proof {
                reveal(cst::well_formed);
            }
            l -= 1;
        }
        let from: usize = self.nodes[f].span.from;
        let to: usize = self.nodes[l - 1].span.to;
        assert(nodes[f as int].span.fits(self.source@));
        assert(nodes[l - 1].span.fits(self.source@));
        trim_span(&self.source, Span { from, to })
    }

    /// The part of the source text that a node is, without the white space at its
    /// ends.
    pub fn node_span(&self, i: usize) -> (r: Span)
        requires
            self.wf(),
            i < self.nodes@.len(),
        ensures
            r.fits(self.source@),
            r.of(self.source@) == text(self.source@, self.nodes@, i as int),
    {
        proof {
            reveal(cst::well_formed);
        }
        assert(i < self.nodes@[i as int].end <= self.nodes@.len());
        self.span_between(i, self.nodes[i].end)
    }

    /// The part of the source text that the first token of a node is.
    pub fn token_span(&self, i: usize) -> (r: Span)
        requires
            self.wf(),
            i < self.nodes@.len(),
        ensures
            r.fits(self.source@),
            r.of(self.source@) == token(self.source@, self.nodes@, i as int),
    {
        proof {
            reveal(cst::well_formed);
        }
        let kinds = [NodeKind::Locate];
        assert(kinds@ =~= seq![NodeKind::Locate]);
        match self.find(i, &kinds) {
            Some(j) => {
                proof {
                    assert(kinds@[0] == NodeKind::Locate);
                    let k = kinds@.index_of(self.nodes@[j as int].kind);
                    assert(kinds@[k] == NodeKind::Locate);
                    assert(self.nodes@[j as int].span.fits(self.source@));
                }
                self.nodes[j].span
            },
            None => Span { from: 0, to: 0 },
        }
    }

    /// The text of a part of the source text.
    pub fn string_of(&self, s: Span) -> (r: String)
        requires
            self.wf(),
            s.fits(self.source@),
        ensures
            r@ == s.of(self.source@),
    {
        self.text.as_str().substring_char(s.from, s.to).to_owned()
    }

    /// Retrieve the trimmed source text for any node.
    pub fn node_text(&self, i: usize) -> (r: String)
        requires
            self.wf(),
            i < self.nodes@.len(),
        ensures
            r@ == text(self.source@, self.nodes@, i as int),
    {
        let s = self.node_span(i);
        self.string_of(s)
    }
}

} // verus!
