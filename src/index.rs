//! Building and searching the packed R-tree index held as an array of
//! nodes, root first.
use crate::bounds::{contains_spec, empty_bounds, extend_spec, intersects_spec, Bounds};
use crate::codec::node_bytes;
use crate::error::Error;
use crate::format::FeatureLocation;
use crate::packed_r_tree::{
    children_spec, lemma_level_of_in, lemma_level_start_mono, lemma_shape, level_end, level_of,
    level_start, level_widths, node_count_spec, Node, PackedRTree,
};
use vstd::prelude::*;

verus! {

/// The union of the rectangles of `nodes[s..e]`, folded left to right.
pub open spec fn union_of(nodes: Seq<Node>, s: int, e: int) -> Bounds
    decreases e - s,
{
    if e <= s {
        empty_bounds()
    } else {
        extend_spec(union_of(nodes, s, e - 1), nodes[e - 1].bounds)
    }
}

pub open spec fn zero_location() -> FeatureLocation {
    FeatureLocation { page_starting_offset: 0, feature_offset: 0 }
}

/// Node `idx` of an index over `n` leaves is as the builder leaves it: an
/// internal node holds the union of its children's rectangles and a zeroed
/// location.
pub open spec fn node_wf(nodes: Seq<Node>, n: nat, idx: int) -> bool {
    match children_spec(n, idx) {
        Some((s, e)) => nodes[idx].bounds == union_of(nodes, s, e) && nodes[idx].offset
            == zero_location(),
        None => true,
    }
}

/// `nodes` is a well-formed index over `n` leaves.
pub open spec fn index_wf(nodes: Seq<Node>, n: nat) -> bool {
    &&& nodes.len() == node_count_spec(n)
    &&& forall|idx: int| 0 <= idx < nodes.len() ==> #[trigger] node_wf(nodes, n, idx)
}

proof fn lemma_union_frame(a: Seq<Node>, b: Seq<Node>, s: int, e: int)
    requires
        0 <= s,
        e <= a.len(),
        e <= b.len(),
        forall|k: int| s <= k < e ==> a[k] == b[k],
    ensures
        union_of(a, s, e) == union_of(b, s, e),
    decreases e - s,
{
    if e > s {
        lemma_union_frame(a, b, s, e - 1);
    }
}

/// Where a node lies within its level, and that its children, if any, lie
/// within the level after it.
pub proof fn lemma_children_within(n: nat, k: int)
    requires
        0 <= k < node_count_spec(n),
    ensures
        0 <= level_of(n, k) < level_widths(n).len(),
        level_start(n, level_of(n, k)) <= k < level_end(n, level_of(n, k)),
        children_spec(n, k) matches Some((s, e)) ==> level_start(n, level_of(n, k) + 1) <= s <= e
            <= level_end(n, level_of(n, k) + 1) && e <= node_count_spec(n),
{
    let ws = level_widths(n);
    if n == 0 {
        assert(ws.len() == 0);
        assert(node_count_spec(n) == 0);
    }
    lemma_shape(n);
    if level_of(n, k) >= ws.len() {
        crate::packed_r_tree::lemma_level_from_past(n, k, 0);
    }
    crate::packed_r_tree::lemma_level_from_found(n, k, 0);
    let l = level_of(n, k);
    if l + 1 < ws.len() {
        lemma_level_start_mono(n, l + 1, l + 1);
        lemma_level_start_mono(n, l + 2, ws.len() as int);
        lemma_level_start_mono(n, l, l);
        crate::packed_r_tree::lemma_level_widths(n);
        crate::packed_r_tree::lemma_parent_width(n, l);
        let w = ws[l + 1];
        let position = k - level_start(n, l);
        assert(position * 16 < w) by (nonlinear_arith)
            requires 0 <= position < (w + 15) / 16, w >= 1;
    }
}

/// The union of the rectangles of `nodes[s..e]`.
fn union_range(nodes: &Vec<Node>, s: usize, e: usize) -> (r: Bounds)
    requires
        s <= e <= nodes@.len(),
    ensures
        r == union_of(nodes@, s as int, e as int),
{
    let mut b = Bounds::empty();
    let mut k = s;
    while k < e
        invariant
            s <= k <= e,
            e <= nodes@.len(),
            b == union_of(nodes@, s as int, k as int),
        decreases e - k,
    {
        b.extend(&nodes[k].bounds);
        k += 1;
    }
    b
}

/// Lays out the index over `leaves`, given in their final order: the leaves
/// fill the last level, and each node above holds the union of its
/// children's rectangles and a zeroed location.
pub fn build_index(tree: &PackedRTree, leaves: &Vec<Node>) -> (r: Vec<Node>)
    requires
        tree.wf(),
        leaves@.len() == tree@,
    ensures
        index_wf(r@, tree@),
        forall|i: int|
            0 <= i < leaves@.len() ==> r@[node_count_spec(tree@) - tree@ + i] == #[trigger] leaves@[i],
{
    let ghost n = tree@;
    let ranges = tree.node_ranges_by_level();
    let nlevels = ranges.len();
    let total = tree.node_count();
    if nlevels == 0 {
        proof {
            if n >= 1 {
                lemma_shape(n);
            }
            assert(n == 0);
        }
        return Vec::new();
    }
    proof {
        lemma_shape(n);
    }
    let leaf_start = ranges[nlevels - 1].start;
    let mut nodes: Vec<Node> = Vec::new();
    let mut i: u64 = 0;
    while i < leaf_start
        invariant
            i <= leaf_start,
            nodes@.len() == i,
        decreases leaf_start - i,
    {
        nodes.push(Node::empty_inner_node());
        i += 1;
    }
    let mut j: usize = 0;
    while j < leaves.len()
        invariant
            j <= leaves@.len(),
            nodes@.len() == leaf_start + j,
            forall|k: int| 0 <= k < j ==> nodes@[leaf_start + k] == #[trigger] leaves@[k],
        decreases leaves@.len() - j,
    {
        nodes.push(leaves[j]);
        j += 1;
    }
    let total_len = nodes.len();
    assert(total_len == node_count_spec(n));
    proof {
        assert forall|idx: int| level_start(n, nlevels - 1) <= idx < nodes@.len() implies #[trigger] node_wf(nodes@, n, idx) by {
            lemma_level_of_in(n, nlevels - 1, idx);
        }
    }
    let mut lvl: usize = nlevels - 1;
    while lvl > 0
        invariant
            n == tree@,
            tree.wf(),
            ranges@.len() == level_widths(n).len(),
            nlevels == ranges@.len(),
            forall|k: int|
                #![trigger ranges@[k]]
                0 <= k < ranges@.len() ==> ranges@[k].start == level_start(n, k) && ranges@[k].end
                    == level_end(n, k),
            leaf_start == level_start(n, nlevels - 1),
            n >= 1,
            lvl < nlevels,
            nodes@.len() == node_count_spec(n),
            total_len == nodes@.len(),
            forall|k: int| 0 <= k < n ==> nodes@[leaf_start + k] == #[trigger] leaves@[k],
            forall|idx: int|
                level_start(n, lvl as int) <= idx < nodes@.len() ==> #[trigger] node_wf(nodes@, n, idx),
        decreases lvl,
    {
        lvl -= 1;
        let this_start = ranges[lvl].start;
        let this_end = ranges[lvl].end;
        let child_start = ranges[lvl + 1].start;
        let child_end = ranges[lvl + 1].end;
        proof {
            lemma_level_start_mono(n, lvl as int, lvl as int);
            lemma_level_start_mono(n, lvl as int + 1, lvl as int + 1);
            lemma_level_start_mono(n, lvl as int + 1, nlevels - 1);
            lemma_level_start_mono(n, nlevels - 1, nlevels as int);
            lemma_level_start_mono(n, lvl as int + 2, nlevels as int);
            crate::packed_r_tree::lemma_parent_width(n, lvl as int);
        }
        let ghost before = nodes@;
        let mut idx = this_start;
        while idx < this_end
            invariant
                n == tree@,
                n >= 1,
                lvl + 1 < nlevels,
                nlevels == level_widths(n).len(),
                this_start == level_start(n, lvl as int),
                this_end == level_end(n, lvl as int),
                this_end == child_start,
                child_start == level_start(n, lvl as int + 1),
                child_end == level_end(n, lvl as int + 1),
                child_end <= leaf_start + n,
                leaf_start == level_start(n, nlevels - 1),
                child_start <= leaf_start,
                leaf_start + n == node_count_spec(n),
                this_start <= idx <= this_end,
                total_len == nodes@.len(),
                level_widths(n)[lvl as int] == crate::packed_r_tree::parent_count(level_widths(n)[lvl as int + 1]),
                nodes@.len() == before.len(),
                before.len() == node_count_spec(n),
                forall|k: int| 0 <= k < nodes@.len() && !(this_start <= k < idx) ==> nodes@[k] == before[k],
                forall|k: int| this_start <= k < idx ==> #[trigger] node_wf(nodes@, n, k),
            decreases this_end - idx,
        {
            let position = idx - this_start;
            proof {
                let w = level_widths(n)[lvl as int + 1];
                assert(position * 16 < w) by (nonlinear_arith)
                    requires position < (w + 15) / 16, w >= 1;
            }
            let cs = child_start + position * 16;
            let ce = if child_end - cs >= 16 { cs + 16 } else { child_end };
            let u = union_range(&nodes, cs as usize, ce as usize);
            proof {
                lemma_level_of_in(n, lvl as int, idx as int);
                lemma_union_frame(nodes@, before, cs as int, ce as int);
            }
            let ghost prev = nodes@;
            nodes.set(idx as usize, Node { bounds: u, offset: FeatureLocation { page_starting_offset: 0, feature_offset: 0 } });
            proof {
                lemma_union_frame(nodes@, before, cs as int, ce as int);
                assert(node_wf(nodes@, n, idx as int));
                assert forall|k: int| this_start <= k < idx + 1 implies #[trigger] node_wf(nodes@, n, k) by {
                    if k < idx {
                        assert(node_wf(prev, n, k));
                        lemma_level_of_in(n, lvl as int, k);
                        lemma_children_within(n, k);
                        let (s, e) = children_spec(n, k)->0;
                        lemma_union_frame(nodes@, prev, s, e);
                    }
                }
            }
            idx += 1;
        }
        proof {
            assert forall|k: int| level_start(n, lvl as int) <= k < nodes@.len() implies #[trigger] node_wf(nodes@, n, k) by {
                if k >= this_end {
                    assert(node_wf(before, n, k));
                    lemma_children_within(n, k);
                    let l = level_of(n, k);
                    if children_spec(n, k) is Some {
                        assert(l + 1 < level_widths(n).len());
                        if l <= lvl {
                            lemma_level_start_mono(n, l, l);
                            lemma_level_start_mono(n, l + 1, lvl as int + 1);
                            assert(false);
                        }
                        lemma_level_start_mono(n, lvl as int + 1, l + 1);
                        let (s, e) = children_spec(n, k)->0;
                        lemma_union_frame(nodes@, before, s, e);
                    }
                }
            }
        }
    }
    nodes
}


/// The parent of node `idx` of level `l`, for `l >= 1`.
pub open spec fn parent_of(n: nat, l: int, idx: int) -> int {
    level_start(n, l - 1) + (idx - level_start(n, l)) / 16
}

proof fn lemma_union_contains(nodes: Seq<Node>, s: int, e: int, k: int)
    requires
        0 <= s <= k < e <= nodes.len(),
    ensures
        contains_spec(union_of(nodes, s, e), nodes[k].bounds),
    decreases e - s,
{
    if k < e - 1 {
        lemma_union_contains(nodes, s, e - 1, k);
    }
}

/// In a well-formed index the rectangle of a node's parent holds the
/// node's rectangle.
pub proof fn lemma_parent_contains(nodes: Seq<Node>, n: nat, l: int, idx: int)
    requires
        index_wf(nodes, n),
        1 <= l < level_widths(n).len(),
        level_start(n, l) <= idx < level_end(n, l),
    ensures
        level_start(n, l - 1) <= parent_of(n, l, idx) < level_end(n, l - 1),
        contains_spec(nodes[parent_of(n, l, idx)].bounds, nodes[idx].bounds),
{
    let p = parent_of(n, l, idx);
    let pos = (idx - level_start(n, l)) / 16;
    let w = level_widths(n)[l];
    crate::packed_r_tree::lemma_parent_width(n, l - 1);
    lemma_level_start_mono(n, l - 1, l - 1);
    lemma_level_start_mono(n, l, l);
    lemma_level_start_mono(n, l + 1, level_widths(n).len() as int);
    assert(pos < (w + 15) / 16 && pos * 16 <= idx - level_start(n, l) < pos * 16 + 16) by (nonlinear_arith)
        requires pos == (idx - level_start(n, l)) / 16, 0 <= idx - level_start(n, l) < w;
    lemma_level_of_in(n, l - 1, p);
    assert(node_wf(nodes, n, p));
    let (cs, ce) = children_spec(n, p)->0;
    lemma_union_contains(nodes, cs, ce, idx);
}

/// A node's rectangle, held by a rectangle that misses `bbox`, misses it too.
proof fn lemma_contains_intersects(outer: Bounds, inner: Bounds, bbox: Bounds)
    requires
        contains_spec(outer, inner),
        intersects_spec(inner, bbox),
    ensures
        intersects_spec(outer, bbox),
{
}

/// Node `idx` lies on the leaf level of a tree over `n` leaves.
pub open spec fn is_leaf_index(n: nat, idx: int) -> bool {
    level_widths(n).len() > 0 && level_start(n, level_widths(n).len() - 1) <= idx < node_count_spec(n)
}

/// `ids` rises strictly.
pub open spec fn strictly_increasing(ids: Seq<u64>) -> bool {
    forall|a: int, b: int| 0 <= a < b < ids.len() ==> ids[a] < ids[b]
}

/// The leaves that a descent from the root reaches: leaves whose rectangle
/// meets `bbox`, in index order, found by visiting only the children of
/// nodes whose rectangle meets `bbox`. Over a well-formed index these are
/// all the leaves whose rectangle meets `bbox`.
pub fn search_leaves(tree: &PackedRTree, nodes: &Vec<Node>, bbox: &Bounds) -> (r: Vec<u64>)
    requires
        tree.wf(),
        nodes@.len() == node_count_spec(tree@),
    ensures
        strictly_increasing(r@),
        forall|k: int|
            0 <= k < r@.len() ==> is_leaf_index(tree@, r@[k] as int) && intersects_spec(
                nodes@[r@[k] as int].bounds,
                *bbox,
            ),
        index_wf(nodes@, tree@) ==> forall|j: int|
            is_leaf_index(tree@, j) && intersects_spec(nodes@[j].bounds, *bbox) ==> r@.contains(
                j as u64,
            ),
{
    let ghost n = tree@;
    let ghost wf = index_wf(nodes@, n);
    let ranges = tree.node_ranges_by_level();
    let nlevels = ranges.len();
    let total_len = nodes.len();
    let mut frontier: Vec<u64> = Vec::new();
    if nlevels == 0 {
        return frontier;
    }
    proof {
        lemma_shape(n);
        lemma_level_start_mono(n, 0, 0);
    }
    if nodes[0].bounds.intersects(bbox) {
        frontier.push(0);
    }
    proof {
        if wf {
            assert forall|x: int| level_start(n, 0) <= x < level_end(n, 0) && intersects_spec(nodes@[x].bounds, *bbox)
                implies frontier@.contains(x as u64) by {
                assert(frontier@[0] == 0);
            }
        }
    }
    let mut lvl: usize = 0;
    while lvl + 1 < nlevels
        invariant
            n == tree@,
            wf == index_wf(nodes@, n),
            tree.wf(),
            n >= 1,
            ranges@.len() == level_widths(n).len(),
            nlevels == ranges@.len(),
            forall|k: int|
                #![trigger ranges@[k]]
                0 <= k < ranges@.len() ==> ranges@[k].start == level_start(n, k) && ranges@[k].end
                    == level_end(n, k),
            nodes@.len() == node_count_spec(n),
            total_len == nodes@.len(),
            lvl < nlevels,
            strictly_increasing(frontier@),
            forall|k: int|
                0 <= k < frontier@.len() ==> level_start(n, lvl as int) <= #[trigger] frontier@[k]
                    < level_end(n, lvl as int) && intersects_spec(nodes@[frontier@[k] as int].bounds, *bbox),
            wf ==> forall|x: int|
                level_start(n, lvl as int) <= x < level_end(n, lvl as int) && intersects_spec(
                    nodes@[x].bounds,
                    *bbox,
                ) ==> frontier@.contains(x as u64),
        decreases nlevels - lvl,
    {
        let this_start = ranges[lvl].start;
        let child_start = ranges[lvl + 1].start;
        let child_end = ranges[lvl + 1].end;
        proof {
            lemma_level_start_mono(n, lvl as int, lvl as int);
            lemma_level_start_mono(n, lvl as int + 1, lvl as int + 1);
            lemma_level_start_mono(n, lvl as int + 2, nlevels as int);
            crate::packed_r_tree::lemma_parent_width(n, lvl as int);
        }
        let mut next: Vec<u64> = Vec::new();
        let mut limit: u64 = child_start;
        let mut i: usize = 0;
        while i < frontier.len()
            invariant
                n >= 1,
                wf == index_wf(nodes@, n),
                lvl + 1 < nlevels,
                nlevels == level_widths(n).len(),
                this_start == level_start(n, lvl as int),
                child_start == level_start(n, lvl as int + 1),
                child_start == level_end(n, lvl as int),
                child_end == level_end(n, lvl as int + 1),
                child_end <= nodes@.len(),
                total_len == nodes@.len(),
                level_widths(n)[lvl as int] == crate::packed_r_tree::parent_count(level_widths(n)[lvl as int + 1]),
                strictly_increasing(frontier@),
                forall|k: int|
                    0 <= k < frontier@.len() ==> level_start(n, lvl as int) <= #[trigger] frontier@[k]
                        < level_end(n, lvl as int),
                i <= frontier@.len(),
                child_start <= limit,
                i < frontier@.len() ==> limit <= child_start + 16 * (frontier@[i as int] - this_start),
                strictly_increasing(next@),
                forall|k: int|
                    0 <= k < next@.len() ==> child_start <= #[trigger] next@[k] < limit && next@[k] < child_end
                        && intersects_spec(nodes@[next@[k] as int].bounds, *bbox),
                forall|c: int|
                    child_start <= c < child_end && intersects_spec(nodes@[c].bounds, *bbox)
                        && frontier@.subrange(0, i as int).contains(parent_of(n, lvl as int + 1, c) as u64)
                        ==> #[trigger] next@.contains(c as u64),
            decreases frontier@.len() - i,
        {
            let parent = frontier[i];
            let position = parent - this_start;
            proof {
                let w = level_widths(n)[lvl as int + 1];
                assert(position * 16 < w) by (nonlinear_arith)
                    requires position < (w + 15) / 16, w >= 1;
            }
            let cs = child_start + position * 16;
            let ce = if child_end - cs >= 16 { cs + 16 } else { child_end };
            let ghost next_before = next@;
            let mut c = cs;
            while c < ce
                invariant
                    cs <= c <= ce,
                    ce <= child_end,
                    child_end <= nodes@.len(),
                    total_len == nodes@.len(),
                    child_start <= limit <= cs,
                    strictly_increasing(next@),
                    forall|k: int|
                        0 <= k < next@.len() ==> child_start <= #[trigger] next@[k] < c && next@[k] < child_end
                            && intersects_spec(nodes@[next@[k] as int].bounds, *bbox),
                    forall|x: u64| next_before.contains(x) ==> #[trigger] next@.contains(x),
                    forall|x: int|
                        cs <= x < c && intersects_spec(nodes@[x].bounds, *bbox) ==> #[trigger] next@.contains(
                            x as u64,
                        ),
                decreases ce - c,
            {
                if nodes[c as usize].bounds.intersects(bbox) {
                    let ghost pre = next@;
                    next.push(c);
                    proof {
                        assert(next@[next@.len() - 1] == c);
                        assert forall|x: u64| pre.contains(x) implies #[trigger] next@.contains(x) by {
                            let w = choose|w: int| 0 <= w < pre.len() && pre[w] == x;
                            assert(next@[w] == x);
                        }
                    }
                }
                c += 1;
            }
            proof {
                assert forall|cc: int|
                    child_start <= cc < child_end && intersects_spec(nodes@[cc].bounds, *bbox)
                        && frontier@.subrange(0, i as int + 1).contains(parent_of(n, lvl as int + 1, cc) as u64)
                        implies #[trigger] next@.contains(cc as u64) by {
                    let pc = parent_of(n, lvl as int + 1, cc);
                    let sub = frontier@.subrange(0, i as int + 1);
                    let w = choose|w: int| 0 <= w < sub.len() && sub[w] == pc as u64;
                    if w < i {
                        assert(frontier@.subrange(0, i as int)[w] == pc as u64);
                        assert(frontier@.subrange(0, i as int).contains(pc as u64));
                        assert(next_before.contains(cc as u64));
                    } else {
                        assert(pc == parent);
                        assert((cc - child_start) / 16 == position);
                        assert(position * 16 <= cc - child_start < position * 16 + 16) by (nonlinear_arith)
                            requires (cc - child_start) / 16 == position, cc >= child_start;
                    }
                }
            }
            limit = ce;
            proof {
                if i + 1 < frontier@.len() {
                    assert(frontier@[i as int] < frontier@[i + 1]);
                }
            }
            i += 1;
        }
        proof {
            if wf {
                assert(frontier@.subrange(0, i as int) =~= frontier@);
                assert forall|x: int|
                    level_start(n, lvl as int + 1) <= x < level_end(n, lvl as int + 1) && intersects_spec(
                        nodes@[x].bounds,
                        *bbox,
                    ) implies next@.contains(x as u64) by {
                    lemma_parent_contains(nodes@, n, lvl as int + 1, x);
                    let px = parent_of(n, lvl as int + 1, x);
                    lemma_contains_intersects(nodes@[px].bounds, nodes@[x].bounds, *bbox);
                }
            }
        }
        frontier = next;
        lvl += 1;
    }
    proof {
        lemma_level_start_mono(n, nlevels - 1, nlevels as int);
    }
    frontier
}

/// The concatenated encodings of `nodes`.
pub open spec fn nodes_bytes(nodes: Seq<Node>) -> Seq<u8>
    decreases nodes.len(),
{
    if nodes.len() == 0 {
        seq![]
    } else {
        nodes_bytes(nodes.drop_last()) + node_bytes(nodes.last())
    }
}


/// Lays out the index of a file: told the number of leaves first, given the
/// leaves in their final order, then asked for the index bytes.
pub struct PackedRTreeWriter {
    tree: PackedRTree,
    leaves: Vec<Node>,
}

impl PackedRTreeWriter {
    pub closed spec fn wf(&self) -> bool {
        self.tree.wf()
    }

    /// The number of leaves promised.
    pub closed spec fn expected(&self) -> nat {
        self.tree@
    }

    /// The leaves given so far.
    pub closed spec fn pushed(&self) -> Seq<Node> {
        self.leaves@
    }

    pub fn new(leaf_node_count: u64) -> (r: Self)
        requires
            leaf_node_count <= crate::packed_r_tree::MAX_LEAF_NODES,
        ensures
            r.wf(),
            r.expected() == leaf_node_count,
            r.pushed() == Seq::<Node>::empty(),
    {
        PackedRTreeWriter { tree: PackedRTree::new(leaf_node_count), leaves: Vec::new() }
    }

    pub fn push_leaf(&mut self, leaf: Node)
        requires
            old(self).wf(),
        ensures
            final(self).wf(),
            final(self).expected() == old(self).expected(),
            final(self).pushed() == old(self).pushed().push(leaf),
    {
        self.leaves.push(leaf);
    }

    /// The bytes of the index: 28 per node, root first, the leaves last in
    /// the order given, each node above them holding the union of its
    /// children's rectangles. Fails with `FeatureCountMismatch` when the
    /// number of leaves given is not the number promised.
    pub fn write(self) -> (r: Result<Vec<u8>, Error>)
        requires
            self.wf(),
        ensures
            match r {
                Ok(bytes) => {
                    &&& self.pushed().len() == self.expected()
                    &&& exists|nodes: Seq<Node>|
                        {
                            &&& index_wf(nodes, self.expected())
                            &&& bytes@ == nodes_bytes(nodes)
                            &&& forall|i: int|
                                0 <= i < self.expected() ==> nodes[nodes.len() - self.expected() + i]
                                    == #[trigger] self.pushed()[i]
                        }
                },
                Err(e) => {
                    &&& self.pushed().len() != self.expected()
                    &&& e == (Error::FeatureCountMismatch {
                        found: self.pushed().len() as u64,
                        expected: self.expected() as u64,
                    })
                },
            },
    {
        let expected = self.tree.node_count();
        let ghost n = self.tree@;
        let found = self.leaves.len() as u64;
        let count = self.tree.nodes_per_level();
        let promised: u64 = if count.len() == 0 { 0 } else { count[count.len() - 1] };
        proof {
            if n >= 1 {
                lemma_shape(n);
            } else {
                assert(level_widths(n).len() == 0);
            }
        }
        if found != promised {
            return Err(Error::FeatureCountMismatch { found, expected: promised });
        }
        let nodes = build_index(&self.tree, &self.leaves);
        let mut out: Vec<u8> = Vec::new();
        let mut i: usize = 0;
        while i < nodes.len()
            invariant
                i <= nodes@.len(),
                out@ == nodes_bytes(nodes@.subrange(0, i as int)),
            decreases nodes@.len() - i,
        {
            crate::codec::put_node(&mut out, &nodes[i]);
            proof {
                assert(nodes@.subrange(0, i as int + 1).drop_last() =~= nodes@.subrange(0, i as int));
            }
            i += 1;
        }
        proof {
            assert(nodes@.subrange(0, i as int) =~= nodes@);
            assert(expected == node_count_spec(n));
            assert(forall|i: int| 0 <= i < n ==> nodes@[nodes@.len() - n + i] == #[trigger] self.leaves@[i]);
        }
        Ok(out)
    }
}

proof fn lemma_nodes_bytes_at(nodes: Seq<Node>, i: int)
    requires
        0 <= i < nodes.len(),
    ensures
        nodes_bytes(nodes).len() == nodes.len() * 28,
        nodes_bytes(nodes).subrange(i * 28, i * 28 + 28) == node_bytes(nodes[i]),
    decreases nodes.len(),
{
    crate::codec::lemma_node_size(nodes.last());
    lemma_nodes_bytes_len(nodes);
    let init = nodes.drop_last();
    lemma_nodes_bytes_len(init);
    if i < nodes.len() - 1 {
        lemma_nodes_bytes_at(init, i);
        assert(nodes_bytes(nodes).subrange(i * 28, i * 28 + 28) =~= nodes_bytes(init).subrange(i * 28, i * 28 + 28));
    } else {
        assert(nodes_bytes(nodes).subrange(i * 28, i * 28 + 28) =~= node_bytes(nodes.last()));
    }
}

proof fn lemma_nodes_bytes_len(nodes: Seq<Node>)
    ensures
        nodes_bytes(nodes).len() == nodes.len() * 28,
    decreases nodes.len(),
{
    if nodes.len() > 0 {
        crate::codec::lemma_node_size(nodes.last());
        lemma_nodes_bytes_len(nodes.drop_last());
    }
}

/// Decoding the bytes of an index, 28 bytes per node, gives back the nodes
/// that were encoded.
pub proof fn lemma_index_bytes_decode(nodes: Seq<Node>, decoded: Seq<Node>)
    requires
        decoded.len() == nodes.len(),
        forall|i: int|
            0 <= i < decoded.len() ==> nodes_bytes(nodes).subrange(i * 28, i * 28 + 28) == node_bytes(
                #[trigger] decoded[i],
            ),
    ensures
        decoded == nodes,
{
    assert forall|i: int| 0 <= i < nodes.len() implies decoded[i] == nodes[i] by {
        lemma_nodes_bytes_at(nodes, i);
        crate::codec::lemma_node_bytes_injective(decoded[i], nodes[i]);
    }
    assert(decoded =~= nodes);
}

} // verus!
