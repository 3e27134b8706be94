//! The decisions of a reader that fetches a container by HTTP byte ranges:
//! which index nodes to request next, how to fuse nearby requests, and how
//! much to fetch for a page. The caller performs each request and hands the
//! bytes back.
use crate::bounds::{intersects_spec, Bounds};
use crate::error::Error;
use crate::format::FeatureLocation;
use crate::packed_r_tree::{
    children_spec, level_of, level_start, level_widths, node_count_spec, Node, PackedRTree, MAX_LEAF_NODES, NODE_SIZE,
};
use core::ops::Range;
use vstd::prelude::*;

verus! {

/// Index bytes worth over-fetching to save a request.
pub const COMBINE_REQUEST_THRESHOLD_BYTES: u64 = 16_000;

/// The largest gap, in nodes, between a queued range and a new one on the
/// same level for the two to be fetched as one: 16 000 bytes of nodes.
pub const MERGE_THRESHOLD_NODES: u64 = COMBINE_REQUEST_THRESHOLD_BYTES / NODE_SIZE;

/// Bytes fetched past a page header or payload, to cover the next pages.
pub const PAGE_OVERFETCH_BYTES: u64 = 512_000;

/// A newly found children range `(cs, ce)` is fused onto the queue's last
/// range `(ts, te)`: both lie on one level, and the new one starts at most
/// `MERGE_THRESHOLD_NODES` after the last one ends.
pub open spec fn may_merge(n: nat, ts: int, te: int, cs: int, ce: int) -> bool {
    &&& level_of(n, ts) == level_of(n, cs)
    &&& te <= cs
    &&& cs - te <= MERGE_THRESHOLD_NODES
}

/// The range of bytes to request so that `[start, start + len)` is
/// available: exactly that when it is already buffered, else that and
/// `PAGE_OVERFETCH_BYTES` more.
pub fn plan_request(start: u64, len: u64, buffered: &Range<u64>) -> (r: Range<u64>)
    requires
        start + len + PAGE_OVERFETCH_BYTES <= u64::MAX,
    ensures
        r.start == start,
        (buffered.start <= start && start + len <= buffered.end) ==> r.end == start + len,
        !(buffered.start <= start && start + len <= buffered.end) ==> r.end == start + len
            + PAGE_OVERFETCH_BYTES,
{
    if buffered.start <= start && start + len <= buffered.end {
        Range { start, end: start + len }
    } else {
        Range { start, end: start + len + PAGE_OVERFETCH_BYTES }
    }
}

/// How a remote reader reaches the feature at `loc`, given the start of the
/// page it is reading (`None` before any page): `None` when the feature is in
/// that page, so the reader skips forward within it; otherwise the byte range
/// to request for the feature's page header, `feature_start` being where the
/// pages begin. Locations come in file order, so a reader never goes back to
/// an earlier page.
pub fn plan_page_visit(
    feature_start: u64,
    current_page: Option<u64>,
    loc: &FeatureLocation,
    buffered: &Range<u64>,
) -> (r: Option<Range<u64>>)
    requires
        current_page matches Some(c) ==> c <= loc.page_starting_offset,
        feature_start + loc.page_starting_offset + 12 + PAGE_OVERFETCH_BYTES <= u64::MAX,
    ensures
        current_page == Some(loc.page_starting_offset) ==> r is None,
        current_page != Some(loc.page_starting_offset) ==> (r matches Some(rg) && rg.start == feature_start
            + loc.page_starting_offset && ((buffered.start <= rg.start && rg.start + 12 <= buffered.end)
            ==> rg.end == rg.start + 12) && (!(buffered.start <= rg.start && rg.start + 12 <= buffered.end)
            ==> rg.end == rg.start + 12 + PAGE_OVERFETCH_BYTES)),
{
    match current_page {
        Some(c) => {
            if c == loc.page_starting_offset {
                return None;
            }
        },
        None => {},
    }
    Some(plan_request(feature_start + loc.page_starting_offset, 12, buffered))
}

/// The locations of the leaves among `nodes`, numbered from `first`, whose
/// rectangle meets `bbox`, in order.
pub open spec fn leaf_hits(n: nat, first: int, nodes: Seq<Node>, bbox: Bounds) -> Seq<FeatureLocation>
    decreases nodes.len(),
{
    if nodes.len() == 0 {
        seq![]
    } else {
        let last = first + nodes.len() - 1;
        let before = leaf_hits(n, first, nodes.drop_last(), bbox);
        if intersects_spec(nodes.last().bounds, bbox) && level_widths(n).len() > 0 && last >= level_start(
            n,
            level_widths(n).len() - 1,
        ) {
            before.push(nodes.last().offset)
        } else {
            before
        }
    }
}


/// Node `idx` lies at or after the start of the leaf level.
pub open spec fn at_leaf_level(n: nat, idx: int) -> bool {
    level_widths(n).len() > 0 && idx >= level_start(n, level_widths(n).len() - 1)
}

/// The queue `q`, of which the ranges from `head` on are still to fetch,
/// once the children range `c` is queued: fused onto the last range when one
/// is still to fetch and `may_merge` holds, else appended.
pub open spec fn push_range(n: nat, q: Seq<Range<u64>>, head: int, c: Range<u64>) -> Seq<Range<u64>> {
    if head < q.len() && may_merge(n, q.last().start as int, q.last().end as int, c.start as int, c.end as int) {
        q.update(q.len() - 1, Range { start: q.last().start, end: c.end })
    } else {
        q.push(c)
    }
}

/// The queue once `nodes`, numbered from `first`, are taken in: each node
/// that meets `bbox` and is not a leaf queues its children range, in order.
pub open spec fn queue_after(
    n: nat,
    q: Seq<Range<u64>>,
    head: int,
    first: int,
    nodes: Seq<Node>,
    bbox: Bounds,
) -> Seq<Range<u64>>
    decreases nodes.len(),
{
    if nodes.len() == 0 {
        q
    } else {
        let q0 = queue_after(n, q, head, first, nodes.drop_last(), bbox);
        let idx = first + nodes.len() - 1;
        match children_spec(n, idx) {
            Some((s, e)) => if intersects_spec(nodes.last().bounds, bbox) && !at_leaf_level(n, idx) && s < e {
                push_range(n, q0, head, Range { start: s as u64, end: e as u64 })
            } else {
                q0
            },
            None => q0,
        }
    }
}

/// A search of the index of a remote file: a queue of node ranges still to
/// fetch, and the locations found so far.
pub struct IndexSearch {
    tree: PackedRTree,
    bbox: Bounds,
    queue: Vec<Range<u64>>,
    head: usize,
    results: Vec<FeatureLocation>,
}

impl IndexSearch {
    pub closed spec fn wf(&self) -> bool {
        &&& self.tree.wf()
        &&& self.head <= self.queue@.len()
        &&& forall|k: int|
            #![trigger self.queue@[k]]
            0 <= k < self.queue@.len() ==> self.queue@[k].start < self.queue@[k].end
                <= node_count_spec(self.tree@)
    }

    pub closed spec fn leaf_count(&self) -> nat {
        self.tree@
    }

    pub closed spec fn query(&self) -> Bounds {
        self.bbox
    }

    /// The locations found so far, in the order found.
    pub closed spec fn found(&self) -> Seq<FeatureLocation> {
        self.results@
    }

    /// The node range to fetch next, if any.
    pub closed spec fn pending(&self) -> Option<(u64, u64)> {
        if self.head < self.queue@.len() {
            Some((self.queue@[self.head as int].start, self.queue@[self.head as int].end))
        } else {
            None
        }
    }

    /// The node ranges queued so far, fetched or not.
    pub closed spec fn queued(&self) -> Seq<Range<u64>> {
        self.queue@
    }

    /// How many of the queued ranges were taken in.
    pub closed spec fn taken(&self) -> nat {
        self.head as nat
    }

    pub closed spec fn pending_start(&self) -> u64 {
        self.queue@[self.head as int].start
    }

    pub closed spec fn pending_end(&self) -> u64 {
        self.queue@[self.head as int].end
    }

    /// Starts a search over an index of `feature_count` leaves: the root is
    /// the first range to fetch, unless there are no leaves.
    pub fn new(feature_count: u64, bbox: &Bounds) -> (r: Self)
        requires
            feature_count <= MAX_LEAF_NODES,
        ensures
            r.wf(),
            r.leaf_count() == feature_count,
            r.query() == *bbox,
            r.found() == Seq::<FeatureLocation>::empty(),
            feature_count == 0 ==> r.pending() is None,
            feature_count > 0 ==> r.pending() == Some((0u64, 1u64)),
    {
        let tree = PackedRTree::new(feature_count);
        let mut queue: Vec<Range<u64>> = Vec::new();
        if feature_count > 0 {
            proof {
                crate::packed_r_tree::lemma_shape(feature_count as nat);
            }
            queue.push(Range { start: 0, end: 1 });
        }
        IndexSearch { tree, bbox: *bbox, queue, head: 0, results: Vec::new() }
    }

    /// The node range to fetch next, if any.
    pub fn next_range(&self) -> (r: Option<Range<u64>>)
        requires
            self.wf(),
        ensures
            match self.pending() {
                None => r is None,
                Some((s, e)) => r matches Some(rg) && rg.start == s && rg.end == e && s < e,
            },
    {
        if self.head < self.queue.len() {
            let rg = &self.queue[self.head];
            Some(Range { start: rg.start, end: rg.end })
        } else {
            None
        }
    }

    /// Queues the children of a node: fused onto the last queued range when
    /// both are on one level and close enough, else as a range of their own.
    fn push_children(&mut self, children: Range<u64>)
        requires
            old(self).wf(),
            children.start < children.end <= node_count_spec(old(self).tree@),
        ensures
            final(self).wf(),
            final(self).tree == old(self).tree,
            final(self).bbox == old(self).bbox,
            final(self).head == old(self).head,
            final(self).results == old(self).results,
            final(self).queue@ == push_range(old(self).tree@, old(self).queue@, old(self).head as int, children),
            final(self).queue@.len() >= old(self).queue@.len(),
            forall|k: int| 0 <= k < old(self).head ==> #[trigger] final(self).queue@[k] == old(self).queue@[k],
            old(self).head < old(self).queue@.len() ==> final(self).queue@[old(self).head as int]
                .start == old(self).queue@[old(self).head as int].start,
    {
        proof {
            crate::index::lemma_children_within(self.tree@, children.start as int);
            if self.head < self.queue@.len() {
                let t = self.queue@.last();
                assert(t == self.queue@[self.queue@.len() - 1]);
                crate::index::lemma_children_within(self.tree@, t.start as int);
            }
        }
        let len = self.queue.len();
        if self.head < len {
            let tail_start = self.queue[len - 1].start;
            let tail_end = self.queue[len - 1].end;
            let tail_level = self.tree.level_for_node_idx(tail_start);
            let child_level = self.tree.level_for_node_idx(children.start);
            if tail_level == child_level && tail_end <= children.start
                && children.start - tail_end <= MERGE_THRESHOLD_NODES {
                self.queue.set(len - 1, Range { start: tail_start, end: children.end });
                return;
            }
        }
        self.queue.push(children);
    }

    /// Takes in the nodes of the pending range, in order: each leaf that
    /// meets the query adds its location to what was found, and each other
    /// node that meets it queues its children. Fails with `Decode` when the
    /// count of nodes is not that of the pending range.
    pub fn feed(&mut self, nodes: &[Node]) -> (r: Result<(), Error>)
        requires
            old(self).wf(),
            old(self).pending() is Some,
        ensures
            final(self).wf(),
            final(self).leaf_count() == old(self).leaf_count(),
            final(self).query() == old(self).query(),
            r is Ok <==> nodes@.len() == old(self).pending_end() - old(self).pending_start(),
            r is Ok ==> final(self).found() == old(self).found() + leaf_hits(
                old(self).leaf_count(),
                old(self).pending_start() as int,
                nodes@,
                old(self).query(),
            ),
            r is Err ==> *final(self) == *old(self),
            r is Ok ==> final(self).taken() == old(self).taken() + 1,
            r is Ok ==> final(self).queued() == queue_after(
                old(self).leaf_count(),
                old(self).queued(),
                old(self).taken() as int,
                old(self).pending_start() as int,
                nodes@,
                old(self).query(),
            ),
    {
        let start = self.queue[self.head].start;
        let end = self.queue[self.head].end;
        if nodes.len() as u64 != end - start {
            return Err(Error::Decode);
        }
        let ghost found0 = self.results@;
        let ghost n = self.tree@;
        let ghost head0 = self.head;
        let ghost bbox = self.bbox;
        let ghost q0 = self.queue@;
        let mut i: usize = 0;
        while i < nodes.len()
            invariant
                self.wf(),
                self.tree@ == n,
                self.bbox == bbox,
                self.head == head0,
                head0 < self.queue@.len(),
                start < end <= node_count_spec(n),
                nodes@.len() == end - start,
                i <= nodes@.len(),
                self.results@ == found0 + leaf_hits(n, start as int, nodes@.subrange(0, i as int), bbox),
                self.queue@ == queue_after(n, q0, head0 as int, start as int, nodes@.subrange(0, i as int), bbox),
            decreases nodes@.len() - i,
        {
            let idx = start + i as u64;
            let node = &nodes[i];
            proof {
                assert(nodes@.subrange(0, i as int + 1).drop_last() =~= nodes@.subrange(0, i as int));
            }
            if node.bounds.intersects(&self.bbox) {
                if self.tree.is_leaf_node(idx) {
                    self.results.push(node.offset);
                } else {
                    match self.tree.children_range(idx) {
                        Some(children) => {
                            proof {
                                crate::index::lemma_children_within(n, idx as int);
                            }
                            if children.start < children.end {
                                self.push_children(children);
                            }
                        },
                        None => {},
                    }
                }
            }
            i += 1;
        }
        proof {
            assert(nodes@.subrange(0, i as int) =~= nodes@);
        }
        let qlen = self.queue.len();
        assert(self.head < qlen);
        self.head = self.head + 1;
        Ok(())
    }

    /// What was found, once no range is pending.
    pub fn into_results(self) -> (r: Vec<FeatureLocation>)
        ensures
            r@ == self.found(),
    {
        self.results
    }
}

} // verus!
