//! The packed R-tree: a static, level-ordered tree over feature rectangles
//! with a fixed branching factor, laid out root first.
use crate::bounds::{empty_bounds, Bounds};
use crate::format::FeatureLocation;
use core::ops::Range;
use vstd::prelude::*;

verus! {

pub const BRANCHING_FACTOR: u64 = 16;

/// Bytes of one node on disk: a rectangle (16) and a feature location (12).
pub const NODE_SIZE: u64 = 28;

/// The most leaves a tree may have, so that its size in bytes fits 64 bits.
pub const MAX_LEAF_NODES: u64 = 0x0492_4924_9249_2492;

/// One index entry.
#[derive(Clone, Copy, Debug, PartialEq, Eq, Structural)]
pub struct Node {
    pub bounds: Bounds,
    pub offset: FeatureLocation,
}

impl Node {
    pub fn leaf_node(bounds: Bounds, offset: FeatureLocation) -> (r: Self)
        ensures
            r == (Node { bounds, offset }),
    {
        Node { bounds, offset }
    }

    pub fn serialized_size() -> (r: usize)
        ensures
            r == NODE_SIZE,
    {
        28
    }

    /// A parent before any child is folded in: empty rectangle, zeroed location.
    pub fn empty_inner_node() -> (r: Self)
        ensures
            r.bounds == empty_bounds(),
            r.offset == (FeatureLocation { page_starting_offset: 0, feature_offset: 0 }),
    {
        Node {
            bounds: Bounds::empty(),
            offset: FeatureLocation { page_starting_offset: 0, feature_offset: 0 },
        }
    }
}

/// Number of parents of a level of `n` nodes.
pub open spec fn parent_count(n: nat) -> nat {
    ((n + 15) / 16) as nat
}

/// The number of nodes on each level, root first: the leaf level has `n`
/// nodes, each level above has a sixteenth of the one below rounded up, and
/// the top level has one node. A tree of no leaves has no levels.
pub open spec fn level_widths(n: nat) -> Seq<nat>
    decreases n,
{
    if n == 0 {
        seq![]
    } else if n == 1 {
        seq![1]
    } else {
        level_widths(parent_count(n)).push(n)
    }
}

pub open spec fn seq_sum(s: Seq<nat>) -> nat
    decreases s.len(),
{
    if s.len() == 0 {
        0
    } else {
        seq_sum(s.drop_last()) + s.last()
    }
}

/// Total number of nodes of a tree over `n` leaves.
pub open spec fn node_count_spec(n: nat) -> nat {
    seq_sum(level_widths(n))
}

/// Index of the first node of level `i` (root level 0).
pub open spec fn level_start(n: nat, i: int) -> nat {
    seq_sum(level_widths(n).take(i))
}

/// Index one past the last node of level `i`.
pub open spec fn level_end(n: nat, i: int) -> nat {
    level_start(n, i) + level_widths(n)[i]
}

/// The first level, counting from `i` root first, that ends after node
/// `idx`; the number of levels if none does.
pub open spec fn level_from(n: nat, idx: int, i: int) -> int
    decreases level_widths(n).len() - i,
{
    if i < 0 || i >= level_widths(n).len() {
        level_widths(n).len() as int
    } else if idx < level_end(n, i) {
        i
    } else {
        level_from(n, idx, i + 1)
    }
}

/// The level, root first, that holds node `idx`.
pub open spec fn level_of(n: nat, idx: int) -> int {
    level_from(n, idx, 0)
}

/// The children of node `idx`, if it has any: the sixteen (or, at the end
/// of a level, fewer) nodes of the next level that follow from its position.
pub open spec fn children_spec(n: nat, idx: int) -> Option<(int, int)> {
    let l = level_of(n, idx);
    if idx < 0 || idx >= node_count_spec(n) || l + 1 >= level_widths(n).len() {
        None
    } else {
        let start = level_start(n, l + 1) + (idx - level_start(n, l)) * 16;
        let end = if start + 16 <= level_end(n, l + 1) {
            start + 16
        } else {
            level_end(n, l + 1) as int
        };
        Some((start, end))
    }
}

proof fn lemma_parent_count(n: nat)
    requires
        n >= 2,
    ensures
        1 <= parent_count(n) < n,
        2 * parent_count(n) <= n,
{
}

/// Every level has at least one node and at most `n`; the whole tree has at
/// most `2n - 1` nodes.
pub proof fn lemma_level_widths(n: nat)
    requires
        n >= 1,
    ensures
        level_widths(n).len() >= 1,
        level_widths(n).last() == n,
        level_widths(n)[0] == 1,
        forall|i: int| 0 <= i < level_widths(n).len() ==> 1 <= #[trigger] level_widths(n)[i] <= n,
        node_count_spec(n) <= 2 * n - 1,
    decreases n,
{
    if n >= 2 {
        lemma_parent_count(n);
        lemma_level_widths(parent_count(n));
        let w = level_widths(parent_count(n));
        assert(level_widths(n).drop_last() == w);
        assert(node_count_spec(n) == node_count_spec(parent_count(n)) + n);
        assert(node_count_spec(parent_count(n)) <= 2 * parent_count(n) - 1);
        assert(node_count_spec(n) <= 2 * n - 1);
        assert forall|i: int| 0 <= i < level_widths(n).len() implies 1 <= #[trigger] level_widths(n)[i] <= n by {
            if i < w.len() {
                assert(level_widths(n)[i] == w[i]);
            }
        }
    } else {
        assert(level_widths(n).drop_last() =~= Seq::<nat>::empty());
        assert(seq_sum(Seq::<nat>::empty()) == 0);
        assert(node_count_spec(n) == 1);
    }
}

/// A prefix of a sequence of naturals sums to no more than the whole.
pub proof fn lemma_prefix_sum_le(s: Seq<nat>, i: int)
    requires
        0 <= i <= s.len(),
    ensures
        seq_sum(s.take(i)) <= seq_sum(s),
        i < s.len() ==> seq_sum(s.take(i + 1)) == seq_sum(s.take(i)) + s[i],
    decreases s.len() - i,
{
    if i < s.len() {
        assert(s.take(i + 1).drop_last() == s.take(i));
        lemma_prefix_sum_le(s, i + 1);
    } else {
        assert(s.take(i) == s);
    }
}

/// The shape of a packed R-tree over a known number of leaves.
pub struct PackedRTree {
    num_leaf_nodes: u64,
    node_ranges: Vec<Range<u64>>,
}

impl View for PackedRTree {
    /// The number of leaves.
    type V = nat;

    closed spec fn view(&self) -> nat {
        self.num_leaf_nodes as nat
    }
}

fn widths(n: u64) -> (r: Vec<u64>)
    ensures
        r@.len() == level_widths(n as nat).len(),
        forall|i: int| 0 <= i < r@.len() ==> r@[i] == #[trigger] level_widths(n as nat)[i],
    decreases n,
{
    if n == 0 {
        Vec::new()
    } else if n == 1 {
        let mut v = Vec::new();
        v.push(1u64);
        v
    } else {
        let full_parents = n / BRANCHING_FACTOR;
        let parents = if full_parents * BRANCHING_FACTOR == n {
            full_parents
        } else {
            full_parents + 1
        };
        assert(parents == parent_count(n as nat));
        let mut v = widths(parents);
        v.push(n);
        v
    }
}

impl PackedRTree {
    /// The cached level ranges agree with the level shape of the leaf count.
    pub closed spec fn wf(&self) -> bool {
        let n = self.num_leaf_nodes as nat;
        &&& self.num_leaf_nodes <= MAX_LEAF_NODES
        &&& self.node_ranges@.len() == level_widths(n).len()
        &&& forall|i: int|
            #![trigger self.node_ranges@[i]]
            0 <= i < self.node_ranges@.len() ==> self.node_ranges@[i].start == level_start(n, i)
                && self.node_ranges@[i].end == level_end(n, i)
    }

    pub fn new(num_leaf_nodes: u64) -> (r: Self)
        requires
            num_leaf_nodes <= MAX_LEAF_NODES,
        ensures
            r.wf(),
            r@ == num_leaf_nodes,
    {
        let levels = widths(num_leaf_nodes);
        let ghost n = num_leaf_nodes as nat;
        let ghost ws = level_widths(n);
        proof {
            if n >= 1 {
                lemma_level_widths(n);
            }
            lemma_prefix_sum_le(ws, 0);
            assert(ws.take(0) =~= Seq::<nat>::empty());
        }
        let mut total: u64 = 0;
        let mut node_ranges: Vec<Range<u64>> = Vec::new();
        let mut i: usize = 0;
        while i < levels.len()
            invariant
                levels@.len() == ws.len(),
                forall|j: int| 0 <= j < levels@.len() ==> levels@[j] == #[trigger] ws[j],
                ws == level_widths(n),
                n == num_leaf_nodes,
                num_leaf_nodes <= MAX_LEAF_NODES,
                n >= 1 ==> seq_sum(ws) <= 2 * n - 1,
                n == 0 ==> ws.len() == 0,
                i <= ws.len(),
                total == seq_sum(ws.take(i as int)),
                node_ranges@.len() == i,
                forall|j: int|
                    0 <= j < i ==> {
                        &&& #[trigger] node_ranges@[j].start == level_start(n, j)
                        &&& node_ranges@[j].end == level_end(n, j)
                    },
            decreases ws.len() - i,
        {
            proof {
                lemma_prefix_sum_le(ws, i as int);
                lemma_prefix_sum_le(ws, i as int + 1);
            }
            let level_width = levels[i];
            node_ranges.push(Range { start: total, end: total + level_width });
            total = total + level_width;
            i += 1;
        }
        PackedRTree { num_leaf_nodes, node_ranges }
    }

    /// Number of nodes on each level, root first.
    pub fn nodes_per_level(&self) -> (r: Vec<u64>)
        ensures
            r@.len() == level_widths(self@).len(),
            forall|i: int| 0 <= i < r@.len() ==> r@[i] == #[trigger] level_widths(self@)[i],
    {
        widths(self.num_leaf_nodes)
    }

    pub fn node_count(&self) -> (r: u64)
        requires
            self.wf(),
        ensures
            r == node_count_spec(self@),
            self@ >= 1 ==> r <= 2 * self@ - 1,
    {
        let levels = widths(self.num_leaf_nodes);
        let ghost n = self@;
        let ghost ws = level_widths(n);
        proof {
            if n >= 1 {
                lemma_level_widths(n);
            }
            assert(ws.take(0) =~= Seq::<nat>::empty());
        }
        let mut total: u64 = 0;
        let mut i: usize = 0;
        while i < levels.len()
            invariant
                levels@.len() == ws.len(),
                forall|j: int| 0 <= j < levels@.len() ==> levels@[j] == #[trigger] ws[j],
                ws == level_widths(n),
                n <= MAX_LEAF_NODES,
                n >= 1 ==> seq_sum(ws) <= 2 * n - 1,
                n == 0 ==> ws.len() == 0,
                i <= ws.len(),
                total == seq_sum(ws.take(i as int)),
            decreases ws.len() - i,
        {
            proof {
                lemma_prefix_sum_le(ws, i as int);
                lemma_prefix_sum_le(ws, i as int + 1);
            }
            total = total + levels[i];
            i += 1;
        }
        proof {
            assert(ws.take(i as int) =~= ws);
        }
        total
    }

    /// Size of the index in bytes: 28 bytes for each node, none for no leaves.
    pub fn index_size(&self) -> (r: u64)
        requires
            self.wf(),
        ensures
            r == node_count_spec(self@) * NODE_SIZE,
    {
        let c = self.node_count();
        c * 28
    }

    /// The half-open range of node indices of each level, root first.
    pub fn node_ranges_by_level(&self) -> (r: &[Range<u64>])
        requires
            self.wf(),
        ensures
            r@.len() == level_widths(self@).len(),
            forall|i: int|
                0 <= i < r@.len() ==> {
                    &&& #[trigger] r@[i].start == level_start(self@, i)
                    &&& r@[i].end == level_end(self@, i)
                },
    {
        self.node_ranges.as_slice()
    }

    /// The level of `node_idx`, root first, found by scanning the cached
    /// ranges; the number of levels if it lies past the last one.
    fn find_level(&self, node_idx: u64) -> (r: usize)
        requires
            self.wf(),
        ensures
            r == level_of(self@, node_idx as int),
            r <= level_widths(self@).len(),
    {
        let ghost n = self@;
        let mut i: usize = 0;
        while i < self.node_ranges.len()
            invariant
                self.wf(),
                n == self@,
                i <= self.node_ranges@.len(),
                level_from(n, node_idx as int, 0) == level_from(n, node_idx as int, i as int),
            decreases self.node_ranges@.len() - i,
        {
            if node_idx < self.node_ranges[i].end {
                return i;
            }
            i += 1;
        }
        i
    }

    proof fn lemma_last_level_end(&self)
        requires
            self.wf(),
            self@ >= 1,
        ensures
            level_end(self@, level_widths(self@).len() - 1) == node_count_spec(self@),
    {
        let ws = level_widths(self@);
        lemma_level_widths(self@);
        lemma_prefix_sum_le(ws, ws.len() - 1);
        lemma_prefix_sum_le(ws, ws.len() as int);
    }

    /// The children of an internal node: the nodes of the next level that
    /// follow from the node's position in its own level, at most sixteen, cut
    /// at the end of that level. `None` for a leaf or an index past the tree.
    pub fn children_range(&self, node_idx: u64) -> (r: Option<Range<u64>>)
        requires
            self.wf(),
        ensures
            match children_spec(self@, node_idx as int) {
                None => r is None,
                Some((start, end)) => r matches Some(rg) && rg.start == start && rg.end == end,
            },
    {
        let ghost n = self@;
        let level = self.find_level(node_idx);
        let nlevels = self.node_ranges.len();
        if level >= nlevels || level + 1 >= nlevels {
            proof {
                if n >= 1 && level >= nlevels {
                    self.lemma_last_level_end();
                    assert(node_idx >= level_end(n, nlevels - 1)) by {
                        lemma_level_from_past(n, node_idx as int, 0);
                    }
                }
            }
            return None;
        }
        proof {
            self.lemma_level_end_bounded(level as int + 1);
            lemma_level_from_found(n, node_idx as int, 0);
            self.lemma_last_level_end();
            self.lemma_level_end_bounded(level as int);
            lemma_prefix_sum_le(level_widths(n), level as int + 1);
        }
        let this_level = &self.node_ranges[level];
        let child_level = &self.node_ranges[level + 1];
        let position = node_idx - this_level.start;
        let children_start = child_level.start + position * BRANCHING_FACTOR;
        let limit = children_start + BRANCHING_FACTOR;
        let children_end = if limit <= child_level.end {
            limit
        } else {
            child_level.end
        };
        Some(Range { start: children_start, end: children_end })
    }

    /// The level of a node counted from the leaves: 0 for a leaf, rising
    /// toward the root.
    pub fn level_for_node_idx(&self, node_idx: u64) -> (r: usize)
        requires
            self.wf(),
            node_idx < node_count_spec(self@),
        ensures
            r == level_widths(self@).len() - 1 - level_of(self@, node_idx as int),
    {
        let level = self.find_level(node_idx);
        proof {
            if level >= level_widths(self@).len() {
                self.lemma_last_level_end();
                lemma_level_from_past(self@, node_idx as int, 0);
            }
        }
        self.node_ranges.len() - 1 - level
    }

    /// Whether `node_idx` lies at or after the start of the leaf level.
    pub fn is_leaf_node(&self, node_idx: u64) -> (r: bool)
        requires
            self.wf(),
        ensures
            r == (level_widths(self@).len() > 0 && node_idx >= level_start(self@, level_widths(self@).len() - 1)),
    {
        let n = self.node_ranges.len();
        if n == 0 {
            false
        } else {
            node_idx >= self.node_ranges[n - 1].start
        }
    }

    /// The half-open range of bytes of each level within the index, root first.
    pub fn byte_ranges_by_level(&self) -> (r: Vec<Range<u64>>)
        requires
            self.wf(),
        ensures
            r@.len() == level_widths(self@).len(),
            forall|k: int|
                #![trigger r@[k]]
                0 <= k < r@.len() ==> r@[k].start == level_start(self@, k) * 28
                    && r@[k].end == level_end(self@, k) * 28,
    {
        let ghost n = self@;
        proof {
            if n >= 1 {
                lemma_level_widths(n);
            }
        }
        let mut out: Vec<Range<u64>> = Vec::new();
        let mut i: usize = 0;
        while i < self.node_ranges.len()
            invariant
                self.wf(),
                n == self@,
                i <= self.node_ranges@.len(),
                out@.len() == i,
                forall|j: int|
                    #![trigger out@[j]]
                    0 <= j < i ==> out@[j].start == level_start(n, j) * 28 && out@[j].end == level_end(n, j)
                        * 28,
            decreases self.node_ranges@.len() - i,
        {
            let range = &self.node_ranges[i];
            proof {
                self.lemma_level_end_bounded(i as int);
                assert(range.start == level_start(n, i as int));
                assert(range.end == level_end(n, i as int));
            }
            let ghost prev = out@;
            out.push(Range { start: range.start * 28, end: range.end * 28 });
            proof {
                assert forall|j: int| #![trigger out@[j]] 0 <= j < i + 1 implies out@[j].start == level_start(n, j) * 28
                    && out@[j].end == level_end(n, j) * 28 by {
                    if j < i {
                        assert(out@[j] == prev[j]);
                    }
                }
            }
            i += 1;
        }
        proof {
            assert(i == level_widths(n).len());
        }
        out
    }

    proof fn lemma_level_end_bounded(&self, i: int)
        requires
            self.wf(),
            0 <= i < level_widths(self@).len(),
        ensures
            level_start(self@, i) <= level_end(self@, i) <= node_count_spec(self@),
            node_count_spec(self@) * NODE_SIZE <= u64::MAX,
    {
        let n = self@;
        let ws = level_widths(n);
        lemma_level_widths(n);
        lemma_prefix_sum_le(ws, i);
        lemma_prefix_sum_le(ws, i + 1);
    }
}


/// Scanning from `i` finds no level ending after `idx` only when `idx` lies
/// at or past the end of the last level.
pub proof fn lemma_level_from_past(n: nat, idx: int, i: int)
    requires
        0 <= i <= level_widths(n).len(),
        level_from(n, idx, i) >= level_widths(n).len(),
        n >= 1,
        i > 0 ==> idx >= level_end(n, i - 1),
    ensures
        idx >= level_end(n, level_widths(n).len() - 1),
    decreases level_widths(n).len() - i,
{
    if i < level_widths(n).len() {
        lemma_level_from_past(n, idx, i + 1);
    }
}

/// A level found by scanning from `i` ends after `idx`, and starts at or
/// before it when every level scanned before it ended at or before `idx`.
pub proof fn lemma_level_from_found(n: nat, idx: int, i: int)
    requires
        0 <= i <= level_widths(n).len(),
        level_from(n, idx, i) < level_widths(n).len(),
        i == 0 ==> idx >= 0,
        i > 0 ==> idx >= level_end(n, i - 1),
    ensures
        i <= level_from(n, idx, i),
        idx < level_end(n, level_from(n, idx, i)),
        level_start(n, level_from(n, idx, i)) <= idx,
    decreases level_widths(n).len() - i,
{
    let ws = level_widths(n);
    lemma_prefix_sum_le(ws, i);
    if i == 0 {
        assert(ws.take(0) =~= Seq::<nat>::empty());
    }
    if i > 0 {
        lemma_prefix_sum_le(ws, i - 1);
    }
    if idx >= level_end(n, i) {
        lemma_level_from_found(n, idx, i + 1);
    }
}

/// Level starts rise with the level, and each level ends where the next
/// one starts.
pub proof fn lemma_level_start_mono(n: nat, i: int, j: int)
    requires
        0 <= i <= j <= level_widths(n).len(),
    ensures
        level_start(n, i) <= level_start(n, j),
        i < level_widths(n).len() ==> level_end(n, i) == level_start(n, i + 1),
        j == level_widths(n).len() ==> level_start(n, j) == node_count_spec(n),
    decreases j - i,
{
    let ws = level_widths(n);
    lemma_prefix_sum_le(ws, i);
    if i < ws.len() {
        lemma_prefix_sum_le(ws, i + 1);
    }
    if i < j {
        lemma_level_start_mono(n, i + 1, j);
    }
    if j == ws.len() {
        assert(ws.take(j) =~= ws);
    }
}

/// A node inside the bounds of level `l` is on level `l`.
pub proof fn lemma_level_of_in(n: nat, l: int, idx: int)
    requires
        0 <= l < level_widths(n).len(),
        level_start(n, l) <= idx < level_end(n, l),
    ensures
        level_of(n, idx) == l,
{
    lemma_level_of_from(n, l, idx, 0);
}

proof fn lemma_level_of_from(n: nat, l: int, idx: int, i: int)
    requires
        0 <= i <= l < level_widths(n).len(),
        level_start(n, l) <= idx < level_end(n, l),
    ensures
        level_from(n, idx, i) == l,
    decreases l - i,
{
    if i < l {
        lemma_level_start_mono(n, i, i);
        lemma_level_start_mono(n, i + 1, l);
        lemma_level_of_from(n, l, idx, i + 1);
    }
}

/// The overall shape: the root level is one node at index 0; the leaf level
/// holds the last `n` nodes.
pub proof fn lemma_shape(n: nat)
    requires
        n >= 1,
    ensures
        level_start(n, 0) == 0,
        level_widths(n)[0] == 1,
        level_widths(n).last() == n,
        level_end(n, level_widths(n).len() - 1) == node_count_spec(n),
        level_start(n, level_widths(n).len() - 1) + n == node_count_spec(n),
        node_count_spec(n) <= 2 * n - 1,
{
    lemma_level_widths(n);
    let ws = level_widths(n);
    assert(ws.take(0) =~= Seq::<nat>::empty());
    lemma_level_start_mono(n, ws.len() - 1, ws.len() as int);
}

/// Each level above the leaves has one node per sixteen (or fewer, at its
/// end) nodes of the level below.
pub proof fn lemma_parent_width(n: nat, l: int)
    requires
        0 <= l,
        l + 1 < level_widths(n).len(),
    ensures
        level_widths(n)[l] == parent_count(level_widths(n)[l + 1]),
        level_widths(n)[l + 1] >= 2,
    decreases n,
{
    let ws = level_widths(n);
    if n >= 2 {
        lemma_parent_count(n);
        let w = level_widths(parent_count(n));
        assert(ws.drop_last() == w);
        if l + 1 == ws.len() - 1 {
            lemma_level_widths(parent_count(n));
            assert(ws[l] == w.last());
        } else {
            lemma_parent_width(parent_count(n), l);
            assert(ws[l] == w[l]);
            assert(ws[l + 1] == w[l + 1]);
        }
    }
}

} // verus!
