//! Writing a container: features are buffered, ordered along the Hilbert
//! curve of their extent, packed into pages, and written after the header
//! and the index.
use crate::bounds::{center_spec, contains_spec, empty_bounds, extend_spec, is_proper, Bounds};
use crate::codec::{header_bytes, le64, page_header_bytes, put_bytes, put_header, put_page_header, put_u64};
use crate::compression::{compress_frame, zstd_frame};
use crate::error::Error;
use crate::feature::Feature;
use crate::feature_codec::{encode_feature, feature_bytes};
use crate::format::{FeatureLocation, Header, PageHeader};
use crate::geometry::geometry_bounds;
use crate::hilbert::{scaled_hilbert, scaled_hilbert_key};
use crate::index::{index_wf, nodes_bytes, PackedRTreeWriter};
use crate::packed_r_tree::{node_count_spec, Node, MAX_LEAF_NODES};
use vstd::prelude::*;

verus! {

/// Default number of uncompressed bytes after which a page is closed.
pub const DEFAULT_PAGE_SIZE_GOAL: u64 = 65536;

/// Bytes of a page header on disk.
pub const PAGE_HEADER_SIZE: u64 = 12;

/// `a` comes no later than `b`: by page, then by offset within the page.
pub open spec fn location_le(a: FeatureLocation, b: FeatureLocation) -> bool {
    a.page_starting_offset < b.page_starting_offset || (a.page_starting_offset
        == b.page_starting_offset && a.feature_offset <= b.feature_offset)
}

/// The leaf locations of an index over `n` leaves come in file order.
pub open spec fn leaves_in_file_order(nodes: Seq<Node>, n: nat) -> bool {
    let first = nodes.len() - n;
    forall|a: int, b: int|
        first <= a < b < nodes.len() ==> location_le(#[trigger] nodes[a].offset, #[trigger] nodes[b].offset)
}



/// The rectangle that holds all of `fs`: their bounds folded in order.
pub open spec fn features_extent(fs: Seq<Feature>) -> Bounds
    decreases fs.len(),
{
    if fs.len() == 0 {
        empty_bounds()
    } else {
        extend_spec(features_extent(fs.drop_last()), geometry_bounds(fs.last().geometry))
    }
}

/// The Hilbert key that orders feature `i` of `fs`: that of the center of its
/// bounds on the curve over the extent of all of `fs`, or 0 for a feature
/// with no coordinates.
pub open spec fn hilbert_rank(fs: Seq<Feature>, i: int) -> u32 {
    let b = geometry_bounds(fs[i].geometry);
    if is_proper(b) {
        scaled_hilbert_key(center_spec(b), features_extent(fs))
    } else {
        0
    }
}

/// `order` lists `fs` by descending Hilbert key, ties in the order added.
pub open spec fn in_hilbert_order(fs: Seq<Feature>, order: Seq<u64>) -> bool {
    forall|a: int, b: int|
        0 <= a < b < order.len() ==> hilbert_rank(fs, #[trigger] order[a] as int) > hilbert_rank(
            fs,
            #[trigger] order[b] as int,
        ) || (hilbert_rank(fs, order[a] as int) == hilbert_rank(fs, order[b] as int) && order[a]
            < order[b])
}

/// A feature as a page stores it: the 8-byte length of its encoding, then
/// the encoding.
pub open spec fn record_bytes(f: Feature) -> Seq<u8> {
    le64(feature_bytes(f).len() as u64) + feature_bytes(f)
}

pub open spec fn records_bytes(fs: Seq<Feature>) -> Seq<u8>
    decreases fs.len(),
{
    if fs.len() == 0 {
        seq![]
    } else {
        records_bytes(fs.drop_last()) + record_bytes(fs.last())
    }
}

/// The bytes a page stores for `payload`: the payload itself, or the frame
/// the compressor makes of it.
pub open spec fn stored_bytes(payload: Seq<u8>, compressed: bool) -> Seq<u8> {
    if compressed {
        zstd_frame(payload)
    } else {
        payload
    }
}

/// `h` is the header of a page holding `payload`.
pub open spec fn page_header_fits(h: PageHeader, payload: Seq<u8>, compressed: bool) -> bool {
    &&& h.decoded_page_length == payload.len()
    &&& h.encoded_page_length == stored_bytes(payload, compressed).len()
}

/// Pages, each as its header and its stored payload, one after another.
pub open spec fn pages_bytes(ps: Seq<(PageHeader, Seq<u8>)>, compressed: bool) -> Seq<u8>
    decreases ps.len(),
{
    if ps.len() == 0 {
        seq![]
    } else {
        pages_bytes(ps.drop_last(), compressed) + page_header_bytes(ps.last().0) + stored_bytes(
            ps.last().1,
            compressed,
        )
    }
}

/// The uncompressed payloads of pages, one after another.
pub open spec fn payloads_bytes(ps: Seq<(PageHeader, Seq<u8>)>) -> Seq<u8>
    decreases ps.len(),
{
    if ps.len() == 0 {
        seq![]
    } else {
        payloads_bytes(ps.drop_last()) + ps.last().1
    }
}

/// The number of features the page headers count.
pub open spec fn pages_feature_count(ps: Seq<(PageHeader, Seq<u8>)>) -> nat
    decreases ps.len(),
{
    if ps.len() == 0 {
        0
    } else {
        pages_feature_count(ps.drop_last()) + ps.last().0.feature_count as nat
    }
}

/// The features of `fs` taken in the order `order` gives.
pub open spec fn in_order(fs: Seq<Feature>, order: Seq<u64>) -> Seq<Feature> {
    order.map_values(|i: u64| fs[i as int])
}


/// Page `p` holds the records of the features at positions `r.0 .. r.1` of
/// the write order, counts them in its header, and was closed no earlier
/// than the rollover rule asks: without its last record it stays within
/// `goal` bytes.
pub open spec fn page_run(fs: Seq<Feature>, order: Seq<u64>, p: (PageHeader, Seq<u8>), r: (nat, nat), goal: u64) -> bool {
    &&& r.0 < r.1 <= order.len()
    &&& p.1 == records_bytes(in_order(fs, order.subrange(r.0 as int, r.1 as int)))
    &&& p.0.feature_count == r.1 - r.0
    &&& records_bytes(in_order(fs, order.subrange(r.0 as int, r.1 - 1))).len() <= goal
}

/// `ranges` are consecutive runs of positions that start at 0 and end at `end`.
pub open spec fn runs_cover(ranges: Seq<(nat, nat)>, end: nat) -> bool {
    &&& ranges.len() == 0 ==> end == 0
    &&& ranges.len() > 0 ==> ranges[0].0 == 0 && ranges.last().1 == end
    &&& forall|i: int| 0 <= i < ranges.len() - 1 ==> #[trigger] ranges[i].1 == ranges[i + 1].0
}

/// `order` lists each index below `n` exactly once.
pub open spec fn is_permutation(order: Seq<u64>, n: nat) -> bool {
    &&& order.len() == n
    &&& order.no_duplicates()
    &&& forall|j: int| 0 <= j < order.len() ==> #[trigger] order[j] < n
    &&& forall|k: u64| k < n ==> #[trigger] order.contains(k)
}

proof fn lemma_sorted_same_members(fs: Seq<Feature>, a: Seq<u64>, b: Seq<u64>)
    requires
        a.len() == b.len(),
        a.no_duplicates(),
        b.no_duplicates(),
        forall|x: u64| a.contains(x) <==> b.contains(x),
        in_hilbert_order(fs, a),
        in_hilbert_order(fs, b),
    ensures
        a == b,
    decreases a.len(),
{
    if a.len() > 0 {
        let h1 = a[0];
        let h2 = b[0];
        if h1 != h2 {
            assert(a.contains(h1));
            let p = choose|p: int| 0 <= p < b.len() && b[p] == h1;
            assert(b.contains(h2));
            let q = choose|q: int| 0 <= q < a.len() && a[q] == h2;
            assert(p != 0 && q != 0);
            assert(hilbert_rank(fs, b[0] as int) > hilbert_rank(fs, b[p] as int) || (hilbert_rank(fs, b[0] as int)
                == hilbert_rank(fs, b[p] as int) && b[0] < b[p]));
            assert(hilbert_rank(fs, a[0] as int) > hilbert_rank(fs, a[q] as int) || (hilbert_rank(fs, a[0] as int)
                == hilbert_rank(fs, a[q] as int) && a[0] < a[q]));
        }
        let ta = a.drop_first();
        let tb = b.drop_first();
        assert forall|x: u64| ta.contains(x) <==> tb.contains(x) by {
            if ta.contains(x) {
                let i = choose|i: int| 0 <= i < ta.len() && ta[i] == x;
                assert(a[i + 1] == x);
                assert(x != h1);
                assert(b.contains(x));
                let j = choose|j: int| 0 <= j < b.len() && b[j] == x;
                assert(j != 0);
                assert(tb[j - 1] == x);
            }
            if tb.contains(x) {
                let i = choose|i: int| 0 <= i < tb.len() && tb[i] == x;
                assert(b[i + 1] == x);
                assert(x != h2);
                assert(a.contains(x));
                let j = choose|j: int| 0 <= j < a.len() && a[j] == x;
                assert(j != 0);
                assert(ta[j - 1] == x);
            }
        }
        assert forall|i: int, j: int| 0 <= i < j < ta.len() implies hilbert_rank(fs, #[trigger] ta[i] as int) > hilbert_rank(
            fs,
            #[trigger] ta[j] as int,
        ) || (hilbert_rank(fs, ta[i] as int) == hilbert_rank(fs, ta[j] as int) && ta[i] < ta[j]) by {
            assert(ta[i] == a[i + 1] && ta[j] == a[j + 1]);
        }
        assert forall|i: int, j: int| 0 <= i < j < tb.len() implies hilbert_rank(fs, #[trigger] tb[i] as int) > hilbert_rank(
            fs,
            #[trigger] tb[j] as int,
        ) || (hilbert_rank(fs, tb[i] as int) == hilbert_rank(fs, tb[j] as int) && tb[i] < tb[j]) by {
            assert(tb[i] == b[i + 1] && tb[j] == b[j + 1]);
        }
        assert(ta.no_duplicates()) by {
            assert forall|i: int, j: int| 0 <= i < ta.len() && 0 <= j < ta.len() && i != j implies ta[i] != ta[j] by {
                assert(ta[i] == a[i + 1] && ta[j] == a[j + 1]);
            }
        }
        assert(tb.no_duplicates()) by {
            assert forall|i: int, j: int| 0 <= i < tb.len() && 0 <= j < tb.len() && i != j implies tb[i] != tb[j] by {
                assert(tb[i] == b[i + 1] && tb[j] == b[j + 1]);
            }
        }
        lemma_sorted_same_members(fs, ta, tb);
        assert(a =~= b) by {
            assert forall|i: int| 0 <= i < a.len() implies a[i] == b[i] by {
                if i > 0 {
                    assert(a[i] == ta[i - 1] && b[i] == tb[i - 1]);
                }
            }
        }
    }
}

/// The write order is fixed by the features alone: any two permutations that
/// list them by descending Hilbert key, ties in the order added, are the
/// same. Whether pages are compressed plays no part in it, so a file reads
/// back its features in the same sequence either way.
pub proof fn lemma_write_order_unique(fs: Seq<Feature>, o1: Seq<u64>, o2: Seq<u64>)
    requires
        is_permutation(o1, fs.len()),
        is_permutation(o2, fs.len()),
        in_hilbert_order(fs, o1),
        in_hilbert_order(fs, o2),
    ensures
        o1 == o2,
{
    assert forall|x: u64| o1.contains(x) <==> o2.contains(x) by {
        if o1.contains(x) {
            let i = choose|i: int| 0 <= i < o1.len() && o1[i] == x;
            assert(o1[i] < fs.len());
        }
        if o2.contains(x) {
            let i = choose|i: int| 0 <= i < o2.len() && o2[i] == x;
            assert(o2[i] < fs.len());
        }
    }
    lemma_sorted_same_members(fs, o1, o2);
}


/// Leaf `leaf` of the `i`-th written feature points at its record: the page
/// of the run that holds position `i`, at the bytes the records before it in
/// that page take.
pub open spec fn leaf_in_run(
    fs: Seq<Feature>,
    order: Seq<u64>,
    ps: Seq<(PageHeader, Seq<u8>)>,
    ranges: Seq<(nat, nat)>,
    compressed: bool,
    leaf: Node,
    i: int,
) -> bool {
    exists|j: int|
        0 <= j < ranges.len() && ranges[j].0 <= i < ranges[j].1 && #[trigger] leaf.offset.page_starting_offset
            == pages_bytes(ps.take(j), compressed).len() && leaf.offset.feature_offset == records_bytes(
            in_order(fs, order.subrange(ranges[j].0 as int, i)),
        ).len()
}

/// The leaves of the first `k` written features hold their bounds; those
/// before position `first` point into the closed pages `ps`, the others into
/// the page being filled, which follows `ps`.
#[verifier::opaque]
spec fn leaves_placed(
    fs: Seq<Feature>,
    order: Seq<u64>,
    ps: Seq<(PageHeader, Seq<u8>)>,
    ranges: Seq<(nat, nat)>,
    compressed: bool,
    first: nat,
    k: nat,
    leaves: Seq<Node>,
) -> bool {
    &&& leaves.len() == k
    &&& first <= k <= order.len()
    &&& forall|i: int|
        0 <= i < k ==> (#[trigger] leaves[i]).bounds == geometry_bounds(fs[order[i] as int].geometry)
    &&& forall|i: int| 0 <= i < first ==> leaf_in_run(fs, order, ps, ranges, compressed, #[trigger] leaves[i], i)
    &&& forall|i: int|
        first <= i < k ==> (#[trigger] leaves[i]).offset.page_starting_offset == pages_bytes(ps, compressed).len()
            && leaves[i].offset.feature_offset == records_bytes(in_order(fs, order.subrange(first as int, i))).len()
}

proof fn lemma_leaves_start(fs: Seq<Feature>, order: Seq<u64>, compressed: bool)
    ensures
        leaves_placed(fs, order, Seq::empty(), Seq::empty(), compressed, 0, 0, Seq::empty()),
{
    reveal(leaves_placed);
}

proof fn lemma_leaves_push(
    fs: Seq<Feature>,
    order: Seq<u64>,
    ps: Seq<(PageHeader, Seq<u8>)>,
    ranges: Seq<(nat, nat)>,
    compressed: bool,
    first: nat,
    k: nat,
    leaves: Seq<Node>,
    leaf: Node,
)
    requires
        leaves_placed(fs, order, ps, ranges, compressed, first, k, leaves),
        k < order.len(),
        leaf.bounds == geometry_bounds(fs[order[k as int] as int].geometry),
        leaf.offset.page_starting_offset == pages_bytes(ps, compressed).len(),
        leaf.offset.feature_offset == records_bytes(in_order(fs, order.subrange(first as int, k as int))).len(),
    ensures
        leaves_placed(fs, order, ps, ranges, compressed, first, k + 1, leaves.push(leaf)),
{
    reveal(leaves_placed);
    let l2 = leaves.push(leaf);
    assert forall|i: int| 0 <= i < first implies leaf_in_run(fs, order, ps, ranges, compressed, #[trigger] l2[i], i) by {
        assert(l2[i] == leaves[i]);
    }
    assert forall|i: int| 0 <= i < k + 1 implies (#[trigger] l2[i]).bounds == geometry_bounds(fs[order[i] as int].geometry) by {
        if i < k {
            assert(l2[i] == leaves[i]);
        }
    }
    assert forall|i: int| first <= i < k + 1 implies (#[trigger] l2[i]).offset.page_starting_offset == pages_bytes(
        ps,
        compressed,
    ).len() && l2[i].offset.feature_offset == records_bytes(in_order(fs, order.subrange(first as int, i))).len() by {
        if i < k {
            assert(l2[i] == leaves[i]);
        }
    }
}

proof fn lemma_leaves_close(
    fs: Seq<Feature>,
    order: Seq<u64>,
    ps: Seq<(PageHeader, Seq<u8>)>,
    ranges: Seq<(nat, nat)>,
    compressed: bool,
    first: nat,
    k: nat,
    leaves: Seq<Node>,
    page: (PageHeader, Seq<u8>),
)
    requires
        leaves_placed(fs, order, ps, ranges, compressed, first, k, leaves),
        ranges.len() == ps.len(),
    ensures
        leaves_placed(fs, order, ps.push(page), ranges.push((first, k)), compressed, k, k, leaves),
{
    reveal(leaves_placed);
    let ps2 = ps.push(page);
    let r2 = ranges.push((first, k));
    assert forall|i: int| 0 <= i < k implies leaf_in_run(fs, order, ps2, r2, compressed, #[trigger] leaves[i], i) by {
        if i < first {
            assert(leaf_in_run(fs, order, ps, ranges, compressed, leaves[i], i));
            let j = choose|j: int|
                0 <= j < ranges.len() && ranges[j].0 <= i < ranges[j].1 && #[trigger] leaves[i].offset.page_starting_offset
                    == pages_bytes(ps.take(j), compressed).len() && leaves[i].offset.feature_offset == records_bytes(
                    in_order(fs, order.subrange(ranges[j].0 as int, i)),
                ).len();
            assert(ps2.take(j) =~= ps.take(j));
            assert(r2[j] == ranges[j]);
        } else {
            let j = ps.len() as int;
            assert(ps2.take(j) =~= ps);
            assert(r2[j] == (first, k));
        }
    }
}

/// Once all `n` leaves are placed and every page closed, each leaf points
/// into its run.
proof fn lemma_leaves_done(
    fs: Seq<Feature>,
    order: Seq<u64>,
    ps: Seq<(PageHeader, Seq<u8>)>,
    ranges: Seq<(nat, nat)>,
    compressed: bool,
    n: nat,
    leaves: Seq<Node>,
)
    requires
        leaves_placed(fs, order, ps, ranges, compressed, n, n, leaves),
    ensures
        leaves.len() == n,
        forall|i: int|
            0 <= i < n ==> (#[trigger] leaves[i]).bounds == geometry_bounds(fs[order[i] as int].geometry)
                && leaf_in_run(fs, order, ps, ranges, compressed, leaves[i], i),
{
    reveal(leaves_placed);
}


/// Closing a page: the closed pages and their runs grow by one, and what
/// they hold grows by the new page.
proof fn lemma_close_run(
    fs: Seq<Feature>,
    order: Seq<u64>,
    closed: Seq<(PageHeader, Seq<u8>)>,
    ranges: Seq<(nat, nat)>,
    compressed: bool,
    goal: u64,
    first: nat,
    end: nat,
    h: PageHeader,
    payload: Seq<u8>,
)
    requires
        ranges.len() == closed.len(),
        runs_cover(ranges, first),
        forall|i: int| 0 <= i < closed.len() ==> page_run(fs, order, #[trigger] closed[i], ranges[i], goal),
        forall|i: int| 0 <= i < closed.len() ==> page_header_fits((#[trigger] closed[i]).0, closed[i].1, compressed),
        first < end,
        page_run(fs, order, (h, payload), (first, end), goal),
        page_header_fits(h, payload, compressed),
    ensures
        ({
            let c2 = closed.push((h, payload));
            let r2 = ranges.push((first, end));
            &&& runs_cover(r2, end)
            &&& forall|i: int| 0 <= i < c2.len() ==> page_run(fs, order, #[trigger] c2[i], r2[i], goal)
            &&& forall|i: int| 0 <= i < c2.len() ==> page_header_fits((#[trigger] c2[i]).0, c2[i].1, compressed)
            &&& pages_bytes(c2, compressed) == pages_bytes(closed, compressed) + page_header_bytes(h) + stored_bytes(
                payload,
                compressed,
            )
            &&& payloads_bytes(c2) == payloads_bytes(closed) + payload
            &&& pages_feature_count(c2) == pages_feature_count(closed) + h.feature_count
        }),
{
    let c2 = closed.push((h, payload));
    let r2 = ranges.push((first, end));
    assert(c2.drop_last() =~= closed);
    assert forall|i: int| 0 <= i < c2.len() implies page_run(fs, order, #[trigger] c2[i], r2[i], goal)
        && page_header_fits(c2[i].0, c2[i].1, compressed) by {
        if i < closed.len() {
            assert(c2[i] == closed[i]);
            assert(r2[i] == ranges[i]);
        }
    }
    assert forall|i: int| 0 <= i < r2.len() - 1 implies #[trigger] r2[i].1 == r2[i + 1].0 by {
        if i < ranges.len() - 1 {
            assert(r2[i] == ranges[i]);
            assert(r2[i + 1] == ranges[i + 1]);
        } else {
            assert(r2[i] == ranges.last());
        }
    }
    if ranges.len() > 0 {
        assert(r2[0] == ranges[0]);
    }
}

/// A page being filled.
pub struct Page {
    page_id: u32,
    starting_offset: u64,
    bounds: Bounds,
    feature_count: u32,
    payload: Vec<u8>,
}

impl Page {
    pub fn new(page_id: u32, starting_offset: u64) -> (r: Self)
        ensures
            r.id() == page_id,
            r.starting_offset() == starting_offset,
            r.feature_count() == 0,
            r.payload() == Seq::<u8>::empty(),
            r.page_bounds() == crate::bounds::empty_bounds(),
    {
        Page { page_id, starting_offset, bounds: Bounds::empty(), feature_count: 0, payload: Vec::new() }
    }

    pub closed spec fn id(&self) -> u32 {
        self.page_id
    }

    pub closed spec fn starting_offset(&self) -> u64 {
        self.starting_offset
    }

    pub closed spec fn feature_count(&self) -> u32 {
        self.feature_count
    }

    /// The uncompressed bytes of the page so far.
    pub closed spec fn payload(&self) -> Seq<u8> {
        self.payload@
    }

    pub closed spec fn page_bounds(&self) -> Bounds {
        self.bounds
    }

    /// Grows the page's rectangle.
    pub fn extend(&mut self, bounds: &Bounds)
        ensures
            final(self).page_bounds() == extend_spec(old(self).page_bounds(), *bounds),
            final(self).id() == old(self).id(),
            final(self).starting_offset() == old(self).starting_offset(),
            final(self).feature_count() == old(self).feature_count(),
            final(self).payload() == old(self).payload(),
    {
        self.bounds.extend(bounds);
    }

    /// Appends one encoded feature, as its 8-byte length and its bytes, and
    /// returns the page's new uncompressed size and where the feature starts.
    /// Fails with `Encode` when the feature would start past what a 32-bit
    /// offset holds or the page already holds `u32::MAX` features.
    pub fn add_feature(&mut self, encoded: &[u8], bounds: &Bounds) -> (r: Result<(u64, FeatureLocation), Error>)
        ensures
            final(self).id() == old(self).id(),
            final(self).starting_offset() == old(self).starting_offset(),
            match r {
                Ok((size, loc)) => {
                    &&& final(self).page_bounds() == extend_spec(old(self).page_bounds(), *bounds)
                    &&& old(self).payload().len() <= u32::MAX
                    &&& old(self).feature_count() < u32::MAX
                    &&& loc == (FeatureLocation {
                        page_starting_offset: old(self).starting_offset(),
                        feature_offset: old(self).payload().len() as u32,
                    })
                    &&& final(self).payload() == old(self).payload() + le64(encoded@.len() as u64)
                        + encoded@
                    &&& final(self).feature_count() == old(self).feature_count() + 1
                    &&& size == final(self).payload().len()
                },
                Err(e) => {
                    &&& e == Error::Encode
                    &&& *final(self) == *old(self)
                    &&& (old(self).payload().len() > u32::MAX || old(self).feature_count() == u32::MAX
                        || old(self).payload().len() + 8 + encoded@.len() > u64::MAX)
                },
            },
    {
        let start = self.payload.len();
        if start > 0xFFFF_FFFFusize || self.feature_count == 0xFFFF_FFFFu32 {
            return Err(Error::Encode);
        }
        if encoded.len() as u64 > 0xFFFF_FFFF_FFFF_FFFFu64 - 8 - start as u64 {
            return Err(Error::Encode);
        }
        let loc = FeatureLocation { page_starting_offset: self.starting_offset, feature_offset: start as u32 };
        self.bounds.extend(bounds);
        put_u64(&mut self.payload, encoded.len() as u64);
        put_bytes(&mut self.payload, encoded);
        self.feature_count = self.feature_count + 1;
        Ok((self.payload.len() as u64, loc))
    }

    /// Closes the page: its header and its payload as stored, compressed
    /// into one frame or as it is. Fails with `Encode` exactly when the
    /// payload or what is stored does not fit a 32-bit length.
    pub fn finish(self, is_compressed: bool) -> (r: Result<(PageHeader, Vec<u8>), Error>)
        ensures
            match r {
                Ok((h, stored)) => {
                    &&& h.decoded_page_length == self.payload().len()
                    &&& h.encoded_page_length == stored@.len()
                    &&& h.feature_count == self.feature_count()
                    &&& stored@ == if is_compressed {
                        zstd_frame(self.payload())
                    } else {
                        self.payload()
                    }
                },
                Err(e) => e == Error::Encode,
            },
            r is Ok <==> self.payload().len() <= u32::MAX && stored_bytes(self.payload(), is_compressed).len()
                <= u32::MAX,
    {
        let decoded = self.payload.len();
        if decoded > 0xFFFF_FFFFusize {
            return Err(Error::Encode);
        }
        let stored = if is_compressed {
            match compress_frame(self.payload.as_slice()) {
                Some(frame) => frame,
                None => return Err(Error::Io),
            }
        } else {
            self.payload
        };
        if stored.len() > 0xFFFF_FFFFusize {
            return Err(Error::Encode);
        }
        let header = PageHeader::new(stored.len() as u32, decoded as u32, self.feature_count);
        Ok((header, stored))
    }
}

/// A feature waiting to be written: its rectangle and the span of its
/// encoding in the writer's buffer.
struct FeatureEntry {
    bounds: Bounds,
    start: usize,
    end: usize,
}


/// Bytes that encoding `fs` takes, all features together.
pub open spec fn encoded_total(fs: Seq<Feature>) -> nat
    decreases fs.len(),
{
    if fs.len() == 0 {
        0
    } else {
        encoded_total(fs.drop_last()) + feature_bytes(fs.last()).len()
    }
}

spec fn span(e: FeatureEntry) -> nat {
    (e.end - e.start) as nat
}

spec fn spans_total(es: Seq<FeatureEntry>) -> nat
    decreases es.len(),
{
    if es.len() == 0 {
        0
    } else {
        spans_total(es.drop_last()) + span(es.last())
    }
}

/// The bytes of the entries `ids` of `es`, together.
spec fn spans_of(es: Seq<FeatureEntry>, ids: Seq<u64>) -> nat
    decreases ids.len(),
{
    if ids.len() == 0 {
        0
    } else {
        spans_of(es, ids.drop_last()) + span(es[ids.last() as int])
    }
}

proof fn lemma_spans_of_frame(es: Seq<FeatureEntry>, es2: Seq<FeatureEntry>, ids: Seq<u64>)
    requires
        forall|j: int| 0 <= j < ids.len() ==> es[#[trigger] ids[j] as int] == es2[ids[j] as int],
    ensures
        spans_of(es, ids) == spans_of(es2, ids),
    decreases ids.len(),
{
    if ids.len() > 0 {
        lemma_spans_of_frame(es, es2, ids.drop_last());
        assert(es[ids[ids.len() - 1] as int] == es2[ids[ids.len() - 1] as int]);
    }
}

proof fn lemma_spans_of_remove(es: Seq<FeatureEntry>, ids: Seq<u64>, p: int)
    requires
        0 <= p < ids.len(),
    ensures
        spans_of(es, ids) == spans_of(es, ids.remove(p)) + span(es[ids[p] as int]),
    decreases ids.len(),
{
    if p == ids.len() - 1 {
        assert(ids.remove(p) =~= ids.drop_last());
    } else {
        lemma_spans_of_remove(es, ids.drop_last(), p);
        assert(ids.remove(p).drop_last() =~= ids.drop_last().remove(p));
        assert(ids.remove(p).last() == ids.last());
    }
}

/// Distinct entries take no more bytes together than all entries do.
proof fn lemma_spans_of_le(es: Seq<FeatureEntry>, ids: Seq<u64>)
    requires
        ids.no_duplicates(),
        es.len() <= u64::MAX,
        forall|j: int| 0 <= j < ids.len() ==> #[trigger] ids[j] < es.len(),
    ensures
        spans_of(es, ids) <= spans_total(es),
    decreases es.len(),
{
    if es.len() == 0 {
        if ids.len() > 0 {
            assert(ids[0] < es.len());
        }
    } else {
        let last = (es.len() - 1) as u64;
        let init = es.drop_last();
        if ids.contains(last) {
            let p = choose|p: int| 0 <= p < ids.len() && ids[p] == last;
            let rest = ids.remove(p);
            lemma_spans_of_remove(es, ids, p);
            assert forall|j: int| 0 <= j < rest.len() implies #[trigger] rest[j] < init.len() by {
                if j < p {
                    assert(rest[j] == ids[j]);
                    assert(ids[j] != ids[p]);
                } else {
                    assert(rest[j] == ids[j + 1]);
                    assert(ids[j + 1] != ids[p]);
                }
            }
            assert(rest.no_duplicates()) by {
                assert forall|a: int, b: int| 0 <= a < rest.len() && 0 <= b < rest.len() && a != b implies rest[a]
                    != rest[b] by {
                    let ia = if a < p { a } else { a + 1 };
                    let ib = if b < p { b } else { b + 1 };
                    assert(rest[a] == ids[ia]);
                    assert(rest[b] == ids[ib]);
                }
            }
            lemma_spans_of_frame(es, init, rest);
            lemma_spans_of_le(init, rest);
        } else {
            assert forall|j: int| 0 <= j < ids.len() implies #[trigger] ids[j] < init.len() by {
                assert(ids[j] != last);
            }
            lemma_spans_of_frame(es, init, ids);
            lemma_spans_of_le(init, ids);
        }
    }
}

/// Collects features, then writes them as a container.
pub struct Writer {
    is_compressed: bool,
    page_size_goal: u64,
    entries: Vec<FeatureEntry>,
    buffer: Vec<u8>,
    extent: Bounds,
    features: Ghost<Seq<Feature>>,
}

impl View for Writer {
    /// The features added so far, in order.
    type V = Seq<Feature>;

    closed spec fn view(&self) -> Seq<Feature> {
        self.features@
    }
}

/// Relies on `slice::sort_unstable` over pairs of integers, which std orders
/// lexicographically: afterwards the pairs are the same multiset, ascending.
#[verifier::external_body]
fn sort_pairs(v: &mut Vec<(u32, u64)>)
    ensures
        final(v)@.to_multiset() == old(v)@.to_multiset(),
        final(v)@.len() == old(v)@.len(),
        forall|a: int, b: int|
            0 <= a < b < final(v)@.len() ==> (#[trigger] final(v)@[a]).0 < (#[trigger] final(v)@[b]).0
                || (final(v)@[a].0 == final(v)@[b].0 && final(v)@[a].1 <= final(v)@[b].1),
{
    v.sort_unstable();
}

impl Writer {
    pub closed spec fn wf(&self) -> bool {
        &&& self.entries@.len() == self.features@.len()
        &&& self.entries@.len() <= MAX_LEAF_NODES
        &&& spans_total(self.entries@) == self.buffer@.len()
        &&& encoded_total(self.features@) == self.buffer@.len()
        &&& self.extent == features_extent(self.features@)
        &&& forall|i: int|
            #![trigger self.entries@[i]]
            0 <= i < self.entries@.len() ==> {
                let e = self.entries@[i];
                &&& e.start <= e.end <= self.buffer@.len()
                &&& self.buffer@.subrange(e.start as int, e.end as int) == feature_bytes(self.features@[i])
                &&& e.bounds == geometry_bounds(self.features@[i].geometry)
                &&& contains_spec(self.extent, e.bounds)
            }
    }

    pub closed spec fn compressed(&self) -> bool {
        self.is_compressed
    }

    pub closed spec fn goal(&self) -> u64 {
        self.page_size_goal
    }

    pub fn new(is_compressed: bool) -> (r: Self)
        ensures
            r.wf(),
            r@ == Seq::<Feature>::empty(),
            r.compressed() == is_compressed,
            r.goal() == DEFAULT_PAGE_SIZE_GOAL,
    {
        Writer {
            is_compressed,
            page_size_goal: DEFAULT_PAGE_SIZE_GOAL,
            entries: Vec::new(),
            buffer: Vec::new(),
            extent: Bounds::empty(),
            features: Ghost(Seq::empty()),
        }
    }

    pub fn page_size_goal(&self) -> (r: u64)
        ensures
            r == self.goal(),
    {
        self.page_size_goal
    }

    pub fn set_page_size_goal(&mut self, page_size_goal: u64)
        requires
            old(self).wf(),
        ensures
            final(self).wf(),
            final(self).goal() == page_size_goal,
            final(self)@ == old(self)@,
            final(self).compressed() == old(self).compressed(),
    {
        self.page_size_goal = page_size_goal;
    }

    /// Buffers a feature for writing.
    pub fn add_feature(&mut self, feature: &Feature)
        requires
            old(self).wf(),
            old(self)@.len() < MAX_LEAF_NODES,
        ensures
            final(self).wf(),
            final(self)@ == old(self)@.push(*feature),
            final(self).compressed() == old(self).compressed(),
            final(self).goal() == old(self).goal(),
    {
        let bounds = feature.geometry.bounds();
        let ghost old_extent = self.extent;
        self.extent.extend(&bounds);
        let encoded = encode_feature(feature);
        let start = self.buffer.len();
        let ghost old_buffer = self.buffer@;
        put_bytes(&mut self.buffer, encoded.as_slice());
        let end = self.buffer.len();
        let ghost old_entries = self.entries@;
        let ghost old_features = self.features@;
        self.entries.push(FeatureEntry { bounds, start, end });
        self.features = Ghost(self.features@.push(*feature));
        proof {
            assert(self.entries@.drop_last() == old_entries);
            assert(self.features@.drop_last() == old_features);
            assert forall|i: int| #![trigger self.entries@[i]] 0 <= i < self.entries@.len() implies {
                let e = self.entries@[i];
                &&& e.start <= e.end <= self.buffer@.len()
                &&& self.buffer@.subrange(e.start as int, e.end as int) == feature_bytes(self.features@[i])
                &&& e.bounds == geometry_bounds(self.features@[i].geometry)
                &&& contains_spec(self.extent, e.bounds)
            } by {
                let e = self.entries@[i];
                if i < self.entries@.len() - 1 {
                    assert(self.buffer@.subrange(e.start as int, e.end as int) =~= old_buffer.subrange(e.start as int, e.end as int));
                } else {
                    assert(self.buffer@.subrange(start as int, end as int) =~= encoded@);
                }
            }
        }
    }

    /// The Hilbert key of entry `i`: that of its rectangle's center on the
    /// curve over the extent, or 0 for an entry with no coordinates.
    spec fn entry_key(&self, i: int) -> u32 {
        let b = self.entries@[i].bounds;
        if is_proper(b) {
            scaled_hilbert_key(crate::bounds::center_spec(b), self.extent)
        } else {
            0
        }
    }

    /// The order in which features are written: by descending Hilbert key,
    /// ties in the order they were added.
    fn write_order(&self) -> (r: Vec<u64>)
        requires
            self.wf(),
        ensures
            r@.len() == self.entries@.len(),
            forall|k: int| 0 <= k < r@.len() ==> #[trigger] r@[k] < self.entries@.len(),
            forall|a: int, b: int|
                0 <= a < b < r@.len() ==> self.entry_key(#[trigger] r@[a] as int) > self.entry_key(
                    #[trigger] r@[b] as int,
                ) || (self.entry_key(r@[a] as int) == self.entry_key(r@[b] as int) && r@[a] < r@[b]),
            r@.no_duplicates(),
            forall|k: u64| k < self.entries@.len() ==> #[trigger] r@.contains(k),
            in_hilbert_order(self@, r@),
    {
        let mut pairs: Vec<(u32, u64)> = Vec::new();
        let mut i: usize = 0;
        while i < self.entries.len()
            invariant
                self.wf(),
                i <= self.entries@.len(),
                pairs@.len() == i,
                forall|k: int|
                    #![trigger pairs@[k]]
                    0 <= k < i ==> pairs@[k].1 == k && pairs@[k].0 == u32::MAX - self.entry_key(k),
            decreases self.entries@.len() - i,
        {
            let b = &self.entries[i].bounds;
            let key = if b.min.lng <= b.max.lng && b.min.lat <= b.max.lat {
                let c = b.center();
                scaled_hilbert(&c, &self.extent)
            } else {
                0
            };
            pairs.push((0xFFFF_FFFFu32 - key, i as u64));
            i += 1;
        }
        let ghost unsorted = pairs@;
        sort_pairs(&mut pairs);
        let mut order: Vec<u64> = Vec::new();
        let mut j: usize = 0;
        while j < pairs.len()
            invariant
                j <= pairs@.len(),
                pairs@.len() == self.entries@.len(),
                order@.len() == j,
                forall|k: int| 0 <= k < j ==> #[trigger] order@[k] == pairs@[k].1,
            decreases pairs@.len() - j,
        {
            order.push(pairs[j].1);
            j += 1;
        }
        proof {
            broadcast use vstd::seq_lib::group_to_multiset_ensures;
            assert forall|k: int| 0 <= k < pairs@.len() implies pairs@[k].1 < self.entries@.len()
                && pairs@[k].0 == u32::MAX - self.entry_key(pairs@[k].1 as int) by {
                assert(pairs@.contains(pairs@[k]));
                assert(unsorted.to_multiset().count(pairs@[k]) > 0);
                let w = choose|w: int| 0 <= w < unsorted.len() && unsorted[w] == pairs@[k];
                assert(unsorted[w].1 == w);
            }
            assert(unsorted.no_duplicates()) by {
                assert forall|a: int, b: int| 0 <= a < unsorted.len() && 0 <= b < unsorted.len() && a != b implies unsorted[a]
                    != unsorted[b] by {
                    assert(unsorted[a].1 == a);
                    assert(unsorted[b].1 == b);
                }
            }
            unsorted.lemma_multiset_has_no_duplicates();
            pairs@.lemma_multiset_has_no_duplicates_conv();
            assert forall|a: int, b: int| 0 <= a < order@.len() && 0 <= b < order@.len() && a != b implies order@[a]
                != order@[b] by {
                if order@[a] == order@[b] {
                    assert(pairs@[a].1 == pairs@[b].1);
                    assert(pairs@[a] == pairs@[b]);
                }
            }
            assert forall|k: u64| k < self.entries@.len() implies #[trigger] order@.contains(k) by {
                assert(unsorted[k as int].1 == k);
                assert(unsorted.contains(unsorted[k as int]));
                assert(pairs@.to_multiset().count(unsorted[k as int]) > 0);
                let w = choose|w: int| 0 <= w < pairs@.len() && pairs@[w] == unsorted[k as int];
                assert(order@[w] == k);
            }
            assert forall|a: int, b: int| 0 <= a < b < order@.len() implies self.entry_key(#[trigger] order@[a] as int)
                > self.entry_key(#[trigger] order@[b] as int) || (self.entry_key(order@[a] as int) == self.entry_key(
                order@[b] as int) && order@[a] < order@[b]) by {
                assert(order@[a] != order@[b]);
            }
            assert forall|i: int| 0 <= i < self.entries@.len() implies self.entry_key(i) == hilbert_rank(self@, i) by {
                assert(self.entries@[i].bounds == geometry_bounds(self.features@[i].geometry));
            }
            assert forall|a: int, b: int| 0 <= a < b < order@.len() implies hilbert_rank(self@, #[trigger] order@[a] as int)
                > hilbert_rank(self@, #[trigger] order@[b] as int) || (hilbert_rank(self@, order@[a] as int)
                == hilbert_rank(self@, order@[b] as int) && order@[a] < order@[b]) by {
                assert(self.entry_key(order@[a] as int) == hilbert_rank(self@, order@[a] as int));
                assert(self.entry_key(order@[b] as int) == hilbert_rank(self@, order@[b] as int));
            }
        }
        order
    }
    /// Writes the container: the header, then the index over the features in
    /// write order, then the pages. A page is closed after the feature that
    /// takes its uncompressed size past the page size goal; a file with no
    /// features gets one empty page. Fails with `Encode` when a page or an
    /// offset outgrows its length field, and with `Io` when the compressor
    /// fails.
    #[verifier::rlimit(100)]
    #[verifier::spinoff_prover]
    pub fn finish(self) -> (r: Result<Vec<u8>, Error>)
        requires
            self.wf(),
        ensures
            r matches Ok(out) ==> exists|
                h: Header,
                nodes: Seq<Node>,
                ps: Seq<(PageHeader, Seq<u8>)>,
                order: Seq<u64>,
                ranges: Seq<(nat, nat)>,
                leaves: Seq<Node>,
            |
                #![trigger header_bytes(h), index_wf(nodes, self@.len()), pages_feature_count(ps), is_permutation(order, self@.len()), runs_cover(ranges, self@.len()), leaves.len()]
                {
                    &&& h.is_compressed == self.compressed()
                    &&& h.feature_count == self@.len()
                    &&& h.page_count == if self@.len() == 0 { 1 } else { ps.len() }
                    &&& index_wf(nodes, self@.len())
                    &&& leaves_in_file_order(nodes, self@.len())
                    &&& is_permutation(order, self@.len())
                    &&& in_hilbert_order(self@, order)
                    &&& leaves.len() == self@.len()
                    &&& forall|i: int|
                        0 <= i < self@.len() ==> nodes[nodes.len() - self@.len() + i] == #[trigger] leaves[i]
                    &&& forall|i: int|
                        0 <= i < self@.len() ==> (#[trigger] leaves[i]).bounds == geometry_bounds(
                            self@[order[i] as int].geometry,
                        ) && leaf_in_run(self@, order, ps, ranges, self.compressed(), leaves[i], i)
                    &&& forall|i: int|
                        0 <= i < ps.len() ==> page_header_fits(
                            (#[trigger] ps[i]).0,
                            ps[i].1,
                            self.compressed(),
                        )
                    &&& payloads_bytes(ps) == records_bytes(in_order(self@, order))
                    &&& pages_feature_count(ps) == self@.len()
                    &&& ranges.len() == ps.len()
                    &&& runs_cover(ranges, self@.len())
                    &&& forall|i: int|
                        0 <= i < ps.len() ==> page_run(self@, order, #[trigger] ps[i], ranges[i], self.goal())
                    &&& forall|i: int| 0 <= i < ps.len() - 1 ==> (#[trigger] ps[i]).1.len() > self.goal()
                    &&& out@ == header_bytes(h) + nodes_bytes(nodes) + if self@.len() == 0 {
                        page_header_bytes(
                            PageHeader { encoded_page_length: 0, decoded_page_length: 0, feature_count: 0 },
                        )
                    } else {
                        pages_bytes(ps, self.compressed())
                    }
                },
            r matches Err(e) ==> e == Error::Encode,
            self@.len() == 0 ==> r is Ok,
            8 * self@.len() + encoded_total(self@) <= u32::MAX && (!self.compressed() || forall|p: Seq<u8>|
                p.len() <= 8 * self@.len() + encoded_total(self@) ==> #[trigger] zstd_frame(p).len() <= u32::MAX)
                ==> r is Ok,
    {
        let order = self.write_order();
        let n = order.len();
        let ghost fits = 8 * n + self.buffer@.len() <= u32::MAX && (!self.is_compressed || forall|p: Seq<u8>|
            p.len() <= 8 * n + self.buffer@.len() ==> #[trigger] zstd_frame(p).len() <= u32::MAX);
        let ghost mut emitted: nat = 0;
        let ghost mut closed: Seq<(PageHeader, Seq<u8>)> = Seq::empty();
        let ghost feats = self.features@;
        let ghost comp = self.is_compressed;
        let ghost goal = self.page_size_goal;
        let ghost mut ranges: Seq<(nat, nat)> = Seq::empty();
        let ghost mut page_first: nat = 0;
        proof {
            lemma_leaves_start(self.features@, order@, self.is_compressed);
            assert(order@.take(0) =~= Seq::<u64>::empty());
            crate::codec::lemma_header_sizes(Header { is_compressed: false, page_count: 0, feature_count: 0 }, PageHeader { encoded_page_length: 0, decoded_page_length: 0, feature_count: 0 });
        }
        let mut tree_writer = PackedRTreeWriter::new(n as u64);
        let mut pages_out: Vec<u8> = Vec::new();
        let mut page_count: u64 = 0;
        let mut next_page_id: u32 = 0;
        let mut next_offset: u64 = 0;
        let mut current: Option<Page> = None;
        let mut k: usize = 0;
        while k < n
            invariant
                self.wf(),
                n == order@.len(),
                n == self.entries@.len(),
                forall|j: int| 0 <= j < order@.len() ==> #[trigger] order@[j] < self.entries@.len(),
                k <= n,
                tree_writer.wf(),
                tree_writer.expected() == n,
                tree_writer.pushed().len() == k,
                page_count <= k,
                forall|a: int, b: int|
                    0 <= a < b < tree_writer.pushed().len() ==> location_le(#[trigger] tree_writer.pushed()[a].offset, #[trigger] tree_writer.pushed()[b].offset),
                match current {
                    Some(p) => forall|a: int|
                        0 <= a < tree_writer.pushed().len() ==> (#[trigger] tree_writer.pushed()[a]).offset.page_starting_offset < p.starting_offset()
                            || (tree_writer.pushed()[a].offset.page_starting_offset == p.starting_offset()
                                && tree_writer.pushed()[a].offset.feature_offset < p.payload().len()),
                    None => forall|a: int|
                        0 <= a < tree_writer.pushed().len() ==> (#[trigger] tree_writer.pushed()[a]).offset.page_starting_offset < next_offset,
                },
                current matches Some(p) ==> p.starting_offset() <= next_offset,
                order@.no_duplicates(),
                fits == (8 * n + self.buffer@.len() <= u32::MAX && (!self.is_compressed || forall|p: Seq<u8>|
                    p.len() <= 8 * n + self.buffer@.len() ==> #[trigger] zstd_frame(p).len() <= u32::MAX)),
                pages_out@.len() <= page_count * 4294967307,
                in_hilbert_order(feats, order@),
                leaves_placed(feats, order@, closed, ranges, comp, page_first, k as nat, tree_writer.pushed()),
                match current {
                    Some(p) => {
                        &&& p.payload().len() + emitted == 8 * k + spans_of(self.entries@, order@.take(k as int))
                        &&& p.feature_count() <= k
                        &&& p.starting_offset() == next_offset
                    },
                    None => emitted == 8 * k + spans_of(self.entries@, order@.take(k as int)),
                },
                !self.is_compressed ==> pages_out@.len() == 12 * page_count + emitted,
                next_offset == pages_out@.len(),
                feats == self.features@,
                comp == self.is_compressed,
                page_count == closed.len(),
                current matches Some(p) ==> p.feature_count() >= 1,
                pages_out@ == pages_bytes(closed, comp),
                forall|i: int| 0 <= i < closed.len() ==> page_header_fits((#[trigger] closed[i]).0, closed[i].1, comp),
                match current {
                    Some(p) => {
                        &&& payloads_bytes(closed) + p.payload() == records_bytes(in_order(feats, order@.take(k as int)))
                        &&& pages_feature_count(closed) + p.feature_count() == k
                    },
                    None => {
                        &&& payloads_bytes(closed) == records_bytes(in_order(feats, order@.take(k as int)))
                        &&& pages_feature_count(closed) == k
                    },
                },
                goal == self.page_size_goal,
                ranges.len() == closed.len(),
                runs_cover(ranges, page_first),
                forall|i: int| 0 <= i < closed.len() ==> page_run(feats, order@, #[trigger] closed[i], ranges[i], goal),
                forall|i: int| 0 <= i < closed.len() ==> (#[trigger] closed[i]).1.len() > goal,
                match current {
                    Some(p) => {
                        &&& p.payload() == records_bytes(in_order(feats, order@.subrange(page_first as int, k as int)))
                        &&& page_first < k
                        &&& p.payload().len() <= goal
                        &&& p.feature_count() == k - page_first
                    },
                    None => page_first == k,
                },
            decreases n - k,
        {
            let idx = order[k] as usize;
            let entry = &self.entries[idx];
            let bytes = vstd::slice::slice_subrange(self.buffer.as_slice(), entry.start, entry.end);
            let mut page = match current {
                Some(p) => p,
                None => Page::new(next_page_id, next_offset),
            };
            proof {
                crate::codec::lemma_le_roundtrip();
                crate::codec::lemma_header_sizes(Header { is_compressed: false, page_count: 0, feature_count: 0 }, PageHeader { encoded_page_length: 0, decoded_page_length: 0, feature_count: 0 });
                assert(order@.take(k + 1).drop_last() =~= order@.take(k as int));
                assert(order@.take(k + 1).last() == order@[k as int]);
                assert(spans_of(self.entries@, order@.take(k + 1)) == spans_of(self.entries@, order@.take(k as int))
                    + span(self.entries@[order@[k as int] as int]));
                assert(bytes@.len() == span(self.entries@[idx as int]));
                assert(page.payload().len() + emitted == 8 * k + spans_of(self.entries@, order@.take(k as int)));
                assert(page.starting_offset() == next_offset);
                if fits {
                    assert(order@.take(k + 1).no_duplicates()) by {
                        assert forall|a: int, b: int| 0 <= a < k + 1 && 0 <= b < k + 1 && a != b implies #[trigger] order@.take(k + 1)[a]
                            != #[trigger] order@.take(k + 1)[b] by {
                            assert(order@.take(k + 1)[a] == order@[a]);
                            assert(order@.take(k + 1)[b] == order@[b]);
                        }
                    }
                    assert forall|j: int| 0 <= j < order@.take(k + 1).len() implies #[trigger] order@.take(k + 1)[j]
                        < self.entries@.len() by {
                        assert(order@.take(k + 1)[j] == order@[j]);
                    }
                    lemma_spans_of_le(self.entries@, order@.take(k + 1));
                    assert(page.payload().len() + 8 + bytes@.len() <= u32::MAX);
                    assert(page.feature_count() < u32::MAX);
                }
            }
            let ghost before = page;
            proof {
                assert forall|a: int| 0 <= a < tree_writer.pushed().len() implies (#[trigger] tree_writer.pushed()[a]).offset.page_starting_offset
                    < before.starting_offset() || (tree_writer.pushed()[a].offset.page_starting_offset == before.starting_offset()
                    && tree_writer.pushed()[a].offset.feature_offset < before.payload().len()) by {}
            }
            let ghost payload_before = page.payload();
            let ghost count_before = page.feature_count();
            proof {
                let ord_k = in_order(feats, order@.take(k as int));
                let ord_k1 = in_order(feats, order@.take(k + 1));
                assert(ord_k1.drop_last() =~= ord_k);
                assert(ord_k1.last() == feats[order@[k as int] as int]);
                assert(bytes@ == self.buffer@.subrange(entry.start as int, entry.end as int));
                assert(bytes@ == feature_bytes(feats[idx as int]));
                assert(payloads_bytes(closed) + payload_before == records_bytes(ord_k));
                assert(pages_feature_count(closed) + count_before == k);
                let run_k = in_order(feats, order@.subrange(page_first as int, k as int));
                let run_k1 = in_order(feats, order@.subrange(page_first as int, k + 1));
                assert(run_k1.drop_last() =~= run_k);
                assert(run_k1.last() == feats[order@[k as int] as int]);
                assert(payload_before == records_bytes(run_k)) by {
                    if current is None {
                        assert(run_k =~= Seq::<Feature>::empty());
                    }
                }
                assert(payload_before.len() <= goal);
                assert(count_before == k - page_first);
            }
            let (size, loc) = match page.add_feature(bytes, &entry.bounds) {
                Ok(x) => x,
                Err(e) => return Err(e),
            };
            proof {
                let ord_k1 = in_order(feats, order@.take(k + 1));
                assert(payloads_bytes(closed) + page.payload() =~= records_bytes(ord_k1));
                let run_k1 = in_order(feats, order@.subrange(page_first as int, k + 1));
                assert(page.payload() =~= records_bytes(run_k1));
            }
            let ghost old_leaves = tree_writer.pushed();
            let leaf = Node::leaf_node(entry.bounds, loc);
            tree_writer.push_leaf(leaf);
            proof {
                assert(entry.bounds == geometry_bounds(feats[order@[k as int] as int].geometry));
                assert(loc.page_starting_offset == pages_bytes(closed, comp).len());
                assert(loc.feature_offset == payload_before.len());
                lemma_leaves_push(feats, order@, closed, ranges, comp, page_first, k as nat, old_leaves, leaf);
                assert forall|a: int, b: int|
                    0 <= a < b < tree_writer.pushed().len() implies location_le(#[trigger] tree_writer.pushed()[a].offset, #[trigger] tree_writer.pushed()[b].offset) by {
                    if b == tree_writer.pushed().len() - 1 {
                        assert(tree_writer.pushed()[b].offset == loc);
                    }
                }
            }
            if size > self.page_size_goal {
                let start = page.starting_offset;
                let ghost closed_len = page.payload().len();
                let ghost closed_payload = page.payload();
                let ghost closed_count = page.feature_count();
                let (header, stored) = match page.finish(self.is_compressed) {
                    Ok(x) => x,
                    Err(e) => return Err(e),
                };
                let ghost pages_before = pages_out@;
                put_page_header(&mut pages_out, &header);
                put_bytes(&mut pages_out, stored.as_slice());
                proof {
                    emitted = emitted + closed_len;
                    let old_closed = closed;
                    let old_ranges = ranges;
                    lemma_leaves_close(feats, order@, closed, ranges, comp, page_first, (k + 1) as nat, tree_writer.pushed(), (header, closed_payload));
                    assert(order@.subrange(page_first as int, (k + 1) - 1) =~= order@.subrange(page_first as int, k as int));
                    lemma_close_run(feats, order@, closed, ranges, comp, goal, page_first, (k + 1) as nat, header, closed_payload);
                    closed = closed.push((header, closed_payload));
                    ranges = ranges.push((page_first, (k + 1) as nat));
                    assert forall|i: int| 0 <= i < closed.len() implies (#[trigger] closed[i]).1.len() > goal by {
                        if i < old_closed.len() {
                            assert(closed[i] == old_closed[i]);
                        }
                    }
                    page_first = (k + 1) as nat;
                    assert(pages_out@ =~= pages_bytes(closed, comp));
                }
                let step = stored.len() as u64;
                proof {
                    if fits {
                        assert(page_count + 1 <= n);
                        assert(n <= 0x2000_0000);
                        assert((page_count + 1) * 4294967307 <= 0x2000_0000 * 4294967307) by (nonlinear_arith)
                            requires page_count + 1 <= 0x2000_0000;
                    }
                }
                if start > 0xFFFF_FFFF_FFFF_FFFFu64 - 12 || step > 0xFFFF_FFFF_FFFF_FFFFu64 - 12 - start {
                    return Err(Error::Encode);
                }
                next_offset = start + PAGE_HEADER_SIZE + step;
                page_count = page_count + 1;
                if next_page_id < 0xFFFF_FFFFu32 {
                    next_page_id = next_page_id + 1;
                }
                current = None;
            } else {
                current = Some(page);
                proof {
                    assert forall|a: int| 0 <= a < tree_writer.pushed().len() implies (#[trigger] tree_writer.pushed()[a]).offset.page_starting_offset
                        < page.starting_offset() || (tree_writer.pushed()[a].offset.page_starting_offset == page.starting_offset()
                        && tree_writer.pushed()[a].offset.feature_offset < page.payload().len()) by {
                        crate::codec::lemma_le_roundtrip();
                        assert(le64(bytes@.len() as u64).len() == 8);
                        if a == tree_writer.pushed().len() - 1 {
                            assert(tree_writer.pushed()[a].offset == loc);
                        } else {
                            assert(tree_writer.pushed()[a] == old_leaves[a]);
                            assert(old_leaves[a].offset.page_starting_offset < before.starting_offset() || (
                                old_leaves[a].offset.page_starting_offset == before.starting_offset()
                                && old_leaves[a].offset.feature_offset < before.payload().len()));
                        }
                    }
                }
            }
            k += 1;
        }
        proof {
            assert(order@.take(n as int) =~= order@);
            if fits {
                lemma_spans_of_le(self.entries@, order@);
            }
        }
        match current {
            Some(page) => {
                let ghost closed_payload = page.payload();
                let (header, stored) = match page.finish(self.is_compressed) {
                    Ok(x) => x,
                    Err(e) => return Err(e),
                };
                put_page_header(&mut pages_out, &header);
                put_bytes(&mut pages_out, stored.as_slice());
                page_count = page_count + 1;
                proof {
                    let old_closed = closed;
                    let old_ranges = ranges;
                    lemma_leaves_close(feats, order@, closed, ranges, comp, page_first, n as nat, tree_writer.pushed(), (header, closed_payload));
                    let run_all = in_order(feats, order@.subrange(page_first as int, n as int));
                    let run_init = in_order(feats, order@.subrange(page_first as int, n - 1));
                    assert(run_all.drop_last() =~= run_init);
                    lemma_close_run(feats, order@, closed, ranges, comp, goal, page_first, n as nat, header, closed_payload);
                    closed = closed.push((header, closed_payload));
                    ranges = ranges.push((page_first, n as nat));
                    assert forall|i: int| 0 <= i < closed.len() - 1 implies (#[trigger] closed[i]).1.len() > goal by {
                        assert(closed[i] == old_closed[i]);
                    }
                    assert(pages_out@ =~= pages_bytes(closed, comp));
                }
            },
            None => {},
        }
        let ghost pages_closed = pages_out@;
        if page_count == 0 {
            put_page_header(&mut pages_out, &PageHeader::new(0, 0, 0));
            page_count = 1;
        }
        let index_bytes = match tree_writer.write() {
            Ok(bytes) => bytes,
            Err(e) => return Err(e),
        };
        let header = Header { is_compressed: self.is_compressed, page_count, feature_count: n as u64 };
        let mut out: Vec<u8> = Vec::new();
        put_header(&mut out, &header);
        put_bytes(&mut out, index_bytes.as_slice());
        put_bytes(&mut out, pages_out.as_slice());
        proof {
            let nn = n as nat;
            let leaves = tree_writer.pushed();
            let index = choose|nodes: Seq<Node>|
                {
                    &&& index_wf(nodes, nn)
                    &&& index_bytes@ == nodes_bytes(nodes)
                    &&& forall|i: int| 0 <= i < nn ==> nodes[nodes.len() - nn + i] == #[trigger] leaves[i]
                };
            assert(leaves_in_file_order(index, nn)) by {
                assert forall|a: int, b: int|
                    index.len() - nn <= a < b < index.len() implies location_le(#[trigger] index[a].offset, #[trigger] index[b].offset) by {
                    let la = a - (index.len() - nn);
                    let lb = b - (index.len() - nn);
                    assert(index[index.len() - nn + la] == leaves[la]);
                    assert(index[index.len() - nn + lb] == leaves[lb]);
                }
            }
            assert(out@ == header_bytes(header) + nodes_bytes(index) + pages_out@);
            assert(order@.take(n as int) =~= order@);
            assert(forall|kk: u64| kk < nn ==> #[trigger] order@.contains(kk));
            assert(is_permutation(order@, nn));
            if nn == 0 {
                assert(closed.len() == 0);
                assert(pages_closed =~= Seq::<u8>::empty());
                assert(pages_out@ =~= page_header_bytes(PageHeader { encoded_page_length: 0, decoded_page_length: 0, feature_count: 0 }));
            } else {
                assert(closed.len() > 0);
            }
            assert(feats == self@);
            lemma_leaves_done(feats, order@, closed, ranges, comp, nn, leaves);
            assert(index_wf(index, self@.len()));
            assert(pages_feature_count(closed) == self@.len());
            assert(runs_cover(ranges, self@.len()));
            assert(is_permutation(order@, self@.len()));
            assert(leaves.len() == self@.len());
            assert(header_bytes(header) == header_bytes(header));
            assert(header.page_count == if self@.len() == 0 { 1 } else { closed.len() });
            assert(payloads_bytes(closed) == records_bytes(in_order(self@, order@)));
            assert(forall|i: int| 0 <= i < self@.len() ==> index[index.len() - self@.len() + i] == #[trigger] leaves[i]);
            assert(forall|i: int|
                0 <= i < self@.len() ==> (#[trigger] leaves[i]).bounds == geometry_bounds(self@[order@[i] as int].geometry)
                    && leaf_in_run(self@, order@, closed, ranges, self.compressed(), leaves[i], i));
            assert(forall|i: int| 0 <= i < closed.len() ==> page_run(self@, order@, #[trigger] closed[i], ranges[i], self.goal()));
            assert(forall|i: int| 0 <= i < closed.len() - 1 ==> (#[trigger] closed[i]).1.len() > self.goal());
            assert(forall|i: int| 0 <= i < closed.len() ==> page_header_fits((#[trigger] closed[i]).0, closed[i].1, self.compressed()));
            assert(out@ == header_bytes(header) + nodes_bytes(index) + if self@.len() == 0 {
                page_header_bytes(PageHeader { encoded_page_length: 0, decoded_page_length: 0, feature_count: 0 })
            } else {
                pages_bytes(closed, self.compressed())
            });
        }
        Ok(out)
    }
}

/// Across a bounded query, the feature locations come in file order: the
/// leaves a query returns rise in index order, and the writer lays out the
/// leaves in file order.
pub proof fn lemma_query_in_file_order(nodes: Seq<Node>, n: nat, ids: Seq<u64>)
    requires
        nodes.len() == node_count_spec(n),
        leaves_in_file_order(nodes, n),
        crate::index::strictly_increasing(ids),
        forall|k: int| 0 <= k < ids.len() ==> crate::index::is_leaf_index(n, #[trigger] ids[k] as int),
    ensures
        forall|a: int, b: int|
            0 <= a < b < ids.len() ==> location_le(
                #[trigger] nodes[ids[a] as int].offset,
                #[trigger] nodes[ids[b] as int].offset,
            ),
{
    if ids.len() > 0 {
        assert(crate::index::is_leaf_index(n, ids[0] as int));
        if n == 0 {
            assert(crate::packed_r_tree::level_widths(n).len() == 0);
        }
        crate::packed_r_tree::lemma_shape(n);
    }
    assert forall|a: int, b: int| 0 <= a < b < ids.len() implies location_le(
        #[trigger] nodes[ids[a] as int].offset,
        #[trigger] nodes[ids[b] as int].offset,
    ) by {
        assert(crate::index::is_leaf_index(n, ids[a] as int));
        assert(crate::index::is_leaf_index(n, ids[b] as int));
        assert(ids[a] < ids[b]);
    }
}


} // verus!
