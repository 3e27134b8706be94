//! Reading a container held in memory: the header, the index, and the
//! features, all of them or those whose rectangle meets a query rectangle.
use crate::bounds::{intersects_spec, Bounds};
use crate::codec::{
    get_header, get_node, get_page_header, get_u64, header_bytes, holds_at, le64, node_bytes,
    page_header_bytes,
};
use crate::compression::{decompress_frame, zstd_frame};
use crate::error::Error;
use crate::feature::Feature;
use crate::feature_codec::{decode_feature, feature_bytes, properties_wf};
use crate::writer::{page_header_fits, stored_bytes};
use crate::format::{FeatureLocation, Header, PageHeader};
use crate::index::{index_wf, is_leaf_index, search_leaves, strictly_increasing};
use crate::packed_r_tree::{node_count_spec, Node, PackedRTree, MAX_LEAF_NODES};
use vstd::prelude::*;

verus! {

/// Bytes of the file header.
pub const HEADER_SIZE: u64 = 17;

/// The page whose header `h` starts at `pos` of `data` holds `payload` once
/// decoded: its stored bytes follow its header, and are `payload` itself, or
/// a frame that decompresses to it.
pub open spec fn page_holds_with(data: Seq<u8>, pos: int, compressed: bool, payload: Seq<u8>, h: PageHeader) -> bool {
    &&& holds_at(data, pos, page_header_bytes(h))
    &&& pos + 12 + h.encoded_page_length <= data.len()
    &&& {
        let stored = data.subrange(pos + 12, pos + 12 + h.encoded_page_length);
        if compressed {
            forall|d: Seq<u8>| #[trigger] zstd_frame(d) == stored ==> d == payload
        } else {
            stored == payload
        }
    }
}

/// The page whose header starts at `pos` of `data` holds `payload` once
/// decoded.
pub open spec fn page_holds(data: Seq<u8>, pos: int, compressed: bool, payload: Seq<u8>) -> bool {
    exists|h: PageHeader| #[trigger] page_holds_with(data, pos, compressed, payload, h)
}

/// The page whose header starts at `pos` of `data` is stored as the writer
/// stores a page holding `payload`.
pub open spec fn page_written(data: Seq<u8>, pos: int, compressed: bool, payload: Seq<u8>) -> bool {
    exists|h: PageHeader|
        #[trigger] holds_at(data, pos, page_header_bytes(h) + stored_bytes(payload, compressed))
            && page_header_fits(h, payload, compressed)
}

/// At offset `c` of a decoded page stands the record of `f`: the 8-byte
/// length of its encoding, then the encoding.
pub open spec fn record_at(payload: Seq<u8>, c: int, f: Feature) -> bool {
    holds_at(payload, c, le64(feature_bytes(f).len() as u64) + feature_bytes(f))
}

/// Sizes of the parts of a file.
#[derive(Clone, Copy, Debug)]
pub struct FileInfo {
    pub header: Header,
    pub index_size: u64,
}

impl FileInfo {
    pub fn index_size(&self) -> (r: u64)
        ensures
            r == self.index_size,
    {
        self.index_size
    }

    pub fn header_size(&self) -> (r: u64)
        ensures
            r == HEADER_SIZE,
    {
        17
    }
}

/// A container held in memory, with its header read.
pub struct Reader {
    data: Vec<u8>,
    header: Header,
}

impl Reader {
    pub closed spec fn wf(&self) -> bool {
        &&& self.data@.len() >= 17
        &&& self.data@.subrange(0, 17) == header_bytes(self.header)
        &&& self.header.feature_count <= MAX_LEAF_NODES
    }

    pub closed spec fn bytes(&self) -> Seq<u8> {
        self.data@
    }

    pub closed spec fn file_header(&self) -> Header {
        self.header
    }

    /// Reads the header of `bytes`. Fails with `Decode` when there are fewer
    /// than 17 bytes, the compression flag is neither 0 nor 1, or the file
    /// claims more features than an index can address.
    pub fn new(bytes: &[u8]) -> (r: Result<Self, Error>)
        ensures
            match r {
                Ok(reader) => {
                    &&& reader.wf()
                    &&& reader.bytes() == bytes@
                    &&& header_bytes(reader.file_header()) == bytes@.subrange(0, 17)
                },
                Err(e) => {
                    &&& e == Error::Decode
                    &&& (bytes@.len() < 17 || (bytes@[0] != 0 && bytes@[0] != 1) || forall|h: Header|
                        header_bytes(h) == bytes@.subrange(0, 17) ==> h.feature_count > MAX_LEAF_NODES)
                },
            },
    {
        let header = match get_header(bytes, 0) {
            Some(h) => h,
            None => return Err(Error::Decode),
        };
        if header.feature_count > MAX_LEAF_NODES {
            proof {
                assert forall|h: Header| header_bytes(h) == bytes@.subrange(0, 17) implies h.feature_count
                    > MAX_LEAF_NODES by {
                    crate::codec::lemma_header_bytes_injective(h, header, PageHeader { encoded_page_length: 0, decoded_page_length: 0, feature_count: 0 }, PageHeader { encoded_page_length: 0, decoded_page_length: 0, feature_count: 0 });
                }
            }
            return Err(Error::Decode);
        }
        let mut data: Vec<u8> = Vec::new();
        crate::codec::put_bytes(&mut data, bytes);
        proof {
            assert(data@ =~= bytes@);
        }
        Ok(Reader { data, header })
    }

    pub fn header(&self) -> (r: &Header)
        ensures
            *r == self.file_header(),
    {
        &self.header
    }

    pub fn info(&self) -> (r: FileInfo)
        requires
            self.wf(),
        ensures
            r.header == self.file_header(),
            r.index_size == node_count_spec(self.file_header().feature_count as nat) * 28,
    {
        let tree = PackedRTree::new(self.header.feature_count);
        FileInfo { header: self.header, index_size: tree.index_size() }
    }
}

/// The index of a file, decoded, with the shape of its tree.
pub struct PackedRTreeReader {
    tree: PackedRTree,
    nodes: Vec<Node>,
}

impl PackedRTreeReader {
    pub closed spec fn wf(&self) -> bool {
        &&& self.tree.wf()
        &&& self.nodes@.len() == node_count_spec(self.tree@)
    }

    /// The decoded nodes, root first.
    pub closed spec fn nodes(&self) -> Seq<Node> {
        self.nodes@
    }

    pub closed spec fn leaf_count(&self) -> nat {
        self.tree@
    }

    /// Decodes the index over `num_leaf_nodes` leaves from the start of
    /// `index`. Fails with `Decode` when the leaf count is more than an index
    /// can address or `index` is shorter than the index.
    pub fn new(num_leaf_nodes: u64, index: &[u8]) -> (r: Result<Self, Error>)
        ensures
            match r {
                Ok(reader) => {
                    &&& reader.wf()
                    &&& reader.leaf_count() == num_leaf_nodes
                    &&& reader.nodes().len() * 28 <= index@.len()
                    &&& forall|i: int|
                        0 <= i < reader.nodes().len() ==> index@.subrange(i * 28, i * 28 + 28)
                            == node_bytes(#[trigger] reader.nodes()[i])
                },
                Err(e) => e == Error::Decode && (num_leaf_nodes > MAX_LEAF_NODES || index@.len()
                    < node_count_spec(num_leaf_nodes as nat) * 28),
            },
    {
        if num_leaf_nodes > MAX_LEAF_NODES {
            return Err(Error::Decode);
        }
        let tree = PackedRTree::new(num_leaf_nodes);
        let count = tree.node_count();
        let len = index.len();
        if (len as u64) / 28 < count {
            return Err(Error::Decode);
        }
        let mut nodes: Vec<Node> = Vec::new();
        let mut i: u64 = 0;
        let mut pos: usize = 0;
        while i < count
            invariant
                count <= (len as u64) / 28,
                len == index@.len(),
                i <= count,
                pos == i * 28,
                nodes@.len() == i,
                forall|k: int| 0 <= k < i ==> index@.subrange(k * 28, k * 28 + 28) == node_bytes(#[trigger] nodes@[k]),
            decreases count - i,
        {
            proof {
                assert(i * 28 + 28 <= len) by (nonlinear_arith)
                    requires i < count, count <= len / 28;
            }
            let node = get_node(index, pos).unwrap();
            nodes.push(node);
            pos = pos + 28;
            i = i + 1;
        }
        proof {
            assert(count * 28 <= len) by (nonlinear_arith)
                requires count <= len / 28;
        }
        Ok(PackedRTreeReader { tree, nodes })
    }

    /// The locations of the features whose leaf rectangle meets `bbox`, in
    /// leaf order, found by descending only into nodes that meet `bbox`.
    pub fn select_bbox(&self, bbox: &Bounds) -> (r: Vec<FeatureLocation>)
        requires
            self.wf(),
        ensures
            exists|ids: Seq<u64>|
                {
                    &&& ids.len() == r@.len()
                    &&& strictly_increasing(ids)
                    &&& forall|k: int|
                        #![trigger ids[k]]
                        0 <= k < ids.len() ==> {
                            &&& is_leaf_index(self.leaf_count(), ids[k] as int)
                            &&& intersects_spec(self.nodes()[ids[k] as int].bounds, *bbox)
                            &&& r@[k] == self.nodes()[ids[k] as int].offset
                        }
                    &&& index_wf(self.nodes(), self.leaf_count()) ==> forall|j: int|
                        is_leaf_index(self.leaf_count(), j) && intersects_spec(self.nodes()[j].bounds, *bbox)
                            ==> ids.contains(j as u64)
                },
    {
        let ids = search_leaves(&self.tree, &self.nodes, bbox);
        let mut out: Vec<FeatureLocation> = Vec::new();
        let nlen = self.nodes.len();
        let mut k: usize = 0;
        while k < ids.len()
            invariant
                nlen == self.nodes@.len(),
                k <= ids@.len(),
                out@.len() == k,
                self.wf(),
                forall|j: int| 0 <= j < ids@.len() ==> is_leaf_index(self.tree@, #[trigger] ids@[j] as int),
                forall|j: int| 0 <= j < k ==> #[trigger] out@[j] == self.nodes@[ids@[j] as int].offset,
            decreases ids@.len() - k,
        {
            let id = ids[k];
            proof {
                assert(is_leaf_index(self.tree@, id as int));
            }
            out.push(self.nodes[id as usize].offset);
            k += 1;
        }
        proof {
            assert(forall|k: int| #![trigger ids@[k]] 0 <= k < ids@.len() ==> {
                &&& is_leaf_index(self.leaf_count(), ids@[k] as int)
                &&& intersects_spec(self.nodes()[ids@[k] as int].bounds, *bbox)
                &&& out@[k] == self.nodes()[ids@[k] as int].offset
            });
        }
        out
    }
}


/// A page read back from where a page was written holds what was written.
pub proof fn lemma_written_page_reads_back(data: Seq<u8>, pos: int, compressed: bool, payload: Seq<u8>, q: Seq<u8>)
    requires
        page_written(data, pos, compressed, payload),
        page_holds(data, pos, compressed, q),
    ensures
        q == payload,
{
    let h = choose|h: PageHeader|
        #[trigger] holds_at(data, pos, page_header_bytes(h) + stored_bytes(payload, compressed))
            && page_header_fits(h, payload, compressed);
    let h2 = choose|h2: PageHeader| #[trigger] page_holds_with(data, pos, compressed, q, h2);
    crate::codec::lemma_header_sizes(Header { is_compressed: false, page_count: 0, feature_count: 0 }, h);
    crate::codec::lemma_header_sizes(Header { is_compressed: false, page_count: 0, feature_count: 0 }, h2);
    crate::codec::lemma_holds_at_split(data, pos, page_header_bytes(h), stored_bytes(payload, compressed));
    assert(data.subrange(pos, pos + 12) == page_header_bytes(h));
    assert(data.subrange(pos, pos + 12) == page_header_bytes(h2));
    crate::codec::lemma_header_bytes_injective(
        Header { is_compressed: false, page_count: 0, feature_count: 0 },
        Header { is_compressed: false, page_count: 0, feature_count: 0 },
        h,
        h2,
    );
    assert(data.subrange(pos + 12, pos + 12 + h.encoded_page_length) == stored_bytes(payload, compressed));
}

/// Strictly rising leaf indices number no more than the leaves.
proof fn lemma_increasing_leaves_bounded(n: nat, ids: Seq<u64>)
    requires
        strictly_increasing(ids),
        forall|k: int| #![trigger ids[k]] 0 <= k < ids.len() ==> is_leaf_index(n, ids[k] as int),
    ensures
        ids.len() <= n,
    decreases ids.len(),
{
    if ids.len() > 0 {
        assert(is_leaf_index(n, ids[0] as int));
        if n == 0 {
            assert(crate::packed_r_tree::level_widths(n).len() == 0);
        }
        crate::packed_r_tree::lemma_shape(n);
        let first = node_count_spec(n) - n;
        assert forall|k: int| 0 <= k < ids.len() implies ids[k] >= first + k by {
            lemma_increasing_from(ids, k, first);
        }
        assert(ids[ids.len() - 1] >= first + ids.len() - 1);
    }
}

proof fn lemma_increasing_from(ids: Seq<u64>, k: int, first: int)
    requires
        strictly_increasing(ids),
        0 <= k < ids.len(),
        ids.len() > 0,
        ids[0] >= first,
    ensures
        ids[k] >= first + k,
    decreases k,
{
    if k > 0 {
        lemma_increasing_from(ids, k - 1, first);
        assert(ids[k - 1] < ids[k]);
    }
}

/// Reads the page whose header starts at `pos`: its decoded payload, where
/// the next page starts, and its feature count. A page stored as a writer
/// stores it reads back as its payload.
pub fn open_page(data: &[u8], pos: usize, compressed: bool) -> (r: Result<(Vec<u8>, usize, u32), Error>)
    ensures
        r matches Ok((payload, next, count)) ==> page_holds(data@, pos as int, compressed, payload@)
            && pos < next <= data@.len(),
        r matches Err(e) ==> e == Error::Decode,
        forall|h: PageHeader, payload: Seq<u8>|
            #[trigger] holds_at(data@, pos as int, page_header_bytes(h) + stored_bytes(payload, compressed))
                && page_header_fits(h, payload, compressed) ==> (r matches Ok((p, next, c)) && p@ == payload
                && next == pos + 12 + stored_bytes(payload, compressed).len()),
{
    let len = data.len();
    proof {
        crate::codec::lemma_header_sizes(Header { is_compressed: false, page_count: 0, feature_count: 0 }, PageHeader { encoded_page_length: 0, decoded_page_length: 0, feature_count: 0 });
        assert forall|h: PageHeader, payload: Seq<u8>|
            #[trigger] holds_at(data@, pos as int, page_header_bytes(h) + stored_bytes(payload, compressed))
                implies holds_at(data@, pos as int, page_header_bytes(h)) && holds_at(
                data@,
                pos + 12,
                stored_bytes(payload, compressed),
            ) by {
            crate::codec::lemma_header_sizes(Header { is_compressed: false, page_count: 0, feature_count: 0 }, h);
            crate::codec::lemma_holds_at_split(data@, pos as int, page_header_bytes(h), stored_bytes(payload, compressed));
        }
    }
    let h = match get_page_header(data, pos) {
        Some(h) => h,
        None => return Err(Error::Decode),
    };
    proof {
        assert forall|h2: PageHeader, payload: Seq<u8>|
            #[trigger] holds_at(data@, pos as int, page_header_bytes(h2) + stored_bytes(payload, compressed))
                implies h2 == h by {
            crate::codec::lemma_header_sizes(Header { is_compressed: false, page_count: 0, feature_count: 0 }, h2);
            assert(holds_at(data@, pos as int, page_header_bytes(h2)));
            assert(page_header_bytes(h2) == data@.subrange(pos as int, pos + 12));
            crate::codec::lemma_header_bytes_injective(
                Header { is_compressed: false, page_count: 0, feature_count: 0 },
                Header { is_compressed: false, page_count: 0, feature_count: 0 },
                h,
                h2,
            );
        }
    }
    let body = pos + 12;
    if h.encoded_page_length as usize > len - body {
        return Err(Error::Decode);
    }
    let end = body + h.encoded_page_length as usize;
    let stored = vstd::slice::slice_subrange(data, body, end);
    proof {
        assert forall|h2: PageHeader, payload: Seq<u8>|
            #[trigger] holds_at(data@, pos as int, page_header_bytes(h2) + stored_bytes(payload, compressed))
                && page_header_fits(h2, payload, compressed) implies stored@ == stored_bytes(payload, compressed) by {
        }
    }
    let payload = if compressed {
        match decompress_frame(stored) {
            Some(p) => p,
            None => return Err(Error::Decode),
        }
    } else {
        let mut p: Vec<u8> = Vec::new();
        crate::codec::put_bytes(&mut p, stored);
        proof {
            assert(p@ =~= stored@);
        }
        p
    };
    proof {
        assert(holds_at(data@, pos as int, page_header_bytes(h)));
        assert(page_holds_with(data@, pos as int, compressed, payload@, h));
        crate::codec::lemma_header_sizes(Header { is_compressed: false, page_count: 0, feature_count: 0 }, h);
    }
    Ok((payload, end, h.feature_count))
}

/// Reads the feature record at `cursor` of a decoded page: its length, then
/// a feature whose encoding takes exactly that length. The record of a
/// feature with unique property names reads back as a feature with the same
/// encoding.
pub fn read_record(page: &[u8], cursor: usize) -> (r: Result<(Feature, usize), Error>)
    ensures
        r matches Ok((f, next)) ==> record_at(page@, cursor as int, f) && f.properties.wf()
            && next == cursor + 8 + feature_bytes(f).len() && next <= page@.len(),
        r matches Err(e) ==> e == Error::Decode,
        forall|f: Feature|
            #[trigger] record_at(page@, cursor as int, f) && properties_wf(f.properties) ==> (r matches Ok(
                (g, next),
            ) && feature_bytes(g) == feature_bytes(f) && next == cursor + 8 + feature_bytes(f).len()),
{
    let plen = page.len();
    proof {
        crate::codec::lemma_le_roundtrip();
        crate::codec::lemma_le_injective();
        assert forall|f: Feature| #[trigger] record_at(page@, cursor as int, f) implies holds_at(
            page@,
            cursor as int,
            le64(feature_bytes(f).len() as u64),
        ) && holds_at(page@, cursor + 8, feature_bytes(f)) by {
            crate::codec::lemma_holds_at_split(
                page@,
                cursor as int,
                le64(feature_bytes(f).len() as u64),
                feature_bytes(f),
            );
        }
    }
    let n = match get_u64(page, cursor) {
        Some(n) => n,
        None => return Err(Error::Decode),
    };
    proof {
        assert forall|f: Feature| #[trigger] record_at(page@, cursor as int, f) implies n == feature_bytes(f).len() by {
            assert(le64(n) == le64(feature_bytes(f).len() as u64));
        }
    }
    let start = cursor + 8;
    if n > (plen - start) as u64 {
        return Err(Error::Decode);
    }
    let end = start + n as usize;
    let body = vstd::slice::slice_subrange(page, start, end);
    proof {
        assert forall|f: Feature| #[trigger] record_at(page@, cursor as int, f) implies holds_at(body@, 0, feature_bytes(f)) by {
            assert(body@.subrange(0, feature_bytes(f).len() as int) =~= page@.subrange(start as int, start + feature_bytes(f).len()));
        }
    }
    match decode_feature(body, 0) {
        Some((f, p)) => {
            if p != body.len() {
                return Err(Error::Decode);
            }
            proof {
                assert(body@.subrange(0, p as int) =~= body@);
                crate::codec::lemma_subrange_concat(page@, cursor as int, start as int, end as int);
                assert(feature_bytes(f).len() == n);
            }
            Ok((f, end))
        },
        None => Err(Error::Decode),
    }
}

/// Iterates over the features of a query, one at a time.
pub struct FeatureIter {
    data: Vec<u8>,
    is_compressed: bool,
    feature_base: usize,
    features_left: u64,
    locations: Option<Vec<FeatureLocation>>,
    next_location: usize,
    page: Vec<u8>,
    page_pos: usize,
    page_open: bool,
    cursor: usize,
    next_page: usize,
}

impl FeatureIter {
    pub closed spec fn wf(&self) -> bool {
        &&& self.page_open ==> page_holds(self.data@, self.page_pos as int, self.is_compressed, self.page@)
        &&& self.cursor <= self.page@.len()
        &&& self.locations matches Some(l) ==> self.next_location <= l@.len()
    }

    /// Where the pages start in the file.
    pub closed spec fn base(&self) -> nat {
        self.feature_base as nat
    }

    /// The locations a bounded query has still to visit; none for a scan.
    pub closed spec fn pending(&self) -> Seq<FeatureLocation> {
        match self.locations {
            None => Seq::empty(),
            Some(l) => l@.subrange(self.next_location as int, l@.len() as int),
        }
    }

    pub closed spec fn is_scan(&self) -> bool {
        self.locations is None
    }

    /// A page is open and not read to its end.
    pub closed spec fn page_ready(&self) -> bool {
        self.page_open && self.cursor < self.page@.len()
    }

    /// The decoded payload of the open page.
    pub closed spec fn page_payload(&self) -> Seq<u8> {
        self.page@
    }

    /// Where in the open page the next record of a scan starts.
    pub closed spec fn cursor_pos(&self) -> nat {
        self.cursor as nat
    }

    /// Where the page after the open one starts in the file.
    pub closed spec fn next_page_pos(&self) -> nat {
        self.next_page as nat
    }

    /// How many more features the query yields, unless it fails first: the
    /// features not yet read for a scan, and the locations not yet visited
    /// for a bounded query, neither more than the file holds.
    pub closed spec fn remaining(&self) -> nat {
        match self.locations {
            None => self.features_left as nat,
            Some(l) => if self.features_left <= l@.len() - self.next_location {
                self.features_left as nat
            } else {
                (l@.len() - self.next_location) as nat
            },
        }
    }

    /// The bytes of the file being read.
    pub closed spec fn bytes(&self) -> Seq<u8> {
        self.data@
    }

    pub closed spec fn compressed(&self) -> bool {
        self.is_compressed
    }

    fn new(data: Vec<u8>, is_compressed: bool, feature_base: usize, features_left: u64, locations: Option<Vec<FeatureLocation>>) -> (r: Self)
        ensures
            r.wf(),
            r.bytes() == data@,
            r.compressed() == is_compressed,
            r.base() == feature_base,
            r.is_scan() == locations is None,
            locations matches Some(l) ==> r.pending() == l@,
            r.remaining() == match locations {
                None => features_left as nat,
                Some(l) => if features_left <= l@.len() { features_left as nat } else { l@.len() },
            },
    {
        proof {
            if locations is Some {
                assert(locations->0@.subrange(0, locations->0@.len() as int) =~= locations->0@);
            }
        }
        FeatureIter {
            data,
            is_compressed,
            feature_base,
            features_left,
            locations,
            next_location: 0,
            page: Vec::new(),
            page_pos: 0,
            page_open: false,
            cursor: 0,
            next_page: feature_base,
        }
    }

    fn open(&mut self, pos: usize) -> (r: Result<(), Error>)
        requires
            old(self).wf(),
        ensures
            final(self).wf(),
            final(self).bytes() == old(self).bytes(),
            final(self).compressed() == old(self).compressed(),
            r is Ok ==> final(self).page_open && final(self).page_pos == pos && final(self).cursor == 0,
            final(self).locations == old(self).locations,
            final(self).next_location == old(self).next_location,
            final(self).features_left == old(self).features_left,
            final(self).feature_base == old(self).feature_base,
            r matches Err(e) ==> e == Error::Decode,
            forall|payload: Seq<u8>|
                page_written(old(self).bytes(), pos as int, old(self).compressed(), payload) ==> (r is Ok
                    && final(self).page@ == payload && final(self).next_page == pos + 12 + stored_bytes(
                    payload,
                    old(self).compressed(),
                ).len()),
    {
        let (payload, next, _count) = match open_page(self.data.as_slice(), pos, self.is_compressed) {
            Ok(x) => x,
            Err(e) => return Err(e),
        };
        self.page = payload;
        self.page_pos = pos;
        self.page_open = true;
        self.cursor = 0;
        self.next_page = next;
        Ok(())
    }

    /// The next feature of the query, or `None` when it is done. Each
    /// feature returned is the record that some page of the file holds at
    /// some offset, and its property names are unique. Where the query looks
    /// next (the rest of the open page, the page after it, or the page and
    /// offset of the next location) stands a page as the writer stores it
    /// with the record of a feature whose names are unique, that feature is
    /// read back with the same encoding. Fails with `Decode` on a page or
    /// record that does not decode.
    pub fn next(&mut self) -> (r: Result<Option<Feature>, Error>)
        requires
            old(self).wf(),
        ensures
            final(self).wf(),
            final(self).bytes() == old(self).bytes(),
            final(self).compressed() == old(self).compressed(),
            final(self).base() == old(self).base(),
            final(self).is_scan() == old(self).is_scan(),
            r matches Ok(Some(f)) ==> f.properties.wf() && exists|pos: int, payload: Seq<u8>, c: int|
                page_holds(old(self).bytes(), pos, old(self).compressed(), payload) && record_at(payload, c, f),
            r matches Err(e) ==> e == Error::Decode,
            old(self).remaining() == 0 ==> r matches Ok(None),
            old(self).remaining() > 0 ==> !(r matches Ok(None)),
            r matches Ok(Some(_)) ==> final(self).remaining() == old(self).remaining() - 1,
            old(self).is_scan() && old(self).remaining() > 0 && old(self).page_ready() ==> forall|f: Feature|
                #[trigger] record_at(old(self).page_payload(), old(self).cursor_pos() as int, f) && properties_wf(
                    f.properties,
                ) ==> (r matches Ok(Some(g)) && feature_bytes(g) == feature_bytes(f) && final(self).page_payload()
                    == old(self).page_payload() && final(self).cursor_pos() == old(self).cursor_pos() + 8
                    + feature_bytes(f).len() && final(self).next_page_pos() == old(self).next_page_pos()),
            old(self).is_scan() && old(self).remaining() > 0 && !old(self).page_ready() ==> forall|
                payload: Seq<u8>,
                f: Feature,
            |
                page_written(old(self).bytes(), old(self).next_page_pos() as int, old(self).compressed(), payload)
                    && #[trigger] record_at(payload, 0, f) && properties_wf(f.properties) ==> (r matches Ok(Some(g))
                    && feature_bytes(g) == feature_bytes(f) && final(self).page_payload() == payload
                    && final(self).cursor_pos() == 8 + feature_bytes(f).len() && final(self).next_page_pos()
                    == old(self).next_page_pos() + 12 + stored_bytes(payload, old(self).compressed()).len()),
            !old(self).is_scan() && old(self).remaining() > 0 ==> forall|payload: Seq<u8>, f: Feature|
                page_written(
                    old(self).bytes(),
                    old(self).base() + old(self).pending()[0].page_starting_offset,
                    old(self).compressed(),
                    payload,
                ) && #[trigger] record_at(payload, old(self).pending()[0].feature_offset as int, f)
                    && properties_wf(f.properties) ==> (r matches Ok(Some(g)) && feature_bytes(g) == feature_bytes(
                    f,
                )),
            !old(self).is_scan() ==> (r matches Ok(Some(f)) ==> {
                let loc = old(self).pending()[0];
                &&& final(self).pending() == old(self).pending().drop_first()
                &&& exists|payload: Seq<u8>|
                    page_holds(
                        old(self).bytes(),
                        old(self).base() + loc.page_starting_offset,
                        old(self).compressed(),
                        payload,
                    ) && record_at(payload, loc.feature_offset as int, f)
            }),
    {
        let ghost start_bytes = self.data@;
        let ghost start_compressed = self.is_compressed;
        let data_len = self.data.len();
        if self.features_left == 0 {
            return Ok(None);
        }
        self.features_left = self.features_left - 1;
        let ghost mut visited = FeatureLocation { page_starting_offset: 0, feature_offset: 0 };
        match &self.locations {
            None => {
                if !self.page_open || self.cursor == self.page.len() {
                    let at = self.next_page;
                    match self.open(at) {
                        Ok(()) => {},
                        Err(e) => return Err(e),
                    }
                }
            },
            Some(locations) => {
                if self.next_location >= locations.len() {
                    return Ok(None);
                }
                let loc = locations[self.next_location];
                proof {
                    visited = loc;
                    assert(loc == old(self).pending()[0]);
                    assert(locations@.subrange(self.next_location + 1, locations@.len() as int) =~= old(
                        self,
                    ).pending().drop_first());
                }
                self.next_location = self.next_location + 1;
                proof {
                    assert forall|payload: Seq<u8>| #[trigger] page_written(start_bytes, self.feature_base + loc.page_starting_offset, start_compressed, payload)
                        implies self.feature_base + loc.page_starting_offset + 12 <= data_len by {
                        let h = choose|h: PageHeader|
                            #[trigger] holds_at(start_bytes, self.feature_base + loc.page_starting_offset, page_header_bytes(h) + stored_bytes(payload, start_compressed))
                                && page_header_fits(h, payload, start_compressed);
                        crate::codec::lemma_header_sizes(Header { is_compressed: false, page_count: 0, feature_count: 0 }, h);
                    }
                }
                if loc.page_starting_offset > (usize::MAX - self.feature_base) as u64 {
                    return Err(Error::Decode);
                }
                let target = self.feature_base + loc.page_starting_offset as usize;
                if !(self.page_open && self.page_pos == target) {
                    match self.open(target) {
                        Ok(()) => {},
                        Err(e) => return Err(e),
                    }
                }
                proof {
                    assert forall|payload: Seq<u8>| #[trigger] page_written(start_bytes, target as int, start_compressed, payload)
                        implies self.page@ == payload by {
                        lemma_written_page_reads_back(start_bytes, target as int, start_compressed, payload, self.page@);
                    }
                }
                if loc.feature_offset as usize > self.page.len() {
                    return Err(Error::Decode);
                }
                self.cursor = loc.feature_offset as usize;
            },
        }
        if !self.page_open {
            return Err(Error::Decode);
        }
        let at = self.cursor;
        match read_record(self.page.as_slice(), at) {
            Ok((f, next)) => {
                proof {
                    assert(page_holds(start_bytes, self.page_pos as int, start_compressed, self.page@));
                    assert(record_at(self.page@, at as int, f));
                    assert(start_bytes == old(self).bytes());
                    assert(start_compressed == old(self).compressed());
                    assert(f.properties.wf());
                    assert(exists|pos: int, payload: Seq<u8>, c: int|
                        page_holds(old(self).bytes(), pos, old(self).compressed(), payload) && record_at(payload, c, f));
                    if !old(self).is_scan() {
                        assert(self.page_pos == old(self).base() + visited.page_starting_offset);
                        assert(at == visited.feature_offset);
                        assert(page_holds(
                            old(self).bytes(),
                            old(self).base() + visited.page_starting_offset,
                            old(self).compressed(),
                            self.page@,
                        ) && record_at(self.page@, visited.feature_offset as int, f));
                    }
                }
                self.cursor = next;
                Ok(Some(f))
            },
            Err(e) => Err(e),
        }
    }
}

impl Reader {
    /// Where the pages start: after the header and the index.
    fn feature_base(&self) -> (r: Result<usize, Error>)
        requires
            self.wf(),
        ensures
            r is Ok <==> 17 + node_count_spec(self.header.feature_count as nat) * 28 <= self.data@.len(),
            r matches Ok(b) ==> b == 17 + node_count_spec(self.header.feature_count as nat) * 28,
            r matches Err(e) ==> e == Error::Decode,
    {
        let tree = PackedRTree::new(self.header.feature_count);
        let index_size = tree.index_size();
        let len = self.data.len();
        if index_size > (len - 17) as u64 {
            return Err(Error::Decode);
        }
        Ok(17 + index_size as usize)
    }

    /// All features, in storage order. Fails with `Decode` when the file is
    /// shorter than its index.
    pub fn select_all(self) -> (r: Result<FeatureIter, Error>)
        requires
            self.wf(),
        ensures
            r is Ok <==> HEADER_SIZE + node_count_spec(self.file_header().feature_count as nat) * 28
                <= self.bytes().len(),
            r matches Ok(it) ==> {
                &&& it.wf()
                &&& it.bytes() == self.bytes()
                &&& it.compressed() == self.file_header().is_compressed
                &&& it.is_scan()
                &&& it.base() == HEADER_SIZE + node_count_spec(self.file_header().feature_count as nat) * 28
                &&& it.remaining() == self.file_header().feature_count
            },
            r matches Err(e) ==> e == Error::Decode,
    {
        let base = match self.feature_base() {
            Ok(b) => b,
            Err(e) => return Err(e),
        };
        let count = self.header.feature_count;
        let compressed = self.header.is_compressed;
        Ok(FeatureIter::new(self.data, compressed, base, count, None))
    }

    /// The features whose index rectangle meets `bounds`, in index order:
    /// the query visits the locations of exactly the leaves of the index that
    /// a descent reaches, which over a well-formed index are all the leaves
    /// whose rectangle meets `bounds`. Fails with `Decode` when the file is
    /// shorter than its index.
    pub fn select_bbox(self, bounds: &Bounds) -> (r: Result<FeatureIter, Error>)
        requires
            self.wf(),
        ensures
            r is Ok <==> HEADER_SIZE + node_count_spec(self.file_header().feature_count as nat) * 28
                <= self.bytes().len(),
            r matches Ok(it) ==> {
                let n = self.file_header().feature_count as nat;
                &&& it.wf()
                &&& it.bytes() == self.bytes()
                &&& it.compressed() == self.file_header().is_compressed
                &&& !it.is_scan()
                &&& it.base() == HEADER_SIZE + node_count_spec(n) * 28
                &&& it.remaining() == it.pending().len()
                &&& exists|nodes: Seq<Node>, ids: Seq<u64>|
                    {
                        &&& nodes.len() == node_count_spec(n)
                        &&& forall|i: int|
                            0 <= i < nodes.len() ==> self.bytes().subrange(17 + i * 28, 17 + i * 28 + 28)
                                == node_bytes(#[trigger] nodes[i])
                        &&& ids.len() == it.pending().len()
                        &&& strictly_increasing(ids)
                        &&& forall|k: int|
                            #![trigger ids[k]]
                            0 <= k < ids.len() ==> {
                                &&& is_leaf_index(n, ids[k] as int)
                                &&& intersects_spec(nodes[ids[k] as int].bounds, *bounds)
                                &&& it.pending()[k] == nodes[ids[k] as int].offset
                            }
                        &&& index_wf(nodes, n) ==> forall|j: int|
                            is_leaf_index(n, j) && intersects_spec(nodes[j].bounds, *bounds)
                                ==> ids.contains(j as u64)
                    }
            },
            r matches Err(e) ==> e == Error::Decode,
    {
        let base = match self.feature_base() {
            Ok(b) => b,
            Err(e) => return Err(e),
        };
        let index = vstd::slice::slice_subrange(self.data.as_slice(), 17, base);
        let tree_reader = match PackedRTreeReader::new(self.header.feature_count, index) {
            Ok(t) => t,
            Err(e) => return Err(e),
        };
        let locations = tree_reader.select_bbox(bounds);
        let count = self.header.feature_count;
        let compressed = self.header.is_compressed;
        proof {
            let nodes = tree_reader.nodes();
            assert forall|i: int| 0 <= i < nodes.len() implies self.data@.subrange(17 + i * 28, 17 + i * 28 + 28)
                == node_bytes(#[trigger] nodes[i]) by {
                assert(index@.subrange(i * 28, i * 28 + 28) == node_bytes(nodes[i]));
                assert(self.data@.subrange(17 + i * 28, 17 + i * 28 + 28) =~= index@.subrange(i * 28, i * 28 + 28));
            }
            let n = self.header.feature_count as nat;
            if n >= 1 {
                crate::packed_r_tree::lemma_shape(n);
            }
            let ids = choose|ids: Seq<u64>| {
                &&& ids.len() == locations@.len()
                &&& strictly_increasing(ids)
                &&& forall|k: int|
                    #![trigger ids[k]]
                    0 <= k < ids.len() ==> {
                        &&& is_leaf_index(tree_reader.leaf_count(), ids[k] as int)
                        &&& intersects_spec(tree_reader.nodes()[ids[k] as int].bounds, *bounds)
                        &&& locations@[k] == tree_reader.nodes()[ids[k] as int].offset
                    }
                &&& index_wf(tree_reader.nodes(), tree_reader.leaf_count()) ==> forall|j: int|
                    is_leaf_index(tree_reader.leaf_count(), j) && intersects_spec(tree_reader.nodes()[j].bounds, *bounds)
                        ==> ids.contains(j as u64)
            };
            lemma_increasing_leaves_bounded(n, ids);
            assert(locations@.len() <= n);
            assert(tree_reader.leaf_count() == n);
            assert(nodes.len() == node_count_spec(n));
        }
        let ghost located = locations@;
        let it = FeatureIter::new(self.data, compressed, base, count, Some(locations));
        proof {
            let n = self.header.feature_count as nat;
            let nodes = tree_reader.nodes();
            let ids = choose|ids: Seq<u64>| {
                &&& ids.len() == located.len()
                &&& strictly_increasing(ids)
                &&& forall|k: int|
                    #![trigger ids[k]]
                    0 <= k < ids.len() ==> {
                        &&& is_leaf_index(tree_reader.leaf_count(), ids[k] as int)
                        &&& intersects_spec(tree_reader.nodes()[ids[k] as int].bounds, *bounds)
                        &&& located[k] == tree_reader.nodes()[ids[k] as int].offset
                    }
                &&& index_wf(tree_reader.nodes(), tree_reader.leaf_count()) ==> forall|j: int|
                    is_leaf_index(tree_reader.leaf_count(), j) && intersects_spec(tree_reader.nodes()[j].bounds, *bounds)
                        ==> ids.contains(j as u64)
            };
            assert(it.pending() == located);
            assert(exists|nodes: Seq<Node>, ids: Seq<u64>|
                {
                    &&& nodes.len() == node_count_spec(n)
                    &&& forall|i: int|
                        0 <= i < nodes.len() ==> self.data@.subrange(17 + i * 28, 17 + i * 28 + 28)
                            == node_bytes(#[trigger] nodes[i])
                    &&& ids.len() == it.pending().len()
                    &&& strictly_increasing(ids)
                    &&& forall|k: int|
                        #![trigger ids[k]]
                        0 <= k < ids.len() ==> {
                            &&& is_leaf_index(n, ids[k] as int)
                            &&& intersects_spec(nodes[ids[k] as int].bounds, *bounds)
                            &&& it.pending()[k] == nodes[ids[k] as int].offset
                        }
                    &&& index_wf(nodes, n) ==> forall|j: int|
                        is_leaf_index(n, j) && intersects_spec(nodes[j].bounds, *bounds)
                            ==> ids.contains(j as u64)
                }) by {
                assert(tree_reader.leaf_count() == n);
            }
        }
        Ok(it)
    }
}

/// Compression does not change what a page reads as: a page stored as its
/// payload, or as the frame the compressor makes of it, decodes to that
/// payload.
pub proof fn lemma_page_payload_either_way(payload: Seq<u8>, compressed: bool, h: PageHeader, q: Seq<u8>)
    requires
        h.encoded_page_length == (if compressed { zstd_frame(payload) } else { payload }).len(),
        page_holds(
            page_header_bytes(h) + (if compressed { zstd_frame(payload) } else { payload }),
            0,
            compressed,
            q,
        ),
    ensures
        q == payload,
{
    let stored = if compressed { zstd_frame(payload) } else { payload };
    let data = page_header_bytes(h) + stored;
    let h2 = choose|h2: PageHeader| #[trigger] page_holds_with(data, 0, compressed, q, h2);
    crate::codec::lemma_header_sizes(Header { is_compressed: false, page_count: 0, feature_count: 0 }, h);
    crate::codec::lemma_header_sizes(Header { is_compressed: false, page_count: 0, feature_count: 0 }, h2);
    assert(data.subrange(0, 12) =~= page_header_bytes(h));
    crate::codec::lemma_header_bytes_injective(
        Header { is_compressed: false, page_count: 0, feature_count: 0 },
        Header { is_compressed: false, page_count: 0, feature_count: 0 },
        h,
        h2,
    );
    assert(data.subrange(12, 12 + h.encoded_page_length) =~= stored);
}

} // verus!
