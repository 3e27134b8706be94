//! The byte encoding shared by every on-disk record: little-endian,
//! fixed-width integers; collections prefixed by an 8-byte element count;
//! enum variants by a 4-byte tag.
use crate::bounds::Bounds;
use crate::format::{FeatureLocation, Header, PageHeader};
use crate::geometry::LngLat;
use crate::packed_r_tree::Node;
use vstd::bytes::*;
use vstd::prelude::*;
use vstd::slice::slice_subrange;

verus! {

pub open spec fn le16(x: u16) -> Seq<u8> {
    spec_u16_to_le_bytes(x)
}

pub open spec fn le32(x: u32) -> Seq<u8> {
    spec_u32_to_le_bytes(x)
}

pub open spec fn le64(x: u64) -> Seq<u8> {
    spec_u64_to_le_bytes(x)
}

/// The two's-complement word of a signed 32-bit value.
pub open spec fn i32_word(x: i32) -> u32 {
    if x >= 0 {
        x as u32
    } else {
        (x + 0x1_0000_0000) as u32
    }
}

pub open spec fn word_i32(u: u32) -> i32 {
    if u < 0x8000_0000 {
        u as i32
    } else {
        (u - 0x1_0000_0000) as i32
    }
}

pub open spec fn i32_bytes(x: i32) -> Seq<u8> {
    le32(i32_word(x))
}

pub open spec fn bool_byte(b: bool) -> u8 {
    if b {
        1
    } else {
        0
    }
}

pub open spec fn lnglat_bytes(p: LngLat) -> Seq<u8> {
    i32_bytes(p.lng) + i32_bytes(p.lat)
}

/// A rectangle: min longitude, min latitude, max longitude, max latitude.
pub open spec fn bounds_bytes(b: Bounds) -> Seq<u8> {
    lnglat_bytes(b.min) + lnglat_bytes(b.max)
}

pub open spec fn location_bytes(l: FeatureLocation) -> Seq<u8> {
    le64(l.page_starting_offset) + le32(l.feature_offset)
}

pub open spec fn node_bytes(n: Node) -> Seq<u8> {
    bounds_bytes(n.bounds) + location_bytes(n.offset)
}

pub open spec fn header_bytes(h: Header) -> Seq<u8> {
    seq![bool_byte(h.is_compressed)] + le64(h.page_count) + le64(h.feature_count)
}

pub open spec fn page_header_bytes(h: PageHeader) -> Seq<u8> {
    le32(h.encoded_page_length) + le32(h.decoded_page_length) + le32(h.feature_count)
}

/// `b[pos..pos + enc.len()]` is `enc`.
pub open spec fn holds_at(b: Seq<u8>, pos: int, enc: Seq<u8>) -> bool {
    0 <= pos && pos + enc.len() <= b.len() && b.subrange(pos, pos + enc.len()) == enc
}

pub proof fn lemma_le_roundtrip()
    ensures
        forall|x: u16| #![trigger le16(x)] le16(x).len() == 2 && spec_u16_from_le_bytes(le16(x)) == x,
        forall|x: u32| #![trigger le32(x)] le32(x).len() == 4 && spec_u32_from_le_bytes(le32(x)) == x,
        forall|x: u64| #![trigger le64(x)] le64(x).len() == 8 && spec_u64_from_le_bytes(le64(x)) == x,
        forall|s: Seq<u8>| s.len() == 2 ==> #[trigger] le16(spec_u16_from_le_bytes(s)) == s,
        forall|s: Seq<u8>| s.len() == 4 ==> #[trigger] le32(spec_u32_from_le_bytes(s)) == s,
        forall|s: Seq<u8>| s.len() == 8 ==> #[trigger] le64(spec_u64_from_le_bytes(s)) == s,
{
    lemma_auto_spec_u16_to_from_le_bytes();
    lemma_auto_spec_u32_to_from_le_bytes();
    lemma_auto_spec_u64_to_from_le_bytes();
}

/// Little-endian words are told apart by their bytes.
pub proof fn lemma_le_injective()
    ensures
        forall|x: u32, y: u32| #[trigger] le32(x) == #[trigger] le32(y) ==> x == y,
        forall|x: u64, y: u64| #[trigger] le64(x) == #[trigger] le64(y) ==> x == y,
        forall|x: u16, y: u16| #[trigger] le16(x) == #[trigger] le16(y) ==> x == y,
{
    lemma_le_roundtrip();
    assert forall|x: u32, y: u32| #[trigger] le32(x) == #[trigger] le32(y) implies x == y by {
        assert(spec_u32_from_le_bytes(le32(x)) == x);
        assert(spec_u32_from_le_bytes(le32(y)) == y);
    }
    assert forall|x: u64, y: u64| #[trigger] le64(x) == #[trigger] le64(y) implies x == y by {
        assert(spec_u64_from_le_bytes(le64(x)) == x);
        assert(spec_u64_from_le_bytes(le64(y)) == y);
    }
}

pub proof fn lemma_i32_word(x: i32)
    ensures
        word_i32(i32_word(x)) == x,
{
}

pub proof fn lemma_subrange_concat(b: Seq<u8>, i: int, j: int, k: int)
    requires
        0 <= i <= j <= k <= b.len(),
    ensures
        b.subrange(i, k) == b.subrange(i, j) + b.subrange(j, k),
{
    assert(b.subrange(i, k) =~= b.subrange(i, j) + b.subrange(j, k));
}

pub fn put_u8(out: &mut Vec<u8>, x: u8)
    ensures
        final(out)@ == old(out)@ + seq![x],
{
    out.push(x);
    proof {
        assert(final(out)@ =~= old(out)@ + seq![x]);
    }
}

pub fn put_u16(out: &mut Vec<u8>, x: u16)
    ensures
        final(out)@ == old(out)@ + le16(x),
{
    let mut b = u16_to_le_bytes(x);
    out.append(&mut b);
}

pub fn put_u32(out: &mut Vec<u8>, x: u32)
    ensures
        final(out)@ == old(out)@ + le32(x),
{
    let mut b = u32_to_le_bytes(x);
    out.append(&mut b);
}

pub fn put_u64(out: &mut Vec<u8>, x: u64)
    ensures
        final(out)@ == old(out)@ + le64(x),
{
    let mut b = u64_to_le_bytes(x);
    out.append(&mut b);
}

pub fn put_i32(out: &mut Vec<u8>, x: i32)
    ensures
        final(out)@ == old(out)@ + i32_bytes(x),
{
    let w: u32 = if x >= 0 {
        x as u32
    } else {
        (x as i64 + 0x1_0000_0000i64) as u32
    };
    put_u32(out, w);
}

pub fn put_bytes(out: &mut Vec<u8>, b: &[u8])
    ensures
        final(out)@ == old(out)@ + b@,
{
    let mut i: usize = 0;
    while i < b.len()
        invariant
            i <= b@.len(),
            out@ == old(out)@ + b@.subrange(0, i as int),
        decreases b@.len() - i,
    {
        out.push(b[i]);
        proof {
            assert(out@ =~= old(out)@ + b@.subrange(0, i as int + 1));
        }
        i += 1;
    }
    proof {
        assert(b@.subrange(0, i as int) =~= b@);
    }
}

pub fn get_u8(b: &[u8], pos: usize) -> (r: Option<u8>)
    ensures
        r is Some <==> pos + 1 <= b@.len(),
        r matches Some(x) ==> b@.subrange(pos as int, pos + 1) == seq![x],
{
    if pos < b.len() {
        proof {
            assert(b@.subrange(pos as int, pos + 1) =~= seq![b@[pos as int]]);
        }
        Some(b[pos])
    } else {
        None
    }
}

pub fn get_u16(b: &[u8], pos: usize) -> (r: Option<u16>)
    ensures
        r is Some <==> pos + 2 <= b@.len(),
        r matches Some(x) ==> b@.subrange(pos as int, pos + 2) == le16(x),
{
    if pos <= b.len() && 2 <= b.len() - pos {
        let x = u16_from_le_bytes(slice_subrange(b, pos, pos + 2));
        proof {
            lemma_le_roundtrip();
        }
        Some(x)
    } else {
        None
    }
}

pub fn get_u32(b: &[u8], pos: usize) -> (r: Option<u32>)
    ensures
        r is Some <==> pos + 4 <= b@.len(),
        r matches Some(x) ==> b@.subrange(pos as int, pos + 4) == le32(x),
{
    if pos <= b.len() && 4 <= b.len() - pos {
        let x = u32_from_le_bytes(slice_subrange(b, pos, pos + 4));
        proof {
            lemma_le_roundtrip();
        }
        Some(x)
    } else {
        None
    }
}

pub fn get_u64(b: &[u8], pos: usize) -> (r: Option<u64>)
    ensures
        r is Some <==> pos + 8 <= b@.len(),
        r matches Some(x) ==> b@.subrange(pos as int, pos + 8) == le64(x),
{
    if pos <= b.len() && 8 <= b.len() - pos {
        let x = u64_from_le_bytes(slice_subrange(b, pos, pos + 8));
        proof {
            lemma_le_roundtrip();
        }
        Some(x)
    } else {
        None
    }
}

pub fn get_i32(b: &[u8], pos: usize) -> (r: Option<i32>)
    ensures
        r is Some <==> pos + 4 <= b@.len(),
        r matches Some(x) ==> b@.subrange(pos as int, pos + 4) == i32_bytes(x),
{
    match get_u32(b, pos) {
        None => None,
        Some(w) => {
            let x: i32 = if w < 0x8000_0000 {
                w as i32
            } else {
                (w as i64 - 0x1_0000_0000i64) as i32
            };
            assert(i32_word(x) == w);
            Some(x)
        },
    }
}

pub fn put_lnglat(out: &mut Vec<u8>, p: &LngLat)
    ensures
        final(out)@ == old(out)@ + lnglat_bytes(*p),
{
    put_i32(out, p.lng);
    put_i32(out, p.lat);
    proof {
        assert(final(out)@ =~= old(out)@ + lnglat_bytes(*p));
    }
}

pub fn get_lnglat(b: &[u8], pos: usize) -> (r: Option<LngLat>)
    ensures
        r is Some <==> pos + 8 <= b@.len(),
        r matches Some(p) ==> b@.subrange(pos as int, pos + 8) == lnglat_bytes(p),
{
    if pos > b.len() || b.len() - pos < 8 {
        return None;
    }
    let lng = get_i32(b, pos).unwrap();
    let lat = get_i32(b, pos + 4).unwrap();
    proof {
        lemma_subrange_concat(b@, pos as int, pos + 4, pos + 8);
    }
    Some(LngLat { lng, lat })
}

pub fn put_bounds(out: &mut Vec<u8>, bounds: &Bounds)
    ensures
        final(out)@ == old(out)@ + bounds_bytes(*bounds),
{
    put_lnglat(out, &bounds.min);
    put_lnglat(out, &bounds.max);
    proof {
        assert(final(out)@ =~= old(out)@ + bounds_bytes(*bounds));
    }
}

pub fn put_location(out: &mut Vec<u8>, l: &FeatureLocation)
    ensures
        final(out)@ == old(out)@ + location_bytes(*l),
{
    put_u64(out, l.page_starting_offset);
    put_u32(out, l.feature_offset);
    proof {
        assert(final(out)@ =~= old(out)@ + location_bytes(*l));
    }
}

/// Appends the 28 bytes of an index node.
pub fn put_node(out: &mut Vec<u8>, n: &Node)
    ensures
        final(out)@ == old(out)@ + node_bytes(*n),
{
    put_bounds(out, &n.bounds);
    put_location(out, &n.offset);
    proof {
        assert(final(out)@ =~= old(out)@ + node_bytes(*n));
    }
}

/// Reads the index node at `pos`.
pub fn get_node(b: &[u8], pos: usize) -> (r: Option<Node>)
    ensures
        r is Some <==> pos + 28 <= b@.len(),
        r matches Some(n) ==> b@.subrange(pos as int, pos + 28) == node_bytes(n),
{
    if pos > b.len() || b.len() - pos < 28 {
        return None;
    }
    let min = get_lnglat(b, pos).unwrap();
    let max = get_lnglat(b, pos + 8).unwrap();
    let page_starting_offset = get_u64(b, pos + 16).unwrap();
    let feature_offset = get_u32(b, pos + 24).unwrap();
    proof {
        lemma_subrange_concat(b@, pos as int, pos + 8, pos + 16);
        lemma_subrange_concat(b@, pos + 16, pos + 24, pos + 28);
        lemma_subrange_concat(b@, pos as int, pos + 16, pos + 28);
    }
    Some(
        Node {
            bounds: Bounds { min, max },
            offset: FeatureLocation { page_starting_offset, feature_offset },
        },
    )
}

pub fn put_header(out: &mut Vec<u8>, h: &Header)
    ensures
        final(out)@ == old(out)@ + header_bytes(*h),
{
    put_u8(out, if h.is_compressed { 1u8 } else { 0u8 });
    put_u64(out, h.page_count);
    put_u64(out, h.feature_count);
    proof {
        assert(final(out)@ =~= old(out)@ + header_bytes(*h));
    }
}

/// Reads the file header at `pos`; the flag byte must be 0 or 1.
pub fn get_header(b: &[u8], pos: usize) -> (r: Option<Header>)
    ensures
        r is Some <==> pos + 17 <= b@.len() && (b@[pos as int] == 0 || b@[pos as int] == 1),
        r matches Some(h) ==> b@.subrange(pos as int, pos + 17) == header_bytes(h),
{
    if pos > b.len() || b.len() - pos < 17 {
        return None;
    }
    let flag = b[pos];
    if flag > 1 {
        return None;
    }
    let page_count = get_u64(b, pos + 1).unwrap();
    let feature_count = get_u64(b, pos + 9).unwrap();
    proof {
        lemma_subrange_concat(b@, pos as int, pos + 1, pos + 9);
        lemma_subrange_concat(b@, pos as int, pos + 9, pos + 17);
        assert(b@.subrange(pos as int, pos + 1) =~= seq![flag]);
    }
    Some(Header { is_compressed: flag == 1, page_count, feature_count })
}

pub fn put_page_header(out: &mut Vec<u8>, h: &PageHeader)
    ensures
        final(out)@ == old(out)@ + page_header_bytes(*h),
{
    put_u32(out, h.encoded_page_length);
    put_u32(out, h.decoded_page_length);
    put_u32(out, h.feature_count);
    proof {
        assert(final(out)@ =~= old(out)@ + page_header_bytes(*h));
    }
}

pub fn get_page_header(b: &[u8], pos: usize) -> (r: Option<PageHeader>)
    ensures
        r is Some <==> pos + 12 <= b@.len(),
        r matches Some(h) ==> b@.subrange(pos as int, pos + 12) == page_header_bytes(h),
{
    if pos > b.len() || b.len() - pos < 12 {
        return None;
    }
    let encoded_page_length = get_u32(b, pos).unwrap();
    let decoded_page_length = get_u32(b, pos + 4).unwrap();
    let feature_count = get_u32(b, pos + 8).unwrap();
    proof {
        lemma_subrange_concat(b@, pos as int, pos + 4, pos + 8);
        lemma_subrange_concat(b@, pos as int, pos + 8, pos + 12);
    }
    Some(PageHeader { encoded_page_length, decoded_page_length, feature_count })
}

/// An index node always takes 28 bytes.
pub proof fn lemma_node_size(n: Node)
    ensures
        node_bytes(n).len() == 28,
{
    lemma_le_roundtrip();
}

/// A file header always takes 17 bytes, a page header 12.
pub proof fn lemma_header_sizes(h: Header, p: PageHeader)
    ensures
        header_bytes(h).len() == 17,
        page_header_bytes(p).len() == 12,
{
    lemma_le_roundtrip();
}

/// Reading a node back from its bytes gives the node that was written.
pub proof fn lemma_node_bytes_injective(a: Node, b: Node)
    requires
        node_bytes(a) == node_bytes(b),
    ensures
        a == b,
{
    lemma_le_roundtrip();
    lemma_le_injective();
    let x = node_bytes(a);
    assert(x.subrange(0, 4) == i32_bytes(a.bounds.min.lng) && x.subrange(0, 4) == i32_bytes(b.bounds.min.lng));
    assert(x.subrange(4, 8) == i32_bytes(a.bounds.min.lat) && x.subrange(4, 8) == i32_bytes(b.bounds.min.lat));
    assert(x.subrange(8, 12) == i32_bytes(a.bounds.max.lng) && x.subrange(8, 12) == i32_bytes(b.bounds.max.lng));
    assert(x.subrange(12, 16) == i32_bytes(a.bounds.max.lat) && x.subrange(12, 16) == i32_bytes(b.bounds.max.lat));
    assert(x.subrange(16, 24) == le64(a.offset.page_starting_offset) && x.subrange(16, 24) == le64(b.offset.page_starting_offset));
    assert(x.subrange(24, 28) == le32(a.offset.feature_offset) && x.subrange(24, 28) == le32(b.offset.feature_offset));
    lemma_i32_word(a.bounds.min.lng);
    lemma_i32_word(b.bounds.min.lng);
    lemma_i32_word(a.bounds.min.lat);
    lemma_i32_word(b.bounds.min.lat);
    lemma_i32_word(a.bounds.max.lng);
    lemma_i32_word(b.bounds.max.lng);
    lemma_i32_word(a.bounds.max.lat);
    lemma_i32_word(b.bounds.max.lat);
}

/// Header bytes determine the header.
pub proof fn lemma_header_bytes_injective(a: Header, b: Header, p: PageHeader, q: PageHeader)
    ensures
        header_bytes(a) == header_bytes(b) ==> a == b,
        page_header_bytes(p) == page_header_bytes(q) ==> p == q,
{
    lemma_le_roundtrip();
    lemma_le_injective();
    if header_bytes(a) == header_bytes(b) {
        let x = header_bytes(a);
        assert(x[0] == bool_byte(a.is_compressed) && x[0] == bool_byte(b.is_compressed));
        assert(x.subrange(1, 9) == le64(a.page_count) && x.subrange(1, 9) == le64(b.page_count));
        assert(x.subrange(9, 17) == le64(a.feature_count) && x.subrange(9, 17) == le64(b.feature_count));
    }
    if page_header_bytes(p) == page_header_bytes(q) {
        let x = page_header_bytes(p);
        assert(x.subrange(0, 4) == le32(p.encoded_page_length) && x.subrange(0, 4) == le32(q.encoded_page_length));
        assert(x.subrange(4, 8) == le32(p.decoded_page_length) && x.subrange(4, 8) == le32(q.decoded_page_length));
        assert(x.subrange(8, 12) == le32(p.feature_count) && x.subrange(8, 12) == le32(q.feature_count));
    }
}

/// `x + y` at `pos` is `x` at `pos` followed by `y`.
pub proof fn lemma_holds_at_split(b: Seq<u8>, pos: int, x: Seq<u8>, y: Seq<u8>)
    requires
        holds_at(b, pos, x + y),
    ensures
        holds_at(b, pos, x),
        holds_at(b, pos + x.len(), y),
{
    assert(b.subrange(pos, pos + x.len()) =~= (x + y).subrange(0, x.len() as int));
    assert((x + y).subrange(0, x.len() as int) =~= x);
    assert(b.subrange(pos + x.len(), pos + x.len() + y.len()) =~= (x + y).subrange(x.len() as int, (x + y).len() as int));
    assert((x + y).subrange(x.len() as int, (x + y).len() as int) =~= y);
}

/// Coordinates are told apart by their bytes.
pub proof fn lemma_lnglat_injective(a: LngLat, c: LngLat)
    requires
        lnglat_bytes(a) == lnglat_bytes(c),
    ensures
        a == c,
{
    lemma_le_roundtrip();
    lemma_le_injective();
    let x = lnglat_bytes(a);
    assert(x.subrange(0, 4) == i32_bytes(a.lng) && x.subrange(0, 4) == i32_bytes(c.lng));
    assert(x.subrange(4, 8) == i32_bytes(a.lat) && x.subrange(4, 8) == i32_bytes(c.lat));
    lemma_i32_word(a.lng);
    lemma_i32_word(c.lng);
    lemma_i32_word(a.lat);
    lemma_i32_word(c.lat);
}

/// A prefix of what stands at `pos` stands there too.
pub proof fn lemma_holds_at_prefix(b: Seq<u8>, pos: int, whole: Seq<u8>, pre: Seq<u8>)
    requires
        holds_at(b, pos, whole),
        pre.len() <= whole.len(),
        whole.subrange(0, pre.len() as int) == pre,
    ensures
        holds_at(b, pos, pre),
{
    assert(b.subrange(pos, pos + pre.len()) =~= whole.subrange(0, pre.len() as int));
}

} // verus!
