//! Byte encoding of geometries, property values and features.
use crate::codec::{
    holds_at, lemma_holds_at_prefix, lemma_holds_at_split, lemma_le_injective, lemma_le_roundtrip, lemma_lnglat_injective,
    bool_byte, get_lnglat, get_u16, get_u32, get_u64, get_u8, i32_bytes, le16, le32, le64, lnglat_bytes,
    put_bytes, put_i32, put_lnglat, put_u16, put_u32, put_u64, put_u8, lemma_subrange_concat,
    get_i32,
};
use crate::feature::{keys_unique, Feature, Properties, PropertyValue};
use crate::geometry::{
    Geometry, GeometryCollection, LineString, LngLat, MultiLineString, MultiPoint, MultiPolygon,
    Polygon,
};
use vstd::prelude::*;
use vstd::utf8::{decode_utf8, encode_utf8, valid_utf8};

verus! {

pub open spec fn count_bytes(n: nat) -> Seq<u8> {
    le64(n as u64)
}

pub open spec fn points_bytes(pts: Seq<LngLat>) -> Seq<u8>
    decreases pts.len(),
{
    if pts.len() == 0 {
        seq![]
    } else {
        points_bytes(pts.drop_last()) + lnglat_bytes(pts.last())
    }
}

/// A line string: its point count, then its points.
pub open spec fn line_string_bytes(ls: LineString) -> Seq<u8> {
    count_bytes(ls.0@.len()) + points_bytes(ls.0@)
}

pub open spec fn lines_bytes(lines: Seq<LineString>) -> Seq<u8>
    decreases lines.len(),
{
    if lines.len() == 0 {
        seq![]
    } else {
        lines_bytes(lines.drop_last()) + line_string_bytes(lines.last())
    }
}

/// A polygon: its ring count, then its rings.
pub open spec fn polygon_bytes(p: Polygon) -> Seq<u8> {
    count_bytes(p.0@.len()) + lines_bytes(p.0@)
}

pub open spec fn polygons_bytes(ps: Seq<Polygon>) -> Seq<u8>
    decreases ps.len(),
{
    if ps.len() == 0 {
        seq![]
    } else {
        polygons_bytes(ps.drop_last()) + polygon_bytes(ps.last())
    }
}

/// The variant number of a geometry, in declaration order.
pub open spec fn geometry_tag(g: Geometry) -> u32 {
    match g {
        Geometry::Point(_) => 0,
        Geometry::LineString(_) => 1,
        Geometry::Polygon(_) => 2,
        Geometry::MultiPoint(_) => 3,
        Geometry::MultiLineString(_) => 4,
        Geometry::MultiPolygon(_) => 5,
        Geometry::GeometryCollection(_) => 6,
    }
}

/// A geometry: its 4-byte variant number, then its contents.
pub open spec fn geometry_bytes(g: Geometry) -> Seq<u8>
    decreases g,
{
    le32(geometry_tag(g)) + match g {
        Geometry::Point(p) => lnglat_bytes(p),
        Geometry::LineString(ls) => line_string_bytes(ls),
        Geometry::Polygon(p) => polygon_bytes(p),
        Geometry::MultiPoint(mp) => count_bytes(mp.0@.len()) + points_bytes(mp.0@),
        Geometry::MultiLineString(mls) => count_bytes(mls.0@.len()) + lines_bytes(mls.0@),
        Geometry::MultiPolygon(mp) => count_bytes(mp.0@.len()) + polygons_bytes(mp.0@),
        Geometry::GeometryCollection(gc) => count_bytes(gc.0@.len()) + geometries_bytes(gc.0@),
    }
}

pub open spec fn geometries_bytes(gs: Seq<Geometry>) -> Seq<u8>
    decreases gs,
{
    if gs.len() == 0 {
        seq![]
    } else {
        geometries_bytes(gs.drop_last()) + geometry_bytes(gs.last())
    }
}

/// A string: its UTF-8 byte count, then those bytes.
pub open spec fn string_bytes(s: Seq<char>) -> Seq<u8> {
    count_bytes(encode_utf8(s).len()) + encode_utf8(s)
}

pub open spec fn value_tag(v: PropertyValue) -> u32 {
    match v {
        PropertyValue::Bool(_) => 0,
        PropertyValue::Int8(_) => 1,
        PropertyValue::UInt8(_) => 2,
        PropertyValue::Int16(_) => 3,
        PropertyValue::UInt16(_) => 4,
        PropertyValue::Int32(_) => 5,
        PropertyValue::UInt32(_) => 6,
        PropertyValue::Int64(_) => 7,
        PropertyValue::UInt64(_) => 8,
        PropertyValue::Float32(_) => 9,
        PropertyValue::Float64(_) => 10,
        PropertyValue::Bytes(_) => 11,
        PropertyValue::String(_) => 12,
        PropertyValue::Vec(_) => 13,
        PropertyValue::Mapping(_) => 14,
    }
}

/// The two's-complement byte of a signed 8-bit value.
pub open spec fn i8_byte(x: i8) -> u8 {
    if x >= 0 {
        x as u8
    } else {
        (x + 256) as u8
    }
}

/// The two's-complement word of a signed 16-bit value.
pub open spec fn i16_word(x: i16) -> u16 {
    if x >= 0 {
        x as u16
    } else {
        (x + 0x1_0000) as u16
    }
}

/// The two's-complement word of a signed 64-bit value.
pub open spec fn i64_word(x: i64) -> u64 {
    if x >= 0 {
        x as u64
    } else {
        (x + 0x1_0000_0000_0000_0000) as u64
    }
}

/// A property value: its 4-byte variant number, then its contents.
pub open spec fn value_bytes(v: PropertyValue) -> Seq<u8>
    decreases v,
{
    le32(value_tag(v)) + match v {
        PropertyValue::Bool(b) => seq![bool_byte(b)],
        PropertyValue::Int8(x) => seq![i8_byte(x)],
        PropertyValue::UInt8(x) => seq![x],
        PropertyValue::Int16(x) => le16(i16_word(x)),
        PropertyValue::UInt16(x) => le16(x),
        PropertyValue::Int32(x) => i32_bytes(x),
        PropertyValue::UInt32(x) => le32(x),
        PropertyValue::Int64(x) => le64(i64_word(x)),
        PropertyValue::UInt64(x) => le64(x),
        PropertyValue::Float32(bits) => le32(bits),
        PropertyValue::Float64(bits) => le64(bits),
        PropertyValue::Bytes(bs) => count_bytes(bs@.len()) + bs@,
        PropertyValue::String(s) => string_bytes(s@),
        PropertyValue::Vec(vs) => count_bytes(vs@.len()) + values_bytes(vs@),
        PropertyValue::Mapping(p) => count_bytes(p.entries@.len()) + entries_bytes(p.entries@),
    }
}

pub open spec fn values_bytes(vs: Seq<PropertyValue>) -> Seq<u8>
    decreases vs,
{
    if vs.len() == 0 {
        seq![]
    } else {
        values_bytes(vs.drop_last()) + value_bytes(vs.last())
    }
}

/// Each entry as its name, then its value.
pub open spec fn entries_bytes(es: Seq<(String, PropertyValue)>) -> Seq<u8>
    decreases es,
{
    if es.len() == 0 {
        seq![]
    } else {
        entries_bytes(es.drop_last()) + string_bytes(es.last().0@) + value_bytes(es.last().1)
    }
}

/// A property map: its entry count, then its entries in order.
pub open spec fn properties_bytes(p: Properties) -> Seq<u8> {
    count_bytes(p.entries@.len()) + entries_bytes(p.entries@)
}

/// A feature: its geometry, then its properties.
pub open spec fn feature_bytes(f: Feature) -> Seq<u8> {
    geometry_bytes(f.geometry) + properties_bytes(f.properties)
}

fn put_count(out: &mut Vec<u8>, n: usize)
    ensures
        final(out)@ == old(out)@ + count_bytes(n as nat),
{
    put_u64(out, n as u64);
}

fn put_points(out: &mut Vec<u8>, pts: &Vec<LngLat>)
    ensures
        final(out)@ == old(out)@ + count_bytes(pts@.len()) + points_bytes(pts@),
{
    put_count(out, pts.len());
    let ghost base = out@;
    let mut i: usize = 0;
    while i < pts.len()
        invariant
            i <= pts@.len(),
            out@ == base + points_bytes(pts@.subrange(0, i as int)),
        decreases pts@.len() - i,
    {
        put_lnglat(out, &pts[i]);
        proof {
            assert(pts@.subrange(0, i as int + 1).drop_last() =~= pts@.subrange(0, i as int));
            assert(out@ =~= base + points_bytes(pts@.subrange(0, i as int + 1)));
        }
        i += 1;
    }
    proof {
        assert(pts@.subrange(0, i as int) =~= pts@);
        assert(out@ =~= old(out)@ + count_bytes(pts@.len()) + points_bytes(pts@));
    }
}

fn put_lines(out: &mut Vec<u8>, lines: &Vec<LineString>)
    ensures
        final(out)@ == old(out)@ + count_bytes(lines@.len()) + lines_bytes(lines@),
{
    put_count(out, lines.len());
    let ghost base = out@;
    let mut i: usize = 0;
    while i < lines.len()
        invariant
            i <= lines@.len(),
            out@ == base + lines_bytes(lines@.subrange(0, i as int)),
        decreases lines@.len() - i,
    {
        put_points(out, &lines[i].0);
        proof {
            assert(lines@.subrange(0, i as int + 1).drop_last() =~= lines@.subrange(0, i as int));
            assert(out@ =~= base + lines_bytes(lines@.subrange(0, i as int + 1)));
        }
        i += 1;
    }
    proof {
        assert(lines@.subrange(0, i as int) =~= lines@);
        assert(out@ =~= old(out)@ + count_bytes(lines@.len()) + lines_bytes(lines@));
    }
}

fn put_polygons(out: &mut Vec<u8>, ps: &Vec<Polygon>)
    ensures
        final(out)@ == old(out)@ + count_bytes(ps@.len()) + polygons_bytes(ps@),
{
    put_count(out, ps.len());
    let ghost base = out@;
    let mut i: usize = 0;
    while i < ps.len()
        invariant
            i <= ps@.len(),
            out@ == base + polygons_bytes(ps@.subrange(0, i as int)),
        decreases ps@.len() - i,
    {
        put_lines(out, &ps[i].0);
        proof {
            assert(ps@.subrange(0, i as int + 1).drop_last() =~= ps@.subrange(0, i as int));
            assert(out@ =~= base + polygons_bytes(ps@.subrange(0, i as int + 1)));
        }
        i += 1;
    }
    proof {
        assert(ps@.subrange(0, i as int) =~= ps@);
        assert(out@ =~= old(out)@ + count_bytes(ps@.len()) + polygons_bytes(ps@));
    }
}

fn put_geometries(out: &mut Vec<u8>, gs: &Vec<Geometry>)
    ensures
        final(out)@ == old(out)@ + count_bytes(gs@.len()) + geometries_bytes(gs@),
    decreases gs@,
{
    put_count(out, gs.len());
    let ghost base = out@;
    let mut i: usize = 0;
    while i < gs.len()
        invariant
            i <= gs@.len(),
            out@ == base + geometries_bytes(gs@.subrange(0, i as int)),
        decreases gs@.len() - i,
    {
        put_geometry(out, &gs[i]);
        proof {
            assert(gs@.subrange(0, i as int + 1).drop_last() =~= gs@.subrange(0, i as int));
            assert(out@ =~= base + geometries_bytes(gs@.subrange(0, i as int + 1)));
        }
        i += 1;
    }
    proof {
        assert(gs@.subrange(0, i as int) =~= gs@);
        assert(out@ =~= old(out)@ + count_bytes(gs@.len()) + geometries_bytes(gs@));
    }
}

/// Appends the encoding of a geometry.
pub fn put_geometry(out: &mut Vec<u8>, g: &Geometry)
    ensures
        final(out)@ == old(out)@ + geometry_bytes(*g),
    decreases g,
{
    let ghost before = out@;
    match g {
        Geometry::Point(p) => {
            put_u32(out, 0);
            put_lnglat(out, p);
        },
        Geometry::LineString(ls) => {
            put_u32(out, 1);
            put_points(out, &ls.0);
        },
        Geometry::Polygon(poly) => {
            put_u32(out, 2);
            put_lines(out, &poly.0);
        },
        Geometry::MultiPoint(mp) => {
            put_u32(out, 3);
            put_points(out, &mp.0);
        },
        Geometry::MultiLineString(mls) => {
            put_u32(out, 4);
            put_lines(out, &mls.0);
        },
        Geometry::MultiPolygon(mp) => {
            put_u32(out, 5);
            put_polygons(out, &mp.0);
        },
        Geometry::GeometryCollection(gc) => {
            put_u32(out, 6);
            proof {
                assert(decreases_to!(*g => gc.0@));
            }
            put_geometries(out, &gc.0);
        },
    }
    proof {
        assert(out@ =~= before + geometry_bytes(*g));
    }
}

fn put_string(out: &mut Vec<u8>, s: &String)
    ensures
        final(out)@ == old(out)@ + string_bytes(s@),
{
    let b = s.as_str().as_bytes();
    put_count(out, b.len());
    put_bytes(out, b);
    proof {
        assert(out@ =~= old(out)@ + string_bytes(s@));
    }
}

fn put_values(out: &mut Vec<u8>, vs: &Vec<PropertyValue>)
    ensures
        final(out)@ == old(out)@ + count_bytes(vs@.len()) + values_bytes(vs@),
    decreases vs@,
{
    put_count(out, vs.len());
    let ghost base = out@;
    let mut i: usize = 0;
    while i < vs.len()
        invariant
            i <= vs@.len(),
            out@ == base + values_bytes(vs@.subrange(0, i as int)),
        decreases vs@.len() - i,
    {
        put_value(out, &vs[i]);
        proof {
            assert(vs@.subrange(0, i as int + 1).drop_last() =~= vs@.subrange(0, i as int));
            assert(out@ =~= base + values_bytes(vs@.subrange(0, i as int + 1)));
        }
        i += 1;
    }
    proof {
        assert(vs@.subrange(0, i as int) =~= vs@);
        assert(out@ =~= old(out)@ + count_bytes(vs@.len()) + values_bytes(vs@));
    }
}

fn put_entries(out: &mut Vec<u8>, es: &Vec<(String, PropertyValue)>)
    ensures
        final(out)@ == old(out)@ + count_bytes(es@.len()) + entries_bytes(es@),
    decreases es@,
{
    put_count(out, es.len());
    let ghost base = out@;
    let mut i: usize = 0;
    while i < es.len()
        invariant
            i <= es@.len(),
            out@ == base + entries_bytes(es@.subrange(0, i as int)),
        decreases es@.len() - i,
    {
        put_string(out, &es[i].0);
        proof {
            assert(decreases_to!(es@ => es@[i as int]));
            assert(decreases_to!(es@[i as int] => es@[i as int].1));
        }
        put_value(out, &es[i].1);
        proof {
            assert(es@.subrange(0, i as int + 1).drop_last() =~= es@.subrange(0, i as int));
            assert(out@ =~= base + entries_bytes(es@.subrange(0, i as int + 1)));
        }
        i += 1;
    }
    proof {
        assert(es@.subrange(0, i as int) =~= es@);
        assert(out@ =~= old(out)@ + count_bytes(es@.len()) + entries_bytes(es@));
    }
}

/// Appends the encoding of a property value.
pub fn put_value(out: &mut Vec<u8>, v: &PropertyValue)
    ensures
        final(out)@ == old(out)@ + value_bytes(*v),
    decreases v,
{
    let ghost before = out@;
    match v {
        PropertyValue::Bool(b) => {
            put_u32(out, 0);
            put_u8(out, if *b { 1u8 } else { 0u8 });
        },
        PropertyValue::Int8(x) => {
            put_u32(out, 1);
            put_u8(out, if *x >= 0 { *x as u8 } else { (*x as i16 + 256i16) as u8 });
        },
        PropertyValue::UInt8(x) => {
            put_u32(out, 2);
            put_u8(out, *x);
        },
        PropertyValue::Int16(x) => {
            put_u32(out, 3);
            put_u16(out, if *x >= 0 { *x as u16 } else { (*x as i32 + 0x1_0000i32) as u16 });
        },
        PropertyValue::UInt16(x) => {
            put_u32(out, 4);
            put_u16(out, *x);
        },
        PropertyValue::Int32(x) => {
            put_u32(out, 5);
            put_i32(out, *x);
        },
        PropertyValue::UInt32(x) => {
            put_u32(out, 6);
            put_u32(out, *x);
        },
        PropertyValue::Int64(x) => {
            put_u32(out, 7);
            put_u64(out, if *x >= 0 { *x as u64 } else { (*x as i128 + 0x1_0000_0000_0000_0000i128) as u64 });
        },
        PropertyValue::UInt64(x) => {
            put_u32(out, 8);
            put_u64(out, *x);
        },
        PropertyValue::Float32(bits) => {
            put_u32(out, 9);
            put_u32(out, *bits);
        },
        PropertyValue::Float64(bits) => {
            put_u32(out, 10);
            put_u64(out, *bits);
        },
        PropertyValue::Bytes(bs) => {
            put_u32(out, 11);
            put_count(out, bs.len());
            put_bytes(out, bs.as_slice());
        },
        PropertyValue::String(s) => {
            put_u32(out, 12);
            put_string(out, s);
        },
        PropertyValue::Vec(vs) => {
            put_u32(out, 13);
            proof {
                assert(decreases_to!(*v => vs@));
            }
            put_values(out, vs);
        },
        PropertyValue::Mapping(p) => {
            put_u32(out, 14);
            proof {
                assert(decreases_to!(*v => p.entries@));
            }
            put_entries(out, &p.entries);
        },
    }
    proof {
        assert(out@ =~= before + value_bytes(*v));
    }
}

/// Appends the encoding of a property map.
pub fn put_properties(out: &mut Vec<u8>, p: &Properties)
    ensures
        final(out)@ == old(out)@ + properties_bytes(*p),
{
    put_entries(out, &p.entries);
    proof {
        assert(out@ =~= old(out)@ + properties_bytes(*p));
    }
}

/// The encoding of a feature.
pub fn encode_feature(f: &Feature) -> (r: Vec<u8>)
    ensures
        r@ == feature_bytes(*f),
{
    let mut out: Vec<u8> = Vec::new();
    put_geometry(&mut out, &f.geometry);
    put_properties(&mut out, &f.properties);
    proof {
        assert(out@ =~= feature_bytes(*f));
    }
    out
}

proof fn lemma_points_len(s: Seq<LngLat>)
    ensures
        points_bytes(s).len() == 8 * s.len(),
    decreases s.len(),
{
    lemma_le_roundtrip();
    if s.len() > 0 {
        lemma_points_len(s.drop_last());
    }
}

proof fn lemma_points_prefix(s: Seq<LngLat>, j: int)
    requires
        0 <= j <= s.len(),
    ensures
        points_bytes(s.take(j)).len() <= points_bytes(s).len(),
        points_bytes(s).subrange(0, points_bytes(s.take(j)).len() as int) == points_bytes(s.take(j)),
        j < s.len() ==> points_bytes(s.take(j + 1)) == points_bytes(s.take(j)) + lnglat_bytes(s[j]),
    decreases s.len(),
{
    if j < s.len() {
        assert(s.take(j + 1).drop_last() =~= s.take(j));
    }
    if j == s.len() {
        assert(s.take(j) =~= s);
        assert(points_bytes(s).subrange(0, points_bytes(s).len() as int) =~= points_bytes(s));
    } else {
        let init = s.drop_last();
        assert(s.take(j) =~= init.take(j));
        lemma_points_prefix(init, j);
        assert(points_bytes(s).subrange(0, points_bytes(s.take(j)).len() as int) =~= points_bytes(init).subrange(
            0,
            points_bytes(s.take(j)).len() as int,
        ));
    }
}

/// Reads an element count at `pos` and checks that at least `min_size`
/// bytes per element remain after it.
fn get_count(b: &[u8], pos: usize, min_size: usize) -> (r: Option<(usize, usize)>)
    requires
        min_size >= 1,
    ensures
        r matches Some((n, p)) ==> {
            &&& p == pos + 8
            &&& p + n * min_size <= b@.len()
            &&& b@.subrange(pos as int, p as int) == count_bytes(n as nat)
        },
        forall|k: nat|
            #[trigger] holds_at(b@, pos as int, count_bytes(k)) && k <= u64::MAX && pos + 8 + k * min_size
                <= b@.len() ==> (r matches Some((n, p)) && n == k && p == pos + 8),
{
    proof {
        lemma_le_roundtrip();
        lemma_le_injective();
    }
    match get_u64(b, pos) {
        None => None,
        Some(n) => {
            let rest = b.len() - (pos + 8);
            if n > (rest / min_size) as u64 {
                proof {
                    assert forall|k: nat|
                        #[trigger] holds_at(b@, pos as int, count_bytes(k)) && k <= u64::MAX && pos + 8 + k
                            * min_size <= b@.len() implies false by {
                        assert(le64(k as u64) == le64(n));
                        assert(k * min_size <= rest);
                        let q = rest / min_size;
                        assert(k <= q) by (nonlinear_arith)
                            requires k * min_size <= rest, min_size >= 1, q == rest / min_size;
                    }
                }
                return None;
            }
            proof {
                assert forall|k: nat|
                    #[trigger] holds_at(b@, pos as int, count_bytes(k)) && k <= u64::MAX implies k == n by {
                    assert(le64(k as u64) == le64(n));
                }
            }
            proof {
                let q = rest / min_size;
                assert(q * min_size <= rest) by (nonlinear_arith)
                    requires q == rest / min_size, min_size >= 1;
                assert(n * min_size <= q * min_size) by (nonlinear_arith)
                    requires n <= q;
            }
            Some((n as usize, pos + 8))
        },
    }
}

fn get_points(b: &[u8], pos: usize) -> (r: Option<(Vec<LngLat>, usize)>)
    ensures
        r matches Some((v, p)) ==> pos <= p <= b@.len() && b@.subrange(pos as int, p as int)
            == count_bytes(v@.len()) + points_bytes(v@),
        forall|pts: Seq<LngLat>|
            #[trigger] holds_at(b@, pos as int, count_bytes(pts.len()) + points_bytes(pts)) ==> (r matches Some(
                (v, p),
            ) && v@ == pts && p == pos + 8 + 8 * pts.len()),
{
    let len = b.len();
    proof {
        assert(b@.len() == len);
        lemma_le_roundtrip();
        assert forall|pts: Seq<LngLat>|
            #[trigger] holds_at(b@, pos as int, count_bytes(pts.len()) + points_bytes(pts)) implies holds_at(
                b@,
                pos as int,
                count_bytes(pts.len()),
            ) && pts.len() <= u64::MAX && pos + 8 + pts.len() * 8 <= b@.len() by {
            lemma_holds_at_split(b@, pos as int, count_bytes(pts.len()), points_bytes(pts));
            lemma_points_len(pts);
        }
    }
    let counted = get_count(b, pos, 8);
    if counted.is_none() {
        return None;
    }
    let (n, start) = counted.unwrap();
    let mut v: Vec<LngLat> = Vec::new();
    let mut p = start;
    let mut i: usize = 0;
    while i < n
        invariant
            len == b@.len(),
            start == pos + 8,
            start + n * 8 <= b@.len(),
            i <= n,
            v@.len() == i,
            p == start + i * 8,
            b@.subrange(start as int, p as int) == points_bytes(v@),
            forall|pts: Seq<LngLat>|
                #[trigger] holds_at(b@, pos as int, count_bytes(pts.len()) + points_bytes(pts)) ==> n
                    == pts.len() && v@ == pts.take(i as int),
        decreases n - i,
    {
        proof {
            assert(p + 8 <= b@.len()) by (nonlinear_arith)
                requires p == start + i * 8, i < n, start + n * 8 <= b@.len();
        }
        let read = get_lnglat(b, p);
        if read.is_none() {
            return None;
        }
        let pt = read.unwrap();
        proof {
            lemma_subrange_concat(b@, start as int, p as int, p + 8);
            assert(v@.push(pt).drop_last() =~= v@);
            assert forall|pts: Seq<LngLat>|
                #[trigger] holds_at(b@, pos as int, count_bytes(pts.len()) + points_bytes(pts)) implies n
                    == pts.len() && v@.push(pt) == pts.take(i + 1) by {
                lemma_holds_at_split(b@, pos as int, count_bytes(pts.len()), points_bytes(pts));
                lemma_le_roundtrip();
                assert(count_bytes(pts.len()).len() == 8);
                lemma_points_prefix(pts, i + 1);
                lemma_points_prefix(pts, i as int);
                lemma_points_len(pts.take(i as int));
                lemma_holds_at_prefix(b@, start as int, points_bytes(pts), points_bytes(pts.take(i + 1)));
                lemma_holds_at_split(b@, start as int, points_bytes(pts.take(i as int)), lnglat_bytes(pts[i as int]));
                lemma_lnglat_injective(pt, pts[i as int]);
                assert(pts.take(i + 1) =~= pts.take(i as int).push(pts[i as int]));
            }
        }
        v.push(pt);
        p = p + 8;
        i += 1;
    }
    proof {
        lemma_subrange_concat(b@, pos as int, start as int, p as int);
        assert(v@.len() == n);
        assert forall|pts: Seq<LngLat>|
            #[trigger] holds_at(b@, pos as int, count_bytes(pts.len()) + points_bytes(pts)) implies v@ == pts by {
            assert(pts.take(n as int) =~= pts);
        }
    }
    Some((v, p))
}


proof fn lemma_lines_len(s: Seq<LineString>)
    ensures
        lines_bytes(s).len() >= 8 * s.len(),
    decreases s.len(),
{
    if s.len() > 0 {
        lemma_lines_len(s.drop_last());
        let e = s.last();
        lemma_le_roundtrip();
    }
}

proof fn lemma_lines_prefix(s: Seq<LineString>, j: int)
    requires
        0 <= j <= s.len(),
    ensures
        lines_bytes(s.take(j)).len() <= lines_bytes(s).len(),
        lines_bytes(s).subrange(0, lines_bytes(s.take(j)).len() as int) == lines_bytes(s.take(j)),
        j < s.len() ==> lines_bytes(s.take(j + 1)) == lines_bytes(s.take(j)) + line_string_bytes(s[j]),
    decreases s.len(),
{
    if j < s.len() {
        assert(s.take(j + 1).drop_last() =~= s.take(j));
    }
    if j == s.len() {
        assert(s.take(j) =~= s);
        assert(lines_bytes(s).subrange(0, lines_bytes(s).len() as int) =~= lines_bytes(s));
    } else {
        let init = s.drop_last();
        assert(s.take(j) =~= init.take(j));
        lemma_lines_prefix(init, j);
        assert(lines_bytes(s).subrange(0, lines_bytes(s.take(j)).len() as int) =~= lines_bytes(init).subrange(
            0,
            lines_bytes(s.take(j)).len() as int,
        ));
    }
}

proof fn lemma_polygons_len(s: Seq<Polygon>)
    ensures
        polygons_bytes(s).len() >= 8 * s.len(),
    decreases s.len(),
{
    if s.len() > 0 {
        lemma_polygons_len(s.drop_last());
        let e = s.last();
        lemma_le_roundtrip();
    }
}

proof fn lemma_polygons_prefix(s: Seq<Polygon>, j: int)
    requires
        0 <= j <= s.len(),
    ensures
        polygons_bytes(s.take(j)).len() <= polygons_bytes(s).len(),
        polygons_bytes(s).subrange(0, polygons_bytes(s.take(j)).len() as int) == polygons_bytes(s.take(j)),
        j < s.len() ==> polygons_bytes(s.take(j + 1)) == polygons_bytes(s.take(j)) + polygon_bytes(s[j]),
    decreases s.len(),
{
    if j < s.len() {
        assert(s.take(j + 1).drop_last() =~= s.take(j));
    }
    if j == s.len() {
        assert(s.take(j) =~= s);
        assert(polygons_bytes(s).subrange(0, polygons_bytes(s).len() as int) =~= polygons_bytes(s));
    } else {
        let init = s.drop_last();
        assert(s.take(j) =~= init.take(j));
        lemma_polygons_prefix(init, j);
        assert(polygons_bytes(s).subrange(0, polygons_bytes(s.take(j)).len() as int) =~= polygons_bytes(init).subrange(
            0,
            polygons_bytes(s.take(j)).len() as int,
        ));
    }
}

proof fn lemma_geometries_len(s: Seq<Geometry>)
    ensures
        geometries_bytes(s).len() >= 4 * s.len(),
    decreases s.len(),
{
    if s.len() > 0 {
        lemma_geometries_len(s.drop_last());
        let e = s.last();
        lemma_le_roundtrip();
        assert(le32(geometry_tag(e)).len() == 4);
        assert(geometry_bytes(e).len() >= 4);
    }
}

proof fn lemma_geometries_prefix(s: Seq<Geometry>, j: int)
    requires
        0 <= j <= s.len(),
    ensures
        geometries_bytes(s.take(j)).len() <= geometries_bytes(s).len(),
        geometries_bytes(s).subrange(0, geometries_bytes(s.take(j)).len() as int) == geometries_bytes(s.take(j)),
        j < s.len() ==> geometries_bytes(s.take(j + 1)) == geometries_bytes(s.take(j)) + geometry_bytes(s[j]),
    decreases s.len(),
{
    if j < s.len() {
        assert(s.take(j + 1).drop_last() =~= s.take(j));
    }
    if j == s.len() {
        assert(s.take(j) =~= s);
        assert(geometries_bytes(s).subrange(0, geometries_bytes(s).len() as int) =~= geometries_bytes(s));
    } else {
        let init = s.drop_last();
        assert(s.take(j) =~= init.take(j));
        lemma_geometries_prefix(init, j);
        assert(geometries_bytes(s).subrange(0, geometries_bytes(s.take(j)).len() as int) =~= geometries_bytes(init).subrange(
            0,
            geometries_bytes(s.take(j)).len() as int,
        ));
    }
}

fn get_line_string(b: &[u8], pos: usize) -> (r: Option<(LineString, usize)>)
    ensures
        r matches Some((x, p)) ==> pos <= p <= b@.len() && b@.subrange(pos as int, p as int)
            == line_string_bytes(x),
        forall|e: LineString|
            #[trigger] holds_at(b@, pos as int, line_string_bytes(e)) ==> (r matches Some((x, p)) && p == pos
                + line_string_bytes(e).len()),
{
    proof {
        lemma_le_roundtrip();
        assert forall|e: LineString| #[trigger] holds_at(b@, pos as int, line_string_bytes(e)) implies
            line_string_bytes(e).len() == 8 + 8 * e.0@.len() by {
            lemma_points_len(e.0@);
        }
    }
    match get_points(b, pos) {
        None => None,
        Some((v, p)) => Some((LineString(v), p)),
    }
}

fn get_polygon(b: &[u8], pos: usize) -> (r: Option<(Polygon, usize)>)
    ensures
        r matches Some((x, p)) ==> pos <= p <= b@.len() && b@.subrange(pos as int, p as int)
            == polygon_bytes(x),
        forall|e: Polygon|
            #[trigger] holds_at(b@, pos as int, polygon_bytes(e)) ==> (r matches Some((x, p)) && p == pos
                + polygon_bytes(e).len()),
{
    match get_lines(b, pos) {
        None => None,
        Some((v, p)) => Some((Polygon(v), p)),
    }
}

fn get_lines(b: &[u8], pos: usize) -> (r: Option<(Vec<LineString>, usize)>)
    ensures
        r matches Some((v, p)) ==> pos <= p <= b@.len() && b@.subrange(pos as int, p as int)
            == count_bytes(v@.len()) + lines_bytes(v@),
        forall|es: Seq<LineString>|
            #[trigger] holds_at(b@, pos as int, count_bytes(es.len()) + lines_bytes(es)) ==> (r matches Some(
                (v, p),
            ) && p == pos + (count_bytes(es.len()) + lines_bytes(es)).len()),
{
    let len = b.len();
    proof {
        assert(b@.len() == len);
        lemma_le_roundtrip();
        assert forall|es: Seq<LineString>|
            #[trigger] holds_at(b@, pos as int, count_bytes(es.len()) + lines_bytes(es)) implies holds_at(
                b@,
                pos as int,
                count_bytes(es.len()),
            ) && es.len() <= u64::MAX && pos + 8 + es.len() * 8 <= b@.len() by {
            lemma_holds_at_split(b@, pos as int, count_bytes(es.len()), lines_bytes(es));
            lemma_lines_len(es);
        }
    }
    let counted = get_count(b, pos, 8);
    if counted.is_none() {
        return None;
    }
    let (n, start) = counted.unwrap();
    let mut v: Vec<LineString> = Vec::new();
    let mut p = start;
    let mut i: usize = 0;
    proof {
        assert forall|es: Seq<LineString>|
            #[trigger] holds_at(b@, pos as int, count_bytes(es.len()) + lines_bytes(es)) implies p == start + lines_bytes(
                es.take(0),
            ).len() by {
            assert(es.take(0) =~= Seq::<LineString>::empty());
        }
    }
    while i < n
        invariant
            len == b@.len(),
            start == pos + 8,
            start <= p <= b@.len(),
            i <= n,
            v@.len() == i,
            b@.subrange(start as int, p as int) == lines_bytes(v@),
            forall|es: Seq<LineString>|
                #[trigger] holds_at(b@, pos as int, count_bytes(es.len()) + lines_bytes(es)) ==> n == es.len() && p
                    == start + lines_bytes(es.take(i as int)).len(),
        decreases n - i,
    {
        proof {
            assert forall|es: Seq<LineString>|
                #[trigger] holds_at(b@, pos as int, count_bytes(es.len()) + lines_bytes(es)) implies holds_at(
                    b@,
                    p as int,
                    line_string_bytes(es[i as int]),
                ) by {
                lemma_le_roundtrip();
                assert(count_bytes(es.len()).len() == 8);
                lemma_holds_at_split(b@, pos as int, count_bytes(es.len()), lines_bytes(es));
                lemma_lines_prefix(es, i + 1);
                lemma_lines_prefix(es, i as int);
                lemma_holds_at_prefix(b@, start as int, lines_bytes(es), lines_bytes(es.take(i + 1)));
                lemma_holds_at_split(b@, start as int, lines_bytes(es.take(i as int)), line_string_bytes(es[i as int]));
            }
        }
        let read = get_line_string(b, p);
        if read.is_none() {
            return None;
        }
        let (x, q) = read.unwrap();
        proof {
            lemma_subrange_concat(b@, start as int, p as int, q as int);
            assert(v@.push(x).drop_last() =~= v@);
            assert forall|es: Seq<LineString>|
                #[trigger] holds_at(b@, pos as int, count_bytes(es.len()) + lines_bytes(es)) implies n == es.len() && q
                    == start + lines_bytes(es.take(i + 1)).len() by {
                lemma_lines_prefix(es, i as int);
            }
        }
        v.push(x);
        p = q;
        i += 1;
    }
    proof {
        lemma_subrange_concat(b@, pos as int, start as int, p as int);
        assert forall|es: Seq<LineString>|
            #[trigger] holds_at(b@, pos as int, count_bytes(es.len()) + lines_bytes(es)) implies p == pos + (count_bytes(
                es.len(),
            ) + lines_bytes(es)).len() by {
            lemma_le_roundtrip();
            assert(es.take(n as int) =~= es);
        }
    }
    Some((v, p))
}

fn get_polygons(b: &[u8], pos: usize) -> (r: Option<(Vec<Polygon>, usize)>)
    ensures
        r matches Some((v, p)) ==> pos <= p <= b@.len() && b@.subrange(pos as int, p as int)
            == count_bytes(v@.len()) + polygons_bytes(v@),
        forall|es: Seq<Polygon>|
            #[trigger] holds_at(b@, pos as int, count_bytes(es.len()) + polygons_bytes(es)) ==> (r matches Some(
                (v, p),
            ) && p == pos + (count_bytes(es.len()) + polygons_bytes(es)).len()),
{
    let len = b.len();
    proof {
        assert(b@.len() == len);
        lemma_le_roundtrip();
        assert forall|es: Seq<Polygon>|
            #[trigger] holds_at(b@, pos as int, count_bytes(es.len()) + polygons_bytes(es)) implies holds_at(
                b@,
                pos as int,
                count_bytes(es.len()),
            ) && es.len() <= u64::MAX && pos + 8 + es.len() * 8 <= b@.len() by {
            lemma_holds_at_split(b@, pos as int, count_bytes(es.len()), polygons_bytes(es));
            lemma_polygons_len(es);
        }
    }
    let counted = get_count(b, pos, 8);
    if counted.is_none() {
        return None;
    }
    let (n, start) = counted.unwrap();
    let mut v: Vec<Polygon> = Vec::new();
    let mut p = start;
    let mut i: usize = 0;
    proof {
        assert forall|es: Seq<Polygon>|
            #[trigger] holds_at(b@, pos as int, count_bytes(es.len()) + polygons_bytes(es)) implies p == start + polygons_bytes(
                es.take(0),
            ).len() by {
            assert(es.take(0) =~= Seq::<Polygon>::empty());
        }
    }
    while i < n
        invariant
            len == b@.len(),
            start == pos + 8,
            start <= p <= b@.len(),
            i <= n,
            v@.len() == i,
            b@.subrange(start as int, p as int) == polygons_bytes(v@),
            forall|es: Seq<Polygon>|
                #[trigger] holds_at(b@, pos as int, count_bytes(es.len()) + polygons_bytes(es)) ==> n == es.len() && p
                    == start + polygons_bytes(es.take(i as int)).len(),
        decreases n - i,
    {
        proof {
            assert forall|es: Seq<Polygon>|
                #[trigger] holds_at(b@, pos as int, count_bytes(es.len()) + polygons_bytes(es)) implies holds_at(
                    b@,
                    p as int,
                    polygon_bytes(es[i as int]),
                ) by {
                lemma_le_roundtrip();
                assert(count_bytes(es.len()).len() == 8);
                lemma_holds_at_split(b@, pos as int, count_bytes(es.len()), polygons_bytes(es));
                lemma_polygons_prefix(es, i + 1);
                lemma_polygons_prefix(es, i as int);
                lemma_holds_at_prefix(b@, start as int, polygons_bytes(es), polygons_bytes(es.take(i + 1)));
                lemma_holds_at_split(b@, start as int, polygons_bytes(es.take(i as int)), polygon_bytes(es[i as int]));
            }
        }
        let read = get_polygon(b, p);
        if read.is_none() {
            return None;
        }
        let (x, q) = read.unwrap();
        proof {
            lemma_subrange_concat(b@, start as int, p as int, q as int);
            assert(v@.push(x).drop_last() =~= v@);
            assert forall|es: Seq<Polygon>|
                #[trigger] holds_at(b@, pos as int, count_bytes(es.len()) + polygons_bytes(es)) implies n == es.len() && q
                    == start + polygons_bytes(es.take(i + 1)).len() by {
                lemma_polygons_prefix(es, i as int);
            }
        }
        v.push(x);
        p = q;
        i += 1;
    }
    proof {
        lemma_subrange_concat(b@, pos as int, start as int, p as int);
        assert forall|es: Seq<Polygon>|
            #[trigger] holds_at(b@, pos as int, count_bytes(es.len()) + polygons_bytes(es)) implies p == pos + (count_bytes(
                es.len(),
            ) + polygons_bytes(es)).len() by {
            lemma_le_roundtrip();
            assert(es.take(n as int) =~= es);
        }
    }
    Some((v, p))
}

fn get_geometries(b: &[u8], pos: usize) -> (r: Option<(Vec<Geometry>, usize)>)
    ensures
        r matches Some((v, p)) ==> pos <= p <= b@.len() && b@.subrange(pos as int, p as int)
            == count_bytes(v@.len()) + geometries_bytes(v@),
        forall|es: Seq<Geometry>|
            #[trigger] holds_at(b@, pos as int, count_bytes(es.len()) + geometries_bytes(es)) ==> (r matches Some(
                (v, p),
            ) && p == pos + (count_bytes(es.len()) + geometries_bytes(es)).len()),
    decreases b@.len() - pos, 1nat,
{
    let len = b.len();
    proof {
        assert(b@.len() == len);
        lemma_le_roundtrip();
        assert forall|es: Seq<Geometry>|
            #[trigger] holds_at(b@, pos as int, count_bytes(es.len()) + geometries_bytes(es)) implies holds_at(
                b@,
                pos as int,
                count_bytes(es.len()),
            ) && es.len() <= u64::MAX && pos + 8 + es.len() * 4 <= b@.len() by {
            lemma_holds_at_split(b@, pos as int, count_bytes(es.len()), geometries_bytes(es));
            lemma_geometries_len(es);
        }
    }
    let counted = get_count(b, pos, 4);
    if counted.is_none() {
        return None;
    }
    let (n, start) = counted.unwrap();
    let mut v: Vec<Geometry> = Vec::new();
    let mut p = start;
    let mut i: usize = 0;
    proof {
        assert forall|es: Seq<Geometry>|
            #[trigger] holds_at(b@, pos as int, count_bytes(es.len()) + geometries_bytes(es)) implies p == start + geometries_bytes(
                es.take(0),
            ).len() by {
            assert(es.take(0) =~= Seq::<Geometry>::empty());
        }
    }
    while i < n
        invariant
            len == b@.len(),
            start == pos + 8,
            start <= p <= b@.len(),
            i <= n,
            v@.len() == i,
            b@.subrange(start as int, p as int) == geometries_bytes(v@),
            forall|es: Seq<Geometry>|
                #[trigger] holds_at(b@, pos as int, count_bytes(es.len()) + geometries_bytes(es)) ==> n == es.len() && p
                    == start + geometries_bytes(es.take(i as int)).len(),
        decreases n - i,
    {
        proof {
            assert forall|es: Seq<Geometry>|
                #[trigger] holds_at(b@, pos as int, count_bytes(es.len()) + geometries_bytes(es)) implies holds_at(
                    b@,
                    p as int,
                    geometry_bytes(es[i as int]),
                ) by {
                lemma_le_roundtrip();
                assert(count_bytes(es.len()).len() == 8);
                lemma_holds_at_split(b@, pos as int, count_bytes(es.len()), geometries_bytes(es));
                lemma_geometries_prefix(es, i + 1);
                lemma_geometries_prefix(es, i as int);
                lemma_holds_at_prefix(b@, start as int, geometries_bytes(es), geometries_bytes(es.take(i + 1)));
                lemma_holds_at_split(b@, start as int, geometries_bytes(es.take(i as int)), geometry_bytes(es[i as int]));
            }
        }
        let read = decode_geometry(b, p);
        if read.is_none() {
            return None;
        }
        let (x, q) = read.unwrap();
        proof {
            lemma_subrange_concat(b@, start as int, p as int, q as int);
            assert(v@.push(x).drop_last() =~= v@);
            assert forall|es: Seq<Geometry>|
                #[trigger] holds_at(b@, pos as int, count_bytes(es.len()) + geometries_bytes(es)) implies n == es.len() && q
                    == start + geometries_bytes(es.take(i + 1)).len() by {
                lemma_geometries_prefix(es, i as int);
            }
        }
        v.push(x);
        p = q;
        i += 1;
    }
    proof {
        lemma_subrange_concat(b@, pos as int, start as int, p as int);
        assert forall|es: Seq<Geometry>|
            #[trigger] holds_at(b@, pos as int, count_bytes(es.len()) + geometries_bytes(es)) implies p == pos + (count_bytes(
                es.len(),
            ) + geometries_bytes(es)).len() by {
            lemma_le_roundtrip();
            assert(es.take(n as int) =~= es);
        }
    }
    Some((v, p))
}

/// What follows the variant number in the encoding of a geometry.
pub open spec fn geometry_payload(g: Geometry) -> Seq<u8> {
    match g {
        Geometry::Point(p) => lnglat_bytes(p),
        Geometry::LineString(ls) => line_string_bytes(ls),
        Geometry::Polygon(p) => polygon_bytes(p),
        Geometry::MultiPoint(mp) => count_bytes(mp.0@.len()) + points_bytes(mp.0@),
        Geometry::MultiLineString(mls) => count_bytes(mls.0@.len()) + lines_bytes(mls.0@),
        Geometry::MultiPolygon(mp) => count_bytes(mp.0@.len()) + polygons_bytes(mp.0@),
        Geometry::GeometryCollection(gc) => count_bytes(gc.0@.len()) + geometries_bytes(gc.0@),
    }
}

proof fn lemma_geometry_split(b: Seq<u8>, pos: int, g: Geometry)
    requires
        holds_at(b, pos, geometry_bytes(g)),
    ensures
        holds_at(b, pos, le32(geometry_tag(g))),
        holds_at(b, pos + 4, geometry_payload(g)),
{
    lemma_le_roundtrip();
    assert(geometry_bytes(g) == le32(geometry_tag(g)) + geometry_payload(g));
    lemma_holds_at_split(b, pos, le32(geometry_tag(g)), geometry_payload(g));
}

/// Reads the geometry encoded at `pos`. What it returns is exactly what the
/// bytes it consumed encode; `None` on an unknown tag or a short input. Where
/// the encoding of a geometry stands at `pos`, it reads one with that same
/// encoding, consuming exactly it.
pub fn decode_geometry(b: &[u8], pos: usize) -> (r: Option<(Geometry, usize)>)
    ensures
        r matches Some((g, p)) ==> pos <= p <= b@.len() && b@.subrange(pos as int, p as int)
            == geometry_bytes(g),
        forall|g: Geometry|
            #[trigger] holds_at(b@, pos as int, geometry_bytes(g)) ==> (r matches Some((h, p)) && p == pos
                + geometry_bytes(g).len()),
    decreases b@.len() - pos, 0nat,
{
    let len = b.len();
    proof {
        assert(b@.len() == len);
        lemma_le_roundtrip();
        lemma_le_injective();
        assert forall|g: Geometry| #[trigger] holds_at(b@, pos as int, geometry_bytes(g)) implies pos + 4 <= b@.len() by {
            lemma_geometry_split(b@, pos as int, g);
        }
    }
    let tag_read = get_u32(b, pos);
    if tag_read.is_none() {
        return None;
    }
    let tag = tag_read.unwrap();
    let body = pos + 4;
    proof {
        assert forall|g: Geometry| #[trigger] holds_at(b@, pos as int, geometry_bytes(g)) implies geometry_tag(g) == tag
            && holds_at(b@, body as int, geometry_payload(g)) by {
            lemma_geometry_split(b@, pos as int, g);
            assert(le32(geometry_tag(g)) == le32(tag));
        }
    }
    let sub: Option<(Geometry, usize)> = if tag == 0 {
        match get_lnglat(b, body) {
            None => None,
            Some(pt) => Some((Geometry::Point(pt), body + 8)),
        }
    } else if tag == 1 {
        match get_line_string(b, body) {
            None => None,
            Some((ls, p)) => Some((Geometry::LineString(ls), p)),
        }
    } else if tag == 2 {
        match get_polygon(b, body) {
            None => None,
            Some((poly, p)) => Some((Geometry::Polygon(poly), p)),
        }
    } else if tag == 3 {
        match get_points(b, body) {
            None => None,
            Some((v, p)) => Some((Geometry::MultiPoint(MultiPoint(v)), p)),
        }
    } else if tag == 4 {
        match get_lines(b, body) {
            None => None,
            Some((v, p)) => Some((Geometry::MultiLineString(MultiLineString(v)), p)),
        }
    } else if tag == 5 {
        match get_polygons(b, body) {
            None => None,
            Some((v, p)) => Some((Geometry::MultiPolygon(MultiPolygon(v)), p)),
        }
    } else if tag == 6 {
        match get_geometries(b, body) {
            None => None,
            Some((v, p)) => Some((Geometry::GeometryCollection(GeometryCollection(v)), p)),
        }
    } else {
        None
    };
    proof {
        assert forall|g: Geometry| #[trigger] holds_at(b@, pos as int, geometry_bytes(g)) implies (sub matches Some((h, p))
            && p == pos + geometry_bytes(g).len()) by {
            assert(geometry_bytes(g) == le32(geometry_tag(g)) + geometry_payload(g));
            match g {
                Geometry::Point(pt) => {
                    assert(holds_at(b@, body as int, lnglat_bytes(pt)));
                },
                Geometry::LineString(ls) => {
                    assert(holds_at(b@, body as int, line_string_bytes(ls)));
                },
                Geometry::Polygon(poly) => {
                    assert(holds_at(b@, body as int, polygon_bytes(poly)));
                },
                Geometry::MultiPoint(mp) => {
                    assert(holds_at(b@, body as int, count_bytes(mp.0@.len()) + points_bytes(mp.0@)));
                    lemma_points_len(mp.0@);
                },
                Geometry::MultiLineString(mls) => {
                    assert(holds_at(b@, body as int, count_bytes(mls.0@.len()) + lines_bytes(mls.0@)));
                },
                Geometry::MultiPolygon(mp) => {
                    assert(holds_at(b@, body as int, count_bytes(mp.0@.len()) + polygons_bytes(mp.0@)));
                },
                Geometry::GeometryCollection(gc) => {
                    assert(holds_at(b@, body as int, count_bytes(gc.0@.len()) + geometries_bytes(gc.0@)));
                },
            }
        }
    }
    match sub {
        None => None,
        Some((g, p)) => {
            proof {
                lemma_subrange_concat(b@, pos as int, body as int, p as int);
                assert(geometry_tag(g) == tag);
                assert(b@.subrange(pos as int, p as int) =~= geometry_bytes(g));
            }
            Some((g, p))
        },
    }
}

/// Relies on `String::from_utf8`: the bytes become a string exactly when
/// they are valid UTF-8, and the string holds the characters they encode.
#[verifier::external_body]
fn string_from_utf8(bytes: &[u8]) -> (r: Option<String>)
    ensures
        r is Some <==> valid_utf8(bytes@),
        r matches Some(s) ==> s@ == decode_utf8(bytes@),
{
    String::from_utf8(bytes.to_vec()).ok()
}


/// Every map nested in `v` has unique names.
pub open spec fn value_wf(v: PropertyValue) -> bool
    decreases v,
{
    match v {
        PropertyValue::Vec(vs) => values_wf(vs@),
        PropertyValue::Mapping(p) => keys_unique(p.entries@) && entries_wf(p.entries@),
        _ => true,
    }
}

pub open spec fn values_wf(vs: Seq<PropertyValue>) -> bool
    decreases vs,
{
    if vs.len() == 0 {
        true
    } else {
        values_wf(vs.drop_last()) && value_wf(vs.last())
    }
}

pub open spec fn entries_wf(es: Seq<(String, PropertyValue)>) -> bool
    decreases es,
{
    if es.len() == 0 {
        true
    } else {
        entries_wf(es.drop_last()) && value_wf(es.last().1)
    }
}

/// The properties of a feature have unique names, at every depth.
pub open spec fn properties_wf(p: Properties) -> bool {
    keys_unique(p.entries@) && entries_wf(p.entries@)
}

proof fn lemma_values_wf_at(s: Seq<PropertyValue>, i: int)
    requires
        values_wf(s),
        0 <= i < s.len(),
    ensures
        value_wf(s[i]),
    decreases s.len(),
{
    if i < s.len() - 1 {
        lemma_values_wf_at(s.drop_last(), i);
    }
}

proof fn lemma_entries_wf_at(s: Seq<(String, PropertyValue)>, i: int)
    requires
        entries_wf(s),
        0 <= i < s.len(),
    ensures
        value_wf(s[i].1),
    decreases s.len(),
{
    if i < s.len() - 1 {
        lemma_entries_wf_at(s.drop_last(), i);
    }
}

proof fn lemma_values_len(s: Seq<PropertyValue>)
    ensures
        values_bytes(s).len() >= 4 * s.len(),
    decreases s.len(),
{
    if s.len() > 0 {
        lemma_values_len(s.drop_last());
        let e = s.last();
        lemma_le_roundtrip();
        assert(le32(value_tag(e)).len() == 4);
        assert(value_bytes(e).len() >= 4);
    }
}

proof fn lemma_values_prefix(s: Seq<PropertyValue>, j: int)
    requires
        0 <= j <= s.len(),
    ensures
        values_bytes(s.take(j)).len() <= values_bytes(s).len(),
        values_bytes(s).subrange(0, values_bytes(s.take(j)).len() as int) == values_bytes(s.take(j)),
        j < s.len() ==> values_bytes(s.take(j + 1)) == values_bytes(s.take(j)) + value_bytes(s[j]),
    decreases s.len(),
{
    if j < s.len() {
        assert(s.take(j + 1).drop_last() =~= s.take(j));
    }
    if j == s.len() {
        assert(s.take(j) =~= s);
        assert(values_bytes(s).subrange(0, values_bytes(s).len() as int) =~= values_bytes(s));
    } else {
        let init = s.drop_last();
        assert(s.take(j) =~= init.take(j));
        lemma_values_prefix(init, j);
        assert(values_bytes(s).subrange(0, values_bytes(s.take(j)).len() as int) =~= values_bytes(init).subrange(
            0,
            values_bytes(s.take(j)).len() as int,
        ));
    }
}

proof fn lemma_entries_len(s: Seq<(String, PropertyValue)>)
    ensures
        entries_bytes(s).len() >= 12 * s.len(),
    decreases s.len(),
{
    if s.len() > 0 {
        lemma_entries_len(s.drop_last());
        let e = s.last();
        lemma_le_roundtrip();
        assert(le32(value_tag(e.1)).len() == 4);
        assert(value_bytes(e.1).len() >= 5);
    }
}

proof fn lemma_entries_prefix(s: Seq<(String, PropertyValue)>, j: int)
    requires
        0 <= j <= s.len(),
    ensures
        entries_bytes(s.take(j)).len() <= entries_bytes(s).len(),
        entries_bytes(s).subrange(0, entries_bytes(s.take(j)).len() as int) == entries_bytes(s.take(j)),
        j < s.len() ==> entries_bytes(s.take(j + 1)) == entries_bytes(s.take(j)) + (string_bytes(s[j].0@) + value_bytes(s[j].1)),
    decreases s.len(),
{
    if j < s.len() {
        assert(s.take(j + 1).drop_last() =~= s.take(j));
        assert(entries_bytes(s.take(j + 1)) =~= entries_bytes(s.take(j)) + (string_bytes(s[j].0@) + value_bytes(s[j].1)));
    }
    if j == s.len() {
        assert(s.take(j) =~= s);
        assert(entries_bytes(s).subrange(0, entries_bytes(s).len() as int) =~= entries_bytes(s));
    } else {
        let init = s.drop_last();
        assert(s.take(j) =~= init.take(j));
        lemma_entries_prefix(init, j);
        assert(entries_bytes(s).subrange(0, entries_bytes(s.take(j)).len() as int) =~= entries_bytes(init).subrange(
            0,
            entries_bytes(s.take(j)).len() as int,
        ));
    }
}

fn get_string(b: &[u8], pos: usize) -> (r: Option<(String, usize)>)
    ensures
        r matches Some((s, p)) ==> pos <= p <= b@.len() && b@.subrange(pos as int, p as int)
            == string_bytes(s@),
        forall|t: Seq<char>|
            #[trigger] holds_at(b@, pos as int, string_bytes(t)) ==> (r matches Some((s, p)) && s@ == t && p
                == pos + string_bytes(t).len()),
{
    let len = b.len();
    proof {
        assert(b@.len() == len);
        lemma_le_roundtrip();
        assert forall|t: Seq<char>| #[trigger] holds_at(b@, pos as int, string_bytes(t)) implies holds_at(
            b@,
            pos as int,
            count_bytes(encode_utf8(t).len()),
        ) && encode_utf8(t).len() <= u64::MAX && pos + 8 + encode_utf8(t).len() * 1 <= b@.len() by {
            lemma_holds_at_split(b@, pos as int, count_bytes(encode_utf8(t).len()), encode_utf8(t));
        }
    }
    let counted = get_count(b, pos, 1);
    if counted.is_none() {
        return None;
    }
    let (n, start) = counted.unwrap();
    let raw = vstd::slice::slice_subrange(b, start, start + n);
    proof {
        assert forall|t: Seq<char>| #[trigger] holds_at(b@, pos as int, string_bytes(t)) implies raw@ == encode_utf8(t)
            && valid_utf8(raw@) by {
            lemma_holds_at_split(b@, pos as int, count_bytes(encode_utf8(t).len()), encode_utf8(t));
            vstd::utf8::encode_utf8_valid_utf8(t);
        }
    }
    match string_from_utf8(raw) {
        None => None,
        Some(s) => {
            proof {
                vstd::utf8::decode_utf8_encode_utf8(raw@);
                lemma_subrange_concat(b@, pos as int, start as int, start + n);
                assert forall|t: Seq<char>| #[trigger] holds_at(b@, pos as int, string_bytes(t)) implies s@ == t by {
                    vstd::utf8::encode_utf8_decode_utf8(t);
                }
            }
            Some((s, start + n))
        },
    }
}

fn get_byte_vec(b: &[u8], pos: usize) -> (r: Option<(Vec<u8>, usize)>)
    ensures
        r matches Some((v, p)) ==> pos <= p <= b@.len() && b@.subrange(pos as int, p as int)
            == count_bytes(v@.len()) + v@,
        forall|t: Seq<u8>|
            #[trigger] holds_at(b@, pos as int, count_bytes(t.len()) + t) ==> (r matches Some((v, p)) && p == pos
                + 8 + t.len()),
{
    let len = b.len();
    proof {
        assert(b@.len() == len);
        lemma_le_roundtrip();
        assert forall|t: Seq<u8>| #[trigger] holds_at(b@, pos as int, count_bytes(t.len()) + t) implies holds_at(
            b@,
            pos as int,
            count_bytes(t.len()),
        ) && t.len() <= u64::MAX && pos + 8 + t.len() * 1 <= b@.len() by {
            lemma_holds_at_split(b@, pos as int, count_bytes(t.len()), t);
        }
    }
    let counted = get_count(b, pos, 1);
    if counted.is_none() {
        return None;
    }
    let (n, start) = counted.unwrap();
    let mut v: Vec<u8> = Vec::new();
    put_bytes(&mut v, vstd::slice::slice_subrange(b, start, start + n));
    proof {
        lemma_subrange_concat(b@, pos as int, start as int, start + n);
        assert(v@ =~= b@.subrange(start as int, start + n));
    }
    Some((v, start + n))
}

fn get_entry(b: &[u8], pos: usize) -> (r: Option<((String, PropertyValue), usize)>)
    ensures
        r matches Some((x, p)) ==> pos <= p <= b@.len() && b@.subrange(pos as int, p as int)
            == string_bytes(x.0@) + value_bytes(x.1) && value_wf(x.1),
        forall|e: (String, PropertyValue)|
            #[trigger] holds_at(b@, pos as int, string_bytes(e.0@) + value_bytes(e.1)) && value_wf(e.1) ==> (
            r matches Some((x, p)) && x.0@ == e.0@ && p == pos + (string_bytes(e.0@) + value_bytes(e.1)).len()),
    decreases b@.len() - pos, 1nat,
{
    proof {
        assert forall|e: (String, PropertyValue)|
            #[trigger] holds_at(b@, pos as int, string_bytes(e.0@) + value_bytes(e.1)) implies holds_at(
            b@,
            pos as int,
            string_bytes(e.0@),
        ) && holds_at(b@, pos + string_bytes(e.0@).len(), value_bytes(e.1)) by {
            lemma_holds_at_split(b@, pos as int, string_bytes(e.0@), value_bytes(e.1));
        }
    }
    let name_read = get_string(b, pos);
    if name_read.is_none() {
        return None;
    }
    let (name, q) = name_read.unwrap();
    let value_read = decode_value(b, q);
    if value_read.is_none() {
        return None;
    }
    let (x, q2) = value_read.unwrap();
    proof {
        lemma_subrange_concat(b@, pos as int, q as int, q2 as int);
    }
    Some(((name, x), q2))
}
fn get_values(b: &[u8], pos: usize) -> (r: Option<(Vec<PropertyValue>, usize)>)
    ensures
        r matches Some((v, p)) ==> pos <= p <= b@.len() && b@.subrange(pos as int, p as int)
            == count_bytes(v@.len()) + values_bytes(v@) && values_wf(v@),
        forall|es: Seq<PropertyValue>|
            #[trigger] holds_at(b@, pos as int, count_bytes(es.len()) + values_bytes(es)) && values_wf(es) ==> (r matches Some(
                (v, p),
            ) && p == pos + (count_bytes(es.len()) + values_bytes(es)).len()),
    decreases b@.len() - pos, 1nat,
{
    let len = b.len();
    proof {
        assert(b@.len() == len);
        lemma_le_roundtrip();
        assert forall|es: Seq<PropertyValue>|
            #[trigger] holds_at(b@, pos as int, count_bytes(es.len()) + values_bytes(es)) implies holds_at(
                b@,
                pos as int,
                count_bytes(es.len()),
            ) && es.len() <= u64::MAX && pos + 8 + es.len() * 4 <= b@.len() by {
            lemma_holds_at_split(b@, pos as int, count_bytes(es.len()), values_bytes(es));
            lemma_values_len(es);
        }
    }
    let counted = get_count(b, pos, 4);
    if counted.is_none() {
        return None;
    }
    let (n, start) = counted.unwrap();
    let mut v: Vec<PropertyValue> = Vec::new();
    let mut p = start;
    let mut i: usize = 0;
    proof {
        assert forall|es: Seq<PropertyValue>|
            #[trigger] holds_at(b@, pos as int, count_bytes(es.len()) + values_bytes(es)) && values_wf(es) implies p == start + values_bytes(
                es.take(0),
            ).len() by {
            assert(es.take(0) =~= Seq::<PropertyValue>::empty());
        }
    }
    while i < n
        invariant
            len == b@.len(),
            start == pos + 8,
            start <= p <= b@.len(),
            i <= n,
            v@.len() == i,
            b@.subrange(start as int, p as int) == values_bytes(v@),
            values_wf(v@),
            forall|es: Seq<PropertyValue>|
                #[trigger] holds_at(b@, pos as int, count_bytes(es.len()) + values_bytes(es)) && values_wf(es) ==> n == es.len() && p
                    == start + values_bytes(es.take(i as int)).len(),
        decreases n - i,
    {
        proof {
            assert forall|es: Seq<PropertyValue>|
                #[trigger] holds_at(b@, pos as int, count_bytes(es.len()) + values_bytes(es)) && values_wf(es) implies holds_at(
                    b@,
                    p as int,
                    value_bytes(es[i as int]),
                ) && value_wf(es[i as int]) by {
                lemma_le_roundtrip();
                assert(count_bytes(es.len()).len() == 8);
                lemma_holds_at_split(b@, pos as int, count_bytes(es.len()), values_bytes(es));
                lemma_values_prefix(es, i + 1);
                lemma_values_prefix(es, i as int);
                lemma_holds_at_prefix(b@, start as int, values_bytes(es), values_bytes(es.take(i + 1)));
                lemma_holds_at_split(b@, start as int, values_bytes(es.take(i as int)), value_bytes(es[i as int]));
                lemma_values_wf_at(es, i as int);
            }
        }
        let read = decode_value(b, p);
        if read.is_none() {
            return None;
        }
        let (x, q) = read.unwrap();
        proof {
            lemma_subrange_concat(b@, start as int, p as int, q as int);
            assert(v@.push(x).drop_last() =~= v@);
            assert forall|es: Seq<PropertyValue>|
                #[trigger] holds_at(b@, pos as int, count_bytes(es.len()) + values_bytes(es)) && values_wf(es) implies n == es.len() && q
                    == start + values_bytes(es.take(i + 1)).len() by {
                lemma_values_prefix(es, i as int);
            }
        }
        v.push(x);
        p = q;
        i += 1;
    }
    proof {
        lemma_subrange_concat(b@, pos as int, start as int, p as int);
        assert forall|es: Seq<PropertyValue>|
            #[trigger] holds_at(b@, pos as int, count_bytes(es.len()) + values_bytes(es)) && values_wf(es) implies p == pos + (count_bytes(
                es.len(),
            ) + values_bytes(es)).len() by {
            lemma_le_roundtrip();
            assert(es.take(n as int) =~= es);
        }
    }
    Some((v, p))
}

fn get_entries(b: &[u8], pos: usize) -> (r: Option<(Vec<(String, PropertyValue)>, usize)>)
    ensures
        r matches Some((v, p)) ==> pos <= p <= b@.len() && b@.subrange(pos as int, p as int)
            == count_bytes(v@.len()) + entries_bytes(v@) && entries_wf(v@),
        forall|es: Seq<(String, PropertyValue)>|
            #[trigger] holds_at(b@, pos as int, count_bytes(es.len()) + entries_bytes(es)) && entries_wf(es) ==> (r matches Some(
                (v, p),
            ) && p == pos + (count_bytes(es.len()) + entries_bytes(es)).len() && v@.len() == es.len()
                && forall|k: int| 0 <= k < es.len() ==> (#[trigger] v@[k]).0@ == es[k].0@),
    decreases b@.len() - pos, 1nat,
{
    let len = b.len();
    proof {
        assert(b@.len() == len);
        lemma_le_roundtrip();
        assert forall|es: Seq<(String, PropertyValue)>|
            #[trigger] holds_at(b@, pos as int, count_bytes(es.len()) + entries_bytes(es)) implies holds_at(
                b@,
                pos as int,
                count_bytes(es.len()),
            ) && es.len() <= u64::MAX && pos + 8 + es.len() * 12 <= b@.len() by {
            lemma_holds_at_split(b@, pos as int, count_bytes(es.len()), entries_bytes(es));
            lemma_entries_len(es);
        }
    }
    let counted = get_count(b, pos, 12);
    if counted.is_none() {
        return None;
    }
    let (n, start) = counted.unwrap();
    let mut v: Vec<(String, PropertyValue)> = Vec::new();
    let mut p = start;
    let mut i: usize = 0;
    proof {
        assert forall|es: Seq<(String, PropertyValue)>|
            #[trigger] holds_at(b@, pos as int, count_bytes(es.len()) + entries_bytes(es)) && entries_wf(es) implies p == start + entries_bytes(
                es.take(0),
            ).len() by {
            assert(es.take(0) =~= Seq::<(String, PropertyValue)>::empty());
        }
    }
    while i < n
        invariant
            len == b@.len(),
            start == pos + 8,
            start <= p <= b@.len(),
            i <= n,
            v@.len() == i,
            b@.subrange(start as int, p as int) == entries_bytes(v@),
            entries_wf(v@),
            forall|es: Seq<(String, PropertyValue)>|
                #[trigger] holds_at(b@, pos as int, count_bytes(es.len()) + entries_bytes(es)) && entries_wf(es) ==> n == es.len() && p
                    == start + entries_bytes(es.take(i as int)).len() && forall|k: int| 0 <= k < i ==> (#[trigger] v@[k]).0@ == es[k].0@,
        decreases n - i,
    {
        proof {
            assert forall|es: Seq<(String, PropertyValue)>|
                #[trigger] holds_at(b@, pos as int, count_bytes(es.len()) + entries_bytes(es)) && entries_wf(es) implies holds_at(
                    b@,
                    p as int,
                    string_bytes(es[i as int].0@) + value_bytes(es[i as int].1),
                ) && value_wf(es[i as int].1) by {
                lemma_le_roundtrip();
                assert(count_bytes(es.len()).len() == 8);
                lemma_holds_at_split(b@, pos as int, count_bytes(es.len()), entries_bytes(es));
                lemma_entries_prefix(es, i + 1);
                lemma_entries_prefix(es, i as int);
                lemma_holds_at_prefix(b@, start as int, entries_bytes(es), entries_bytes(es.take(i + 1)));
                lemma_holds_at_split(b@, start as int, entries_bytes(es.take(i as int)), string_bytes(es[i as int].0@) + value_bytes(es[i as int].1));
                lemma_entries_wf_at(es, i as int);
            }
        }
        let read = get_entry(b, p);
        if read.is_none() {
            return None;
        }
        let (x, q) = read.unwrap();
        proof {
            lemma_subrange_concat(b@, start as int, p as int, q as int);
            assert(v@.push(x).drop_last() =~= v@);
            assert forall|es: Seq<(String, PropertyValue)>|
                #[trigger] holds_at(b@, pos as int, count_bytes(es.len()) + entries_bytes(es)) && entries_wf(es) implies n == es.len() && q
                    == start + entries_bytes(es.take(i + 1)).len() && forall|k: int| 0 <= k < i + 1 ==> (#[trigger] v@.push(x)[k]).0@ == es[k].0@ by {
                assert(v@.push(x)[i as int] == x);
                lemma_entries_prefix(es, i as int);
            }
        }
        v.push(x);
        p = q;
        i += 1;
    }
    proof {
        lemma_subrange_concat(b@, pos as int, start as int, p as int);
        assert forall|es: Seq<(String, PropertyValue)>|
            #[trigger] holds_at(b@, pos as int, count_bytes(es.len()) + entries_bytes(es)) && entries_wf(es) implies p == pos + (count_bytes(
                es.len(),
            ) + entries_bytes(es)).len() && v@.len() == es.len()
                && forall|k: int| 0 <= k < es.len() ==> (#[trigger] v@[k]).0@ == es[k].0@ by {
            lemma_le_roundtrip();
            assert(es.take(n as int) =~= es);
        }
    }
    Some((v, p))
}

/// What follows the variant number in the encoding of a property value.
pub open spec fn value_payload(v: PropertyValue) -> Seq<u8> {
    match v {
        PropertyValue::Bool(b) => seq![bool_byte(b)],
        PropertyValue::Int8(x) => seq![i8_byte(x)],
        PropertyValue::UInt8(x) => seq![x],
        PropertyValue::Int16(x) => le16(i16_word(x)),
        PropertyValue::UInt16(x) => le16(x),
        PropertyValue::Int32(x) => i32_bytes(x),
        PropertyValue::UInt32(x) => le32(x),
        PropertyValue::Int64(x) => le64(i64_word(x)),
        PropertyValue::UInt64(x) => le64(x),
        PropertyValue::Float32(bits) => le32(bits),
        PropertyValue::Float64(bits) => le64(bits),
        PropertyValue::Bytes(bs) => count_bytes(bs@.len()) + bs@,
        PropertyValue::String(s) => string_bytes(s@),
        PropertyValue::Vec(vs) => count_bytes(vs@.len()) + values_bytes(vs@),
        PropertyValue::Mapping(p) => count_bytes(p.entries@.len()) + entries_bytes(p.entries@),
    }
}

proof fn lemma_value_split(b: Seq<u8>, pos: int, v: PropertyValue)
    requires
        holds_at(b, pos, value_bytes(v)),
    ensures
        holds_at(b, pos, le32(value_tag(v))),
        holds_at(b, pos + 4, value_payload(v)),
{
    lemma_le_roundtrip();
    assert(value_bytes(v) == le32(value_tag(v)) + value_payload(v));
    lemma_holds_at_split(b, pos, le32(value_tag(v)), value_payload(v));
}

/// Reads the property value encoded at `pos`. What it returns is exactly
/// what the bytes it consumed encode, with unique names in every nested map;
/// `None` on an unknown tag, a flag byte other than 0 or 1, text that is not
/// UTF-8, a repeated name in a nested map, or a short input. Where the
/// encoding of such a value stands at `pos`, it reads one with that same
/// encoding, consuming exactly it.
pub fn decode_value(b: &[u8], pos: usize) -> (r: Option<(PropertyValue, usize)>)
    ensures
        r matches Some((v, p)) ==> pos <= p <= b@.len() && b@.subrange(pos as int, p as int)
            == value_bytes(v) && value_wf(v),
        forall|v: PropertyValue|
            #[trigger] holds_at(b@, pos as int, value_bytes(v)) && value_wf(v) ==> (r matches Some((w, p)) && p
                == pos + value_bytes(v).len()),
    decreases b@.len() - pos, 0nat,
{
    let len = b.len();
    proof {
        assert(b@.len() == len);
        lemma_le_roundtrip();
        lemma_le_injective();
        assert forall|v: PropertyValue| #[trigger] holds_at(b@, pos as int, value_bytes(v)) implies pos + 4 <= b@.len() by {
            lemma_value_split(b@, pos as int, v);
        }
    }
    let tag_read = get_u32(b, pos);
    if tag_read.is_none() {
        return None;
    }
    let tag = tag_read.unwrap();
    let body = pos + 4;
    proof {
        assert forall|v: PropertyValue| #[trigger] holds_at(b@, pos as int, value_bytes(v)) implies value_tag(v) == tag
            && holds_at(b@, body as int, value_payload(v)) by {
            lemma_value_split(b@, pos as int, v);
            assert(le32(value_tag(v)) == le32(tag));
        }
    }
    let sub: Option<(PropertyValue, usize)> = if tag == 0 {
        match get_u8(b, body) {
            Some(x) => if x <= 1 {
                Some((PropertyValue::Bool(x == 1), body + 1))
            } else {
                None
            },
            None => None,
        }
    } else if tag == 1 {
        match get_u8(b, body) {
            None => None,
            Some(x) => {
                let y: i8 = if x < 128 { x as i8 } else { (x as i16 - 256i16) as i8 };
                Some((PropertyValue::Int8(y), body + 1))
            },
        }
    } else if tag == 2 {
        match get_u8(b, body) {
            None => None,
            Some(x) => Some((PropertyValue::UInt8(x), body + 1)),
        }
    } else if tag == 3 {
        match get_u16(b, body) {
            None => None,
            Some(x) => {
                let y: i16 = if x < 0x8000 { x as i16 } else { (x as i32 - 0x1_0000i32) as i16 };
                Some((PropertyValue::Int16(y), body + 2))
            },
        }
    } else if tag == 4 {
        match get_u16(b, body) {
            None => None,
            Some(x) => Some((PropertyValue::UInt16(x), body + 2)),
        }
    } else if tag == 5 {
        match get_i32(b, body) {
            None => None,
            Some(x) => Some((PropertyValue::Int32(x), body + 4)),
        }
    } else if tag == 6 {
        match get_u32(b, body) {
            None => None,
            Some(x) => Some((PropertyValue::UInt32(x), body + 4)),
        }
    } else if tag == 7 {
        match get_u64(b, body) {
            None => None,
            Some(x) => {
                let y: i64 = if x < 0x8000_0000_0000_0000 {
                    x as i64
                } else {
                    (x as i128 - 0x1_0000_0000_0000_0000i128) as i64
                };
                Some((PropertyValue::Int64(y), body + 8))
            },
        }
    } else if tag == 8 {
        match get_u64(b, body) {
            None => None,
            Some(x) => Some((PropertyValue::UInt64(x), body + 8)),
        }
    } else if tag == 9 {
        match get_u32(b, body) {
            None => None,
            Some(x) => Some((PropertyValue::Float32(x), body + 4)),
        }
    } else if tag == 10 {
        match get_u64(b, body) {
            None => None,
            Some(x) => Some((PropertyValue::Float64(x), body + 8)),
        }
    } else if tag == 11 {
        match get_byte_vec(b, body) {
            None => None,
            Some((bs, p)) => Some((PropertyValue::Bytes(bs), p)),
        }
    } else if tag == 12 {
        match get_string(b, body) {
            None => None,
            Some((s, p)) => Some((PropertyValue::String(s), p)),
        }
    } else if tag == 13 {
        match get_values(b, body) {
            None => None,
            Some((vs, p)) => Some((PropertyValue::Vec(vs), p)),
        }
    } else if tag == 14 {
        match get_entries(b, body) {
            None => None,
            Some((es, p)) => {
                proof {
                    assert forall|v: PropertyValue| #[trigger] holds_at(b@, pos as int, value_bytes(v)) && value_wf(v)
                        implies keys_unique(es@) by {
                        match v {
                            PropertyValue::Mapping(pm) => {
                                assert(holds_at(b@, body as int, count_bytes(pm.entries@.len()) + entries_bytes(pm.entries@)));
                                assert forall|i: int, j: int|
                                    0 <= i < es@.len() && 0 <= j < es@.len() && i != j implies (#[trigger] es@[i]).0@
                                        != (#[trigger] es@[j]).0@ by {
                                    assert(es@[i].0@ == pm.entries@[i].0@);
                                    assert(es@[j].0@ == pm.entries@[j].0@);
                                }
                            },
                            _ => {},
                        }
                    }
                }
                match Properties::from_entries(es) {
                    None => None,
                    Some(props) => Some((PropertyValue::Mapping(props), p)),
                }
            },
        }
    } else {
        None
    };
    proof {
        assert forall|v: PropertyValue| #[trigger] holds_at(b@, pos as int, value_bytes(v)) && value_wf(v) implies (
        sub matches Some((w, p)) && p == pos + value_bytes(v).len()) by {
            assert(value_bytes(v) == le32(value_tag(v)) + value_payload(v));
            match v {
                PropertyValue::Bool(x) => {
                    assert(holds_at(b@, body as int, seq![bool_byte(x)]));
                    assert(b@.subrange(body as int, body + 1) == seq![bool_byte(x)]);
                    assert(b@[body as int] == b@.subrange(body as int, body + 1)[0]);
                },
                PropertyValue::Int8(x) => {},
                PropertyValue::UInt8(x) => {},
                PropertyValue::Int16(x) => {},
                PropertyValue::UInt16(x) => {},
                PropertyValue::Int32(x) => {},
                PropertyValue::UInt32(x) => {},
                PropertyValue::Int64(x) => {},
                PropertyValue::UInt64(x) => {},
                PropertyValue::Float32(x) => {},
                PropertyValue::Float64(x) => {},
                PropertyValue::Bytes(bs) => {
                    assert(holds_at(b@, body as int, count_bytes(bs@.len()) + bs@));
                },
                PropertyValue::String(st) => {
                    assert(holds_at(b@, body as int, string_bytes(st@)));
                },
                PropertyValue::Vec(vs) => {
                    assert(holds_at(b@, body as int, count_bytes(vs@.len()) + values_bytes(vs@)));
                },
                PropertyValue::Mapping(pm) => {
                    assert(holds_at(b@, body as int, count_bytes(pm.entries@.len()) + entries_bytes(pm.entries@)));
                },
            }
        }
    }
    match sub {
        None => None,
        Some((v, p)) => {
            proof {
                lemma_subrange_concat(b@, pos as int, body as int, p as int);
                assert(value_tag(v) == tag);
                assert(b@.subrange(pos as int, p as int) =~= value_bytes(v));
            }
            Some((v, p))
        },
    }
}

/// Reads the feature encoded at `pos`. What it returns is exactly what the
/// bytes it consumed encode, with unique property names at every depth.
/// Where the encoding of such a feature stands at `pos`, it reads one with
/// that same encoding, consuming exactly it.
pub fn decode_feature(b: &[u8], pos: usize) -> (r: Option<(Feature, usize)>)
    ensures
        r matches Some((f, p)) ==> pos <= p <= b@.len() && b@.subrange(pos as int, p as int)
            == feature_bytes(f) && f.properties.wf() && properties_wf(f.properties),
        forall|f: Feature|
            #[trigger] holds_at(b@, pos as int, feature_bytes(f)) && properties_wf(f.properties) ==> (r matches Some(
                (g, p),
            ) && p == pos + feature_bytes(f).len()),
{
    proof {
        assert forall|f: Feature| #[trigger] holds_at(b@, pos as int, feature_bytes(f)) implies holds_at(
            b@,
            pos as int,
            geometry_bytes(f.geometry),
        ) && holds_at(
            b@,
            pos + geometry_bytes(f.geometry).len(),
            count_bytes(f.properties.entries@.len()) + entries_bytes(f.properties.entries@),
        ) by {
            lemma_holds_at_split(b@, pos as int, geometry_bytes(f.geometry), properties_bytes(f.properties));
        }
    }
    let g = decode_geometry(b, pos);
    if g.is_none() {
        return None;
    }
    let (geometry, q) = g.unwrap();
    let e = get_entries(b, q);
    if e.is_none() {
        return None;
    }
    let (entries, p) = e.unwrap();
    proof {
        assert forall|f: Feature| #[trigger] holds_at(b@, pos as int, feature_bytes(f)) && properties_wf(f.properties)
            implies keys_unique(entries@) by {
            let pe = f.properties.entries@;
            assert forall|i: int, j: int|
                0 <= i < entries@.len() && 0 <= j < entries@.len() && i != j implies (#[trigger] entries@[i]).0@
                    != (#[trigger] entries@[j]).0@ by {
                assert(entries@[i].0@ == pe[i].0@);
                assert(entries@[j].0@ == pe[j].0@);
            }
        }
    }
    match Properties::from_entries(entries) {
        None => None,
        Some(properties) => {
            proof {
                lemma_subrange_concat(b@, pos as int, q as int, p as int);
                assert(b@.subrange(pos as int, p as int) =~= feature_bytes(Feature { geometry, properties }));
            }
            Some((Feature { geometry, properties }, p))
        },
    }
}

} // verus!
