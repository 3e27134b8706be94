use geomedea::reader::{open_page, read_record};
use geomedea::{
    Bounds, Error, Feature, Geometry, GeometryCollection, LineString, LngLat, MultiLineString,
    MultiPoint, MultiPolygon, Polygon, Properties, PropertyValue, Reader, Writer,
};

fn deg(v: f64) -> i32 {
    (v * 10_000_000.0) as i32
}

fn pt(x: f64, y: f64) -> LngLat {
    LngLat::unscaled(deg(x), deg(y))
}

fn rect(x1: f64, y1: f64, x2: f64, y2: f64) -> Bounds {
    Bounds::from_corners(&pt(x1, y1), &pt(x2, y2))
}

fn points(feature_count: usize, is_compressed: bool, small_pages: bool) -> Vec<u8> {
    let mut writer = Writer::new(is_compressed);
    if small_pages {
        writer.set_page_size_goal(100);
    }
    for feature_idx in 0..feature_count {
        let geometry = Geometry::Point(pt(feature_idx as f64, feature_idx as f64));
        let mut properties = Properties::empty();
        properties.insert(
            "name".to_string(),
            PropertyValue::String(format!("prop-{}", feature_idx)),
        );
        writer.add_feature(&Feature::new(geometry, properties));
    }
    writer.finish().unwrap()
}

fn read_all(bytes: &[u8]) -> Vec<Feature> {
    let reader = Reader::new(bytes).unwrap();
    let mut iter = reader.select_all().unwrap();
    let mut out = vec![];
    while let Some(feature) = iter.next().unwrap() {
        out.push(feature);
    }
    out
}

fn write_and_read_empty(is_compressed: bool) {
    let writer = Writer::new(is_compressed);
    let output = writer.finish().unwrap();
    assert_eq!(output.len(), 29);

    let reader = Reader::new(output.as_slice()).unwrap();
    assert!(reader.select_all().unwrap().next().unwrap().is_none());
}

#[test]
fn empty_uncompressed() {
    write_and_read_empty(false)
}

#[test]
fn empty_compressed() {
    write_and_read_empty(true)
}

#[test]
fn roundtrip() {
    let mut writer = Writer::new(false);
    let feature = Feature::new(Geometry::Point(pt(1.0, 2.0)), Properties::empty());
    writer.add_feature(&feature);
    let output = writer.finish().unwrap();

    let reader = Reader::new(output.as_slice()).unwrap();
    let mut features = reader.select_all().unwrap();
    let feature = features.next().unwrap().unwrap();
    assert_eq!(feature.geometry(), &Geometry::Point(pt(1.0, 2.0)));
    assert!(feature.properties().is_empty());
    assert!(features.next().unwrap().is_none());
}

fn select_all(is_compressed: bool, multiple_pages: bool) {
    let output = points(4, is_compressed, multiple_pages);
    let geometries: Vec<Geometry> = read_all(&output)
        .into_iter()
        .map(|f| f.into_inner().0)
        .collect();
    assert_eq!(
        geometries,
        vec![
            Geometry::Point(pt(3.0, 3.0)),
            Geometry::Point(pt(2.0, 2.0)),
            Geometry::Point(pt(1.0, 1.0)),
            Geometry::Point(pt(0.0, 0.0)),
        ]
    );
}

#[test]
fn select_all_with_uncompressed_single_page() {
    select_all(false, false);
}

#[test]
fn select_all_with_uncompressed_multiple_pages() {
    select_all(false, true);
}

#[test]
fn select_all_with_compressed_single_page() {
    select_all(true, false);
}

#[test]
fn select_all_with_compressed_multiple_pages() {
    select_all(true, true);
}

fn bbox(is_compressed: bool, multiple_pages: bool) {
    let output = points(4, is_compressed, multiple_pages);
    let reader = Reader::new(output.as_slice()).unwrap();
    let mut features = reader.select_bbox(&rect(1.0, 1.0, 2.0, 2.0)).unwrap();
    assert_eq!(
        features.next().unwrap().unwrap().geometry(),
        &Geometry::Point(pt(2.0, 2.0))
    );
    assert_eq!(
        features.next().unwrap().unwrap().geometry(),
        &Geometry::Point(pt(1.0, 1.0))
    );
    assert!(features.next().unwrap().is_none());
}

#[test]
fn bbox_with_uncompressed_single_page() {
    bbox(false, false);
}

#[test]
fn bbox_with_uncompressed_multiple_pages() {
    bbox(false, true);
}

#[test]
fn bbox_with_compressed_single_page() {
    bbox(true, false);
}

#[test]
fn bbox_with_compressed_multiple_pages() {
    bbox(true, true);
}

fn test_page_offsets(is_compressed: bool) {
    let multipoint = [pt(1.0, 2.0), pt(11.0, 12.0), pt(-1.0, -2.0), pt(-11.0, -12.0)];
    let mut writer = Writer::new(is_compressed);
    writer.set_page_size_goal(15);
    for point in multipoint.iter() {
        let feature = Feature::new(Geometry::Point(*point), Properties::empty());
        writer.add_feature(&feature);
    }
    let output = writer.finish().unwrap();

    if is_compressed {
        assert_eq!(337, output.len());
    } else {
        assert_eq!(317, output.len());
    }
}

#[test]
fn uncompressed_page_offsets() {
    test_page_offsets(false)
}

#[test]
fn compressed_page_offsets() {
    test_page_offsets(true)
}

#[test]
fn multipoint_properties_make_two_pages() {
    let sub_points = [pt(1.0, 2.0), pt(11.0, 12.0), pt(-1.0, -2.0)];
    let mut writer = Writer::new(false);
    writer.set_page_size_goal(100);
    for (idx, point) in sub_points.iter().enumerate() {
        let mut properties = Properties::empty();
        properties.insert(
            "some_prop".to_string(),
            PropertyValue::String(format!("value-{idx}")),
        );
        writer.add_feature(&Feature::new(Geometry::Point(*point), properties));
    }
    let bytes = writer.finish().unwrap();
    let reader = Reader::new(&bytes).unwrap();
    assert_eq!(reader.header().page_count, 2);
    assert_eq!(reader.header().feature_count, 3);
    assert_eq!(read_all(&bytes).len(), 3);
}

fn every_geometry() -> Geometry {
    let line = LineString::new(vec![pt(100.0, 0.0), pt(101.0, 1.0)]);
    let ring = LineString::new(vec![
        pt(100.0, 0.0),
        pt(101.0, 0.0),
        pt(101.0, 1.0),
        pt(100.0, 0.0),
    ]);
    Geometry::GeometryCollection(GeometryCollection::new(vec![
        Geometry::Point(pt(100.0, 0.0)),
        Geometry::LineString(line.clone()),
        Geometry::Polygon(Polygon::new(vec![ring.clone()])),
        Geometry::MultiPoint(MultiPoint::new(vec![pt(100.0, 0.0), pt(101.0, 1.0)])),
        Geometry::MultiLineString(MultiLineString::new(vec![line.clone(), line.clone()])),
        Geometry::MultiPolygon(MultiPolygon::new(vec![
            Polygon::new(vec![ring.clone()]),
            Polygon::new(vec![ring.clone(), ring.clone()]),
        ])),
        Geometry::GeometryCollection(GeometryCollection::new(vec![
            Geometry::Point(pt(-5.05, 5.05)),
            Geometry::LineString(LineString::new(vec![])),
        ])),
    ]))
}

fn every_value() -> Properties {
    let mut nested = Properties::empty();
    nested.insert("inner".to_string(), PropertyValue::Int8(-3));
    let mut properties = Properties::empty();
    properties.insert("b".to_string(), PropertyValue::Bool(true));
    properties.insert("i8".to_string(), PropertyValue::Int8(-128));
    properties.insert("u8".to_string(), PropertyValue::UInt8(255));
    properties.insert("i16".to_string(), PropertyValue::Int16(-300));
    properties.insert("u16".to_string(), PropertyValue::UInt16(65535));
    properties.insert("i32".to_string(), PropertyValue::Int32(-70000));
    properties.insert("u32".to_string(), PropertyValue::UInt32(4_000_000_000));
    properties.insert("i64".to_string(), PropertyValue::Int64(i64::MIN));
    properties.insert("u64".to_string(), PropertyValue::UInt64(u64::MAX));
    properties.insert("f32".to_string(), PropertyValue::Float32(1.5f32.to_bits()));
    properties.insert("f64".to_string(), PropertyValue::Float64((-2.25f64).to_bits()));
    properties.insert("bytes".to_string(), PropertyValue::Bytes(vec![0, 1, 255]));
    properties.insert("s".to_string(), PropertyValue::String("héllo".to_string()));
    properties.insert(
        "list".to_string(),
        PropertyValue::Vec(vec![PropertyValue::UInt8(1), PropertyValue::String("x".to_string())]),
    );
    properties.insert("map".to_string(), PropertyValue::Mapping(nested));
    properties
}

fn every_kind_roundtrip(is_compressed: bool) {
    let mut writer = Writer::new(is_compressed);
    writer.add_feature(&Feature::new(every_geometry(), every_value()));
    let bytes = writer.finish().unwrap();
    let features = read_all(&bytes);
    assert_eq!(features.len(), 1);
    assert_eq!(features[0], Feature::new(every_geometry(), every_value()));
}

#[test]
fn geometry_collection_with_all_geometries() {
    every_kind_roundtrip(false);
    every_kind_roundtrip(true);
}

#[test]
fn same_features_whether_compressed_or_not() {
    let plain = read_all(&points(20, false, true));
    let packed = read_all(&points(20, true, true));
    assert_eq!(plain, packed);
    assert_eq!(plain.len(), 20);
}

#[test]
fn bbox_returns_exactly_the_intersecting_features() {
    let bytes = points(40, false, true);
    let reader = Reader::new(&bytes).unwrap();
    let mut iter = reader.select_bbox(&rect(4.5, 4.5, 9.0, 12.0)).unwrap();
    let mut found = vec![];
    while let Some(f) = iter.next().unwrap() {
        found.push(f.into_inner().0);
    }
    let mut expected: Vec<Geometry> = (5..=9).map(|i| Geometry::Point(pt(i as f64, i as f64))).collect();
    for g in &expected {
        assert!(found.contains(g));
    }
    expected.sort_by_key(|g| match g {
        Geometry::Point(p) => p.lng,
        _ => 0,
    });
    assert_eq!(found.len(), expected.len());
}

#[test]
fn coordinates_survive_the_round_trip() {
    let coords = [(-180.0, -90.0), (180.0, 90.0), (-118.2562, 34.1060), (0.0000001, -0.0000001)];
    let mut writer = Writer::new(true);
    for (x, y) in coords.iter() {
        writer.add_feature(&Feature::new(Geometry::Point(pt(*x, *y)), Properties::empty()));
    }
    let bytes = writer.finish().unwrap();
    let features = read_all(&bytes);
    assert_eq!(features.len(), coords.len());
    for f in features {
        match f.into_inner().0 {
            Geometry::Point(p) => {
                let lng = p.lng as f64 / 10_000_000.0;
                let lat = p.lat as f64 / 10_000_000.0;
                assert!(coords
                    .iter()
                    .any(|(x, y)| (lng - x).abs() <= 1e-7 && (lat - y).abs() <= 1e-7));
            }
            other => panic!("unexpected geometry {other:?}"),
        }
    }
}

#[test]
fn truncated_file_is_a_decode_error() {
    let bytes = points(4, false, false);
    assert_eq!(Reader::new(&bytes[..10]).err(), Some(Error::Decode));
    let reader = Reader::new(&bytes[..40]).unwrap();
    assert_eq!(reader.select_all().err(), Some(Error::Decode));
}

#[test]
fn file_info_sizes() {
    let bytes = points(4, false, false);
    let info = Reader::new(&bytes).unwrap().info();
    assert_eq!(info.header_size(), 17);
    assert_eq!(info.index_size(), 5 * 28);
}

#[test]
fn bbox_locations_come_in_file_order() {
    let bytes = points(300, true, true);
    let reader = Reader::new(&bytes).unwrap();
    let info = reader.info();
    let index = &bytes[17..(17 + info.index_size() as usize)];
    let tree = geomedea::PackedRTreeReader::new(300, index).unwrap();
    let locations = tree.select_bbox(&rect(10.0, 10.0, 200.0, 200.0));
    assert_eq!(locations.len(), 191);
    for pair in locations.windows(2) {
        let a = (pair[0].page_starting_offset, pair[0].feature_offset);
        let b = (pair[1].page_starting_offset, pair[1].feature_offset);
        assert!(a <= b);
    }
}

#[test]
fn zero_width_extent_round_trips_compressed() {
    let mut writer = Writer::new(true);
    for lat in [2.0, 3.0, 4.0] {
        writer.add_feature(&Feature::new(Geometry::Point(pt(1.0, lat)), Properties::empty()));
    }
    let bytes = writer.finish().unwrap();
    let mut lats: Vec<i32> = read_all(&bytes)
        .into_iter()
        .map(|f| match f.into_inner().0 {
            Geometry::Point(p) => p.lat,
            _ => 0,
        })
        .collect();
    lats.sort();
    assert_eq!(lats, vec![deg(2.0), deg(3.0), deg(4.0)]);
}

#[test]
fn scan_order_is_descending_hilbert_key() {
    let bytes = points(20, false, true);
    let features = read_all(&bytes);
    let mut extent = Bounds::empty();
    for f in &features {
        extent.extend(&f.geometry().bounds());
    }
    let keys: Vec<u32> = features
        .iter()
        .map(|f| geomedea::hilbert::scaled_hilbert(&f.geometry().bounds().center(), &extent))
        .collect();
    for pair in keys.windows(2) {
        assert!(pair[0] >= pair[1]);
    }
}

#[test]
fn pages_decode_on_their_own() {
    let sub_points = [pt(1.0, 2.0), pt(11.0, 12.0), pt(-1.0, -2.0)];
    let mut writer = Writer::new(false);
    writer.set_page_size_goal(100);
    for (idx, point) in sub_points.iter().enumerate() {
        let mut properties = Properties::empty();
        properties.insert(
            "some_prop".to_string(),
            PropertyValue::String(format!("value-{idx}")),
        );
        writer.add_feature(&Feature::new(Geometry::Point(*point), properties));
    }
    let bytes = writer.finish().unwrap();
    assert_eq!(&bytes[0..17], &[0, 2, 0, 0, 0, 0, 0, 0, 0, 3, 0, 0, 0, 0, 0, 0, 0]);
    // header, then a 4-node index
    let (page0, next, count0) = open_page(&bytes, 17 + 4 * 28, false).unwrap();
    assert_eq!(count0, 2);
    let (first, at) = read_record(&page0, 0).unwrap();
    let (second, end) = read_record(&page0, at).unwrap();
    assert_eq!(end, page0.len());
    assert_eq!(first.geometry(), &Geometry::Point(pt(11.0, 12.0)));
    assert_eq!(second.geometry(), &Geometry::Point(pt(1.0, 2.0)));
    let (page1, last, count1) = open_page(&bytes, next, false).unwrap();
    assert_eq!(count1, 1);
    assert_eq!(last, bytes.len());
    let (third, _) = read_record(&page1, 0).unwrap();
    assert_eq!(third.geometry(), &Geometry::Point(pt(-1.0, -2.0)));
}
