use geomedea::{
    Bounds, Geometry, GeometryCollection, LineString, LngLat, MultiLineString, MultiPoint,
    MultiPolygon, Polygon,
};

fn deg(v: f64) -> i32 {
    (v * 10_000_000.0) as i32
}

fn pt(x: f64, y: f64) -> LngLat {
    LngLat::unscaled(deg(x), deg(y))
}

fn rect(x1: f64, y1: f64, x2: f64, y2: f64) -> Bounds {
    Bounds::from_corners(&pt(x1, y1), &pt(x2, y2))
}

fn line(points: &[(f64, f64)]) -> LineString {
    LineString::new(points.iter().map(|(x, y)| pt(*x, *y)).collect())
}

#[test]
fn bounds_checking() {
    let collection = GeometryCollection::new(vec![
        Geometry::Point(pt(1.0, 2.0)),
        Geometry::LineString(line(&[(0.0, 0.0), (1.0, 1.0)])),
        Geometry::Polygon(Polygon::new(vec![line(&[
            (-1.0, -1.0),
            (-1.0, 0.0),
            (0.0, 0.0),
            (-1.0, -1.0),
        ])])),
        Geometry::MultiPoint(MultiPoint::new(vec![pt(10.0, 0.0), pt(1.0, 1.0)])),
        Geometry::MultiLineString(MultiLineString::new(vec![
            line(&[(10.0, 0.0), (1.0, 1.0)]),
            line(&[(0.0, 20.0), (0.0, 0.0)]),
        ])),
        Geometry::MultiPolygon(MultiPolygon::new(vec![
            Polygon::new(vec![line(&[(0.0, 0.0), (1.0, 1.0), (0.0, 1.0), (0.0, 0.0)])]),
            Polygon::new(vec![line(&[
                (-20.0, 0.0),
                (-20.0, 5.0),
                (0.0, 0.0),
                (-20.0, 0.0),
            ])]),
        ])),
        Geometry::GeometryCollection(GeometryCollection::new(vec![Geometry::Point(pt(
            1.0, -30.0,
        ))])),
    ]);
    let expected = rect(-20.0, -30.0, 10.0, 20.0);
    assert_eq!(expected, collection.bounds())
}

#[test]
fn center() {
    let bounds = rect(0.0, 0.0, 3.0, 3.0);
    assert_eq!(pt(1.5, 1.5), bounds.center());

    let node_2 = rect(2.0, 2.0, 3.0, 3.0);
    assert_eq!(pt(2.5, 2.5), node_2.center());
}

#[test]
fn negative() {
    let bounds = rect(1.0, 2.0, -3.0, -6.0);
    assert_eq!(pt(-1.0, -2.0), bounds.center());
}

#[test]
fn empty_bounds_take_the_first_point() {
    let mut b = Bounds::empty();
    b.extend_point(&LngLat::unscaled(5, -7));
    assert_eq!(b, Bounds::from_corners(&LngLat::unscaled(5, -7), &LngLat::unscaled(5, -7)));
    assert_eq!(b.unscaled_lng_width(), 0);
}

#[test]
fn width_spans_the_whole_range() {
    let b = Bounds::from_corners(
        &LngLat::unscaled(i32::MIN, -1),
        &LngLat::unscaled(i32::MAX, 1),
    );
    assert_eq!(b.unscaled_lng_width(), u32::MAX);
    assert_eq!(b.unscaled_lat_height(), 2);
}

#[test]
fn intersection_is_inclusive_of_edges() {
    let a = Bounds::from_corners(&LngLat::unscaled(0, 0), &LngLat::unscaled(10, 10));
    let touching = Bounds::from_corners(&LngLat::unscaled(10, 10), &LngLat::unscaled(20, 20));
    let apart = Bounds::from_corners(&LngLat::unscaled(11, 0), &LngLat::unscaled(20, 5));
    assert!(a.intersects(&touching));
    assert!(!a.intersects(&apart));
    assert!(!apart.intersects(&a));
}

#[test]
fn empty_collection_has_empty_bounds() {
    assert_eq!(GeometryCollection::new(vec![]).bounds(), Bounds::empty());
}
