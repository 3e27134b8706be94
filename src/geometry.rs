//! Scaled coordinates and the seven geometry kinds.
use crate::bounds::{empty_bounds, extend_point_spec, extend_spec, Bounds};
use vstd::prelude::*;

verus! {

/// A longitude/latitude pair in units of 10^-7 degrees.
#[derive(Clone, Copy, Debug, PartialEq, Eq, Structural)]
pub struct LngLat {
    pub lng: i32,
    pub lat: i32,
}

/// Number of scaled units in one degree.
pub const COORD_SCALE_FACTOR: i64 = 10_000_000;

impl LngLat {
    pub fn unscaled(lng: i32, lat: i32) -> (r: Self)
        ensures
            r.lng == lng,
            r.lat == lat,
    {
        LngLat { lng, lat }
    }

    pub fn lng_unscaled(&self) -> (r: i32)
        ensures
            r == self.lng,
    {
        self.lng
    }

    pub fn lat_unscaled(&self) -> (r: i32)
        ensures
            r == self.lat,
    {
        self.lat
    }

    pub fn set_lng_unscaled(&mut self, unscaled_value: i32)
        ensures
            final(self).lng == unscaled_value,
            final(self).lat == old(self).lat,
    {
        self.lng = unscaled_value;
    }

    pub fn set_lat_unscaled(&mut self, unscaled_value: i32)
        ensures
            final(self).lat == unscaled_value,
            final(self).lng == old(self).lng,
    {
        self.lat = unscaled_value;
    }
}

/// An ordered sequence of coordinates.
#[derive(Clone, Debug, PartialEq, Eq)]
pub struct LineString(pub Vec<LngLat>);

/// An ordered sequence of rings; the first is the exterior.
#[derive(Clone, Debug, PartialEq, Eq)]
pub struct Polygon(pub Vec<LineString>);

#[derive(Clone, Debug, PartialEq, Eq)]
pub struct MultiPoint(pub Vec<LngLat>);

#[derive(Clone, Debug, PartialEq, Eq)]
pub struct MultiLineString(pub Vec<LineString>);

#[derive(Clone, Debug, PartialEq, Eq)]
pub struct MultiPolygon(pub Vec<Polygon>);

#[derive(Debug, PartialEq, Eq)]
pub struct GeometryCollection(pub Vec<Geometry>);

/// One of the seven geometry kinds.
#[derive(Debug, PartialEq, Eq)]
pub enum Geometry {
    Point(LngLat),
    LineString(LineString),
    Polygon(Polygon),
    MultiPoint(MultiPoint),
    MultiLineString(MultiLineString),
    MultiPolygon(MultiPolygon),
    GeometryCollection(GeometryCollection),
}

impl Clone for GeometryCollection {
    fn clone(&self) -> (r: Self)
        decreases self, 1nat,
    {
        let mut out: Vec<Geometry> = Vec::new();
        let mut i: usize = 0;
        while i < self.0.len()
            invariant
                i <= self.0@.len(),
            decreases self.0@.len() - i,
        {
            proof {
                assert(decreases_to!(self => self.0@[i as int]));
            }
            out.push(self.0[i].clone());
            i += 1;
        }
        GeometryCollection(out)
    }
}

impl Clone for Geometry {
    fn clone(&self) -> (r: Self)
        decreases self, 0nat,
    {
        match self {
            Geometry::Point(p) => Geometry::Point(*p),
            Geometry::LineString(ls) => Geometry::LineString(ls.clone()),
            Geometry::Polygon(poly) => Geometry::Polygon(poly.clone()),
            Geometry::MultiPoint(mp) => Geometry::MultiPoint(mp.clone()),
            Geometry::MultiLineString(mls) => Geometry::MultiLineString(mls.clone()),
            Geometry::MultiPolygon(mpoly) => Geometry::MultiPolygon(mpoly.clone()),
            Geometry::GeometryCollection(gc) => Geometry::GeometryCollection(gc.clone()),
        }
    }
}

/// `b` extended by each point of `pts` in turn.
pub open spec fn points_extend(b: Bounds, pts: Seq<LngLat>) -> Bounds
    decreases pts.len(),
{
    if pts.len() == 0 {
        b
    } else {
        extend_point_spec(points_extend(b, pts.drop_last()), pts.last())
    }
}

/// `b` extended by each point of each line string of `lines` in turn.
pub open spec fn lines_extend(b: Bounds, lines: Seq<LineString>) -> Bounds
    decreases lines.len(),
{
    if lines.len() == 0 {
        b
    } else {
        points_extend(lines_extend(b, lines.drop_last()), lines.last().0@)
    }
}

/// `b` extended by each ring of each polygon of `polys` in turn.
pub open spec fn polygons_extend(b: Bounds, polys: Seq<Polygon>) -> Bounds
    decreases polys.len(),
{
    if polys.len() == 0 {
        b
    } else {
        lines_extend(polygons_extend(b, polys.drop_last()), polys.last().0@)
    }
}

/// `b` extended by every coordinate of `g`, in storage order.
pub open spec fn geometry_extend(b: Bounds, g: Geometry) -> Bounds
    decreases g,
{
    match g {
        Geometry::Point(p) => extend_point_spec(b, p),
        Geometry::LineString(ls) => points_extend(b, ls.0@),
        Geometry::Polygon(poly) => lines_extend(b, poly.0@),
        Geometry::MultiPoint(mp) => points_extend(b, mp.0@),
        Geometry::MultiLineString(mls) => lines_extend(b, mls.0@),
        Geometry::MultiPolygon(mpoly) => polygons_extend(b, mpoly.0@),
        Geometry::GeometryCollection(gc) => geometries_extend(b, gc.0@),
    }
}

/// `b` extended by each geometry of `gs` in turn.
pub open spec fn geometries_extend(b: Bounds, gs: Seq<Geometry>) -> Bounds
    decreases gs,
{
    if gs.len() == 0 {
        b
    } else {
        geometry_extend(geometries_extend(b, gs.drop_last()), gs.last())
    }
}

/// The bounding rectangle of a geometry.
pub open spec fn geometry_bounds(g: Geometry) -> Bounds {
    geometry_extend(empty_bounds(), g)
}

fn extend_by_points(pts: &Vec<LngLat>, bounds: &mut Bounds)
    ensures
        *final(bounds) == points_extend(*old(bounds), pts@),
{
    let mut i: usize = 0;
    while i < pts.len()
        invariant
            i <= pts@.len(),
            *bounds == points_extend(*old(bounds), pts@.subrange(0, i as int)),
        decreases pts@.len() - i,
    {
        proof {
            assert(pts@.subrange(0, i as int + 1).drop_last() == pts@.subrange(0, i as int));
        }
        bounds.extend_point(&pts[i]);
        i += 1;
    }
    proof {
        assert(pts@.subrange(0, i as int) == pts@);
    }
}

fn extend_by_lines(lines: &Vec<LineString>, bounds: &mut Bounds)
    ensures
        *final(bounds) == lines_extend(*old(bounds), lines@),
{
    let mut i: usize = 0;
    while i < lines.len()
        invariant
            i <= lines@.len(),
            *bounds == lines_extend(*old(bounds), lines@.subrange(0, i as int)),
        decreases lines@.len() - i,
    {
        proof {
            assert(lines@.subrange(0, i as int + 1).drop_last() == lines@.subrange(0, i as int));
        }
        extend_by_points(&lines[i].0, bounds);
        i += 1;
    }
    proof {
        assert(lines@.subrange(0, i as int) == lines@);
    }
}

fn extend_by_polygons(polys: &Vec<Polygon>, bounds: &mut Bounds)
    ensures
        *final(bounds) == polygons_extend(*old(bounds), polys@),
{
    let mut i: usize = 0;
    while i < polys.len()
        invariant
            i <= polys@.len(),
            *bounds == polygons_extend(*old(bounds), polys@.subrange(0, i as int)),
        decreases polys@.len() - i,
    {
        proof {
            assert(polys@.subrange(0, i as int + 1).drop_last() == polys@.subrange(0, i as int));
        }
        extend_by_lines(&polys[i].0, bounds);
        i += 1;
    }
    proof {
        assert(polys@.subrange(0, i as int) == polys@);
    }
}

fn extend_by_geometries(gs: &Vec<Geometry>, bounds: &mut Bounds)
    ensures
        *final(bounds) == geometries_extend(*old(bounds), gs@),
    decreases gs@,
{
    let mut i: usize = 0;
    while i < gs.len()
        invariant
            i <= gs@.len(),
            *bounds == geometries_extend(*old(bounds), gs@.subrange(0, i as int)),
        decreases gs@.len() - i,
    {
        proof {
            assert(gs@.subrange(0, i as int + 1).drop_last() == gs@.subrange(0, i as int));
        }
        gs[i].extend_bounds(bounds);
        i += 1;
    }
    proof {
        assert(gs@.subrange(0, i as int) == gs@);
    }
}

impl Geometry {
    /// Grows `bounds` by every coordinate of this geometry.
    pub fn extend_bounds(&self, bounds: &mut Bounds)
        ensures
            *final(bounds) == geometry_extend(*old(bounds), *self),
        decreases self,
    {
        match self {
            Geometry::Point(p) => bounds.extend_point(p),
            Geometry::LineString(ls) => extend_by_points(&ls.0, bounds),
            Geometry::Polygon(poly) => extend_by_lines(&poly.0, bounds),
            Geometry::MultiPoint(mp) => extend_by_points(&mp.0, bounds),
            Geometry::MultiLineString(mls) => extend_by_lines(&mls.0, bounds),
            Geometry::MultiPolygon(mpoly) => extend_by_polygons(&mpoly.0, bounds),
            Geometry::GeometryCollection(gc) => {
                proof {
                    assert(decreases_to!(*self => gc.0@));
                }
                extend_by_geometries(&gc.0, bounds)
            },
        }
    }

    /// The bounding rectangle of this geometry.
    pub fn bounds(&self) -> (r: Bounds)
        ensures
            r == geometry_bounds(*self),
    {
        let mut b = Bounds::empty();
        self.extend_bounds(&mut b);
        b
    }
}

impl LineString {
    pub fn new(points: Vec<LngLat>) -> (r: Self)
        ensures
            r.0@ == points@,
    {
        LineString(points)
    }

    pub fn points_len(&self) -> (r: usize)
        ensures
            r == self.0@.len(),
    {
        self.0.len()
    }

    pub fn points(&self) -> (r: &[LngLat])
        ensures
            r@ == self.0@,
    {
        self.0.as_slice()
    }

    pub fn push_point(&mut self, point: LngLat)
        ensures
            final(self).0@ == old(self).0@.push(point),
    {
        self.0.push(point);
    }
}

impl Polygon {
    pub fn new(rings: Vec<LineString>) -> (r: Self)
        ensures
            r.0@ == rings@,
    {
        Polygon(rings)
    }

    pub fn rings(&self) -> (r: &[LineString])
        ensures
            r@ == self.0@,
    {
        self.0.as_slice()
    }

    pub fn rings_mut(&mut self) -> (r: &mut [LineString])
        ensures
            r@ == old(self).0@,
            final(r)@ == final(self).0@,
    {
        self.0.as_mut_slice()
    }

    pub fn push_ring(&mut self, ring: LineString)
        ensures
            final(self).0@ == old(self).0@.push(ring),
    {
        self.0.push(ring);
    }
}

impl MultiPoint {
    pub fn new(points: Vec<LngLat>) -> (r: Self)
        ensures
            r.0@ == points@,
    {
        MultiPoint(points)
    }

    pub fn points(&self) -> (r: &[LngLat])
        ensures
            r@ == self.0@,
    {
        self.0.as_slice()
    }

    pub fn push(&mut self, point: LngLat)
        ensures
            final(self).0@ == old(self).0@.push(point),
    {
        self.0.push(point);
    }
}

impl MultiLineString {
    pub fn new(line_strings: Vec<LineString>) -> (r: Self)
        ensures
            r.0@ == line_strings@,
    {
        MultiLineString(line_strings)
    }

    pub fn push(&mut self, line_string: LineString)
        ensures
            final(self).0@ == old(self).0@.push(line_string),
    {
        self.0.push(line_string);
    }

    pub fn line_strings(&self) -> (r: &[LineString])
        ensures
            r@ == self.0@,
    {
        self.0.as_slice()
    }

    pub fn first(&self) -> (r: Option<&LineString>)
        ensures
            self.0@.len() == 0 ==> r is None,
            self.0@.len() > 0 ==> r == Some(&self.0@[0]),
    {
        if self.0.len() == 0 {
            None
        } else {
            Some(&self.0[0])
        }
    }

    pub fn first_mut(&mut self) -> (r: Option<&mut LineString>)
        ensures
            old(self).0@.len() == 0 ==> r is None && final(self).0@ == old(self).0@,
            old(self).0@.len() > 0 ==> (r matches Some(l) && *l == old(self).0@[0]
                && final(self).0@ == old(self).0@.update(0, *final(l))),
    {
        self.0.first_mut()
    }

    pub fn last_mut(&mut self) -> (r: Option<&mut LineString>)
        ensures
            old(self).0@.len() == 0 ==> r is None && final(self).0@ == old(self).0@,
            old(self).0@.len() > 0 ==> (r matches Some(l) && *l == old(self).0@.last()
                && final(self).0@ == old(self).0@.update(old(self).0@.len() - 1, *final(l))),
    {
        self.0.last_mut()
    }

    pub fn last(&self) -> (r: Option<&LineString>)
        ensures
            self.0@.len() == 0 ==> r is None,
            self.0@.len() > 0 ==> r == Some(&self.0@.last()),
    {
        let n = self.0.len();
        if n == 0 {
            None
        } else {
            Some(&self.0[n - 1])
        }
    }
}

impl MultiPolygon {
    pub fn new(polygons: Vec<Polygon>) -> (r: Self)
        ensures
            r.0@ == polygons@,
    {
        MultiPolygon(polygons)
    }

    pub fn push(&mut self, polygon: Polygon)
        ensures
            final(self).0@ == old(self).0@.push(polygon),
    {
        self.0.push(polygon);
    }

    pub fn polygons_mut(&mut self) -> (r: &mut [Polygon])
        ensures
            r@ == old(self).0@,
            final(r)@ == final(self).0@,
    {
        self.0.as_mut_slice()
    }

    pub fn polygons(&self) -> (r: &[Polygon])
        ensures
            r@ == self.0@,
    {
        self.0.as_slice()
    }
}

impl GeometryCollection {
    pub fn new(geometries: Vec<Geometry>) -> (r: Self)
        ensures
            r.0@ == geometries@,
    {
        GeometryCollection(geometries)
    }

    pub fn push(&mut self, geometry: Geometry)
        ensures
            final(self).0@ == old(self).0@.push(geometry),
    {
        self.0.push(geometry);
    }

    pub fn pop(&mut self) -> (r: Option<Geometry>)
        ensures
            old(self).0@.len() == 0 ==> r is None && final(self).0@ == old(self).0@,
            old(self).0@.len() > 0 ==> r == Some(old(self).0@.last())
                && final(self).0@ == old(self).0@.drop_last(),
    {
        self.0.pop()
    }

    pub fn geometries_mut(&mut self) -> (r: &mut [Geometry])
        ensures
            r@ == old(self).0@,
            final(r)@ == final(self).0@,
    {
        self.0.as_mut_slice()
    }

    pub fn geometries(&self) -> (r: &[Geometry])
        ensures
            r@ == self.0@,
    {
        self.0.as_slice()
    }

    /// The rectangle that holds every member geometry.
    pub fn bounds(&self) -> (r: Bounds)
        ensures
            r == geometries_extend(empty_bounds(), self.0@),
    {
        let mut bounds = Bounds::empty();
        let mut i: usize = 0;
        while i < self.0.len()
            invariant
                i <= self.0@.len(),
                bounds == geometries_extend(empty_bounds(), self.0@.subrange(0, i as int)),
            decreases self.0@.len() - i,
        {
            proof {
                assert(self.0@.subrange(0, i as int + 1).drop_last() == self.0@.subrange(0, i as int));
            }
            self.0[i].extend_bounds(&mut bounds);
            i += 1;
        }
        proof {
            assert(self.0@.subrange(0, i as int) == self.0@);
        }
        bounds
    }
}

} // verus!
