//! Axis-aligned rectangles in scaled units.
use crate::geometry::LngLat;
use vstd::prelude::*;

verus! {

/// An axis-aligned rectangle. A rectangle whose `min` lies above or to the
/// right of its `max` holds no point; [`Bounds::empty`] is the one that any
/// extension turns into the bounds of what it was extended by.
#[derive(Clone, Copy, Debug, PartialEq, Eq, Structural)]
pub struct Bounds {
    pub min: LngLat,
    pub max: LngLat,
}

pub open spec fn min_i32(a: i32, b: i32) -> i32 {
    if a <= b {
        a
    } else {
        b
    }
}

pub open spec fn max_i32(a: i32, b: i32) -> i32 {
    if a >= b {
        a
    } else {
        b
    }
}

/// The rectangle that `empty_bounds` stands for: `(MAX, MAX)-(MIN, MIN)`.
pub open spec fn empty_bounds() -> Bounds {
    Bounds {
        min: LngLat { lng: i32::MAX, lat: i32::MAX },
        max: LngLat { lng: i32::MIN, lat: i32::MIN },
    }
}

/// `b` grown just enough to hold `p`.
pub open spec fn extend_point_spec(b: Bounds, p: LngLat) -> Bounds {
    Bounds {
        min: LngLat { lng: min_i32(b.min.lng, p.lng), lat: min_i32(b.min.lat, p.lat) },
        max: LngLat { lng: max_i32(b.max.lng, p.lng), lat: max_i32(b.max.lat, p.lat) },
    }
}

/// `b` grown just enough to hold `o`.
pub open spec fn extend_spec(b: Bounds, o: Bounds) -> Bounds {
    Bounds {
        min: LngLat { lng: min_i32(b.min.lng, o.min.lng), lat: min_i32(b.min.lat, o.min.lat) },
        max: LngLat { lng: max_i32(b.max.lng, o.max.lng), lat: max_i32(b.max.lat, o.max.lat) },
    }
}

/// Neither rectangle lies strictly left, right, above or below the other.
pub open spec fn intersects_spec(a: Bounds, b: Bounds) -> bool {
    &&& a.max.lng >= b.min.lng
    &&& a.max.lat >= b.min.lat
    &&& a.min.lng <= b.max.lng
    &&& a.min.lat <= b.max.lat
}

/// The rectangle holds at least one point.
pub open spec fn is_proper(b: Bounds) -> bool {
    b.min.lng <= b.max.lng && b.min.lat <= b.max.lat
}

/// `inner` lies within `outer`.
pub open spec fn contains_spec(outer: Bounds, inner: Bounds) -> bool {
    &&& outer.min.lng <= inner.min.lng
    &&& outer.min.lat <= inner.min.lat
    &&& inner.max.lng <= outer.max.lng
    &&& inner.max.lat <= outer.max.lat
}

/// The point lies within the rectangle.
pub open spec fn holds_point(b: Bounds, p: LngLat) -> bool {
    b.min.lng <= p.lng <= b.max.lng && b.min.lat <= p.lat <= b.max.lat
}

/// The width or height of a span, as the 32-bit word that 64-bit subtraction
/// leaves when it is truncated.
pub open spec fn span_u32(lo: i32, hi: i32) -> u32 {
    ((hi as int - lo as int) % 0x1_0000_0000) as u32
}

/// The center of a proper rectangle, rounding toward its `min` corner.
pub open spec fn center_spec(b: Bounds) -> LngLat {
    LngLat {
        lng: (b.min.lng + (b.max.lng - b.min.lng) / 2) as i32,
        lat: (b.min.lat + (b.max.lat - b.min.lat) / 2) as i32,
    }
}

impl Bounds {
    pub fn min(&self) -> (r: &LngLat)
        ensures
            *r == self.min,
    {
        &self.min
    }

    pub fn max(&self) -> (r: &LngLat)
        ensures
            *r == self.max,
    {
        &self.max
    }

    pub fn unscaled_lng_width(&self) -> (r: u32)
        ensures
            r == span_u32(self.min.lng, self.max.lng),
            self.min.lng <= self.max.lng ==> r == self.max.lng - self.min.lng,
    {
        let d: i64 = self.max.lng as i64 - self.min.lng as i64;
        if d >= 0 {
            d as u32
        } else {
            (d + 0x1_0000_0000) as u32
        }
    }

    pub fn unscaled_lat_height(&self) -> (r: u32)
        ensures
            r == span_u32(self.min.lat, self.max.lat),
            self.min.lat <= self.max.lat ==> r == self.max.lat - self.min.lat,
    {
        let d: i64 = self.max.lat as i64 - self.min.lat as i64;
        if d >= 0 {
            d as u32
        } else {
            (d + 0x1_0000_0000) as u32
        }
    }

    pub fn empty() -> (r: Self)
        ensures
            r == empty_bounds(),
    {
        Bounds {
            min: LngLat { lng: i32::MAX, lat: i32::MAX },
            max: LngLat { lng: i32::MIN, lat: i32::MIN },
        }
    }

    /// The rectangle with corners `a` and `b`, whichever way round they are given.
    pub fn from_corners(a: &LngLat, b: &LngLat) -> (r: Self)
        ensures
            r.min.lng == min_i32(a.lng, b.lng),
            r.min.lat == min_i32(a.lat, b.lat),
            r.max.lng == max_i32(a.lng, b.lng),
            r.max.lat == max_i32(a.lat, b.lat),
    {
        let min_lng = if a.lng <= b.lng { a.lng } else { b.lng };
        let min_lat = if a.lat <= b.lat { a.lat } else { b.lat };
        let max_lng = if a.lng >= b.lng { a.lng } else { b.lng };
        let max_lat = if a.lat >= b.lat { a.lat } else { b.lat };
        Bounds { min: LngLat { lng: min_lng, lat: min_lat }, max: LngLat { lng: max_lng, lat: max_lat } }
    }

    pub fn extend(&mut self, other: &Bounds)
        ensures
            *final(self) == extend_spec(*old(self), *other),
    {
        if other.max.lng > self.max.lng {
            self.max.lng = other.max.lng;
        }
        if other.max.lat > self.max.lat {
            self.max.lat = other.max.lat;
        }
        if other.min.lng < self.min.lng {
            self.min.lng = other.min.lng;
        }
        if other.min.lat < self.min.lat {
            self.min.lat = other.min.lat;
        }
    }

    pub fn extend_point(&mut self, point: &LngLat)
        ensures
            *final(self) == extend_point_spec(*old(self), *point),
    {
        if point.lng > self.max.lng {
            self.max.lng = point.lng;
        }
        if point.lat > self.max.lat {
            self.max.lat = point.lat;
        }
        if point.lng < self.min.lng {
            self.min.lng = point.lng;
        }
        if point.lat < self.min.lat {
            self.min.lat = point.lat;
        }
    }

    /// The center of a proper rectangle; used only to order features.
    pub fn center(&self) -> (r: LngLat)
        requires
            is_proper(*self),
        ensures
            r == center_spec(*self),
            holds_point(*self, r),
    {
        let half_lng_width = self.unscaled_lng_width() / 2;
        let half_lat_height = self.unscaled_lat_height() / 2;
        let mid_lng = self.min.lng + half_lng_width as i32;
        let mid_lat = self.min.lat + half_lat_height as i32;
        LngLat { lng: mid_lng, lat: mid_lat }
    }

    pub fn intersects(&self, other: &Bounds) -> (r: bool)
        ensures
            r == intersects_spec(*self, *other),
    {
        if self.max.lng < other.min.lng {
            return false;
        }
        if self.max.lat < other.min.lat {
            return false;
        }
        if self.min.lng > other.max.lng {
            return false;
        }
        if self.min.lat > other.max.lat {
            return false;
        }
        true
    }
}

} // verus!
