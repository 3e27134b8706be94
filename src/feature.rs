//! Features: a geometry with an ordered map of typed properties.
use crate::geometry::Geometry;
use vstd::prelude::*;

verus! {

/// A typed property value. Floating-point values are held as their IEEE 754
/// bit patterns, which is also how they are stored.
#[derive(Debug, PartialEq)]
pub enum PropertyValue {
    Bool(bool),
    Int8(i8),
    UInt8(u8),
    Int16(i16),
    UInt16(u16),
    Int32(i32),
    UInt32(u32),
    Int64(i64),
    UInt64(u64),
    /// The bits of an `f32`.
    Float32(u32),
    /// The bits of an `f64`.
    Float64(u64),
    Bytes(Vec<u8>),
    String(String),
    Vec(Vec<PropertyValue>),
    Mapping(Properties),
}

/// An ordered mapping from names to values. Names are unique (`wf`) in a
/// mapping built with `empty` and `insert`, or by `from_entries`.
#[derive(Debug, PartialEq)]
pub struct Properties {
    pub entries: Vec<(String, PropertyValue)>,
}

/// Whether `name` is the name of one of `entries`.
pub open spec fn has_key(entries: Seq<(String, PropertyValue)>, name: Seq<char>) -> bool {
    exists|i: int| 0 <= i < entries.len() && (#[trigger] entries[i]).0@ == name
}

/// No two of `entries` share a name.
pub open spec fn keys_unique(entries: Seq<(String, PropertyValue)>) -> bool {
    forall|i: int, j: int|
        0 <= i < entries.len() && 0 <= j < entries.len() && i != j ==> (#[trigger] entries[i]).0@
            != (#[trigger] entries[j]).0@
}

impl View for Properties {
    /// The entries in insertion order.
    type V = Seq<(String, PropertyValue)>;

    open spec fn view(&self) -> Seq<(String, PropertyValue)> {
        self.entries@
    }
}

impl Properties {
    pub open spec fn wf(&self) -> bool {
        keys_unique(self.entries@)
    }

    pub fn empty() -> (r: Self)
        ensures
            r@ == Seq::<(String, PropertyValue)>::empty(),
            r.wf(),
    {
        Properties { entries: Vec::new() }
    }

    pub fn is_empty(&self) -> (r: bool)
        ensures
            r == (self@.len() == 0),
    {
        self.entries.len() == 0
    }

    /// Builds the mapping from entries already in order; `None` when two of
    /// them share a name.
    pub fn from_entries(entries: Vec<(String, PropertyValue)>) -> (r: Option<Self>)
        ensures
            r is Some <==> keys_unique(entries@),
            r matches Some(p) ==> p@ == entries@ && p.wf(),
    {
        let mut i: usize = 0;
        while i < entries.len()
            invariant
                i <= entries@.len(),
                forall|a: int, b: int|
                    0 <= a < i && 0 <= b < entries@.len() && a != b ==> (#[trigger] entries@[a]).0@
                        != (#[trigger] entries@[b]).0@,
            decreases entries@.len() - i,
        {
            let mut j: usize = 0;
            while j < entries.len()
                invariant
                    i < entries@.len(),
                    j <= entries@.len(),
                    forall|b: int|
                        0 <= b < j && b != i ==> (#[trigger] entries@[b]).0@ != entries@[i as int].0@,
                decreases entries@.len() - j,
            {
                if j != i && entries[j].0 == entries[i].0 {
                    return None;
                }
                j += 1;
            }
            i += 1;
        }
        Some(Properties { entries })
    }

    /// Position of the entry named `name`, if any.
    fn position(&self, name: &String) -> (r: Option<usize>)
        ensures
            r matches Some(i) ==> i < self@.len() && self@[i as int].0@ == name@,
            r is None ==> !has_key(self@, name@),
    {
        let mut i: usize = 0;
        while i < self.entries.len()
            invariant
                i <= self.entries@.len(),
                forall|k: int| 0 <= k < i ==> (#[trigger] self.entries@[k]).0@ != name@,
            decreases self.entries@.len() - i,
        {
            if self.entries[i].0 == *name {
                return Some(i);
            }
            i += 1;
        }
        None
    }

    pub fn contains_key(&self, name: &String) -> (r: bool)
        ensures
            r == has_key(self@, name@),
    {
        self.position(name).is_some()
    }

    /// Appends a property; the name must not be present yet.
    pub fn insert(&mut self, name: String, value: PropertyValue)
        requires
            old(self).wf(),
            !has_key(old(self)@, name@),
        ensures
            final(self).wf(),
            final(self)@ == old(self)@.push((name, value)),
    {
        self.entries.push((name, value));
    }

    /// The value named `name`, if any.
    pub fn get(&self, name: &String) -> (r: Option<&PropertyValue>)
        requires
            self.wf(),
        ensures
            !has_key(self@, name@) ==> r is None,
            has_key(self@, name@) ==> exists|i: int|
                0 <= i < self@.len() && (#[trigger] self@[i]).0@ == name@ && r == Some(&self@[i].1),
    {
        match self.position(name) {
            Some(i) => Some(&self.entries[i].1),
            None => None,
        }
    }

    /// The entries in order.
    pub fn iter(&self) -> (r: &[(String, PropertyValue)])
        ensures
            r@ == self@,
    {
        self.entries.as_slice()
    }

    pub fn into_entries(self) -> (r: Vec<(String, PropertyValue)>)
        ensures
            r@ == self@,
    {
        self.entries
    }
}

/// A geometry with its properties.
#[derive(Debug, PartialEq)]
pub struct Feature {
    pub geometry: Geometry,
    pub properties: Properties,
}

impl Feature {
    pub fn new(geometry: Geometry, properties: Properties) -> (r: Self)
        ensures
            r.geometry == geometry,
            r.properties == properties,
    {
        Feature { geometry, properties }
    }

    pub fn geometry(&self) -> (r: &Geometry)
        ensures
            *r == self.geometry,
    {
        &self.geometry
    }

    pub fn geometry_mut(&mut self) -> (r: &mut Geometry)
        ensures
            *r == old(self).geometry,
            *final(r) == final(self).geometry,
            final(self).properties == old(self).properties,
    {
        &mut self.geometry
    }

    pub fn properties(&self) -> (r: &Properties)
        ensures
            *r == self.properties,
    {
        &self.properties
    }

    pub fn insert_property(&mut self, name: String, value: PropertyValue)
        requires
            old(self).properties.wf(),
            !has_key(old(self).properties@, name@),
        ensures
            final(self).geometry == old(self).geometry,
            final(self).properties.wf(),
            final(self).properties@ == old(self).properties@.push((name, value)),
    {
        self.properties.insert(name, value);
    }

    pub fn property(&self, name: &String) -> (r: Option<&PropertyValue>)
        requires
            self.properties.wf(),
        ensures
            !has_key(self.properties@, name@) ==> r is None,
            has_key(self.properties@, name@) ==> exists|i: int|
                0 <= i < self.properties@.len() && (#[trigger] self.properties@[i]).0@ == name@
                    && r == Some(&self.properties@[i].1),
    {
        self.properties.get(name)
    }

    pub fn into_inner(self) -> (r: (Geometry, Properties))
        ensures
            r.0 == self.geometry,
            r.1 == self.properties,
    {
        (self.geometry, self.properties)
    }
}

} // verus!
