//! A cloud-optimized container for geographic vector features: a fixed
//! header, a packed R-tree index, and paged (optionally compressed) feature
//! records, with readers that walk the index and the pages.
use vstd::prelude::*;

pub mod bounds;
pub mod codec;
pub mod compression;
pub mod error;
pub mod feature;
pub mod feature_codec;
pub mod format;
pub mod geometry;
pub mod hilbert;
pub mod http;
pub mod index;
pub mod packed_r_tree;
pub mod reader;
pub mod writer;

pub use bounds::Bounds;
pub use error::Error;
pub use feature::{Feature, Properties, PropertyValue};
pub use format::{FeatureLocation, Header, PageHeader};
pub use geometry::{
    Geometry, GeometryCollection, LineString, LngLat, MultiLineString, MultiPoint, MultiPolygon,
    Polygon,
};
pub use index::PackedRTreeWriter;
pub use packed_r_tree::{Node, PackedRTree};
pub use reader::{FeatureIter, FileInfo, PackedRTreeReader, Reader};
pub use writer::{Page, Writer};

verus! {

} // verus!
