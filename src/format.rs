//! The fixed-size records of the container: file header, page header and the
//! address of a feature.
use vstd::prelude::*;

verus! {

/// Where a feature lives: the start of its page, counted from the first byte
/// after the index, and its offset within the decoded page.
#[derive(Clone, Copy, Debug, PartialEq, Eq, Structural)]
pub struct FeatureLocation {
    pub page_starting_offset: u64,
    pub feature_offset: u32,
}

/// The header that precedes each page's payload.
#[derive(Clone, Copy, Debug, PartialEq, Eq, Structural)]
pub struct PageHeader {
    /// Bytes of payload on disk.
    pub encoded_page_length: u32,
    /// Bytes of payload once decoded.
    pub decoded_page_length: u32,
    pub feature_count: u32,
}

/// The header at offset 0 of every file.
#[derive(Clone, Copy, Debug, PartialEq, Eq, Structural)]
pub struct Header {
    pub is_compressed: bool,
    pub page_count: u64,
    pub feature_count: u64,
}

impl PageHeader {
    pub fn new(encoded_page_length: u32, decoded_page_length: u32, feature_count: u32) -> (r: Self)
        ensures
            r == (PageHeader { encoded_page_length, decoded_page_length, feature_count }),
    {
        PageHeader { encoded_page_length, decoded_page_length, feature_count }
    }

    /// Bytes of a page header on disk, whatever it holds.
    pub fn serialized_size() -> (r: usize)
        ensures
            r == 12,
            forall|h: PageHeader| #[trigger] crate::codec::page_header_bytes(h).len() == r,
    {
        proof {
            assert forall|h: PageHeader| #[trigger] crate::codec::page_header_bytes(h).len() == 12 by {
                crate::codec::lemma_header_sizes(Header { is_compressed: false, page_count: 0, feature_count: 0 }, h);
            }
        }
        12
    }

    pub fn encoded_page_length(&self) -> (r: u32)
        ensures
            r == self.encoded_page_length,
    {
        self.encoded_page_length
    }

    pub fn feature_count(&self) -> (r: u32)
        ensures
            r == self.feature_count,
    {
        self.feature_count
    }

    pub fn decoded_page_length(&self) -> (r: u32)
        ensures
            r == self.decoded_page_length,
    {
        self.decoded_page_length
    }
}

} // verus!
