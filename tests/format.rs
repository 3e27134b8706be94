use geomedea::codec::{get_header, get_node, get_page_header, put_header, put_node, put_page_header};
use geomedea::{Bounds, FeatureLocation, Header, LngLat, Node, PageHeader};

#[test]
fn serialize_header() {
    let header = Header {
        is_compressed: false,
        page_count: 1,
        feature_count: 3,
    };
    let mut output = vec![];
    put_header(&mut output, &header);
    let expected: &[u8] = &[
        0x00, 0x01, 0x00, 0x00, 0x00, 0x00, 0x00, 0x00, 0x00, 0x03, 0x00, 0x00, 0x00, 0x00, 0x00,
        0x00, 0x00,
    ];
    assert_eq!(expected, &output);
    assert_eq!(Some(header), get_header(&output, 0));
}

#[test]
fn header_flag_must_be_a_bool() {
    let mut bytes = vec![0u8; 17];
    bytes[0] = 2;
    assert_eq!(None, get_header(&bytes, 0));
    assert_eq!(None, get_header(&bytes[..16], 0));
}

#[test]
fn page_header_is_twelve_bytes() {
    let header = PageHeader::new(178, 200, 2);
    let mut output = vec![];
    put_page_header(&mut output, &header);
    assert_eq!(
        output,
        vec![0xB2, 0, 0, 0, 0xC8, 0, 0, 0, 2, 0, 0, 0]
    );
    let back = get_page_header(&output, 0).unwrap();
    assert_eq!(back.encoded_page_length(), 178);
    assert_eq!(back.decoded_page_length(), 200);
    assert_eq!(back.feature_count(), 2);
}

#[test]
fn node_is_twenty_eight_bytes() {
    let node = Node::leaf_node(
        Bounds::from_corners(&LngLat::unscaled(1, 2), &LngLat::unscaled(3, -4)),
        FeatureLocation {
            page_starting_offset: 60,
            feature_offset: 8,
        },
    );
    let mut output = vec![];
    put_node(&mut output, &node);
    assert_eq!(output.len(), Node::serialized_size());
    assert_eq!(
        output,
        vec![
            1, 0, 0, 0, 0xFC, 0xFF, 0xFF, 0xFF, 3, 0, 0, 0, 2, 0, 0, 0, 60, 0, 0, 0, 0, 0, 0, 0, 8,
            0, 0, 0
        ]
    );
    assert_eq!(Some(node), get_node(&output, 0));
}

#[test]
fn page_header_serialized_size() {
    assert_eq!(PageHeader::serialized_size(), 12);
}
