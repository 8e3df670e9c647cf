use roadnet::cache::{cache_file_name, decode_store, encode_store};
use roadnet::models::{Highway, HighwayNode};

fn tagged_node(id: i64, x: i64, y: i64, tags: Vec<(String, String)>) -> HighwayNode {
    HighwayNode { id, tags, x, y }
}

fn sample_store() -> Vec<Highway> {
    vec![
        Highway {
            id: -42,
            tags: vec![
                ("highway".to_string(), "primary".to_string()),
                ("name".to_string(), "Rue de l'Ete\u{301}".to_string()),
            ],
            nodes: vec![
                tagged_node(1, -5, 7, vec![("crossing".to_string(), "yes".to_string())]),
                tagged_node(2, 10, -20, Vec::new()),
            ],
        },
        Highway { id: 7, tags: Vec::new(), nodes: Vec::new() },
        Highway {
            id: i64::MAX,
            tags: vec![(String::new(), String::new())],
            nodes: vec![tagged_node(i64::MIN, i64::MAX, i64::MIN, Vec::new())],
        },
    ]
}

fn assert_same_store(a: &[Highway], b: &[Highway]) {
    assert_eq!(a.len(), b.len());
    for (x, y) in a.iter().zip(b.iter()) {
        assert_eq!(x.id, y.id);
        assert_eq!(x.tags, y.tags);
        assert_eq!(x.nodes.len(), y.nodes.len());
        for (m, n) in x.nodes.iter().zip(y.nodes.iter()) {
            assert_eq!(m.id, n.id);
            assert_eq!(m.x, n.x);
            assert_eq!(m.y, n.y);
            assert_eq!(m.tags, n.tags);
        }
    }
}

/// Writing the store and reading it back yields the same store: same
/// counts, same identities, same tags and coordinates.
#[test]
fn cache_round_trip() {
    let store = sample_store();
    let bytes = encode_store(&store);
    let back = decode_store(&bytes).expect("a fresh artifact must decode");
    assert_same_store(&store, &back);
}

/// An empty store survives the round trip too.
#[test]
fn cache_round_trip_empty() {
    let store: Vec<Highway> = Vec::new();
    let bytes = encode_store(&store);
    let back = decode_store(&bytes).expect("a fresh artifact must decode");
    assert!(back.is_empty());
}

/// A truncated artifact is rejected, never partially decoded.
#[test]
fn truncated_artifact_is_rejected() {
    let bytes = encode_store(&sample_store());
    for cut in [0, 1, 8, 16, bytes.len() - 1] {
        let short: Vec<u8> = bytes[..cut].to_vec();
        assert!(decode_store(&short).is_none());
    }
}

/// An artifact with trailing bytes is rejected.
#[test]
fn trailing_bytes_are_rejected() {
    let mut bytes = encode_store(&sample_store());
    bytes.push(0);
    assert!(decode_store(&bytes).is_none());
}

/// An artifact that does not start with the format tag is rejected.
#[test]
fn wrong_format_tag_is_rejected() {
    let mut bytes = encode_store(&sample_store());
    bytes[0] ^= 0xff;
    assert!(decode_store(&bytes).is_none());
}

/// A tag string whose bytes are not valid UTF-8 is rejected.
#[test]
fn corrupt_string_is_rejected() {
    let store = vec![Highway {
        id: 1,
        tags: vec![("k".to_string(), "v".to_string())],
        nodes: Vec::new(),
    }];
    let mut bytes = encode_store(&store);
    // the tag value's single UTF-8 byte sits just before the road's
    // final node-count word
    let value_byte = bytes.len() - 1 - 8;
    assert_eq!(bytes[value_byte], b'v');
    bytes[value_byte] = 0xff;
    assert!(decode_store(&bytes).is_none());
}

/// A flipped coordinate byte still decodes, but to a different store:
/// the artifact is read literally, nothing is silently repaired.
#[test]
fn flipped_byte_changes_the_store() {
    let store = vec![Highway {
        id: 1,
        tags: Vec::new(),
        nodes: vec![tagged_node(5, 1000, 2000, Vec::new())],
    }];
    let mut bytes = encode_store(&store);
    // the node's y coordinate occupies the words before its (empty) tags
    let y_low = bytes.len() - 8 - 8;
    bytes[y_low] ^= 0x01;
    let back = decode_store(&bytes).expect("well-formed bytes decode");
    assert_eq!(back[0].nodes[0].y, 2001);
}

/// An empty store's artifact is exactly the format tag and a zero count,
/// both as little-endian words.
#[test]
fn empty_store_bytes_are_exact() {
    let bytes = encode_store(&Vec::new());
    let mut expected: Vec<u8> = 0x3143414354454E52u64.to_le_bytes().to_vec();
    expected.extend_from_slice(&[0, 0, 0, 0, 0, 0, 0, 0]);
    assert_eq!(bytes, expected);
}

/// The cache artifact's name is the source name under the fixed prefix.
#[test]
fn cache_name_is_derived_from_source_name() {
    let name = cache_file_name("belgium-latest.osm.pbf");
    assert_eq!(name, "_cache.highway.belgium-latest.osm.pbf");
}
