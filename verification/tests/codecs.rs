use view::deploy::{object_request_path, upload_source_path};
use view::hexcode::{hex_decode, hex_encode};
use view::pathcode::{encode_segment, manifest_path, percent_decode};

#[test]
fn hex_encodes_lowercase_pairs() {
    assert_eq!(hex_encode(&[0x00, 0xab, 0xff]), b"00abff".to_vec());
    assert_eq!(hex_encode(&[]), Vec::<u8>::new());
}

#[test]
fn hex_matches_reference_encoder() {
    let data: Vec<u8> = (0u16..=255).map(|v| v as u8).collect();
    assert_eq!(hex_encode(&data), hex::encode(&data).into_bytes());
}

#[test]
fn hex_decodes_both_cases() {
    assert_eq!(hex_decode(b"00abff"), Some(vec![0x00, 0xab, 0xff]));
    assert_eq!(hex_decode(b"00ABFF"), Some(vec![0x00, 0xab, 0xff]));
    assert_eq!(hex_decode(b""), Some(Vec::new()));
}

#[test]
fn hex_rejects_odd_and_bad_digits() {
    assert_eq!(hex_decode(b"0"), None);
    assert_eq!(hex_decode(b"0g"), None);
    assert_eq!(hex_decode(b"zz"), None);
}

#[test]
fn hex_round_trips() {
    let data: Vec<u8> = (0u16..=255).map(|v| v as u8).collect();
    assert_eq!(hex_decode(&hex_encode(&data)), Some(data));
}

#[test]
fn percent_encodes_reserved_bytes() {
    assert_eq!(encode_segment(b"a b"), b"a%20b".to_vec());
    assert_eq!(encode_segment(b"a/b"), b"a%2Fb".to_vec());
    assert_eq!(encode_segment(b"index.html"), b"index.html".to_vec());
}

#[test]
fn percent_matches_reference_encoder() {
    let cases: [&str; 4] = ["hello world", "a/b?c&d", "-._~", "100%"];
    for case in cases {
        assert_eq!(
            encode_segment(case.as_bytes()),
            urlencoding::encode(case).as_bytes().to_vec()
        );
    }
}

#[test]
fn percent_decode_matches_reference_decoder() {
    let cases: [&str; 5] = ["a%20b", "a%2Fb", "100%", "%zz", "%4"];
    for case in cases {
        assert_eq!(
            percent_decode(case.as_bytes()),
            urlencoding::decode_binary(case.as_bytes()).into_owned()
        );
    }
}

#[test]
fn percent_decode_passes_malformed_escapes_through() {
    assert_eq!(percent_decode(b"%"), b"%".to_vec());
    assert_eq!(percent_decode(b"%4"), b"%4".to_vec());
    assert_eq!(percent_decode(b"%zz"), b"%zz".to_vec());
    assert_eq!(percent_decode(b"%4z"), b"%4z".to_vec());
}

#[test]
fn manifest_path_prefixes_each_segment() {
    let segments = vec![b"app".to_vec(), b"index.html".to_vec()];
    assert_eq!(manifest_path(&segments), b"/app/index.html".to_vec());
}

#[test]
fn manifest_path_escapes_inside_segments() {
    let segments = vec![b"a b".to_vec(), b"c/d".to_vec()];
    assert_eq!(manifest_path(&segments), b"/a%20b/c%2Fd".to_vec());
}

#[test]
fn path_encoding_round_trips_through_upload_lookup() {
    // a path with a space and a slash-sensitive byte in its segments
    let segments = vec![b"my docs".to_vec(), b"a/b.txt".to_vec()];
    let path = manifest_path(&segments);
    assert_eq!(path, b"/my%20docs/a%2Fb.txt".to_vec());
    // the deploy client reopens the file at the decoded relative path
    assert_eq!(upload_source_path(&path), b"my docs/a/b.txt".to_vec());
}

#[test]
fn object_request_path_is_hex_keyed() {
    let id = vec![0xab; 32];
    let path = object_request_path(&id);
    let expected = format!("v1/object/{}", hex::encode(&id));
    assert_eq!(path, expected.into_bytes());
}
