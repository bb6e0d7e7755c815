use view::blob::BlobStore;
use view::hexcode::hex_encode;
use view::manage::{register_commit, store_object, ManifestFile};
use view::serve::{handle_request, host_value, plan_request, Method, RequestPlan, Status};
use view::store::MetaStore;

/// A store serving `example.com` with one exact file `/a.txt` ("hi",
/// text) and two fallback files `/app/index.html` and `/index.html`.
fn fixture(created: i128) -> (MetaStore, BlobStore) {
    let mut store = MetaStore::new();
    let mut blobs = BlobStore::new();
    let cid = vec![0x11; 20];
    let files = vec![
        ManifestFile { path: b"/a.txt".to_vec(), object_id: vec![0xaa; 32], fallback: false },
        ManifestFile {
            path: b"/app/index.html".to_vec(),
            object_id: vec![0xbb; 32],
            fallback: true,
        },
        ManifestFile { path: b"/index.html".to_vec(), object_id: vec![0xcc; 32], fallback: true },
    ];
    register_commit(&mut store, &hex_encode(&cid), "deploy".to_string(), &files, created)
        .unwrap();
    store_object(&mut store, &mut blobs, &hex_encode(&vec![0xaa; 32]), &b"hi".to_vec()).unwrap();
    store_object(&mut store, &mut blobs, &hex_encode(&vec![0xbb; 32]), &b"<app>".to_vec())
        .unwrap();
    store_object(&mut store, &mut blobs, &hex_encode(&vec![0xcc; 32]), &b"<root>".to_vec())
        .unwrap();
    store.add_environment(1, "prod".to_string(), b"example.com".to_vec(), &cid).unwrap();
    (store, blobs)
}

fn host() -> Option<Vec<u8>> {
    Some(b"example.com".to_vec())
}

#[test]
fn exact_match_serves_the_bytes() {
    let (store, blobs) = fixture(0);
    let r = handle_request(&store, &blobs, Method::Get, &host(), b"/a.txt", &None);
    assert_eq!(r.status, Status::Okay);
    assert_eq!(r.body, b"hi".to_vec());
    assert_eq!(r.content_length, Some(2));
    assert_eq!(r.content_type, Some(b"text/plain".to_vec()));
}

#[test]
fn round_trip_preserves_bytes_and_length() {
    let mut store = MetaStore::new();
    let mut blobs = BlobStore::new();
    let cid = vec![0x42; 20];
    let id: Vec<u8> = (100u8..132).collect();
    let files = vec![ManifestFile {
        path: b"/blob.bin".to_vec(),
        object_id: id.clone(),
        fallback: false,
    }];
    register_commit(&mut store, &hex_encode(&cid), "d".to_string(), &files, 0).unwrap();
    let body: Vec<u8> = (0u16..=300).map(|v| (v % 251) as u8).collect();
    store_object(&mut store, &mut blobs, &hex_encode(&id), &body).unwrap();
    store.add_environment(1, "prod".to_string(), b"example.com".to_vec(), &cid).unwrap();
    let r = handle_request(&store, &blobs, Method::Get, &host(), b"/blob.bin", &None);
    assert_eq!(r.status, Status::Okay);
    assert_eq!(r.body, body);
    assert_eq!(r.content_length, Some(body.len() as u64));
}

#[test]
fn fallback_prefers_the_deeper_prefix() {
    let (store, blobs) = fixture(0);
    // both fallback files match, but /app/ leaves the shorter suffix
    let r = handle_request(&store, &blobs, Method::Get, &host(), b"/app/sub/page", &None);
    assert_eq!(r.status, Status::Okay);
    assert_eq!(r.body, b"<app>".to_vec());
    assert_eq!(r.content_type, Some(b"text/html".to_vec()));
}

#[test]
fn fallback_reaches_the_root_candidate() {
    let (store, blobs) = fixture(0);
    let r = handle_request(&store, &blobs, Method::Get, &host(), b"/elsewhere", &None);
    assert_eq!(r.status, Status::Okay);
    assert_eq!(r.body, b"<root>".to_vec());
}

#[test]
fn unknown_path_without_fallback_is_not_found() {
    let mut store = MetaStore::new();
    let mut blobs = BlobStore::new();
    let cid = vec![0x11; 20];
    let files = vec![ManifestFile {
        path: b"/app/index.html".to_vec(),
        object_id: vec![0xbb; 32],
        fallback: true,
    }];
    register_commit(&mut store, &hex_encode(&cid), "d".to_string(), &files, 0).unwrap();
    store_object(&mut store, &mut blobs, &hex_encode(&vec![0xbb; 32]), &b"<app>".to_vec())
        .unwrap();
    store.add_environment(1, "prod".to_string(), b"example.com".to_vec(), &cid).unwrap();
    // the only candidate's prefix /app/ does not cover /missing
    let r = handle_request(&store, &blobs, Method::Get, &host(), b"/missing", &None);
    assert_eq!(r.status, Status::NotFound);
    assert_eq!(r.body, Vec::<u8>::new());
}

#[test]
fn unknown_domain_is_not_found() {
    let (store, blobs) = fixture(0);
    let other = Some(b"nobody.example".to_vec());
    let r = handle_request(&store, &blobs, Method::Get, &other, b"/a.txt", &None);
    assert_eq!(r.status, Status::NotFound);
}

#[test]
fn non_get_is_method_not_allowed() {
    let (store, blobs) = fixture(0);
    let r = handle_request(&store, &blobs, Method::Other, &host(), b"/a.txt", &None);
    assert_eq!(r.status, Status::MethodNotAllowed);
}

#[test]
fn host_port_is_stripped() {
    let (store, blobs) = fixture(0);
    let with_port = Some(b"example.com:8080".to_vec());
    let r = handle_request(&store, &blobs, Method::Get, &with_port, b"/a.txt", &None);
    assert_eq!(r.status, Status::Okay);
    assert_eq!(host_value(&None), b"localhost".to_vec());
}

#[test]
fn conditional_get_at_or_after_creation_is_not_modified() {
    let (store, blobs) = fixture(0);
    // one second after the epoch creation instant
    let ims = Some(b"Thu, 01 Jan 1970 00:00:01 +0000".to_vec());
    let r = handle_request(&store, &blobs, Method::Get, &host(), b"/a.txt", &ims);
    assert_eq!(r.status, Status::NotModified);
    assert_eq!(r.body, Vec::<u8>::new());
    assert_eq!(r.content_length, None);
}

#[test]
fn conditional_get_before_creation_serves() {
    let (store, blobs) = fixture(0);
    let ims = Some(b"Wed, 31 Dec 1969 23:59:59 +0000".to_vec());
    let r = handle_request(&store, &blobs, Method::Get, &host(), b"/a.txt", &ims);
    assert_eq!(r.status, Status::Okay);
    assert_eq!(r.body, b"hi".to_vec());
}

#[test]
fn unparseable_conditional_header_is_bad_request() {
    let (store, blobs) = fixture(0);
    let ims = Some(b"not a date".to_vec());
    let r = handle_request(&store, &blobs, Method::Get, &host(), b"/a.txt", &ims);
    assert_eq!(r.status, Status::BadRequest);
}

#[test]
fn unreadable_conditional_header_is_ignored() {
    let (store, blobs) = fixture(0);
    let ims = Some(vec![0xff, 0xfe]);
    let r = handle_request(&store, &blobs, Method::Get, &host(), b"/a.txt", &ims);
    assert_eq!(r.status, Status::Okay);
}

#[test]
fn last_modified_is_the_http_date() {
    let (store, blobs) = fixture(0);
    let r = handle_request(&store, &blobs, Method::Get, &host(), b"/a.txt", &None);
    assert_eq!(r.last_modified, Some(b"Thu, 01 Jan 1970 00:00:00 GMT".to_vec()));
}

#[test]
fn extensionless_path_serves_octet_stream() {
    let mut store = MetaStore::new();
    let mut blobs = BlobStore::new();
    let cid = vec![0x11; 20];
    let files = vec![ManifestFile { path: b"/raw".to_vec(), object_id: vec![0xaa; 32], fallback: false }];
    register_commit(&mut store, &hex_encode(&cid), "d".to_string(), &files, 0).unwrap();
    store_object(&mut store, &mut blobs, &hex_encode(&vec![0xaa; 32]), &b"x".to_vec()).unwrap();
    store.add_environment(1, "prod".to_string(), b"example.com".to_vec(), &cid).unwrap();
    let r = handle_request(&store, &blobs, Method::Get, &host(), b"/raw", &None);
    assert_eq!(r.content_type, Some(b"application/octet-stream".to_vec()));
}

#[test]
fn missing_blob_is_a_server_fault() {
    let mut store = MetaStore::new();
    let blobs = BlobStore::new();
    let cid = vec![0x11; 20];
    let files = vec![ManifestFile { path: b"/a".to_vec(), object_id: vec![0xaa; 32], fallback: false }];
    register_commit(&mut store, &hex_encode(&cid), "d".to_string(), &files, 0).unwrap();
    store.add_environment(1, "prod".to_string(), b"example.com".to_vec(), &cid).unwrap();
    // registered but never uploaded: metadata without bytes
    let r = handle_request(&store, &blobs, Method::Get, &host(), b"/a", &None);
    assert_eq!(r.status, Status::ServerError);
}

#[test]
fn plan_names_the_sharded_location() {
    let (store, _blobs) = fixture(0);
    let plan = plan_request(&store, Method::Get, &host(), b"/a.txt", &None);
    match plan {
        RequestPlan::Stream { dir, name, content_length, .. } => {
            assert_eq!(dir, b"aa".to_vec());
            assert_eq!(name, hex_encode(&vec![0xaa; 31]));
            assert_eq!(content_length, Some(2));
        },
        RequestPlan::Respond(_) => panic!("expected a streaming plan"),
    }
}
