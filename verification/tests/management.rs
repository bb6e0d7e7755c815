use view::blob::BlobStore;
use view::deploy::{build_manifest, upload_plan, SourceFile};
use view::hexcode::hex_encode;
use view::manage::{register_commit, store_object, CommitError, ManifestFile, UploadError};
use view::store::{EnvError, MetaStore};

fn commit_hex(fill: u8) -> Vec<u8> {
    hex_encode(&vec![fill; 20])
}

#[test]
fn manifest_digest_is_sha256() {
    let files = vec![SourceFile { segments: vec![b"a.txt".to_vec()], data: b"hi".to_vec() }];
    let manifest = build_manifest(&files, &Vec::new());
    assert_eq!(manifest.len(), 1);
    assert_eq!(
        hex_encode(&manifest[0].object_id),
        b"8f434346648f6b96df89dda901c5176b10a6d83961dd3c1ac88b59b2dc327aa4".to_vec()
    );
    assert_eq!(manifest[0].path, b"/a.txt".to_vec());
    assert!(!manifest[0].fallback);
}

#[test]
fn manifest_marks_fallback_paths() {
    let files = vec![SourceFile {
        segments: vec![b"app".to_vec(), b"index.html".to_vec()],
        data: b"<html>".to_vec(),
    }];
    let fallbacks = vec![b"/app/index.html".to_vec()];
    let manifest = build_manifest(&files, &fallbacks);
    assert!(manifest[0].fallback);
}

#[test]
fn registration_answers_unknown_hashes_only() {
    let mut store = MetaStore::new();
    let entry = ManifestFile {
        path: b"/a.txt".to_vec(),
        object_id: vec![0xaa; 32],
        fallback: false,
    };
    let needed =
        register_commit(&mut store, &commit_hex(0x11), "first".to_string(), &vec![entry], 7)
            .unwrap();
    assert_eq!(needed.len(), 1);
    assert_eq!(needed[0].path, b"/a.txt".to_vec());
    assert_eq!(store.commits.len(), 1);
    assert_eq!(store.objects.len(), 1);
    assert_eq!(store.files.len(), 1);
    assert_eq!(store.objects[0].size, None);
    assert_eq!(store.objects[0].created, 7);
}

#[test]
fn dedup_shares_objects_across_commits() {
    let mut store = MetaStore::new();
    let first = ManifestFile {
        path: b"/a.txt".to_vec(),
        object_id: vec![0xaa; 32],
        fallback: false,
    };
    register_commit(&mut store, &commit_hex(0x11), "first".to_string(), &vec![first], 0).unwrap();
    // a second commit publishes the same bytes under another path
    let second = ManifestFile {
        path: b"/copy.txt".to_vec(),
        object_id: vec![0xaa; 32],
        fallback: false,
    };
    let needed =
        register_commit(&mut store, &commit_hex(0x22), "second".to_string(), &vec![second], 1)
            .unwrap();
    // the shared hash needs no upload and has exactly one object row
    assert_eq!(needed.len(), 0);
    assert_eq!(store.object_count(&vec![0xaa; 32]), 1);
    assert_eq!(store.files.len(), 2);
}

#[test]
fn dedup_within_one_manifest() {
    let mut store = MetaStore::new();
    let a = ManifestFile { path: b"/a".to_vec(), object_id: vec![0xaa; 32], fallback: false };
    let b = ManifestFile { path: b"/b".to_vec(), object_id: vec![0xaa; 32], fallback: false };
    let needed =
        register_commit(&mut store, &commit_hex(0x11), "one".to_string(), &vec![a, b], 0).unwrap();
    // only the first entry bearing the hash is asked for
    assert_eq!(needed.len(), 1);
    assert_eq!(needed[0].path, b"/a".to_vec());
    assert_eq!(store.object_count(&vec![0xaa; 32]), 1);
}

#[test]
fn duplicate_commit_is_atomic() {
    let mut store = MetaStore::new();
    let first = ManifestFile {
        path: b"/a.txt".to_vec(),
        object_id: vec![0xaa; 32],
        fallback: false,
    };
    register_commit(&mut store, &commit_hex(0x11), "first".to_string(), &vec![first], 0).unwrap();
    let objects_before = store.objects.len();
    let files_before = store.files.len();
    let commits_before = store.commits.len();
    // resubmitting the same commit id fails and leaves nothing behind
    let again = ManifestFile {
        path: b"/other.txt".to_vec(),
        object_id: vec![0xbb; 32],
        fallback: false,
    };
    let r = register_commit(&mut store, &commit_hex(0x11), "again".to_string(), &vec![again], 1);
    assert_eq!(r.unwrap_err(), CommitError::DuplicateCommit);
    assert_eq!(store.objects.len(), objects_before);
    assert_eq!(store.files.len(), files_before);
    assert_eq!(store.commits.len(), commits_before);
    assert_eq!(store.object_count(&vec![0xbb; 32]), 0);
}

#[test]
fn malformed_commit_id_is_refused() {
    let mut store = MetaStore::new();
    let r = register_commit(&mut store, b"xyz", "bad".to_string(), &Vec::new(), 0);
    assert_eq!(r.unwrap_err(), CommitError::MalformedCommitId);
    // 40 hex digits are required: 64 are too many
    let r = register_commit(&mut store, &hex_encode(&vec![0x11; 32]), "bad".to_string(), &Vec::new(), 0);
    assert_eq!(r.unwrap_err(), CommitError::MalformedCommitId);
}

#[test]
fn malformed_object_id_is_refused() {
    let mut store = MetaStore::new();
    let entry = ManifestFile { path: b"/a".to_vec(), object_id: vec![0xaa; 16], fallback: false };
    let r = register_commit(&mut store, &commit_hex(0x11), "bad".to_string(), &vec![entry], 0);
    assert_eq!(r.unwrap_err(), CommitError::MalformedObjectId);
    assert_eq!(store.commits.len(), 0);
}

#[test]
fn repeated_manifest_entry_is_refused() {
    let mut store = MetaStore::new();
    let a = ManifestFile { path: b"/a".to_vec(), object_id: vec![0xaa; 32], fallback: false };
    let b = ManifestFile { path: b"/a".to_vec(), object_id: vec![0xaa; 32], fallback: true };
    let r = register_commit(&mut store, &commit_hex(0x11), "dup".to_string(), &vec![a, b], 0);
    assert_eq!(r.unwrap_err(), CommitError::DuplicateFile);
    assert_eq!(store.commits.len(), 0);
}

#[test]
fn upload_fills_size_and_bytes() {
    let mut store = MetaStore::new();
    let mut blobs = BlobStore::new();
    let id: Vec<u8> = (0u8..32).collect();
    let entry = ManifestFile { path: b"/a".to_vec(), object_id: id.clone(), fallback: false };
    register_commit(&mut store, &commit_hex(0x11), "c".to_string(), &vec![entry], 0).unwrap();
    let body = b"some file content".to_vec();
    store_object(&mut store, &mut blobs, &hex_encode(&id), &body).unwrap();
    assert_eq!(store.objects[0].size, Some(body.len() as u64));
    // re-uploading the same object is idempotent
    store_object(&mut store, &mut blobs, &hex_encode(&id), &body).unwrap();
    assert_eq!(store.objects[0].size, Some(body.len() as u64));
}

#[test]
fn upload_for_unregistered_id_is_refused() {
    let mut store = MetaStore::new();
    let mut blobs = BlobStore::new();
    let r = store_object(&mut store, &mut blobs, &hex_encode(&vec![0xcc; 32]), &b"x".to_vec());
    assert_eq!(r.unwrap_err(), UploadError::UnknownObject);
}

#[test]
fn upload_with_malformed_id_is_refused() {
    let mut store = MetaStore::new();
    let mut blobs = BlobStore::new();
    let r = store_object(&mut store, &mut blobs, b"abc", &b"x".to_vec());
    assert_eq!(r.unwrap_err(), UploadError::MalformedObjectId);
    let r = store_object(&mut store, &mut blobs, &hex_encode(&vec![0xcc; 20]), &b"x".to_vec());
    assert_eq!(r.unwrap_err(), UploadError::MalformedObjectId);
}

#[test]
fn upload_plan_finds_local_entries() {
    let local = vec![
        ManifestFile { path: b"/a".to_vec(), object_id: vec![0xaa; 32], fallback: false },
        ManifestFile { path: b"/b".to_vec(), object_id: vec![0xbb; 32], fallback: false },
    ];
    let needed = vec![
        ManifestFile { path: b"/b".to_vec(), object_id: vec![0xbb; 32], fallback: false },
        ManifestFile { path: b"/zz".to_vec(), object_id: vec![0xdd; 32], fallback: false },
    ];
    // the known id maps to its local index; the unknown one is skipped
    assert_eq!(upload_plan(&local, &needed), vec![1]);
}

#[test]
fn environment_rules_are_enforced() {
    let mut store = MetaStore::new();
    let cid = vec![0x11; 20];
    let entry = ManifestFile { path: b"/a".to_vec(), object_id: vec![0xaa; 32], fallback: false };
    register_commit(&mut store, &commit_hex(0x11), "c".to_string(), &vec![entry], 0).unwrap();
    let r = store.add_environment(1, "prod".to_string(), b"example.com".to_vec(), &vec![0x99; 20]);
    assert_eq!(r.unwrap_err(), EnvError::UnknownCommit);
    store.add_environment(1, "prod".to_string(), b"example.com".to_vec(), &cid).unwrap();
    let r = store.add_environment(2, "again".to_string(), b"example.com".to_vec(), &cid);
    assert_eq!(r.unwrap_err(), EnvError::DuplicateDomain);
    let r = store.add_environment(1, "other".to_string(), b"other.com".to_vec(), &cid);
    assert_eq!(r.unwrap_err(), EnvError::DuplicateId);
    let r = store.set_environment_commit(b"nowhere.com", &cid);
    assert_eq!(r.unwrap_err(), EnvError::UnknownDomain);
    store.set_environment_commit(b"example.com", &cid).unwrap();
    assert_eq!(store.environments[0].commit_id, cid);
}
