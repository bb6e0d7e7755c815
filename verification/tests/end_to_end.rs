use view::blob::BlobStore;
use view::deploy::{build_manifest, plan_entry, upload_plan, upload_source_path, EntryAction, EntryKind, SourceFile};
use view::hexcode::hex_encode;
use view::manage::register_commit;
use view::manage::store_object;
use view::serve::{handle_request, Method, Status};
use view::store::MetaStore;

#[test]
fn walk_decisions() {
    assert_eq!(plan_entry(EntryKind::Directory), EntryAction::Descend);
    assert_eq!(plan_entry(EntryKind::RegularFile), EntryAction::Collect);
    assert_eq!(plan_entry(EntryKind::Symlink), EntryAction::SkipSymlink);
    assert_eq!(plan_entry(EntryKind::Other), EntryAction::SkipUnknown);
}

#[test]
fn deploy_and_serve_a_directory() {
    // the tree {a.txt: "hi", app/index.html: "<html>"} with the app
    // page as the fallback root
    let tree = vec![
        SourceFile { segments: vec![b"a.txt".to_vec()], data: b"hi".to_vec() },
        SourceFile {
            segments: vec![b"app".to_vec(), b"index.html".to_vec()],
            data: b"<html>".to_vec(),
        },
    ];
    let fallbacks = vec![b"/app/index.html".to_vec()];
    let manifest = build_manifest(&tree, &fallbacks);
    assert_eq!(manifest.len(), 2);
    assert!(!manifest[0].fallback);
    assert!(manifest[1].fallback);

    // publish as commit 1111…: the server wants both blobs
    let commit_id = vec![0x11; 20];
    let mut store = MetaStore::new();
    let mut blobs = BlobStore::new();
    let needed = register_commit(
        &mut store,
        &hex_encode(&commit_id),
        "initial deploy".to_string(),
        &manifest,
        0,
    )
    .unwrap();
    assert_eq!(needed.len(), 2);

    // the client reopens each needed file by decoding its path and
    // uploads its bytes
    let plan = upload_plan(&manifest, &needed);
    assert_eq!(plan.len(), 2);
    for idx in plan {
        let entry = &manifest[idx];
        let source_path = upload_source_path(&entry.path);
        let original = tree
            .iter()
            .find(|f| {
                let joined: Vec<u8> = f
                    .segments
                    .iter()
                    .map(|s| String::from_utf8(s.clone()).unwrap())
                    .collect::<Vec<_>>()
                    .join("/")
                    .into_bytes();
                joined == source_path
            })
            .expect("decoded path names a source file");
        store_object(&mut store, &mut blobs, &hex_encode(&entry.object_id), &original.data)
            .unwrap();
    }

    // route the domain at the commit
    store
        .add_environment(1, "production".to_string(), b"example.com".to_vec(), &commit_id)
        .unwrap();

    let host = Some(b"example.com".to_vec());
    // an exact file comes back byte for byte
    let r = handle_request(&store, &blobs, Method::Get, &host, b"/a.txt", &None);
    assert_eq!(r.status, Status::Okay);
    assert_eq!(r.body, b"hi".to_vec());
    assert_eq!(r.content_length, Some(2));
    // an unknown path under app/ falls back to the app page
    let r = handle_request(&store, &blobs, Method::Get, &host, b"/app/other", &None);
    assert_eq!(r.status, Status::Okay);
    assert_eq!(r.body, b"<html>".to_vec());
    // a path no candidate covers is not found
    let r = handle_request(&store, &blobs, Method::Get, &host, b"/missing", &None);
    assert_eq!(r.status, Status::NotFound);
}
