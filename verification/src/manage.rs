//! The management service: manifest registration and object upload.
//!
//! Registration inserts a commit together with its file rows and the
//! object rows for content hashes not seen before, and answers with the
//! manifest entries whose bytes the server still needs. The whole
//! registration is atomic: on any error the store is exactly as it was.
//! An upload attaches bytes and a size to an object that an earlier
//! manifest declared; it never creates new object identities.

use vstd::prelude::*;

use crate::blob::{blob_lookup, shard_path, BlobStore};
use crate::bytes::bytes_eq;
use crate::hexcode::{hex_decode, hex_decoded, hex_of};
use crate::store::{
    has_commit, has_object, lemma_object_count_unique, object_count_of, CommitRecord, FileRecord,
    MetaStore, ObjectRecord,
};

verus! {

/// One manifest entry: a file the deploy client wants to publish.
#[derive(Debug)]
pub struct ManifestFile {
    /// Manifest path: percent-encoded segments, each prefixed by `/`.
    pub path: Vec<u8>,
    /// SHA-256 hash of the file's bytes; 32 bytes.
    pub object_id: Vec<u8>,
    /// Whether this path is a candidate root for fallback routing.
    pub fallback: bool,
}

/// The mathematical value of a manifest entry.
pub struct ManifestFileView {
    pub path: Seq<u8>,
    pub object_id: Seq<u8>,
    pub fallback: bool,
}

impl View for ManifestFile {
    type V = ManifestFileView;

    open spec fn view(&self) -> ManifestFileView {
        ManifestFileView { path: self.path@, object_id: self.object_id@, fallback: self.fallback }
    }
}

/// The values of a sequence of manifest entries.
pub open spec fn mf_views(s: Seq<ManifestFile>) -> Seq<ManifestFileView> {
    s.map_values(|f: ManifestFile| f@)
}

/// Why a manifest registration was refused.
#[derive(Clone, Copy, Debug, PartialEq, Eq, Structural)]
pub enum CommitError {
    /// The id in the request path is not a 40-digit hex string.
    MalformedCommitId,
    /// A manifest entry's object id is not 32 bytes long.
    MalformedObjectId,
    /// A commit with this id is already registered.
    DuplicateCommit,
    /// The manifest repeats a (path, object) pair.
    DuplicateFile,
}

/// Why an object upload was refused.
#[derive(Clone, Copy, Debug, PartialEq, Eq, Structural)]
pub enum UploadError {
    /// The id in the request path is not a 64-digit hex string.
    MalformedObjectId,
    /// No object row with this id was registered by a commit.
    UnknownObject,
}

/// The commit id encoded by a request path parameter: 40 hex digits for
/// 20 bytes.
pub open spec fn commit_id_of(id_hex: Seq<u8>) -> Option<Seq<u8>> {
    match hex_decoded(id_hex) {
        Some(b) => if b.len() == 20 {
            Some(b)
        } else {
            None
        },
        None => None,
    }
}

/// The object id encoded by a request path parameter: 64 hex digits for
/// 32 bytes.
pub open spec fn object_id_of(id_hex: Seq<u8>) -> Option<Seq<u8>> {
    match hex_decoded(id_hex) {
        Some(b) => if b.len() == 32 {
            Some(b)
        } else {
            None
        },
        None => None,
    }
}

/// Whether some entry carries this object id.
pub open spec fn contains_id(files: Seq<ManifestFileView>, id: Seq<u8>) -> bool {
    exists|i: int| 0 <= i < files.len() && (#[trigger] files[i]).object_id == id
}

/// Whether any entry's object id is not 32 bytes long.
pub open spec fn some_id_malformed(files: Seq<ManifestFileView>) -> bool {
    exists|i: int| 0 <= i < files.len() && (#[trigger] files[i]).object_id.len() != 32
}

/// Whether two entries repeat the same (path, object) pair.
pub open spec fn has_duplicate_entry(files: Seq<ManifestFileView>) -> bool {
    exists|i: int, j: int|
        0 <= i < j < files.len() && (#[trigger] files[i]).path == (#[trigger] files[j]).path
            && files[i].object_id == files[j].object_id
}

/// The subset of a manifest whose object ids the store does not hold
/// yet, keeping only the first entry for each new id: exactly what the
/// registration answers as needing upload.
pub open spec fn needs_upload(objects: Seq<ObjectRecord>, files: Seq<ManifestFileView>) -> Seq<
    ManifestFileView,
>
    decreases files.len(),
{
    if files.len() == 0 {
        Seq::empty()
    } else {
        let rest = needs_upload(objects, files.drop_last());
        if has_object(objects, files.last().object_id) || contains_id(
            files.drop_last(),
            files.last().object_id,
        ) {
            rest
        } else {
            rest.push(files.last())
        }
    }
}

/// What a successful registration did to the store and answered.
pub open spec fn registration_ok(
    pre: MetaStore,
    post: MetaStore,
    cid: Seq<u8>,
    description: Seq<char>,
    files: Seq<ManifestFileView>,
    now: i128,
    needed: Seq<ManifestFileView>,
) -> bool {
    let fresh = needs_upload(pre.objects@, files);
    // the answer is the needs-upload subset
    &&& needed == fresh
    // one new commit row
    &&& post.commits@.len() == pre.commits@.len() + 1
    &&& post.commits@.take(pre.commits@.len() as int) == pre.commits@
    &&& post.commits@.last().id@ == cid
    &&& post.commits@.last().description@ == description
    &&& post.commits@.last().created == now
    // one new object row per first-seen content hash, size unknown
    &&& post.objects@.len() == pre.objects@.len() + fresh.len()
    &&& post.objects@.take(pre.objects@.len() as int) == pre.objects@
    &&& forall|m: int|
        0 <= m < fresh.len() ==> (#[trigger] post.objects@[pre.objects@.len() + m]).id@
            == fresh[m].object_id && post.objects@[pre.objects@.len() + m].size is None
            && post.objects@[pre.objects@.len() + m].created == now
    // one new file row per manifest entry, bound to the new commit
    &&& post.files@.len() == pre.files@.len() + files.len()
    &&& post.files@.take(pre.files@.len() as int) == pre.files@
    &&& forall|m: int|
        0 <= m < files.len() ==> (#[trigger] post.files@[pre.files@.len() + m]).path@
            == files[m].path && post.files@[pre.files@.len() + m].object_id@
            == files[m].object_id && post.files@[pre.files@.len() + m].commit_id@ == cid
            && post.files@[pre.files@.len() + m].fallback == files[m].fallback
    // environments untouched
    &&& post.environments@ == pre.environments@
}

/// Whether a store is exactly another: nothing from a failed attempt is
/// visible.
pub open spec fn store_unchanged(pre: MetaStore, post: MetaStore) -> bool {
    &&& post.objects@ == pre.objects@
    &&& post.commits@ == pre.commits@
    &&& post.files@ == pre.files@
    &&& post.environments@ == pre.environments@
}

/// Register a manifest: insert the commit, its file rows, and object
/// rows for content hashes not yet held; answer the entries needing
/// upload. Atomic: on any error the store is unchanged.
#[verifier::loop_isolation(false)]
pub fn register_commit(
    store: &mut MetaStore,
    id_hex: &[u8],
    description: String,
    files: &Vec<ManifestFile>,
    now: i128,
) -> (r: Result<Vec<ManifestFile>, CommitError>)
    requires
        old(store).wf(),
    ensures
        final(store).wf(),
        r is Err ==> store_unchanged(*old(store), *final(store)),
        match r {
            Ok(needed) => {
                &&& commit_id_of(id_hex@) is Some
                &&& !some_id_malformed(mf_views(files@))
                &&& !has_commit(old(store).commits@, commit_id_of(id_hex@).unwrap())
                &&& !has_duplicate_entry(mf_views(files@))
                &&& registration_ok(
                    *old(store),
                    *final(store),
                    commit_id_of(id_hex@).unwrap(),
                    description@,
                    mf_views(files@),
                    now,
                    mf_views(needed@),
                )
            },
            Err(CommitError::MalformedCommitId) => commit_id_of(id_hex@) is None,
            Err(CommitError::MalformedObjectId) => commit_id_of(id_hex@) is Some
                && some_id_malformed(mf_views(files@)),
            Err(CommitError::DuplicateCommit) => commit_id_of(id_hex@) is Some
                && !some_id_malformed(mf_views(files@)) && has_commit(
                old(store).commits@,
                commit_id_of(id_hex@).unwrap(),
            ),
            Err(CommitError::DuplicateFile) => commit_id_of(id_hex@) is Some
                && !some_id_malformed(mf_views(files@)) && !has_commit(
                old(store).commits@,
                commit_id_of(id_hex@).unwrap(),
            ) && has_duplicate_entry(mf_views(files@)),
        },
{
    let ghost pre = *store;
    let ghost views = mf_views(files@);
    // validate the commit id
    let cid = match hex_decode(id_hex) {
        Some(v) => {
            if v.len() != 20 {
                return Err(CommitError::MalformedCommitId);
            }
            v
        },
        None => {
            return Err(CommitError::MalformedCommitId);
        },
    };
    let n_files = files.len();
    // validate the object ids
    for k in 0..n_files
        invariant
            n_files == files@.len(),
            views == mf_views(files@),
            forall|j: int| 0 <= j < k ==> (#[trigger] views[j]).object_id.len() == 32,
    {
        assert(views[k as int] == files@[k as int]@);
        if files[k].object_id.len() != 32 {
            return Err(CommitError::MalformedObjectId);
        }
    }
    // refuse a resubmitted commit id
    if store.has_commit_id(cid.as_slice()) {
        return Err(CommitError::DuplicateCommit);
    }
    // refuse a manifest repeating a primary key
    for i in 0..n_files
        invariant
            n_files == files@.len(),
            views == mf_views(files@),
            forall|a: int, b: int|
                0 <= a < i && a < b < n_files ==> !((#[trigger] views[a]).path
                    == (#[trigger] views[b]).path && views[a].object_id == views[b].object_id),
    {
        let mut j = i + 1;
        while j < n_files
            invariant
                n_files == files@.len(),
                views == mf_views(files@),
                i < j <= n_files,
                forall|b: int|
                    i < b < j ==> !((#[trigger] views[b]).path == views[i as int].path
                        && views[b].object_id == views[i as int].object_id),
            decreases n_files - j,
        {
            assert(views[j as int] == files@[j as int]@);
            assert(views[i as int] == files@[i as int]@);
            if bytes_eq(files[i].path.as_slice(), files[j].path.as_slice()) && bytes_eq(
                files[i].object_id.as_slice(),
                files[j].object_id.as_slice(),
            ) {
                assert(views[i as int].path == views[j as int].path && views[i as int].object_id
                    == views[j as int].object_id);
                return Err(CommitError::DuplicateFile);
            }
            j = j + 1;
        }
    }
    // all checks passed: mutate
    let ghost gcid = cid@;
    let ghost gdesc = description@;
    store.commits.push(CommitRecord { id: cid.clone(), description, created: now });
    let mut needed: Vec<ManifestFile> = Vec::new();
    assert(views.take(0) =~= Seq::<ManifestFileView>::empty());
    assert(store.commits@.take(pre.commits@.len() as int) =~= pre.commits@);
    assert(store.objects@.take(pre.objects@.len() as int) =~= pre.objects@);
    assert(store.files@.take(pre.files@.len() as int) =~= pre.files@);
    proof {
        assert forall|id: Seq<u8>| #[trigger]
            has_object(store.objects@, id) == (has_object(pre.objects@, id) || contains_id(
                views.take(0),
                id,
            )) by {
            assert(store.objects@ == pre.objects@);
            assert(!contains_id(views.take(0), id));
        };
    }
    for k in 0..n_files
        invariant
            n_files == files@.len(),
            views == mf_views(files@),
            forall|j: int| 0 <= j < n_files ==> (#[trigger] views[j]).object_id.len() == 32,
            forall|a: int, b: int|
                0 <= a < b < n_files ==> !((#[trigger] views[a]).path == (#[trigger] views[b]).path
                    && views[a].object_id == views[b].object_id),
            !has_commit(pre.commits@, gcid),
            gcid.len() == 20,
            pre.wf(),
            // the new commit row stands; nothing else of commits moved
            store.commits@.len() == pre.commits@.len() + 1,
            store.commits@.take(pre.commits@.len() as int) == pre.commits@,
            store.commits@.last().id@ == gcid,
            store.commits@.last().description@ == gdesc,
            store.commits@.last().created == now,
            // objects grown by exactly the first-seen ids so far
            store.objects@.len() == pre.objects@.len() + needs_upload(
                pre.objects@,
                views.take(k as int),
            ).len(),
            store.objects@.take(pre.objects@.len() as int) == pre.objects@,
            forall|m: int|
                0 <= m < needs_upload(pre.objects@, views.take(k as int)).len() ==> (
                #[trigger] store.objects@[pre.objects@.len() + m]).id@ == needs_upload(
                    pre.objects@,
                    views.take(k as int),
                )[m].object_id && store.objects@[pre.objects@.len() + m].size is None
                    && store.objects@[pre.objects@.len() + m].created == now,
            // an id is held exactly if it was held before or has appeared
            forall|id: Seq<u8>| #[trigger]
                has_object(store.objects@, id) == (has_object(pre.objects@, id) || contains_id(
                    views.take(k as int),
                    id,
                )),
            forall|m: int|
                pre.objects@.len() <= m < store.objects@.len() ==> (
                #[trigger] store.objects@[m]).id@.len() == 32,
            // the answer built so far
            mf_views(needed@) == needs_upload(pre.objects@, views.take(k as int)),
            // file rows grown by the entries so far
            store.files@.len() == pre.files@.len() + k,
            store.files@.take(pre.files@.len() as int) == pre.files@,
            forall|m: int|
                0 <= m < k ==> (#[trigger] store.files@[pre.files@.len() + m]).path@
                    == views[m].path && store.files@[pre.files@.len() + m].object_id@
                    == views[m].object_id && store.files@[pre.files@.len() + m].commit_id@ == gcid
                    && store.files@[pre.files@.len() + m].fallback == views[m].fallback,
            store.environments@ == pre.environments@,
            store.wf(),
    {
        let ghost take_k = views.take(k as int);
        let ghost take_k1 = views.take(k + 1);
        proof {
            assert(take_k1.drop_last() =~= take_k);
            assert(take_k1.last() == views[k as int]);
            assert(views[k as int] == files@[k as int]@);
        }
        let ghost objs0 = store.objects@;
        let ghost files0 = store.files@;
        let found = store.find_object_index(files[k].object_id.as_slice());
        let is_new = found.is_none();
        proof {
            assert(views[k as int] == files@[k as int]@);
            if !is_new {
                assert(has_object(store.objects@, views[k as int].object_id));
            }
            assert(has_object(store.objects@, views[k as int].object_id) == !is_new);
        }
        if is_new {
            store.objects.push(
                ObjectRecord { id: files[k].object_id.clone(), size: None, created: now },
            );
            needed.push(
                ManifestFile {
                    path: files[k].path.clone(),
                    object_id: files[k].object_id.clone(),
                    fallback: files[k].fallback,
                },
            );
            proof {
                let prev = store.objects@.drop_last();
                assert(!has_object(prev, views[k as int].object_id));
                assert(needs_upload(pre.objects@, take_k1) =~= needs_upload(
                    pre.objects@,
                    take_k,
                ).push(views[k as int]));
                assert(store.objects@.take(pre.objects@.len() as int) =~= prev.take(
                    pre.objects@.len() as int,
                ));
                assert(mf_views(needed@) =~= needs_upload(pre.objects@, take_k1));
                // the pushed id was absent, so ids stay unique
                assert forall|i: int, j: int|
                    0 <= i < j < store.objects@.len() implies #[trigger] store.objects@[i].id@
                    != #[trigger] store.objects@[j].id@ by {
                    if j == store.objects@.len() - 1 {
                        if store.objects@[i].id@ == store.objects@[j].id@ {
                            assert(prev[i].id@ == views[k as int].object_id);
                            assert(has_object(prev, views[k as int].object_id));
                        }
                    } else {
                        assert(prev[i].id@ != prev[j].id@);
                    }
                };
            }
        } else {
            proof {
                assert(needs_upload(pre.objects@, take_k1) =~= needs_upload(pre.objects@, take_k));
            }
        }
        store.files.push(
            FileRecord {
                path: files[k].path.clone(),
                object_id: files[k].object_id.clone(),
                commit_id: cid.clone(),
                fallback: files[k].fallback,
            },
        );
        proof {
            assert(store.files@.take(pre.files@.len() as int) =~= files0.take(
                pre.files@.len() as int,
            ));
            if is_new {
                assert(store.objects@.drop_last() =~= objs0);
                assert(store.objects@ =~= store.objects@.drop_last().push(store.objects@.last()));
            } else {
                assert(store.objects@ == objs0);
            }
            // the id bookkeeping stays exact
            assert forall|id: Seq<u8>| #[trigger]
                has_object(store.objects@, id) == (has_object(pre.objects@, id) || contains_id(
                    take_k1,
                    id,
                )) by {
                lemma_has_object_step(store.objects@, pre.objects@, take_k, take_k1, id, is_new);
            };
            // every entry handled so far has its object row
            assert forall|m: int| 0 <= m < take_k1.len() implies has_object(
                store.objects@,
                (#[trigger] take_k1[m]).object_id,
            ) by {
                assert(contains_id(take_k1, take_k1[m].object_id));
            };
            // uniqueness and foreign keys survive the three pushes
            lemma_wf_step(*store, pre, gcid, take_k1, now);
        }
    }
    proof {
        assert(views.take(n_files as int) =~= views);
    }
    Ok(needed)
}

/// What recording an upload did: the object's size is now the byte
/// count; no other row moved.
pub open spec fn upload_recorded(pre: MetaStore, post: MetaStore, oid: Seq<u8>, size: u64) -> bool {
    &&& post.objects@.len() == pre.objects@.len()
    &&& forall|j: int|
        0 <= j < pre.objects@.len() ==> (#[trigger] post.objects@[j]).id@ == pre.objects@[j].id@
            && post.objects@[j].created == pre.objects@[j].created && post.objects@[j].size == (
        if pre.objects@[j].id@ == oid {
            Some(size)
        } else {
            pre.objects@[j].size
        })
    &&& post.commits@ == pre.commits@
    &&& post.files@ == pre.files@
    &&& post.environments@ == pre.environments@
}

/// Validate an upload request: the id must be 64 hex digits naming an
/// object some manifest declared. Answers the sharded location for the
/// bytes; this endpoint never creates object identities.
pub fn prepare_upload(store: &MetaStore, id_hex: &[u8]) -> (r: Result<
    (Vec<u8>, Vec<u8>),
    UploadError,
>)
    requires
        store.wf(),
    ensures
        match r {
            Ok(p) => object_id_of(id_hex@) is Some && has_object(
                store.objects@,
                object_id_of(id_hex@).unwrap(),
            ) && p.0@ == hex_of(object_id_of(id_hex@).unwrap().take(1)) && p.1@ == hex_of(
                object_id_of(id_hex@).unwrap().skip(1),
            ),
            Err(UploadError::MalformedObjectId) => object_id_of(id_hex@) is None,
            Err(UploadError::UnknownObject) => object_id_of(id_hex@) is Some && !has_object(
                store.objects@,
                object_id_of(id_hex@).unwrap(),
            ),
        },
{
    let oid = match hex_decode(id_hex) {
        Some(v) => {
            if v.len() != 32 {
                return Err(UploadError::MalformedObjectId);
            }
            v
        },
        None => {
            return Err(UploadError::MalformedObjectId);
        },
    };
    let found = store.find_object_index(oid.as_slice());
    if found.is_none() {
        return Err(UploadError::UnknownObject);
    }
    Ok(shard_path(oid.as_slice()))
}

/// Record a completed upload: attach the streamed byte count to the
/// object row, within the same transaction as the write. Re-recording
/// is idempotent by design.
pub fn record_upload(store: &mut MetaStore, id_hex: &[u8], size: u64) -> (r: Result<
    (),
    UploadError,
>)
    requires
        old(store).wf(),
    ensures
        final(store).wf(),
        r is Err ==> store_unchanged(*old(store), *final(store)),
        match r {
            Ok(_) => {
                &&& object_id_of(id_hex@) is Some
                &&& has_object(old(store).objects@, object_id_of(id_hex@).unwrap())
                &&& upload_recorded(
                    *old(store),
                    *final(store),
                    object_id_of(id_hex@).unwrap(),
                    size,
                )
            },
            Err(UploadError::MalformedObjectId) => object_id_of(id_hex@) is None,
            Err(UploadError::UnknownObject) => object_id_of(id_hex@) is Some && !has_object(
                old(store).objects@,
                object_id_of(id_hex@).unwrap(),
            ),
        },
{
    let ghost pre = *store;
    let oid = match hex_decode(id_hex) {
        Some(v) => {
            if v.len() != 32 {
                return Err(UploadError::MalformedObjectId);
            }
            v
        },
        None => {
            return Err(UploadError::MalformedObjectId);
        },
    };
    let i = match store.find_object_index(oid.as_slice()) {
        Some(i) => i,
        None => {
            return Err(UploadError::UnknownObject);
        },
    };
    let created = store.objects[i].created;
    let id = store.objects[i].id.clone();
    store.objects.set(i, ObjectRecord { id, size: Some(size), created });
    proof {
        assert(forall|j: int|
            0 <= j < store.objects@.len() ==> (#[trigger] store.objects@[j]).id@
                == pre.objects@[j].id@);
        assert forall|a: int, b: int| 0 <= a < b < store.objects@.len() implies
            #[trigger] store.objects@[a].id@ != #[trigger] store.objects@[b].id@ by {
            assert(pre.objects@[a].id@ != pre.objects@[b].id@);
        };
        assert forall|a: int| 0 <= a < store.objects@.len() implies (
        #[trigger] store.objects@[a].id@).len() == 32 by {
            assert(pre.objects@[a].id@.len() == 32);
        };
        assert forall|a: int| 0 <= a < store.files@.len() implies has_commit(
            store.commits@,
            (#[trigger] store.files@[a]).commit_id@,
        ) && has_object(store.objects@, store.files@[a].object_id@) by {
            assert(has_object(pre.objects@, pre.files@[a].object_id@));
            let w = choose|w: int|
                0 <= w < pre.objects@.len() && (#[trigger] pre.objects@[w].id@)
                    == pre.files@[a].object_id@;
            assert(store.objects@[w].id@ == pre.files@[a].object_id@);
        };
        // the updated row is the only one carrying this id
        assert forall|j: int|
            0 <= j < pre.objects@.len() implies (#[trigger] post_size_ok(
            pre.objects@,
            store.objects@,
            j,
            oid@,
            size,
        )) by {
            if j != i {
                if pre.objects@[j].id@ == oid@ {
                    assert(pre.objects@[if j < i {
                        j
                    } else {
                        i as int
                    }].id@ != pre.objects@[if j < i {
                        i as int
                    } else {
                        j
                    }].id@);
                }
            }
        };
    }
    Ok(())
}

/// One row of the size update holds: helper shape for the proof above.
spec fn post_size_ok(
    pre: Seq<ObjectRecord>,
    post: Seq<ObjectRecord>,
    j: int,
    oid: Seq<u8>,
    size: u64,
) -> bool {
    post[j].id@ == pre[j].id@ && post[j].created == pre[j].created && post[j].size == (if pre[j].id@
        == oid {
        Some(size)
    } else {
        pre[j].size
    })
}

/// The object upload endpoint against the in-memory stores: write the
/// bytes at the sharded location, then record their count. Re-uploading
/// the same object overwrites the bytes and the size again.
pub fn store_object(
    store: &mut MetaStore,
    blobs: &mut BlobStore,
    id_hex: &[u8],
    body: &Vec<u8>,
) -> (r: Result<(), UploadError>)
    requires
        old(store).wf(),
        old(blobs).wf(),
    ensures
        final(store).wf(),
        final(blobs).wf(),
        match r {
            Ok(_) => {
                &&& object_id_of(id_hex@) is Some
                &&& has_object(old(store).objects@, object_id_of(id_hex@).unwrap())
                &&& upload_recorded(
                    *old(store),
                    *final(store),
                    object_id_of(id_hex@).unwrap(),
                    body@.len() as u64,
                )
                &&& forall|d: Seq<u8>, n: Seq<u8>| #[trigger]
                    blob_lookup(final(blobs).entries@, d, n) == (if d == hex_of(
                        object_id_of(id_hex@).unwrap().take(1),
                    ) && n == hex_of(object_id_of(id_hex@).unwrap().skip(1)) {
                        Some(body@)
                    } else {
                        blob_lookup(old(blobs).entries@, d, n)
                    })
            },
            Err(e) => {
                &&& store_unchanged(*old(store), *final(store))
                &&& final(blobs).entries@ == old(blobs).entries@
                &&& (e == UploadError::MalformedObjectId <==> object_id_of(id_hex@) is None)
                &&& (e == UploadError::UnknownObject <==> object_id_of(id_hex@) is Some
                    && !has_object(old(store).objects@, object_id_of(id_hex@).unwrap()))
            },
        },
{
    let (dir, name) = match prepare_upload(store, id_hex) {
        Ok(p) => p,
        Err(e) => {
            return Err(e);
        },
    };
    blobs.put(dir, name, body.clone());
    match record_upload(store, id_hex, body.len() as u64) {
        Ok(_) => Ok(()),
        Err(e) => {
            // the id was validated and found moments ago: unreachable
            proof {
                assert(false);
            }
            Err(e)
        },
    }
}

/// Dedup idempotence: once a content hash has its object row, the store
/// keeps exactly one row for it, and a later manifest referencing the
/// hash is not asked to upload it again.
pub proof fn lemma_dedup_idempotence(
    objects: Seq<ObjectRecord>,
    files: Seq<ManifestFileView>,
    h: Seq<u8>,
)
    requires
        forall|i: int, j: int|
            0 <= i < j < objects.len() ==> #[trigger] objects[i].id@ != #[trigger] objects[j].id@,
        has_object(objects, h),
    ensures
        object_count_of(objects, h) == 1,
        forall|k: int|
            0 <= k < needs_upload(objects, files).len() ==> (#[trigger] needs_upload(
                objects,
                files,
            )[k]).object_id != h,
    decreases files.len(),
{
    lemma_object_count_unique(objects, h);
    if files.len() > 0 {
        lemma_dedup_idempotence(objects, files.drop_last(), h);
        let rest = needs_upload(objects, files.drop_last());
        let whole = needs_upload(objects, files);
        assert forall|k: int| 0 <= k < whole.len() implies (#[trigger] whole[k]).object_id
            != h by {
            if k < rest.len() {
                assert(rest[k].object_id != h);
            } else {
                assert(whole[k] == files.last());
                assert(!has_object(objects, files.last().object_id));
            }
        };
    }
}

/// An id a manifest references is afterwards always held: it was known
/// before, or the needs-upload answer carries it.
proof fn lemma_upload_covers_new_ids(
    objects: Seq<ObjectRecord>,
    files: Seq<ManifestFileView>,
    id: Seq<u8>,
)
    requires
        contains_id(files, id),
        !has_object(objects, id),
    ensures
        exists|k: int|
            0 <= k < needs_upload(objects, files).len() && (#[trigger] needs_upload(
                objects,
                files,
            )[k]).object_id == id,
    decreases files.len(),
{
    let whole = needs_upload(objects, files);
    let rest = needs_upload(objects, files.drop_last());
    if files.last().object_id == id {
        if contains_id(files.drop_last(), id) {
            lemma_upload_covers_new_ids(objects, files.drop_last(), id);
            let k = choose|k: int|
                0 <= k < rest.len() && (#[trigger] rest[k]).object_id == id;
            assert(whole[k].object_id == id);
        } else {
            assert(whole == rest.push(files.last()));
            assert(whole[whole.len() - 1].object_id == id);
        }
    } else {
        let i = choose|i: int| 0 <= i < files.len() && (#[trigger] files[i]).object_id == id;
        assert(i < files.len() - 1);
        assert(files.drop_last()[i].object_id == id);
        assert(contains_id(files.drop_last(), id));
        lemma_upload_covers_new_ids(objects, files.drop_last(), id);
        let k = choose|k: int| 0 <= k < rest.len() && (#[trigger] rest[k]).object_id == id;
        assert(whole[k].object_id == id);
    }
}

/// Dedup idempotence across two registrations: where a second manifest,
/// from another commit, references a content hash the first already
/// carried, the second answer does not ask for it again, and after both
/// registrations the store holds exactly one object row for the hash.
pub proof fn lemma_dedup_across_registrations(
    pre: MetaStore,
    mid: MetaStore,
    post: MetaStore,
    cid1: Seq<u8>,
    d1: Seq<char>,
    files1: Seq<ManifestFileView>,
    t1: i128,
    needed1: Seq<ManifestFileView>,
    cid2: Seq<u8>,
    d2: Seq<char>,
    files2: Seq<ManifestFileView>,
    t2: i128,
    needed2: Seq<ManifestFileView>,
    h: Seq<u8>,
)
    requires
        mid.wf(),
        post.wf(),
        registration_ok(pre, mid, cid1, d1, files1, t1, needed1),
        registration_ok(mid, post, cid2, d2, files2, t2, needed2),
        contains_id(files1, h),
    ensures
        forall|k: int| 0 <= k < needed2.len() ==> (#[trigger] needed2[k]).object_id != h,
        object_count_of(post.objects@, h) == 1,
{
    // the first registration leaves the hash in the store
    assert(has_object(mid.objects@, h)) by {
        if has_object(pre.objects@, h) {
            let i = choose|i: int|
                0 <= i < pre.objects@.len() && (#[trigger] pre.objects@[i].id@) == h;
            assert(mid.objects@.take(pre.objects@.len() as int)[i] == pre.objects@[i]);
            assert(mid.objects@[i].id@ == h);
        } else {
            lemma_upload_covers_new_ids(pre.objects@, files1, h);
            let fresh = needs_upload(pre.objects@, files1);
            let k = choose|k: int|
                0 <= k < fresh.len() && (#[trigger] fresh[k]).object_id == h;
            assert(mid.objects@[pre.objects@.len() + k].id@ == h);
        }
    };
    // so the second answer excludes it
    lemma_dedup_idempotence(mid.objects@, files2, h);
    // and the row survives the second registration as the only one
    assert(has_object(post.objects@, h)) by {
        let i = choose|i: int| 0 <= i < mid.objects@.len() && (#[trigger] mid.objects@[i].id@) == h;
        assert(post.objects@.take(mid.objects@.len() as int)[i] == mid.objects@[i]);
        assert(post.objects@[i].id@ == h);
    };
    lemma_object_count_unique(post.objects@, h);
}

/// One step of the id bookkeeping: after handling one more entry, an id
/// is held exactly if it was held before the registration or has
/// appeared among the entries handled.
proof fn lemma_has_object_step(
    cur: Seq<ObjectRecord>,
    pre: Seq<ObjectRecord>,
    take_k: Seq<ManifestFileView>,
    take_k1: Seq<ManifestFileView>,
    id: Seq<u8>,
    was_new: bool,
)
    requires
        take_k1.len() == take_k.len() + 1,
        take_k1.drop_last() == take_k,
        was_new ==> cur.drop_last().len() >= 0 && cur == cur.drop_last().push(cur.last())
            && cur.last().id@ == take_k1.last().object_id && (has_object(cur.drop_last(), id) == (
        has_object(pre, id) || contains_id(take_k, id))),
        !was_new ==> (has_object(cur, id) == (has_object(pre, id) || contains_id(take_k, id)))
            && (has_object(cur, take_k1.last().object_id) || contains_id(
            take_k,
            take_k1.last().object_id,
        ) || has_object(pre, take_k1.last().object_id)),
    ensures
        has_object(cur, id) == (has_object(pre, id) || contains_id(take_k1, id)),
{
    // membership in the one-longer manifest prefix
    assert(contains_id(take_k1, id) == (contains_id(take_k, id) || take_k1.last().object_id == id))
        by {
        if contains_id(take_k1, id) {
            let i = choose|i: int|
                0 <= i < take_k1.len() && (#[trigger] take_k1[i]).object_id == id;
            if i < take_k.len() {
                assert(take_k[i].object_id == id);
            }
        }
        if contains_id(take_k, id) {
            let i = choose|i: int| 0 <= i < take_k.len() && (#[trigger] take_k[i]).object_id == id;
            assert(take_k1[i].object_id == id);
        }
        if take_k1.last().object_id == id {
            assert((take_k1[take_k1.len() - 1]).object_id == id);
        }
    };
    if was_new {
        let shorter = cur.drop_last();
        assert(has_object(cur, id) == (has_object(shorter, id) || cur.last().id@ == id)) by {
            if has_object(cur, id) {
                let i = choose|i: int| 0 <= i < cur.len() && (#[trigger] cur[i].id@) == id;
                if i < shorter.len() {
                    assert(shorter[i].id@ == id);
                }
            }
            if has_object(shorter, id) {
                let i = choose|i: int| 0 <= i < shorter.len() && (#[trigger] shorter[i].id@) == id;
                assert(cur[i].id@ == id);
            }
            if cur.last().id@ == id {
                assert(cur[cur.len() - 1].id@ == id);
            }
        };
    }
}

/// After pushing one commit row, one optional object row and one file
/// row as the registration loop does, the store is still well-formed.
proof fn lemma_wf_step(
    store: MetaStore,
    pre: MetaStore,
    cid: Seq<u8>,
    handled: Seq<ManifestFileView>,
    now: i128,
)
    requires
        pre.wf(),
        cid.len() == 20,
        !has_commit(pre.commits@, cid),
        store.commits@.len() == pre.commits@.len() + 1,
        store.commits@.take(pre.commits@.len() as int) == pre.commits@,
        store.commits@.last().id@ == cid,
        store.objects@.take(pre.objects@.len() as int) == pre.objects@,
        store.objects@.len() >= pre.objects@.len(),
        forall|m: int|
            pre.objects@.len() <= m < store.objects@.len() ==> (
            #[trigger] store.objects@[m]).id@.len() == 32,
        // ids never repeat: each added id was absent when added
        forall|i: int, j: int|
            0 <= i < j < store.objects@.len() ==> #[trigger] store.objects@[i].id@
                != #[trigger] store.objects@[j].id@,
        store.files@.len() == pre.files@.len() + handled.len(),
        store.files@.take(pre.files@.len() as int) == pre.files@,
        forall|m: int|
            0 <= m < handled.len() ==> (#[trigger] store.files@[pre.files@.len() + m]).path@
                == handled[m].path && store.files@[pre.files@.len() + m].object_id@
                == handled[m].object_id && store.files@[pre.files@.len() + m].commit_id@ == cid
                && store.files@[pre.files@.len() + m].fallback == handled[m].fallback,
        forall|a: int, b: int|
            0 <= a < b < handled.len() ==> !((#[trigger] handled[a]).path
                == (#[trigger] handled[b]).path && handled[a].object_id == handled[b].object_id),
        forall|m: int|
            0 <= m < handled.len() ==> has_object(
                store.objects@,
                (#[trigger] handled[m]).object_id,
            ),
        store.environments@ == pre.environments@,
    ensures
        store.wf(),
{
    let pn = pre.commits@.len() as int;
    assert(forall|i: int| 0 <= i < pn ==> store.commits@[i] == pre.commits@[i]);
    // commit rows: the old ones are unchanged and the new one is fresh
    assert forall|i: int, j: int| 0 <= i < j < store.commits@.len() implies
        #[trigger] store.commits@[i].id@ != #[trigger] store.commits@[j].id@ by {
        if j < pn {
            assert(pre.commits@[i].id@ != pre.commits@[j].id@);
        } else {
            assert(store.commits@[j].id@ == cid);
            assert(store.commits@[i] == pre.commits@[i]);
            if store.commits@[i].id@ == cid {
                assert(has_commit(pre.commits@, cid));
            }
        }
    };
    assert forall|i: int| 0 <= i < store.commits@.len() implies (
    #[trigger] store.commits@[i].id@).len() == 20 by {
        if i < pn {
            assert(store.commits@[i] == pre.commits@[i]);
        }
    };
    assert(forall|i: int|
        0 <= i < pre.objects@.len() ==> #[trigger] store.objects@[i] == pre.objects@[i]);
    assert forall|i: int| 0 <= i < store.objects@.len() implies (
    #[trigger] store.objects@[i].id@).len() == 32 by {
        if i < pre.objects@.len() {
            assert(store.objects@[i] == pre.objects@[i]);
        }
    };
    // file rows: old ones unchanged; new ones bound to the fresh commit
    let fn_ = pre.files@.len() as int;
    assert(forall|i: int| 0 <= i < fn_ ==> #[trigger] store.files@[i] == pre.files@[i]);
    assert forall|i: int, j: int| 0 <= i < j < store.files@.len() implies !crate::store::file_matches(
        #[trigger] store.files@[i],
        (#[trigger] store.files@[j]).path@,
        store.files@[j].object_id@,
        store.files@[j].commit_id@,
    ) by {
        if j < fn_ {
            assert(!crate::store::file_matches(
                pre.files@[i],
                pre.files@[j].path@,
                pre.files@[j].object_id@,
                pre.files@[j].commit_id@,
            ));
        } else {
            let b = j - fn_;
            assert((store.files@[fn_ + b]).path@ == handled[b].path && store.files@[fn_
                + b].object_id@ == handled[b].object_id && store.files@[fn_ + b].commit_id@
                == cid);
            if i >= fn_ {
                let a = i - fn_;
                assert((store.files@[fn_ + a]).path@ == handled[a].path && store.files@[fn_
                    + a].object_id@ == handled[a].object_id);
                assert(!(handled[a].path == handled[b].path && handled[a].object_id
                    == handled[b].object_id));
            } else {
                // an old row cannot share the fresh commit id
                assert(store.files@[i] == pre.files@[i]);
                if store.files@[i].commit_id@ == cid {
                    assert(has_commit(pre.commits@, pre.files@[i].commit_id@));
                    assert(has_commit(pre.commits@, cid));
                }
            }
        }
    };
    assert forall|i: int| 0 <= i < store.files@.len() implies has_commit(
        store.commits@,
        (#[trigger] store.files@[i]).commit_id@,
    ) && has_object(store.objects@, store.files@[i].object_id@) by {
        if i < fn_ {
            assert(store.files@[i] == pre.files@[i]);
            assert(has_commit(pre.commits@, pre.files@[i].commit_id@));
            let w = choose|w: int|
                0 <= w < pre.commits@.len() && (#[trigger] pre.commits@[w].id@)
                    == pre.files@[i].commit_id@;
            assert(store.commits@[w].id@ == pre.files@[i].commit_id@);
            assert(has_object(pre.objects@, pre.files@[i].object_id@));
            let v = choose|v: int|
                0 <= v < pre.objects@.len() && (#[trigger] pre.objects@[v].id@)
                    == pre.files@[i].object_id@;
            assert(store.objects@[v].id@ == pre.files@[i].object_id@);
        } else {
            let m = i - fn_;
            assert((store.files@[fn_ + m]).path@ == handled[m].path && store.files@[fn_
                + m].object_id@ == handled[m].object_id && store.files@[fn_ + m].commit_id@
                == cid);
            assert(store.commits@[store.commits@.len() - 1].id@ == cid);
            assert(has_object(store.objects@, handled[m].object_id));
        }
    };
    // environments: unchanged rows, and their commits still present
    assert forall|i: int| 0 <= i < store.environments@.len() implies has_commit(
        store.commits@,
        (#[trigger] store.environments@[i]).commit_id@,
    ) by {
        assert(store.environments@[i] == pre.environments@[i]);
        assert(has_commit(pre.commits@, pre.environments@[i].commit_id@));
        let w = choose|w: int|
            0 <= w < pre.commits@.len() && (#[trigger] pre.commits@[w].id@)
                == pre.environments@[i].commit_id@;
        assert(store.commits@[w].id@ == pre.environments@[i].commit_id@);
    };
}

} // verus!
