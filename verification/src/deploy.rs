//! The deploy client's logic: manifest building and upload planning.
//!
//! The client walks a directory tree, hashes every regular file, builds
//! the manifest, and—after the server answers which object ids it lacks—
//! reopens exactly those files by reversing the path encoding and
//! uploads their bytes. The walking, reading and sending are plumbing
//! outside the library; everything decided about the data is here.

use vstd::prelude::*;

use crate::bytes::bytes_eq;
use crate::digest::{sha256, sha256_of};
use crate::hexcode::{hex_encode, hex_of};
use crate::manage::{mf_views, ManifestFile, ManifestFileView};
use crate::pathcode::{manifest_path, manifest_path_of, percent_decode, percent_decoded};

verus! {

/// One regular file found under the upload root.
pub struct SourceFile {
    /// Path segments relative to the root, in order.
    pub segments: Vec<Vec<u8>>,
    /// The file's bytes.
    pub data: Vec<u8>,
}

/// What kind of directory entry the walk met.
#[derive(Clone, Copy, Debug, PartialEq, Eq, Structural)]
pub enum EntryKind {
    Directory,
    RegularFile,
    Symlink,
    Other,
}

/// What the walk does with a directory entry.
#[derive(Clone, Copy, Debug, PartialEq, Eq, Structural)]
pub enum EntryAction {
    /// Traverse into the directory.
    Descend,
    /// Collect the file for hashing and upload.
    Collect,
    /// Skip a symbolic link: never followed, never uploaded.
    SkipSymlink,
    /// Skip any other non-regular entry.
    SkipUnknown,
}

/// The walk's decision for one directory entry: directories are
/// traversed, regular files are collected, symbolic links and anything
/// else are skipped.
pub fn plan_entry(kind: EntryKind) -> (r: EntryAction)
    ensures
        r == (match kind {
            EntryKind::Directory => EntryAction::Descend,
            EntryKind::RegularFile => EntryAction::Collect,
            EntryKind::Symlink => EntryAction::SkipSymlink,
            EntryKind::Other => EntryAction::SkipUnknown,
        }),
{
    match kind {
        EntryKind::Directory => EntryAction::Descend,
        EntryKind::RegularFile => EntryAction::Collect,
        EntryKind::Symlink => EntryAction::SkipSymlink,
        EntryKind::Other => EntryAction::SkipUnknown,
    }
}

/// Whether the list holds this byte string.
pub open spec fn list_contains(l: Seq<Seq<u8>>, x: Seq<u8>) -> bool {
    exists|i: int| 0 <= i < l.len() && l[i] == x
}

/// The manifest entry a source file must become.
pub open spec fn entry_for(segments: Seq<Seq<u8>>, data: Seq<u8>, fallbacks: Seq<Seq<u8>>) -> ManifestFileView {
    ManifestFileView {
        path: manifest_path_of(segments),
        object_id: sha256_of(data),
        fallback: list_contains(fallbacks, manifest_path_of(segments)),
    }
}

/// Whether the list holds this byte string.
fn list_contains_exec(l: &Vec<Vec<u8>>, x: &[u8]) -> (r: bool)
    ensures
        r == list_contains(l@.map_values(|v: Vec<u8>| v@), x@),
{
    let ghost views = l@.map_values(|v: Vec<u8>| v@);
    let n = l.len();
    for i in 0..n
        invariant
            n == l@.len(),
            views == l@.map_values(|v: Vec<u8>| v@),
            forall|j: int| 0 <= j < i ==> views[j] != x@,
    {
        assert(views[i as int] == l@[i as int]@);
        if bytes_eq(l[i].as_slice(), x) {
            return true;
        }
    }
    false
}

/// Build the manifest for a tree of source files: each entry carries
/// the percent-encoded path, the content hash, and whether the path is
/// one of the client's fallback paths.
pub fn build_manifest(files: &Vec<SourceFile>, fallback_paths: &Vec<Vec<u8>>) -> (r: Vec<
    ManifestFile,
>)
    ensures
        r@.len() == files@.len(),
        forall|i: int|
            0 <= i < files@.len() ==> (#[trigger] r@[i])@ == entry_for(
                files@[i].segments@.map_values(|v: Vec<u8>| v@),
                files@[i].data@,
                fallback_paths@.map_values(|v: Vec<u8>| v@),
            ),
{
    let ghost fb = fallback_paths@.map_values(|v: Vec<u8>| v@);
    let mut out: Vec<ManifestFile> = Vec::new();
    let n = files.len();
    for i in 0..n
        invariant
            n == files@.len(),
            fb == fallback_paths@.map_values(|v: Vec<u8>| v@),
            out@.len() == i,
            forall|j: int|
                0 <= j < i ==> (#[trigger] out@[j])@ == entry_for(
                    files@[j].segments@.map_values(|v: Vec<u8>| v@),
                    files@[j].data@,
                    fb,
                ),
    {
        let path = manifest_path(&files[i].segments);
        let object_id = sha256(files[i].data.as_slice());
        let fallback = list_contains_exec(fallback_paths, path.as_slice());
        out.push(ManifestFile { path, object_id, fallback });
    }
    out
}

/// The first entry carrying this object id, if any.
pub open spec fn first_with_id(local: Seq<ManifestFileView>, id: Seq<u8>) -> Option<int>
    decreases local.len(),
{
    if local.len() == 0 {
        None
    } else if local.first().object_id == id {
        Some(0)
    } else {
        match first_with_id(local.drop_first(), id) {
            Some(i) => Some(i + 1),
            None => None,
        }
    }
}

/// The upload plan: for each entry the server asked for, the index of
/// the first local entry carrying that object id; an id no local entry
/// carries is skipped.
pub open spec fn upload_plan_of(local: Seq<ManifestFileView>, needed: Seq<ManifestFileView>) -> Seq<
    int,
>
    decreases needed.len(),
{
    if needed.len() == 0 {
        Seq::empty()
    } else {
        upload_plan_of(local, needed.drop_last()) + (match first_with_id(
            local,
            needed.last().object_id,
        ) {
            Some(i) => seq![i],
            None => Seq::empty(),
        })
    }
}

/// The first local entry carrying this object id, if any.
fn find_with_id(local: &Vec<ManifestFile>, id: &[u8]) -> (r: Option<usize>)
    ensures
        match r {
            Some(i) => first_with_id(mf_views(local@), id@) == Some(i as int),
            None => first_with_id(mf_views(local@), id@) is None,
        },
{
    let ghost views = mf_views(local@);
    let n = local.len();
    let mut i: usize = 0;
    assert(views.skip(0) =~= views);
    while i < n
        invariant
            i <= n == local@.len(),
            views == mf_views(local@),
            first_with_id(views, id@) == match first_with_id(views.skip(i as int), id@) {
                Some(k) => Some(k + i),
                None => None::<int>,
            },
        decreases n - i,
    {
        proof {
            assert(views.skip(i as int).first() == views[i as int]);
            assert(views[i as int] == local@[i as int]@);
            assert(views.skip(i as int).drop_first() =~= views.skip(i + 1));
        }
        if bytes_eq(local[i].object_id.as_slice(), id) {
            return Some(i);
        }
        i = i + 1;
    }
    assert(views.skip(n as int) =~= Seq::<ManifestFileView>::empty());
    None
}

/// Plan the uploads after the server's answer: the indices into the
/// local manifest of the files whose bytes must be sent.
pub fn upload_plan(local: &Vec<ManifestFile>, needed: &Vec<ManifestFile>) -> (r: Vec<usize>)
    ensures
        r@.map_values(|u: usize| u as int) == upload_plan_of(mf_views(local@), mf_views(needed@)),
        forall|k: int| 0 <= k < r@.len() ==> (#[trigger] r@[k]) < local@.len(),
{
    let ghost lv = mf_views(local@);
    let ghost nv = mf_views(needed@);
    let mut out: Vec<usize> = Vec::new();
    let n = needed.len();
    assert(nv.take(0) =~= Seq::<ManifestFileView>::empty());
    for k in 0..n
        invariant
            n == needed@.len(),
            lv == mf_views(local@),
            nv == mf_views(needed@),
            out@.map_values(|u: usize| u as int) == upload_plan_of(lv, nv.take(k as int)),
            forall|m: int| 0 <= m < out@.len() ==> (#[trigger] out@[m]) < local@.len(),
    {
        proof {
            assert(nv.take(k + 1).drop_last() =~= nv.take(k as int));
            assert(nv.take(k + 1).last() == nv[k as int]);
            assert(nv[k as int] == needed@[k as int]@);
        }
        match find_with_id(local, needed[k].object_id.as_slice()) {
            Some(i) => {
                proof {
                    lemma_first_with_id_in_range(lv, nv[k as int].object_id);
                }
                out.push(i);
                assert(out@.map_values(|u: usize| u as int) =~= upload_plan_of(
                    lv,
                    nv.take(k + 1),
                ));
            },
            None => {
                assert(out@.map_values(|u: usize| u as int) =~= upload_plan_of(
                    lv,
                    nv.take(k + 1),
                ));
            },
        }
    }
    assert(nv.take(n as int) =~= nv);
    out
}

/// A found index lies inside the list.
proof fn lemma_first_with_id_in_range(local: Seq<ManifestFileView>, id: Seq<u8>)
    ensures
        match first_with_id(local, id) {
            Some(i) => 0 <= i < local.len() && local[i].object_id == id,
            None => true,
        },
    decreases local.len(),
{
    if local.len() > 0 && local.first().object_id != id {
        lemma_first_with_id_in_range(local.drop_first(), id);
    }
}

/// The request path under the service base at which an object's bytes
/// are published: the object endpoint keyed by the hex-encoded hash.
pub open spec fn object_endpoint_prefix() -> Seq<u8> {
    seq![
        0x76u8,
        0x31u8,
        0x2fu8,
        0x6fu8,
        0x62u8,
        0x6au8,
        0x65u8,
        0x63u8,
        0x74u8,
        0x2fu8,
    ]
}

/// Build the request path for publishing an object's bytes.
pub fn object_request_path(object_id: &[u8]) -> (r: Vec<u8>)
    ensures
        r@ == object_endpoint_prefix() + hex_of(object_id@),
{
    let mut out: Vec<u8> = Vec::new();
    out.push(0x76);
    out.push(0x31);
    out.push(0x2f);
    out.push(0x6f);
    out.push(0x62);
    out.push(0x6a);
    out.push(0x65);
    out.push(0x63);
    out.push(0x74);
    out.push(0x2f);
    assert(out@ =~= object_endpoint_prefix());
    let mut hex = hex_encode(object_id);
    out.append(&mut hex);
    out
}

/// The filesystem path, relative to the upload root, at which a
/// manifest entry's file is reopened for upload: the manifest path
/// percent-decoded after its leading `/`.
pub fn upload_source_path(path: &[u8]) -> (r: Vec<u8>)
    requires
        path@.len() >= 1,
    ensures
        r@ == percent_decoded(path@.skip(1)),
{
    let rest = crate::bytes::bytes_slice(path, 1, path.len());
    proof {
        assert(path@.subrange(1, path@.len() as int) =~= path@.skip(1));
    }
    percent_decode(rest.as_slice())
}

} // verus!
