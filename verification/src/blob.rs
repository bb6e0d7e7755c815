//! The object store: sharded blob storage keyed by content hash.
//!
//! A blob for object id `H` lives at `<root>/<hex(H[0])>/<hex(H[1..])>`:
//! the first byte names the shard directory, the rest the file. The
//! store itself is pure storage with no business logic; this model keeps
//! the entries in memory so that the deployment and serving logic above
//! it is verified against exact storage semantics. A filesystem-backed
//! deployment writes at the same two path components.

use vstd::prelude::*;

use crate::bytes::{bytes_eq, bytes_slice};
use crate::hexcode::{hex_encode, hex_of, lemma_hex_round_trip};

verus! {

/// One stored blob at its two-level sharded location.
pub struct BlobEntry {
    /// Shard directory name: hex of the id's first byte.
    pub dir: Vec<u8>,
    /// File name within the shard: hex of the id's remaining bytes.
    pub name: Vec<u8>,
    /// The blob's bytes.
    pub data: Vec<u8>,
}

/// The sharded blob store.
pub struct BlobStore {
    pub entries: Vec<BlobEntry>,
}

/// Whether an entry sits at this (directory, name) location.
pub open spec fn at_loc(e: BlobEntry, dir: Seq<u8>, name: Seq<u8>) -> bool {
    e.dir@ == dir && e.name@ == name
}

/// The data stored under a (directory, name) location, if any.
pub open spec fn blob_lookup(entries: Seq<BlobEntry>, dir: Seq<u8>, name: Seq<u8>) -> Option<
    Seq<u8>,
>
    decreases entries.len(),
{
    if entries.len() == 0 {
        None
    } else if at_loc(entries.first(), dir, name) {
        Some(entries.first().data@)
    } else {
        blob_lookup(entries.drop_first(), dir, name)
    }
}

/// No two entries share a location.
pub open spec fn unique_locs(entries: Seq<BlobEntry>) -> bool {
    forall|i: int, j: int|
        0 <= i < j < entries.len() ==> !at_loc(
            #[trigger] entries[i],
            (#[trigger] entries[j]).dir@,
            entries[j].name@,
        )
}

/// A successful lookup names some matching entry; a failed one means no
/// entry matches.
proof fn lemma_blob_lookup_props(entries: Seq<BlobEntry>, dir: Seq<u8>, name: Seq<u8>)
    ensures
        match blob_lookup(entries, dir, name) {
            Some(x) => exists|i: int|
                0 <= i < entries.len() && #[trigger] at_loc(entries[i], dir, name)
                    && entries[i].data@ == x,
            None => forall|i: int|
                0 <= i < entries.len() ==> !#[trigger] at_loc(entries[i], dir, name),
        },
    decreases entries.len(),
{
    if entries.len() > 0 {
        let rest = entries.drop_first();
        assert(forall|i: int| 0 <= i < rest.len() ==> rest[i] == entries[i + 1]);
        if at_loc(entries.first(), dir, name) {
            assert(at_loc(entries[0], dir, name) && entries[0].data@ == entries.first().data@);
        } else {
            lemma_blob_lookup_props(rest, dir, name);
            match blob_lookup(entries, dir, name) {
                Some(x) => {
                    let i = choose|i: int|
                        0 <= i < rest.len() && #[trigger] at_loc(rest[i], dir, name)
                            && rest[i].data@ == x;
                    assert(at_loc(entries[i + 1], dir, name) && entries[i + 1].data@ == x);
                },
                None => {
                    assert forall|i: int| 0 <= i < entries.len() implies !at_loc(
                        entries[i],
                        dir,
                        name,
                    ) by {
                        if i > 0 {
                            assert(!at_loc(rest[i - 1], dir, name));
                        }
                    };
                },
            }
        }
    }
}

/// With unique locations, lookup returns exactly the data of whichever
/// entry sits at the location.
proof fn lemma_blob_lookup_at(entries: Seq<BlobEntry>, dir: Seq<u8>, name: Seq<u8>, i: int)
    requires
        unique_locs(entries),
        0 <= i < entries.len(),
        at_loc(entries[i], dir, name),
    ensures
        blob_lookup(entries, dir, name) == Some(entries[i].data@),
{
    lemma_blob_lookup_props(entries, dir, name);
    match blob_lookup(entries, dir, name) {
        Some(x) => {
            let w = choose|w: int|
                0 <= w < entries.len() && #[trigger] at_loc(entries[w], dir, name)
                    && entries[w].data@ == x;
            if w != i {
                assert(!at_loc(entries[if w < i {
                    w
                } else {
                    i
                }], entries[if w < i {
                    i
                } else {
                    w
                }].dir@, entries[if w < i {
                    i
                } else {
                    w
                }].name@));
            }
        },
        None => {
            assert(at_loc(entries[i], dir, name));
        },
    }
}

/// Writing one entry changes lookup at its location alone, whether the
/// entry replaces the one that sat there or is appended as new.
proof fn lemma_blob_store_write(
    old_e: Seq<BlobEntry>,
    new_e: Seq<BlobEntry>,
    k: int,
    entry: BlobEntry,
)
    requires
        unique_locs(old_e),
        0 <= k <= old_e.len(),
        k < old_e.len() ==> new_e == old_e.update(k, entry) && at_loc(
            old_e[k],
            entry.dir@,
            entry.name@,
        ),
        k == old_e.len() ==> new_e == old_e.push(entry) && (forall|j: int|
            0 <= j < old_e.len() ==> !#[trigger] at_loc(old_e[j], entry.dir@, entry.name@)),
    ensures
        unique_locs(new_e),
        forall|d: Seq<u8>, n: Seq<u8>| #[trigger] blob_lookup(new_e, d, n) == (if d == entry.dir@
            && n == entry.name@ {
            Some(entry.data@)
        } else {
            blob_lookup(old_e, d, n)
        }),
{
    assert(new_e.len() == if k < old_e.len() {
        old_e.len()
    } else {
        old_e.len() + 1
    });
    assert(forall|j: int| 0 <= j < new_e.len() && j != k ==> new_e[j] == old_e[j]);
    assert(new_e[k] == entry);
    assert forall|i: int, j: int| 0 <= i < j < new_e.len() implies !at_loc(
        new_e[i],
        new_e[j].dir@,
        new_e[j].name@,
    ) by {
        if i != k && j != k {
            assert(!at_loc(old_e[i], old_e[j].dir@, old_e[j].name@));
        } else if i == k {
            // new_e[k] sits where old_e[k] sat (or nowhere previously)
            if k < old_e.len() {
                assert(!at_loc(old_e[k], old_e[j].dir@, old_e[j].name@));
            }
        } else {
            if k < old_e.len() {
                assert(!at_loc(old_e[i], old_e[k].dir@, old_e[k].name@));
            } else {
                assert(!at_loc(old_e[i], entry.dir@, entry.name@));
            }
        }
    };
    assert forall|d: Seq<u8>, n: Seq<u8>| #[trigger] blob_lookup(new_e, d, n) == (if d
        == entry.dir@ && n == entry.name@ {
        Some(entry.data@)
    } else {
        blob_lookup(old_e, d, n)
    }) by {
        if d == entry.dir@ && n == entry.name@ {
            lemma_blob_lookup_at(new_e, d, n, k);
        } else {
            lemma_blob_lookup_props(new_e, d, n);
            lemma_blob_lookup_props(old_e, d, n);
            match blob_lookup(old_e, d, n) {
                Some(x) => {
                    let w = choose|w: int|
                        0 <= w < old_e.len() && #[trigger] at_loc(old_e[w], d, n) && old_e[w].data@
                            == x;
                    if k < old_e.len() {
                        assert(w != k);
                    }
                    assert(new_e[w] == old_e[w]);
                    lemma_blob_lookup_at(new_e, d, n, w);
                },
                None => {
                    match blob_lookup(new_e, d, n) {
                        Some(x) => {
                            let w = choose|w: int|
                                0 <= w < new_e.len() && #[trigger] at_loc(new_e[w], d, n)
                                    && new_e[w].data@ == x;
                            assert(w != k);
                            assert(at_loc(old_e[w], d, n));
                        },
                        None => {},
                    }
                },
            }
        }
    };
}

impl BlobStore {
    /// The store's invariant: one file per location.
    pub open spec fn wf(&self) -> bool {
        unique_locs(self.entries@)
    }

    /// An empty store.
    pub fn new() -> (r: BlobStore)
        ensures
            r.wf(),
            forall|d: Seq<u8>, n: Seq<u8>| #[trigger] blob_lookup(r.entries@, d, n) is None,
    {
        let r = BlobStore { entries: Vec::new() };
        proof {
            assert forall|d: Seq<u8>, n: Seq<u8>| #[trigger]
                blob_lookup(r.entries@, d, n) is None by {
                assert(r.entries@.len() == 0);
            };
        }
        r
    }

    /// Write a blob at a location, overwriting what was there: uploads
    /// for the same content hash are idempotent by design.
    pub fn put(&mut self, dir: Vec<u8>, name: Vec<u8>, data: Vec<u8>)
        requires
            old(self).wf(),
        ensures
            final(self).wf(),
            forall|d: Seq<u8>, n: Seq<u8>| #[trigger] blob_lookup(final(self).entries@, d, n) == (
            if d == dir@ && n == name@ {
                Some(data@)
            } else {
                blob_lookup(old(self).entries@, d, n)
            }),
    {
        let ghost old_entries = self.entries@;
        let at = self.find_loc(dir.as_slice(), name.as_slice());
        let entry = BlobEntry { dir, name, data };
        let ghost k: int = match at {
            Some(i) => i as int,
            None => old_entries.len() as int,
        };
        match at {
            Some(i) => {
                self.entries.set(i, entry);
            },
            None => {
                self.entries.push(entry);
            },
        }
        proof {
            lemma_blob_store_write(old_entries, self.entries@, k, entry);
        }
    }

    /// Find the entry at a location, if any.
    fn find_loc(&self, dir: &[u8], name: &[u8]) -> (r: Option<usize>)
        ensures
            match r {
                Some(i) => i < self.entries@.len() && at_loc(
                    self.entries@[i as int],
                    dir@,
                    name@,
                ),
                None => forall|j: int|
                    0 <= j < self.entries@.len() ==> !#[trigger] at_loc(
                        self.entries@[j],
                        dir@,
                        name@,
                    ),
            },
    {
        let n_entries = self.entries.len();
        for i in 0..n_entries
            invariant
                n_entries == self.entries@.len(),
                forall|j: int| 0 <= j < i ==> !#[trigger] at_loc(self.entries@[j], dir@, name@),
        {
            if bytes_eq(self.entries[i].dir.as_slice(), dir) && bytes_eq(
                self.entries[i].name.as_slice(),
                name,
            ) {
                return Some(i);
            }
        }
        None
    }

    /// Read the blob at a location.
    pub fn get(&self, dir: &[u8], name: &[u8]) -> (r: Option<&Vec<u8>>)
        requires
            self.wf(),
        ensures
            match r {
                Some(v) => blob_lookup(self.entries@, dir@, name@) == Some(v@),
                None => blob_lookup(self.entries@, dir@, name@) is None,
            },
    {
        match self.find_loc(dir, name) {
            Some(i) => {
                proof {
                    lemma_blob_lookup_at(self.entries@, dir@, name@, i as int);
                }
                Some(&self.entries[i].data)
            },
            None => {
                proof {
                    lemma_blob_lookup_props(self.entries@, dir@, name@);
                    match blob_lookup(self.entries@, dir@, name@) {
                        Some(x) => {
                            let w = choose|w: int|
                                0 <= w < self.entries@.len() && #[trigger] at_loc(
                                    self.entries@[w],
                                    dir@,
                                    name@,
                                ) && self.entries@[w].data@ == x;
                            assert(!at_loc(self.entries@[w], dir@, name@));
                        },
                        None => {},
                    }
                }
                None
            },
        }
    }
}

/// The two path components under the storage root at which the blob for
/// this object id lives.
pub fn shard_path(id: &[u8]) -> (r: (Vec<u8>, Vec<u8>))
    requires
        id@.len() >= 1,
    ensures
        r.0@ == hex_of(id@.take(1)),
        r.1@ == hex_of(id@.skip(1)),
{
    let head = bytes_slice(id, 0, 1);
    let rest = bytes_slice(id, 1, id.len());
    proof {
        assert(id@.subrange(0, 1) =~= id@.take(1));
        assert(id@.subrange(1, id@.len() as int) =~= id@.skip(1));
    }
    (hex_encode(head.as_slice()), hex_encode(rest.as_slice()))
}

/// Distinct object ids of equal length are stored at distinct
/// locations: the shard split loses nothing.
pub proof fn lemma_shard_path_injective(id1: Seq<u8>, id2: Seq<u8>)
    requires
        id1.len() == id2.len(),
        id1.len() >= 1,
        id1 != id2,
    ensures
        hex_of(id1.take(1)) != hex_of(id2.take(1)) || hex_of(id1.skip(1)) != hex_of(id2.skip(1)),
{
    if hex_of(id1.take(1)) == hex_of(id2.take(1)) && hex_of(id1.skip(1)) == hex_of(id2.skip(1)) {
        lemma_hex_round_trip(id1.take(1));
        lemma_hex_round_trip(id2.take(1));
        lemma_hex_round_trip(id1.skip(1));
        lemma_hex_round_trip(id2.skip(1));
        assert(id1.take(1) == id2.take(1));
        assert(id1.skip(1) == id2.skip(1));
        assert(id1 =~= id1.take(1) + id1.skip(1));
        assert(id2 =~= id2.take(1) + id2.skip(1));
        assert(id1 == id2);
    }
}

} // verus!
