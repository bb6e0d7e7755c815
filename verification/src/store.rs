//! The metadata store: Object, Commit, File and Environment records.
//!
//! The store models the relational schema of the system as plain vectors
//! of records. Its well-formedness predicate carries what the schema
//! enforced through keys and constraints: identifiers are unique and of
//! fixed length, the File triple is a primary key, and every foreign key
//! resolves.

use vstd::prelude::*;

use crate::bytes::bytes_eq;

verus! {

/// A content-addressed, deduplicated blob identity.
pub struct ObjectRecord {
    /// SHA-256 hash of the blob's bytes; 32 bytes.
    pub id: Vec<u8>,
    /// Byte length of the blob; absent until an upload completes.
    pub size: Option<u64>,
    /// Unix timestamp in nanoseconds of the first registration.
    pub created: i128,
}

/// An immutable, externally-identified snapshot of a deployed file tree.
pub struct CommitRecord {
    /// Opaque identifier supplied by the deploy client; 20 bytes.
    pub id: Vec<u8>,
    /// Human-readable description.
    pub description: String,
    /// Unix timestamp in nanoseconds of registration.
    pub created: i128,
}

/// A (path, object, commit) binding: this path in this commit serves
/// this blob.
pub struct FileRecord {
    /// Manifest path, percent-encoded segments joined by `/`-prefixes.
    pub path: Vec<u8>,
    /// The object served at this path; 32 bytes.
    pub object_id: Vec<u8>,
    /// The commit this binding belongs to; 20 bytes.
    pub commit_id: Vec<u8>,
    /// Whether this path is a candidate root for fallback routing.
    pub fallback: bool,
}

/// A routing domain's pointer to its currently active commit.
pub struct EnvironmentRecord {
    /// Generated identity.
    pub id: u128,
    /// Human-readable name.
    pub name: String,
    /// Routing key; globally unique.
    pub domain: Vec<u8>,
    /// The currently active commit for this domain; 20 bytes.
    pub commit_id: Vec<u8>,
}

/// The transactional metadata store of the four entities.
pub struct MetaStore {
    pub objects: Vec<ObjectRecord>,
    pub commits: Vec<CommitRecord>,
    pub files: Vec<FileRecord>,
    pub environments: Vec<EnvironmentRecord>,
}

/// Whether some object row carries this id.
pub open spec fn has_object(objects: Seq<ObjectRecord>, id: Seq<u8>) -> bool {
    exists|i: int| 0 <= i < objects.len() && #[trigger] objects[i].id@ == id
}

/// Whether some commit row carries this id.
pub open spec fn has_commit(commits: Seq<CommitRecord>, id: Seq<u8>) -> bool {
    exists|i: int| 0 <= i < commits.len() && #[trigger] commits[i].id@ == id
}

/// Whether some environment row carries this domain.
pub open spec fn has_env_domain(envs: Seq<EnvironmentRecord>, domain: Seq<u8>) -> bool {
    exists|i: int| 0 <= i < envs.len() && #[trigger] envs[i].domain@ == domain
}

/// Whether some environment row carries this generated id.
pub open spec fn has_env_id(envs: Seq<EnvironmentRecord>, id: u128) -> bool {
    exists|i: int| 0 <= i < envs.len() && #[trigger] envs[i].id == id
}

/// Whether some file row carries this (path, object, commit) triple.
pub open spec fn has_file(
    files: Seq<FileRecord>,
    path: Seq<u8>,
    object_id: Seq<u8>,
    commit_id: Seq<u8>,
) -> bool {
    exists|i: int|
        0 <= i < files.len() && #[trigger] file_matches(files[i], path, object_id, commit_id)
}

/// Whether one file row carries this (path, object, commit) triple.
pub open spec fn file_matches(
    f: FileRecord,
    path: Seq<u8>,
    object_id: Seq<u8>,
    commit_id: Seq<u8>,
) -> bool {
    f.path@ == path && f.object_id@ == object_id && f.commit_id@ == commit_id
}

/// How many object rows carry this id; with a well-formed store this is
/// 0 or 1.
pub open spec fn object_count_of(objects: Seq<ObjectRecord>, id: Seq<u8>) -> int
    decreases objects.len(),
{
    if objects.len() == 0 {
        0
    } else {
        (if objects.last().id@ == id {
            1int
        } else {
            0int
        }) + object_count_of(objects.drop_last(), id)
    }
}

impl MetaStore {
    /// The store's invariant: what the relational schema enforces.
    pub open spec fn wf(&self) -> bool {
        // object ids are content hashes, unique and 32 bytes long
        &&& forall|i: int, j: int|
            0 <= i < j < self.objects@.len() ==> #[trigger] self.objects@[i].id@
                != #[trigger] self.objects@[j].id@
        &&& forall|i: int|
            0 <= i < self.objects@.len() ==> (#[trigger] self.objects@[i].id@).len() == 32
        // commit ids are unique and 20 bytes long
        &&& forall|i: int, j: int|
            0 <= i < j < self.commits@.len() ==> #[trigger] self.commits@[i].id@
                != #[trigger] self.commits@[j].id@
        &&& forall|i: int|
            0 <= i < self.commits@.len() ==> (#[trigger] self.commits@[i].id@).len() == 20
        // the (path, object, commit) triple is the File primary key
        &&& forall|i: int, j: int|
            0 <= i < j < self.files@.len() ==> !file_matches(
                #[trigger] self.files@[i],
                #[trigger] self.files@[j].path@,
                self.files@[j].object_id@,
                self.files@[j].commit_id@,
            )
        // every file row points at a registered commit and object
        &&& forall|i: int|
            0 <= i < self.files@.len() ==> has_commit(
                self.commits@,
                (#[trigger] self.files@[i]).commit_id@,
            ) && has_object(self.objects@, self.files@[i].object_id@)
        // environment domains and generated ids are unique
        &&& forall|i: int, j: int|
            0 <= i < j < self.environments@.len() ==> #[trigger] self.environments@[i].domain@
                != #[trigger] self.environments@[j].domain@
        &&& forall|i: int, j: int|
            0 <= i < j < self.environments@.len() ==> (#[trigger] self.environments@[i]).id != (
            #[trigger] self.environments@[j]).id
        // every environment points at a registered commit
        &&& forall|i: int|
            0 <= i < self.environments@.len() ==> has_commit(
                self.commits@,
                (#[trigger] self.environments@[i]).commit_id@,
            )
    }

    /// An empty store.
    pub fn new() -> (r: MetaStore)
        ensures
            r.wf(),
            r.objects@ =~= Seq::<ObjectRecord>::empty(),
            r.commits@ =~= Seq::<CommitRecord>::empty(),
            r.files@ =~= Seq::<FileRecord>::empty(),
            r.environments@ =~= Seq::<EnvironmentRecord>::empty(),
    {
        MetaStore {
            objects: Vec::new(),
            commits: Vec::new(),
            files: Vec::new(),
            environments: Vec::new(),
        }
    }

    /// Find the first object row carrying this id.
    pub fn find_object_index(&self, id: &[u8]) -> (r: Option<usize>)
        ensures
            match r {
                Some(i) => i < self.objects@.len() && self.objects@[i as int].id@ == id@
                    && forall|j: int| 0 <= j < i ==> self.objects@[j].id@ != id@,
                None => !has_object(self.objects@, id@),
            },
    {
        let n = self.objects.len();
        for i in 0..n
            invariant
                n == self.objects@.len(),
                forall|j: int| 0 <= j < i ==> self.objects@[j].id@ != id@,
        {
            if bytes_eq(self.objects[i].id.as_slice(), id) {
                return Some(i);
            }
        }
        None
    }

    /// Whether a commit row carries this id.
    pub fn has_commit_id(&self, id: &[u8]) -> (r: bool)
        ensures
            r == has_commit(self.commits@, id@),
    {
        let n = self.commits.len();
        for i in 0..n
            invariant
                n == self.commits@.len(),
                forall|j: int| 0 <= j < i ==> self.commits@[j].id@ != id@,
        {
            if bytes_eq(self.commits[i].id.as_slice(), id) {
                return true;
            }
        }
        false
    }

    /// Find the environment row routing this domain.
    pub fn find_env_index(&self, domain: &[u8]) -> (r: Option<usize>)
        ensures
            match r {
                Some(i) => i < self.environments@.len() && self.environments@[i as int].domain@
                    == domain@,
                None => !has_env_domain(self.environments@, domain@),
            },
    {
        let n = self.environments.len();
        for i in 0..n
            invariant
                n == self.environments@.len(),
                forall|j: int| 0 <= j < i ==> self.environments@[j].domain@ != domain@,
        {
            if bytes_eq(self.environments[i].domain.as_slice(), domain) {
                return Some(i);
            }
        }
        None
    }

    /// How many object rows carry this id.
    pub fn object_count(&self, id: &[u8]) -> (r: usize)
        ensures
            r == object_count_of(self.objects@, id@),
    {
        let n = self.objects.len();
        let mut count: usize = 0;
        assert(self.objects@.take(0) =~= Seq::<ObjectRecord>::empty());
        for i in 0..n
            invariant
                n == self.objects@.len(),
                count == object_count_of(self.objects@.take(i as int), id@),
                count <= i,
        {
            assert(self.objects@.take(i + 1).drop_last() =~= self.objects@.take(i as int));
            assert(self.objects@.take(i + 1).last() == self.objects@[i as int]);
            if bytes_eq(self.objects[i].id.as_slice(), id) {
                count = count + 1;
            }
        }
        assert(self.objects@.take(n as int) =~= self.objects@);
        count
    }
}

/// Brings storage up to the schema the services run against. The
/// relational migrations created the four tables with their keys and
/// constraints; here the schema is the record shapes together with
/// [`MetaStore::wf`], and bringing storage up is producing an empty
/// store that satisfies it.
pub struct Migrator;

impl Migrator {
    /// Set up an empty metadata store under the current schema.
    pub fn up() -> (r: MetaStore)
        ensures
            r.wf(),
            r.objects@ =~= Seq::<ObjectRecord>::empty(),
            r.commits@ =~= Seq::<CommitRecord>::empty(),
            r.files@ =~= Seq::<FileRecord>::empty(),
            r.environments@ =~= Seq::<EnvironmentRecord>::empty(),
    {
        MetaStore::new()
    }
}

/// Why an environment change was refused.
#[derive(Clone, Copy, Debug, PartialEq, Eq, Structural)]
pub enum EnvError {
    /// An environment with this generated id exists.
    DuplicateId,
    /// Another environment already routes this domain.
    DuplicateDomain,
    /// No commit with this id is registered.
    UnknownCommit,
    /// No environment routes this domain.
    UnknownDomain,
}

impl MetaStore {
    /// Whether an environment row carries this generated id.
    pub fn has_environment_id(&self, id: u128) -> (r: bool)
        ensures
            r == has_env_id(self.environments@, id),
    {
        let n = self.environments.len();
        for i in 0..n
            invariant
                n == self.environments@.len(),
                forall|j: int| 0 <= j < i ==> (#[trigger] self.environments@[j]).id != id,
        {
            if self.environments[i].id == id {
                return true;
            }
        }
        false
    }

    /// Create an environment: a domain's pointer to its active commit.
    pub fn add_environment(
        &mut self,
        id: u128,
        name: String,
        domain: Vec<u8>,
        commit_id: &[u8],
    ) -> (r: Result<(), EnvError>)
        requires
            old(self).wf(),
        ensures
            final(self).wf(),
            r is Err ==> *final(self) == *old(self),
            match r {
                Ok(_) => {
                    &&& !has_env_id(old(self).environments@, id)
                    &&& !has_env_domain(old(self).environments@, domain@)
                    &&& has_commit(old(self).commits@, commit_id@)
                    &&& final(self).environments@.len() == old(self).environments@.len() + 1
                    &&& final(self).environments@.take(old(self).environments@.len() as int)
                        == old(self).environments@
                    &&& final(self).environments@.last().id == id
                    &&& final(self).environments@.last().name@ == name@
                    &&& final(self).environments@.last().domain@ == domain@
                    &&& final(self).environments@.last().commit_id@ == commit_id@
                    &&& final(self).objects@ == old(self).objects@
                    &&& final(self).commits@ == old(self).commits@
                    &&& final(self).files@ == old(self).files@
                },
                Err(EnvError::DuplicateId) => has_env_id(old(self).environments@, id),
                Err(EnvError::DuplicateDomain) => !has_env_id(old(self).environments@, id)
                    && has_env_domain(old(self).environments@, domain@),
                Err(EnvError::UnknownCommit) => !has_env_id(old(self).environments@, id)
                    && !has_env_domain(old(self).environments@, domain@) && !has_commit(
                    old(self).commits@,
                    commit_id@,
                ),
                Err(EnvError::UnknownDomain) => false,
            },
    {
        let ghost pre = *self;
        if self.has_environment_id(id) {
            return Err(EnvError::DuplicateId);
        }
        if self.find_env_index(domain.as_slice()).is_some() {
            return Err(EnvError::DuplicateDomain);
        }
        if !self.has_commit_id(commit_id) {
            return Err(EnvError::UnknownCommit);
        }
        let commit_id_vec = crate::bytes::bytes_to_vec(commit_id);
        self.environments.push(
            EnvironmentRecord { id, name, domain, commit_id: commit_id_vec },
        );
        proof {
            assert(self.environments@.take(pre.environments@.len() as int)
                =~= pre.environments@);
            assert forall|i: int, j: int| 0 <= i < j < self.environments@.len() implies
                #[trigger] self.environments@[i].domain@
                != #[trigger] self.environments@[j].domain@ by {
                if j < pre.environments@.len() {
                    assert(pre.environments@[i].domain@ != pre.environments@[j].domain@);
                } else {
                    assert(self.environments@[i] == pre.environments@[i]);
                    if self.environments@[i].domain@ == domain@ {
                        assert(has_env_domain(pre.environments@, domain@));
                    }
                }
            };
            assert forall|i: int, j: int| 0 <= i < j < self.environments@.len() implies (
            #[trigger] self.environments@[i]).id != (#[trigger] self.environments@[j]).id by {
                if j < pre.environments@.len() {
                    assert(pre.environments@[i].id != pre.environments@[j].id);
                } else {
                    assert(self.environments@[i] == pre.environments@[i]);
                    if self.environments@[i].id == id {
                        assert(has_env_id(pre.environments@, id));
                    }
                }
            };
            assert forall|i: int| 0 <= i < self.environments@.len() implies has_commit(
                self.commits@,
                (#[trigger] self.environments@[i]).commit_id@,
            ) by {
                if i < pre.environments@.len() {
                    assert(self.environments@[i] == pre.environments@[i]);
                    assert(has_commit(pre.commits@, pre.environments@[i].commit_id@));
                } else {
                    assert(has_commit(pre.commits@, commit_id@));
                }
            };
        }
        Ok(())
    }

    /// Point a domain at another registered commit: the only mutable
    /// pointer in the model, and how a newer deployment goes live.
    pub fn set_environment_commit(&mut self, domain: &[u8], commit_id: &[u8]) -> (r: Result<
        (),
        EnvError,
    >)
        requires
            old(self).wf(),
        ensures
            final(self).wf(),
            r is Err ==> *final(self) == *old(self),
            match r {
                Ok(_) => {
                    &&& has_env_domain(old(self).environments@, domain@)
                    &&& has_commit(old(self).commits@, commit_id@)
                    &&& final(self).environments@.len() == old(self).environments@.len()
                    &&& forall|j: int|
                        0 <= j < old(self).environments@.len() ==> env_repointed(
                            old(self).environments@,
                            final(self).environments@,
                            j,
                            domain@,
                            commit_id@,
                        )
                    &&& final(self).objects@ == old(self).objects@
                    &&& final(self).commits@ == old(self).commits@
                    &&& final(self).files@ == old(self).files@
                },
                Err(EnvError::UnknownDomain) => !has_env_domain(old(self).environments@, domain@),
                Err(EnvError::UnknownCommit) => has_env_domain(old(self).environments@, domain@)
                    && !has_commit(old(self).commits@, commit_id@),
                Err(EnvError::DuplicateId) => false,
                Err(EnvError::DuplicateDomain) => false,
            },
    {
        let ghost pre = *self;
        let i = match self.find_env_index(domain) {
            Some(i) => i,
            None => {
                return Err(EnvError::UnknownDomain);
            },
        };
        if !self.has_commit_id(commit_id) {
            return Err(EnvError::UnknownCommit);
        }
        let id = self.environments[i].id;
        let name = self.environments[i].name.clone();
        let domain_vec = self.environments[i].domain.clone();
        let commit_id_vec = crate::bytes::bytes_to_vec(commit_id);
        self.environments.set(
            i,
            EnvironmentRecord { id, name, domain: domain_vec, commit_id: commit_id_vec },
        );
        proof {
            assert(self.environments@[i as int].domain@ == pre.environments@[i as int].domain@);
            assert forall|a: int, b: int| 0 <= a < b < self.environments@.len() implies
                #[trigger] self.environments@[a].domain@
                != #[trigger] self.environments@[b].domain@ by {
                assert(pre.environments@[a].domain@ != pre.environments@[b].domain@);
                assert(self.environments@[a].domain@ == pre.environments@[a].domain@);
                assert(self.environments@[b].domain@ == pre.environments@[b].domain@);
            };
            assert forall|a: int, b: int| 0 <= a < b < self.environments@.len() implies (
            #[trigger] self.environments@[a]).id != (#[trigger] self.environments@[b]).id by {
                assert(pre.environments@[a].id != pre.environments@[b].id);
                assert(self.environments@[a].id == pre.environments@[a].id);
                assert(self.environments@[b].id == pre.environments@[b].id);
            };
            assert forall|a: int| 0 <= a < self.environments@.len() implies has_commit(
                self.commits@,
                (#[trigger] self.environments@[a]).commit_id@,
            ) by {
                if a != i {
                    assert(self.environments@[a] == pre.environments@[a]);
                    assert(has_commit(pre.commits@, pre.environments@[a].commit_id@));
                } else {
                    assert(has_commit(pre.commits@, commit_id@));
                }
            };
            assert forall|j: int| 0 <= j < pre.environments@.len() implies env_repointed(
                pre.environments@,
                self.environments@,
                j,
                domain@,
                commit_id@,
            ) by {
                if j != i {
                    assert(self.environments@[j] == pre.environments@[j]);
                    if pre.environments@[j].domain@ == domain@ {
                        assert(pre.environments@[if j < i {
                            j
                        } else {
                            i as int
                        }].domain@ != pre.environments@[if j < i {
                            i as int
                        } else {
                            j
                        }].domain@);
                    }
                }
            };
        }
        Ok(())
    }
}

/// One row of the repointing holds: the row routing the domain now
/// points at the new commit; every other row is untouched.
pub open spec fn env_repointed(
    pre: Seq<EnvironmentRecord>,
    post: Seq<EnvironmentRecord>,
    j: int,
    domain: Seq<u8>,
    commit_id: Seq<u8>,
) -> bool {
    &&& post[j].id == pre[j].id
    &&& post[j].name@ == pre[j].name@
    &&& post[j].domain@ == pre[j].domain@
    &&& post[j].commit_id@ == (if pre[j].domain@ == domain {
        commit_id
    } else {
        pre[j].commit_id@
    })
}

/// In a well-formed store an id that occurs at all occurs in exactly one
/// object row: content addressing deduplicates.
pub proof fn lemma_object_count_unique(objects: Seq<ObjectRecord>, id: Seq<u8>)
    requires
        forall|i: int, j: int|
            0 <= i < j < objects.len() ==> #[trigger] objects[i].id@ != #[trigger] objects[j].id@,
    ensures
        has_object(objects, id) ==> object_count_of(objects, id) == 1,
        !has_object(objects, id) ==> object_count_of(objects, id) == 0,
    decreases objects.len(),
{
    if objects.len() > 0 {
        let prefix = objects.drop_last();
        assert(forall|i: int| 0 <= i < prefix.len() ==> prefix[i] == objects[i]);
        lemma_object_count_unique(prefix, id);
        if objects.last().id@ == id {
            assert(has_object(objects, id));
            assert(!has_object(prefix, id));
        } else {
            if has_object(objects, id) {
                let i = choose|i: int| 0 <= i < objects.len() && #[trigger] objects[i].id@ == id;
                assert(i < objects.len() - 1);
                assert(has_object(prefix, id));
            }
            if has_object(prefix, id) {
                assert(has_object(objects, id));
            }
        }
    }
}

} // verus!
