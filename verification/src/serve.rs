//! The serving engine: resolve `(domain, path)` to a stored blob and
//! answer with HTTP caching semantics.
//!
//! Only `GET` is served. The routing domain is the request's host
//! indicator with any port stripped, or `localhost`. An exact path
//! match under the domain's active commit wins outright; otherwise the
//! fallback files of that commit compete by specificity: the candidate
//! whose directory prefix matches the normalized path with the least
//! remaining suffix wins, a candidate without `/` matches everything
//! with the worst score. A conditional request at or after the object's
//! creation answers Not-Modified; an unreadable date answers
//! Bad-Request. Metadata without bytes on storage is a server fault.

use vstd::prelude::*;
use vstd::utf8::{decode_utf8, valid_utf8};

use crate::blob::{blob_lookup, shard_path, BlobStore};
use crate::bytes::{
    bytes_eq, bytes_slice, bytes_to_vec, find_byte, first_index_of, is_prefix, last_index_of,
    lemma_first_index_of, lemma_last_index_of, rfind_byte, starts_with,
};
use crate::hexcode::hex_of;
use crate::httpdate::{
    bytes_as_str, format_rfc2822, http_date, http_date_of, parse_rfc2822, rfc2822_instant,
    rfc2822_text,
};
use crate::pathcode::SLASH;
use crate::store::{EnvironmentRecord, FileRecord, MetaStore, ObjectRecord};

verus! {

/// The content type guessed from a path's extension, or
/// `application/octet-stream`: a pure table lookup, a function of the
/// path bytes alone.
pub uninterp spec fn mime_for(path: Seq<u8>) -> Seq<u8>;

/// Relies on mime_guess: the essence of the first guess for the path's
/// extension, with `application/octet-stream` as the fallback.
#[verifier::external_body]
pub(crate) fn mime_lookup(path: &[u8]) -> (r: Vec<u8>)
    ensures
        r@ == mime_for(path@),
{
    let p = String::from_utf8_lossy(path);
    mime_guess::from_path(&*p).first_or_octet_stream().essence_str().as_bytes().to_vec()
}

/// The value of an optional byte string.
pub open spec fn view_opt(o: Option<Vec<u8>>) -> Option<Seq<u8>> {
    match o {
        Some(v) => Some(v@),
        None => None,
    }
}

/// The request method, as far as serving distinguishes it.
#[derive(Clone, Copy, Debug, PartialEq, Eq, Structural)]
pub enum Method {
    Get,
    Other,
}

/// The status of a response.
#[derive(Clone, Copy, Debug, PartialEq, Eq, Structural)]
pub enum Status {
    Okay,
    NotModified,
    BadRequest,
    NotFound,
    MethodNotAllowed,
    ServerError,
}

/// A served response: status, body and headers.
pub struct ServeResponse {
    pub status: Status,
    pub body: Vec<u8>,
    pub content_type: Option<Vec<u8>>,
    pub last_modified: Option<Vec<u8>>,
    pub content_length: Option<u64>,
}

/// The mathematical value of a response.
pub struct ServeResponseView {
    pub status: Status,
    pub body: Seq<u8>,
    pub content_type: Option<Seq<u8>>,
    pub last_modified: Option<Seq<u8>>,
    pub content_length: Option<u64>,
}

impl View for ServeResponse {
    type V = ServeResponseView;

    open spec fn view(&self) -> ServeResponseView {
        ServeResponseView {
            status: self.status,
            body: self.body@,
            content_type: view_opt(self.content_type),
            last_modified: view_opt(self.last_modified),
            content_length: self.content_length,
        }
    }
}

/// A response of a status alone: no body, no headers.
pub open spec fn empty_response(status: Status) -> ServeResponseView {
    ServeResponseView {
        status,
        body: Seq::empty(),
        content_type: None,
        last_modified: None,
        content_length: None,
    }
}

/// Build a response of a status alone.
fn empty_response_exec(status: Status) -> (r: ServeResponse)
    ensures
        r@ == empty_response(status),
{
    let r = ServeResponse {
        status,
        body: Vec::new(),
        content_type: None,
        last_modified: None,
        content_length: None,
    };
    proof {
        assert(r@.body =~= empty_response(status).body);
    }
    r
}

/// The bytes of `localhost`, the routing domain of last resort.
pub open spec fn localhost_bytes() -> Seq<u8> {
    seq![0x6cu8, 0x6fu8, 0x63u8, 0x61u8, 0x6cu8, 0x68u8, 0x6fu8, 0x73u8, 0x74u8]
}

/// The routing domain of a request: the host indicator up to any `:`
/// port suffix, or `localhost` where the request carries none.
pub open spec fn host_of(header: Option<Seq<u8>>) -> Seq<u8> {
    match header {
        Some(h) => match first_index_of(h, 0x3a) {
            Some(i) => h.take(i),
            None => h,
        },
        None => localhost_bytes(),
    }
}

/// Extract the routing domain from the request's host indicator.
pub fn host_value(header: &Option<Vec<u8>>) -> (r: Vec<u8>)
    ensures
        r@ == host_of(view_opt(*header)),
{
    match header {
        Some(h) => {
            proof {
                lemma_first_index_of(h@, 0x3a);
            }
            match find_byte(h.as_slice(), 0x3a) {
                Some(i) => {
                    let r = bytes_slice(h.as_slice(), 0, i);
                    proof {
                        assert(h@.subrange(0, i as int) =~= h@.take(i as int));
                    }
                    r
                },
                None => bytes_to_vec(h.as_slice()),
            }
        },
        None => {
            let mut r: Vec<u8> = Vec::new();
            r.push(0x6c);
            r.push(0x6f);
            r.push(0x63);
            r.push(0x61);
            r.push(0x6c);
            r.push(0x68);
            r.push(0x6f);
            r.push(0x73);
            r.push(0x74);
            proof {
                assert(r@ =~= localhost_bytes());
            }
            r
        },
    }
}

/// A request path normalized for fallback matching: ending with `/`.
pub open spec fn normalized(path: Seq<u8>) -> Seq<u8> {
    if path.len() > 0 && path.last() == SLASH {
        path
    } else {
        path + seq![SLASH]
    }
}

/// Normalize a request path for fallback matching.
fn normalize_path(path: &[u8]) -> (r: Vec<u8>)
    ensures
        r@ == normalized(path@),
{
    let mut r = bytes_to_vec(path);
    let n = r.len();
    if n == 0 || r[n - 1] != SLASH {
        r.push(SLASH);
    }
    r
}

/// The commit a domain serves: the commit id of its environment row.
pub open spec fn active_commit(envs: Seq<EnvironmentRecord>, domain: Seq<u8>) -> Option<Seq<u8>>
    decreases envs.len(),
{
    if envs.len() == 0 {
        None
    } else if envs.first().domain@ == domain {
        Some(envs.first().commit_id@)
    } else {
        active_commit(envs.drop_first(), domain)
    }
}

/// Without a row for the domain there is no active commit.
proof fn lemma_active_commit_none(envs: Seq<EnvironmentRecord>, domain: Seq<u8>)
    requires
        forall|i: int| 0 <= i < envs.len() ==> (#[trigger] envs[i]).domain@ != domain,
    ensures
        active_commit(envs, domain) is None,
    decreases envs.len(),
{
    if envs.len() > 0 {
        assert(envs[0].domain@ != domain);
        assert(forall|i: int| 0 <= i < envs.drop_first().len() ==> (#[trigger] envs.drop_first()[i])
            == envs[i + 1]);
        lemma_active_commit_none(envs.drop_first(), domain);
    }
}

/// With unique domains, any row routing the domain gives the active
/// commit.
proof fn lemma_active_commit_at(envs: Seq<EnvironmentRecord>, domain: Seq<u8>, i: int)
    requires
        forall|a: int, b: int|
            0 <= a < b < envs.len() ==> #[trigger] envs[a].domain@ != #[trigger] envs[b].domain@,
        0 <= i < envs.len(),
        envs[i].domain@ == domain,
    ensures
        active_commit(envs, domain) == Some(envs[i].commit_id@),
    decreases envs.len(),
{
    if envs.first().domain@ == domain {
        if i != 0 {
            assert(envs[0].domain@ != envs[i].domain@);
        }
    } else {
        let rest = envs.drop_first();
        assert(forall|k: int| 0 <= k < rest.len() ==> #[trigger] rest[k] == envs[k + 1]);
        lemma_active_commit_at(rest, domain, i - 1);
    }
}

/// The object row carrying an id.
pub open spec fn object_with_id(objects: Seq<ObjectRecord>, id: Seq<u8>) -> ObjectRecord
    decreases objects.len(),
{
    if objects.len() == 0 {
        vstd::pervasive::arbitrary()
    } else if objects.first().id@ == id {
        objects.first()
    } else {
        object_with_id(objects.drop_first(), id)
    }
}

/// With unique ids, any row carrying the id is the row.
proof fn lemma_object_with_id(objects: Seq<ObjectRecord>, id: Seq<u8>, i: int)
    requires
        forall|a: int, b: int|
            0 <= a < b < objects.len() ==> #[trigger] objects[a].id@ != #[trigger] objects[b].id@,
        0 <= i < objects.len(),
        objects[i].id@ == id,
    ensures
        object_with_id(objects, id) == objects[i],
    decreases objects.len(),
{
    if objects.first().id@ == id {
        if i != 0 {
            assert(objects[0].id@ != objects[i].id@);
        }
    } else {
        let rest = objects.drop_first();
        assert(forall|k: int| 0 <= k < rest.len() ==> #[trigger] rest[k] == objects[k + 1]);
        lemma_object_with_id(rest, id, i - 1);
    }
}

/// The first file row binding this path under this commit.
pub open spec fn exact_match(files: Seq<FileRecord>, cid: Seq<u8>, path: Seq<u8>) -> Option<int>
    decreases files.len(),
{
    if files.len() == 0 {
        None
    } else if files.first().commit_id@ == cid && files.first().path@ == path {
        Some(0)
    } else {
        match exact_match(files.drop_first(), cid, path) {
            Some(i) => Some(i + 1),
            None => None,
        }
    }
}

/// A found exact match lies inside the rows and matches.
proof fn lemma_exact_match_in_range(files: Seq<FileRecord>, cid: Seq<u8>, path: Seq<u8>)
    ensures
        match exact_match(files, cid, path) {
            Some(i) => 0 <= i < files.len() && files[i].commit_id@ == cid && files[i].path@
                == path,
            None => true,
        },
    decreases files.len(),
{
    if files.len() > 0 && !(files.first().commit_id@ == cid && files.first().path@ == path) {
        lemma_exact_match_in_range(files.drop_first(), cid, path);
    }
}

/// The fallback score of a candidate path against the normalized
/// request path: the length of what the candidate's directory prefix
/// leaves of the path (smaller is more specific); the worst possible
/// score for a candidate without `/`; nothing if the prefix does not
/// match.
pub open spec fn fallback_score(candidate: Seq<u8>, norm: Seq<u8>) -> Option<int> {
    match last_index_of(candidate, SLASH) {
        Some(i) => {
            let prefix = candidate.take(i + 1);
            if is_prefix(prefix, norm) {
                Some(norm.len() - prefix.len())
            } else {
                None
            }
        },
        None => Some(usize::MAX as int),
    }
}

/// Compute a candidate's fallback score.
fn score_of(candidate: &[u8], norm: &[u8]) -> (r: Option<usize>)
    ensures
        match r {
            Some(s) => fallback_score(candidate@, norm@) == Some(s as int),
            None => fallback_score(candidate@, norm@) is None,
        },
{
    proof {
        lemma_last_index_of(candidate@, SLASH);
    }
    let n = candidate.len();
    match rfind_byte(candidate, SLASH) {
        Some(i) => {
            proof {
                assert(last_index_of(candidate@, SLASH) == Some(i as int));
                assert(i < n);
            }
            let prefix = bytes_slice(candidate, 0, i + 1);
            proof {
                assert(candidate@.subrange(0, i + 1) =~= candidate@.take(i + 1));
            }
            if starts_with(norm, prefix.as_slice()) {
                Some(norm.len() - prefix.len())
            } else {
                None
            }
        },
        None => Some(usize::MAX),
    }
}

/// The index of the best fallback candidate under this commit: the
/// first file row achieving the least score.
pub open spec fn fallback_best(files: Seq<FileRecord>, cid: Seq<u8>, norm: Seq<u8>) -> Option<int>
    decreases files.len(),
{
    if files.len() == 0 {
        None
    } else {
        let rest = fallback_best(files.drop_last(), cid, norm);
        let j = files.len() - 1;
        let last = files.last();
        if last.commit_id@ == cid && last.fallback && fallback_score(last.path@, norm) is Some {
            match rest {
                None => Some(j),
                Some(b) => if fallback_score(files[b].path@, norm).unwrap() <= fallback_score(
                    last.path@,
                    norm,
                ).unwrap() {
                    Some(b)
                } else {
                    Some(j)
                },
            }
        } else {
            rest
        }
    }
}

/// Fallback specificity: the choice is a matching candidate of the
/// commit, no candidate matches with a smaller remaining suffix, and
/// where no candidate matches nothing is chosen.
pub proof fn lemma_fallback_specificity(files: Seq<FileRecord>, cid: Seq<u8>, norm: Seq<u8>)
    ensures
        match fallback_best(files, cid, norm) {
            Some(j) => {
                &&& 0 <= j < files.len()
                &&& files[j].commit_id@ == cid
                &&& files[j].fallback
                &&& fallback_score(files[j].path@, norm) is Some
                &&& forall|k: int|
                    0 <= k < files.len() && (#[trigger] files[k]).commit_id@ == cid
                        && files[k].fallback && fallback_score(files[k].path@, norm) is Some
                        ==> fallback_score(files[j].path@, norm).unwrap() <= fallback_score(
                        files[k].path@,
                        norm,
                    ).unwrap()
            },
            None => forall|k: int|
                0 <= k < files.len() && (#[trigger] files[k]).commit_id@ == cid
                    && files[k].fallback ==> fallback_score(files[k].path@, norm) is None,
        },
    decreases files.len(),
{
    if files.len() > 0 {
        let shorter = files.drop_last();
        lemma_fallback_specificity(shorter, cid, norm);
        assert(forall|k: int| 0 <= k < shorter.len() ==> #[trigger] shorter[k] == files[k]);
        let last = files.last();
        let j0 = files.len() - 1;
        assert(files[j0] == last);
        match fallback_best(files, cid, norm) {
            Some(j) => {
                assert(0 <= j < files.len() && files[j].commit_id@ == cid && files[j].fallback
                    && fallback_score(files[j].path@, norm) is Some) by {
                    if !(last.commit_id@ == cid && last.fallback && fallback_score(
                        last.path@,
                        norm,
                    ) is Some) {
                        assert(fallback_best(files, cid, norm) == fallback_best(
                            shorter,
                            cid,
                            norm,
                        ));
                        assert(shorter[j] == files[j]);
                    }
                };
                assert forall|k: int|
                    0 <= k < files.len() && (#[trigger] files[k]).commit_id@ == cid
                        && files[k].fallback && fallback_score(files[k].path@, norm) is Some
                        implies fallback_score(files[j].path@, norm).unwrap() <= fallback_score(
                    files[k].path@,
                    norm,
                ).unwrap() by {
                    if k < files.len() - 1 {
                        assert(shorter[k] == files[k]);
                    }
                };
            },
            None => {
                assert forall|k: int|
                    0 <= k < files.len() && (#[trigger] files[k]).commit_id@ == cid
                        && files[k].fallback implies fallback_score(files[k].path@, norm)
                    is None by {
                    if k < files.len() - 1 {
                        assert(shorter[k] == files[k]);
                    }
                };
            },
        }
    }
}

/// What a request resolves to: the object row served and the path whose
/// extension names the content type.
pub open spec fn resolve_target(store: MetaStore, domain: Seq<u8>, path: Seq<u8>) -> Option<
    (ObjectRecord, Seq<u8>),
> {
    match active_commit(store.environments@, domain) {
        None => None,
        Some(cid) => match exact_match(store.files@, cid, path) {
            Some(fi) => Some((object_with_id(store.objects@, store.files@[fi].object_id@), path)),
            None => match fallback_best(store.files@, cid, normalized(path)) {
                Some(j) => Some(
                    (object_with_id(store.objects@, store.files@[j].object_id@),
                    store.files@[j].path@),
                ),
                None => None,
            },
        },
    }
}

/// Find the first file row binding this path under this commit.
#[verifier::loop_isolation(false)]
fn find_exact(store: &MetaStore, cid: &[u8], path: &[u8]) -> (r: Option<usize>)
    ensures
        match r {
            Some(i) => exact_match(store.files@, cid@, path@) == Some(i as int),
            None => exact_match(store.files@, cid@, path@) is None,
        },
{
    let n = store.files.len();
    let mut i: usize = 0;
    assert(store.files@.skip(0) =~= store.files@);
    while i < n
        invariant
            i <= n == store.files@.len(),
            exact_match(store.files@, cid@, path@) == match exact_match(
                store.files@.skip(i as int),
                cid@,
                path@,
            ) {
                Some(k) => Some(k + i),
                None => None::<int>,
            },
        decreases n - i,
    {
        proof {
            assert(store.files@.skip(i as int).first() == store.files@[i as int]);
            assert(store.files@.skip(i as int).drop_first() =~= store.files@.skip(i + 1));
        }
        if bytes_eq(store.files[i].commit_id.as_slice(), cid) && bytes_eq(
            store.files[i].path.as_slice(),
            path,
        ) {
            return Some(i);
        }
        i = i + 1;
    }
    assert(store.files@.skip(n as int) =~= Seq::<FileRecord>::empty());
    None
}

/// Resolve a request: the index of the object row served, and the path
/// whose extension names the content type.
#[verifier::loop_isolation(false)]
fn resolve(store: &MetaStore, domain: &[u8], path: &[u8]) -> (r: Option<(usize, Vec<u8>)>)
    requires
        store.wf(),
    ensures
        match r {
            Some(p) => p.0 < store.objects@.len() && match resolve_target(
                *store,
                domain@,
                path@,
            ) {
                Some(t) => t.0 == store.objects@[p.0 as int] && t.1 == p.1@,
                None => false,
            },
            None => resolve_target(*store, domain@, path@) is None,
        },
{
    let ei = match store.find_env_index(domain) {
        Some(ei) => ei,
        None => {
            proof {
                assert forall|i: int| 0 <= i < store.environments@.len() implies (
                #[trigger] store.environments@[i]).domain@ != domain@ by {
                    if store.environments@[i].domain@ == domain@ {
                        assert(crate::store::has_env_domain(store.environments@, domain@));
                    }
                };
                lemma_active_commit_none(store.environments@, domain@);
            }
            return None;
        },
    };
    proof {
        lemma_active_commit_at(store.environments@, domain@, ei as int);
    }
    let cid = store.environments[ei].commit_id.as_slice();
    if let Some(fi) = find_exact(store, cid, path) {
        proof {
            lemma_exact_match_in_range(store.files@, cid@, path@);
        }
        let oid = store.files[fi].object_id.as_slice();
        let oi = match store.find_object_index(oid) {
            Some(oi) => oi,
            None => {
                // every file row's object is registered: unreachable
                proof {
                    assert(crate::store::has_object(store.objects@, store.files@[fi as int].object_id@));
                }
                assert(false);
                return None;
            },
        };
        proof {
            lemma_object_with_id(store.objects@, oid@, oi as int);
        }
        return Some((oi, bytes_to_vec(path)));
    }
    // no exact match: the fallback candidates compete by specificity
    let norm = normalize_path(path);
    let nf = store.files.len();
    let mut best: Option<(usize, usize)> = None;
    assert(store.files@.take(0) =~= Seq::<FileRecord>::empty());
    for i in 0..nf
        invariant
            nf == store.files@.len(),
            match best {
                Some(p) => p.0 < nf && fallback_best(store.files@.take(i as int), cid@, norm@)
                    == Some(p.0 as int) && fallback_score(
                    store.files@[p.0 as int].path@,
                    norm@,
                ) == Some(p.1 as int),
                None => fallback_best(store.files@.take(i as int), cid@, norm@) is None,
            },
    {
        proof {
            assert(store.files@.take(i + 1).drop_last() =~= store.files@.take(i as int));
            assert(store.files@.take(i + 1).last() == store.files@[i as int]);
        }
        let ghost prev = best;
        let is_cand = bytes_eq(store.files[i].commit_id.as_slice(), cid) && store.files[i].fallback;
        let mut sc: Option<usize> = None;
        if is_cand {
            sc = score_of(store.files[i].path.as_slice(), norm.as_slice());
        }
        match sc {
            Some(s) => {
                let replace = match best {
                    None => true,
                    Some(p) => s < p.1,
                };
                if replace {
                    best = Some((i, s));
                }
            },
            None => {},
        }
        proof {
            let t1 = store.files@.take(i + 1);
            let t0 = store.files@.take(i as int);
            if is_cand && sc is Some {
                match prev {
                    None => {
                        assert(fallback_best(t1, cid@, norm@) == Some(i as int));
                    },
                    Some(p) => {
                        lemma_fallback_specificity(t0, cid@, norm@);
                        assert(p.0 < t0.len());
                        assert(t1[p.0 as int] == store.files@[p.0 as int]);
                        if fallback_score(store.files@[p.0 as int].path@, norm@).unwrap()
                            <= fallback_score(store.files@[i as int].path@, norm@).unwrap() {
                            assert(fallback_best(t1, cid@, norm@) == Some(p.0 as int));
                        } else {
                            assert(fallback_best(t1, cid@, norm@) == Some(i as int));
                        }
                    },
                }
            } else {
                assert(fallback_best(t1, cid@, norm@) == fallback_best(t0, cid@, norm@));
            }
        }
    }
    assert(store.files@.take(nf as int) =~= store.files@);
    match best {
        Some(p) => {
            let j = p.0;
            let oid = store.files[j].object_id.as_slice();
            let oi = match store.find_object_index(oid) {
                Some(oi) => oi,
                None => {
                    // every file row's object is registered: unreachable
                    proof {
                        assert(crate::store::has_object(
                            store.objects@,
                            store.files@[j as int].object_id@,
                        ));
                    }
                    assert(false);
                    return None;
                },
            };
            proof {
                lemma_object_with_id(store.objects@, oid@, oi as int);
            }
            Some((oi, bytes_to_vec(store.files[j].path.as_slice())))
        },
        None => None,
    }
}

/// What the conditional-GET header decides.
#[derive(Clone, Copy, Debug, PartialEq, Eq, Structural)]
pub enum CondOutcome {
    /// Serve the body: no header, or an unreadable one, or an older
    /// date.
    Serve,
    /// The client's copy is current.
    NotModified,
    /// The header is present and readable but is no RFC-2822 date.
    BadHeader,
}

/// The decision owed to a conditional-GET header against the served
/// object's creation instant. A header that is not even text is
/// ignored; readable text that is no date is a client error; a date at
/// or after the creation instant means the client's copy is current.
pub open spec fn conditional_outcome(ims: Option<Seq<u8>>, created: i128) -> CondOutcome {
    match ims {
        None => CondOutcome::Serve,
        Some(h) => if !valid_utf8(h) {
            CondOutcome::Serve
        } else {
            match rfc2822_instant(decode_utf8(h)) {
                None => CondOutcome::BadHeader,
                Some(t) => if t >= created {
                    CondOutcome::NotModified
                } else {
                    CondOutcome::Serve
                },
            }
        },
    }
}

/// Evaluate the conditional-GET header.
fn conditional_outcome_exec(ims: &Option<Vec<u8>>, created: i128) -> (r: CondOutcome)
    ensures
        r == conditional_outcome(view_opt(*ims), created),
{
    match ims {
        None => CondOutcome::Serve,
        Some(h) => match bytes_as_str(h.as_slice()) {
            None => CondOutcome::Serve,
            Some(s) => match parse_rfc2822(s) {
                None => CondOutcome::BadHeader,
                Some(t) => if t >= created {
                    CondOutcome::NotModified
                } else {
                    CondOutcome::Serve
                },
            },
        },
    }
}

/// A request plan: either the response is decided, or the blob at the
/// sharded location is to be streamed with these headers.
pub enum RequestPlan {
    /// The response is already decided.
    Respond(ServeResponse),
    /// Stream the blob at `dir`/`name` under the storage root; absence
    /// there is a server fault.
    Stream {
        dir: Vec<u8>,
        name: Vec<u8>,
        content_type: Vec<u8>,
        last_modified: Option<Vec<u8>>,
        content_length: Option<u64>,
    },
}

/// The mathematical value of a request plan.
pub enum PlanView {
    Respond(ServeResponseView),
    Stream {
        dir: Seq<u8>,
        name: Seq<u8>,
        content_type: Seq<u8>,
        last_modified: Option<Seq<u8>>,
        content_length: Option<u64>,
    },
}

impl View for RequestPlan {
    type V = PlanView;

    open spec fn view(&self) -> PlanView {
        match self {
            RequestPlan::Respond(resp) => PlanView::Respond(resp@),
            RequestPlan::Stream { dir, name, content_type, last_modified, content_length } =>
                PlanView::Stream {
                dir: dir@,
                name: name@,
                content_type: content_type@,
                last_modified: view_opt(*last_modified),
                content_length: *content_length,
            },
        }
    }
}

/// The plan owed to a request, step for step: method check, domain
/// routing, exact then fallback resolution, then the conditional-GET
/// decision; what survives is streamed with the guessed content type,
/// the object's HTTP date and its known size.
pub open spec fn planned_response(
    store: MetaStore,
    method: Method,
    host_header: Option<Seq<u8>>,
    path: Seq<u8>,
    ims: Option<Seq<u8>>,
) -> PlanView {
    if method != Method::Get {
        PlanView::Respond(empty_response(Status::MethodNotAllowed))
    } else {
        let domain = host_of(host_header);
        match resolve_target(store, domain, path) {
            None => PlanView::Respond(empty_response(Status::NotFound)),
            Some(t) => match conditional_outcome(ims, t.0.created) {
                CondOutcome::BadHeader => PlanView::Respond(empty_response(Status::BadRequest)),
                CondOutcome::NotModified => PlanView::Respond(
                    empty_response(Status::NotModified),
                ),
                CondOutcome::Serve => PlanView::Stream {
                    dir: hex_of(t.0.id@.take(1)),
                    name: hex_of(t.0.id@.skip(1)),
                    content_type: mime_for(t.1),
                    last_modified: match rfc2822_text(t.0.created) {
                        Some(f) => Some(http_date_of(f)),
                        None => None,
                    },
                    content_length: t.0.size,
                },
            },
        }
    }
}

/// The response owed to a request: the plan, with the stored bytes
/// filled in; metadata pointing at absent bytes is a server fault.
pub open spec fn served_response(
    store: MetaStore,
    blobs: BlobStore,
    method: Method,
    host_header: Option<Seq<u8>>,
    path: Seq<u8>,
    ims: Option<Seq<u8>>,
) -> ServeResponseView {
    match planned_response(store, method, host_header, path, ims) {
        PlanView::Respond(v) => v,
        PlanView::Stream { dir, name, content_type, last_modified, content_length } => match
            blob_lookup(blobs.entries@, dir, name) {
            None => empty_response(Status::ServerError),
            Some(data) => ServeResponseView {
                status: Status::Okay,
                body: data,
                content_type: Some(content_type),
                last_modified,
                content_length,
            },
        },
    }
}

/// Plan a request against the metadata store alone: everything but the
/// blob read. What streams afterwards is the blob at the returned
/// location; where opening it fails, the response is a server fault, as
/// [`served_response`] says.
pub fn plan_request(
    store: &MetaStore,
    method: Method,
    host_header: &Option<Vec<u8>>,
    path: &[u8],
    if_modified_since: &Option<Vec<u8>>,
) -> (r: RequestPlan)
    requires
        store.wf(),
    ensures
        r@ == planned_response(
            *store,
            method,
            view_opt(*host_header),
            path@,
            view_opt(*if_modified_since),
        ),
{
    match method {
        Method::Other => {
            return RequestPlan::Respond(empty_response_exec(Status::MethodNotAllowed));
        },
        Method::Get => {},
    }
    let domain = host_value(host_header);
    let (oi, mime_path) = match resolve(store, domain.as_slice(), path) {
        Some(p) => p,
        None => {
            return RequestPlan::Respond(empty_response_exec(Status::NotFound));
        },
    };
    let created = store.objects[oi].created;
    match conditional_outcome_exec(if_modified_since, created) {
        CondOutcome::BadHeader => RequestPlan::Respond(empty_response_exec(Status::BadRequest)),
        CondOutcome::NotModified => RequestPlan::Respond(empty_response_exec(Status::NotModified)),
        CondOutcome::Serve => {
            proof {
                assert((store.objects@[oi as int].id@).len() == 32);
            }
            let (dir, name) = shard_path(store.objects[oi].id.as_slice());
            let content_type = mime_lookup(mime_path.as_slice());
            let last_modified = match format_rfc2822(created) {
                Some(f) => Some(http_date(f.as_slice())),
                None => None,
            };
            RequestPlan::Stream {
                dir,
                name,
                content_type,
                last_modified,
                content_length: store.objects[oi].size,
            }
        },
    }
}

/// Serve a request against the two stores: the whole engine, blob read
/// included.
pub fn handle_request(
    store: &MetaStore,
    blobs: &BlobStore,
    method: Method,
    host_header: &Option<Vec<u8>>,
    path: &[u8],
    if_modified_since: &Option<Vec<u8>>,
) -> (r: ServeResponse)
    requires
        store.wf(),
        blobs.wf(),
    ensures
        r@ == served_response(
            *store,
            *blobs,
            method,
            view_opt(*host_header),
            path@,
            view_opt(*if_modified_since),
        ),
{
    match plan_request(store, method, host_header, path, if_modified_since) {
        RequestPlan::Respond(resp) => resp,
        RequestPlan::Stream { dir, name, content_type, last_modified, content_length } => {
            match blobs.get(dir.as_slice(), name.as_slice()) {
                Some(data) => ServeResponse {
                    status: Status::Okay,
                    body: bytes_to_vec(data.as_slice()),
                    content_type: Some(content_type),
                    last_modified,
                    content_length,
                },
                None => empty_response_exec(Status::ServerError),
            }
        },
    }
}

/// Round-trip upload: where the bytes for an object stand at its
/// sharded location with their count recorded as its size, a plain GET
/// that resolves to that object is served exactly those bytes, with the
/// content length equal to their count.
pub proof fn lemma_upload_round_trip(
    store: MetaStore,
    blobs: BlobStore,
    host_header: Option<Seq<u8>>,
    path: Seq<u8>,
    ims: Option<Seq<u8>>,
    body: Seq<u8>,
)
    requires
        match resolve_target(store, host_of(host_header), path) {
            Some(t) => {
                &&& blob_lookup(
                    blobs.entries@,
                    hex_of(t.0.id@.take(1)),
                    hex_of(t.0.id@.skip(1)),
                ) == Some(body)
                &&& t.0.size == Some(body.len() as u64)
                &&& conditional_outcome(ims, t.0.created) == CondOutcome::Serve
            },
            None => false,
        },
    ensures
        served_response(store, blobs, Method::Get, host_header, path, ims).status == Status::Okay,
        served_response(store, blobs, Method::Get, host_header, path, ims).body == body,
        served_response(store, blobs, Method::Get, host_header, path, ims).content_length == Some(
            body.len() as u64,
        ),
{
}

} // verus!
