//! HTTP semantics over the store: what a request does to the backend and
//! which response it gets. The transport hands requests in and sends the
//! responses out.
use vstd::prelude::*;

use crate::media::essence_text;
use crate::negotiation::{
    distinct_keys, entry_for, lemma_remove_entry, lemma_set_entry, entries_text, has_key, json_object_text, location_of, read_target, remove_entry, set_entry,
    sidecar_key, stored_sidecar, write_target, opt_str_view, Entries,
    NegotiatedPath, PathExtensions,
};
use crate::paths::{extension, file_name, file_name_of};
use crate::storage::{apply_batch, batch_view, lookup, BackendError, StorageBackend};

verus! {

/// The request methods the store distinguishes.
#[derive(Debug, Clone, Copy, PartialEq, Eq)]
pub enum Method {
    Get,
    Head,
    Put,
    Delete,
    Other,
}

/// A response: status code, the headers the store sets, and the body.
#[derive(Debug)]
pub struct Response {
    pub status: u16,
    pub content_type: Option<String>,
    pub content_length: Option<usize>,
    pub content_location: Option<String>,
    pub body: Vec<u8>,
}

pub open spec fn opt_string_view(o: Option<String>) -> Option<Seq<char>> {
    match o {
        Some(s) => Some(s@),
        None => None,
    }
}

/// A response with no headers and no body.
pub open spec fn is_bare(r: Response, status: u16) -> bool {
    &&& r.status == status
    &&& r.content_type is None
    &&& r.content_length is None
    &&& r.content_location is None
    &&& r.body@.len() == 0
}

/// What `GET` (or `HEAD`, without the body) answers: 404 where negotiation
/// against the stored sidecar refuses or the negotiated value is missing,
/// and only then; otherwise 200 with the stored value of the negotiated key
/// and its media type's essence; 503 where a read fails.
pub open spec fn read_outcome(
    contents: Map<Seq<char>, Seq<u8>>,
    p: Seq<char>,
    accept: Option<Seq<char>>,
    head: bool,
    r: Response,
) -> bool {
    &&& read_target(p, stored_sidecar(contents, p), accept) is None ==> (is_bare(r, 404) || is_bare(
        r,
        503,
    ))
    &&& (r.status == 200 || is_bare(r, 404) || is_bare(r, 503))
    &&& is_bare(r, 404) ==> match read_target(p, stored_sidecar(contents, p), accept) {
        Some(t) => lookup(contents, t.0) is None,
        None => true,
    }
    &&& (read_target(p, stored_sidecar(contents, p), accept) matches Some(t) && lookup(contents, t.0)
        is Some) ==> (r.status == 200 || is_bare(r, 503))
    &&& r.status == 200 ==> {
        &&& read_target(p, stored_sidecar(contents, p), accept) matches Some(t)
        &&& lookup(contents, t.0) matches Some(v)
        &&& opt_string_view(r.content_type) == Some(essence_text(t.1))
        &&& r.content_length == Some(v.len() as usize)
        &&& r.content_location is None
        &&& r.body@ == if head {
            Seq::<u8>::empty()
        } else {
            v
        }
    }
}

/// What `PUT` does: 404 with nothing stored for a path without a file name
/// (such as `/`), 415 where negotiation otherwise refuses;
/// otherwise, on success, the body at the negotiated key and the sidecar
/// updated with its extension and media type, in one batch, answered by 201
/// for a new key and 204 for an existing one, with `content-location`.
pub open spec fn put_outcome(
    old_contents: Map<Seq<char>, Seq<u8>>,
    new_contents: Map<Seq<char>, Seq<u8>>,
    p: Seq<char>,
    ct: Option<Seq<char>>,
    body: Seq<u8>,
    r: Result<Response, BackendError>,
) -> bool {
    match write_target(p, ct) {
        None => (r matches Ok(resp) && is_bare(
            resp,
            if file_name(p).len() == 0 {
                404u16
            } else {
                415u16
            },
        )) && new_contents == old_contents,
        Some(t) => match r {
            Ok(resp) => {
                &&& resp.status == if lookup(old_contents, t.0) is None {
                    201u16
                } else {
                    204u16
                }
                &&& opt_string_view(resp.content_location) == Some(location_of(t.0))
                &&& resp.content_type is None
                &&& resp.content_length is None
                &&& resp.body@.len() == 0
                &&& distinct_keys(stored_sidecar(old_contents, p))
                &&& new_contents == old_contents.insert(t.0, body).insert(
                    sidecar_key(p),
                    json_object_text(
                        entries_text(
                            set_entry(stored_sidecar(old_contents, p), extension(t.0)->0, t.1),
                        ),
                    ),
                )
            },
            Err(_) => new_contents == old_contents,
        },
    }
}

/// The keys that a `PUT` answered `r` queues for the mirror: the value's
/// key and the sidecar key where it stored, none where it was refused.
pub open spec fn put_queued(p: Seq<char>, ct: Option<Seq<char>>, r: Response) -> Seq<Seq<char>> {
    match write_target(p, ct) {
        Some(t) => seq![t.0, sidecar_key(p)],
        None => Seq::empty(),
    }
}

/// The keys that a `DELETE` answered `r` queues for the mirror: the removed
/// key and the sidecar key on 204, none on 404.
pub open spec fn delete_queued(
    old_contents: Map<Seq<char>, Seq<u8>>,
    p: Seq<char>,
    accept: Option<Seq<char>>,
    r: Response,
) -> Seq<Seq<char>> {
    if r.status == 204 {
        seq![(read_target(p, stored_sidecar(old_contents, p), accept)->0).0, sidecar_key(p)]
    } else {
        Seq::empty()
    }
}

/// The store after a representation at `k` is deleted and the sidecar at
/// `sk` is left holding `es`.
pub open spec fn after_delete(
    contents: Map<Seq<char>, Seq<u8>>,
    k: Seq<char>,
    sk: Seq<char>,
    es: Entries,
) -> Map<Seq<char>, Seq<u8>> {
    if es.len() == 0 {
        contents.remove(k).remove(sk)
    } else {
        contents.remove(k).insert(sk, json_object_text(entries_text(es)))
    }
}

/// What `DELETE` does: 404 with nothing changed where negotiation against
/// the stored sidecar refuses; otherwise, on success, the negotiated
/// representation and its sidecar entry removed in one batch, answered by
/// 204.
pub open spec fn delete_outcome(
    old_contents: Map<Seq<char>, Seq<u8>>,
    new_contents: Map<Seq<char>, Seq<u8>>,
    p: Seq<char>,
    accept: Option<Seq<char>>,
    r: Result<Response, BackendError>,
) -> bool {
    &&& read_target(p, stored_sidecar(old_contents, p), accept) is None ==> new_contents
        == old_contents && (r matches Ok(resp) ==> is_bare(resp, 404))
    &&& r matches Ok(resp) ==> (is_bare(resp, 404) && new_contents == old_contents && refused_delete(
        old_contents,
        p,
        accept,
    )) || (is_bare(
        resp,
        204,
    ) && deleted_as_negotiated(old_contents, new_contents, p, accept))
    &&& r is Err ==> new_contents == old_contents
}

/// Negotiation refuses the delete, or the negotiated key's extension is not
/// recorded.
pub open spec fn refused_delete(
    old_contents: Map<Seq<char>, Seq<u8>>,
    p: Seq<char>,
    accept: Option<Seq<char>>,
) -> bool {
    let es = stored_sidecar(old_contents, p);
    match read_target(p, es, accept) {
        Some(t) => !has_key(es, extension(t.0)->0),
        None => true,
    }
}

/// The negotiated representation and its sidecar entry are gone from the
/// store, in one batch.
pub open spec fn deleted_as_negotiated(
    old_contents: Map<Seq<char>, Seq<u8>>,
    new_contents: Map<Seq<char>, Seq<u8>>,
    p: Seq<char>,
    accept: Option<Seq<char>>,
) -> bool {
    let es = stored_sidecar(old_contents, p);
    &&& distinct_keys(es)
    &&& read_target(p, es, accept) matches Some(t)
    &&& has_key(es, extension(t.0)->0)
    &&& new_contents == after_delete(
        old_contents,
        t.0,
        sidecar_key(p),
        remove_entry(es, extension(t.0)->0),
    )
}

/// A successful `PUT` stores the body at the negotiated key and, in the same
/// batch, a sidecar that records the key's extension with the negotiated
/// media type, other entries unchanged. This needs the negotiated key to
/// differ from the sidecar key (`PUT /a.ext` stores both at one key).
pub proof fn lemma_put_stores_value_and_entry(
    old_contents: Map<Seq<char>, Seq<u8>>,
    new_contents: Map<Seq<char>, Seq<u8>>,
    p: Seq<char>,
    ct: Option<Seq<char>>,
    body: Seq<u8>,
    r: Result<Response, BackendError>,
)
    requires
        put_outcome(old_contents, new_contents, p, ct, body, r),
        r is Ok,
        write_target(p, ct) matches Some(t) && t.0 != sidecar_key(p),
    ensures
        ({
            let t = write_target(p, ct)->0;
            &&& lookup(new_contents, t.0) == Some(body)
            &&& exists|stored: Entries|
                #![trigger entries_text(stored)]
                distinct_keys(stored) && entry_for(stored, extension(t.0)->0) == Some(t.1) && (forall|
                    j: Seq<char>,
                |
                    j != extension(t.0)->0 ==> entry_for(stored, j) == entry_for(
                        stored_sidecar(old_contents, p),
                        j,
                    )) && lookup(new_contents, sidecar_key(p)) == Some(
                    json_object_text(entries_text(stored)),
                )
        }),
{
    let t = write_target(p, ct)->0;
    let es = stored_sidecar(old_contents, p);
    lemma_set_entry(es, extension(t.0)->0, t.1);
    let stored = set_entry(es, extension(t.0)->0, t.1);
    assert(lookup(new_contents, sidecar_key(p)) == Some(json_object_text(entries_text(stored))));
}

/// A successful `DELETE` (204) removes the negotiated representation and
/// leaves its sidecar either deleted or without the representation's
/// extension, other entries unchanged. This needs the negotiated key to
/// differ from the sidecar key.
pub proof fn lemma_delete_removes_value_and_entry(
    old_contents: Map<Seq<char>, Seq<u8>>,
    new_contents: Map<Seq<char>, Seq<u8>>,
    p: Seq<char>,
    accept: Option<Seq<char>>,
    r: Result<Response, BackendError>,
)
    requires
        delete_outcome(old_contents, new_contents, p, accept, r),
        r matches Ok(resp) && resp.status == 204,
    ensures
        read_target(p, stored_sidecar(old_contents, p), accept) matches Some(t) && (t.0 != sidecar_key(
            p,
        ) ==> lookup(new_contents, t.0) is None) && (lookup(new_contents, sidecar_key(p)) is None
            || exists|stored: Entries|
            #![trigger entries_text(stored)]
            distinct_keys(stored) && !has_key(stored, extension(t.0)->0) && (forall|j: Seq<char>|
                j != extension(t.0)->0 ==> entry_for(stored, j) == entry_for(
                    stored_sidecar(old_contents, p),
                    j,
                )) && lookup(new_contents, sidecar_key(p)) == Some(
                json_object_text(entries_text(stored)),
            )),
{
    let es = stored_sidecar(old_contents, p);
    let t = read_target(p, es, accept)->0;
    lemma_remove_entry(es, extension(t.0)->0);
    let stored = remove_entry(es, extension(t.0)->0);
    let sk = sidecar_key(p);
    if stored.len() != 0 {
        assert(lookup(new_contents, sk) == Some(json_object_text(entries_text(stored))));
    } else {
        assert(lookup(new_contents, sk) is None);
    }
}

fn bare(status: u16) -> (r: Response)
    ensures
        is_bare(r, status),
{
    Response {
        status,
        content_type: None,
        content_length: None,
        content_location: None,
        body: Vec::new(),
    }
}

/// The answer to a read once the representation is negotiated, for each
/// outcome of reading its value: 200 with the value (none for `HEAD`), its
/// length and the media type's essence; 404 where the value is missing; 503
/// where reading failed.
pub fn read_response(negotiated: &NegotiatedPath, value: Result<Option<Vec<u8>>, BackendError>, head: bool) -> (r: Response)
    ensures
        match value {
            Ok(Some(v)) => {
                &&& r.status == 200
                &&& opt_string_view(r.content_type) == Some(essence_text(negotiated@.1))
                &&& r.content_length == Some(v@.len() as usize)
                &&& r.content_location is None
                &&& r.body@ == if head {
                    Seq::<u8>::empty()
                } else {
                    v@
                }
            },
            Ok(None) => is_bare(r, 404),
            Err(_) => is_bare(r, 503),
        },
{
    match value {
        Ok(Some(data)) => {
            let len = data.len();
            Response {
                status: 200,
                content_type: Some(negotiated.content_type_header()),
                content_length: Some(len),
                content_location: None,
                body: if head {
                    Vec::new()
                } else {
                    data
                },
            }
        },
        Ok(None) => bare(404),
        Err(_) => bare(503),
    }
}

/// Answers `GET` (or `HEAD`, where `head`) for `path`.
pub fn handle_read<B: StorageBackend>(db: &B, path: &str, accept: Option<&str>, head: bool) -> (r: Response)
    requires
        db.wf(),
    ensures
        read_outcome(db.contents(), path@, opt_str_view(accept), head, r),
{
    let extensions = match PathExtensions::load(path, db) {
        Ok(x) => x,
        Err(_) => {
            return bare(503);
        },
    };
    let negotiated = match NegotiatedPath::for_read(path, &extensions, accept) {
        Some(n) => n,
        None => {
            return bare(404);
        },
    };
    assert(extensions.entries() == stored_sidecar(db.contents(), path@));
    let value = db.get(negotiated.storage_key());
    read_response(&negotiated, value, head)
}

/// Answers `PUT` of `body` at `path` with the given `content-type`.
pub fn handle_put<B: StorageBackend>(db: &mut B, path: &str, content_type: Option<&str>, body: Vec<u8>) -> (r: Result<Response, BackendError>)
    requires
        old(db).wf(),
    ensures
        final(db).wf(),
        put_outcome(old(db).contents(), final(db).contents(), path@, opt_str_view(content_type), body@, r),
        r matches Ok(resp) ==> final(db).pending() == old(db).pending() + put_queued(
            path@,
            opt_str_view(content_type),
            resp,
        ),
{
    if file_name_of(path).unicode_len() == 0 {
        return Ok(bare(404));
    }
    let negotiated = match NegotiatedPath::for_write(path, content_type) {
        Some(n) => n,
        None => {
            return Ok(bare(415));
        },
    };
    let ghost t = negotiated@;
    let ghost body_view = body@;
    let ghost start = db.contents();
    let key_exists = match db.get(negotiated.storage_key()) {
        Ok(v) => v.is_some(),
        Err(e) => {
            return Err(e);
        },
    };
    let mut extensions = PathExtensions::load(path, &*db)?;
    let ghost es = extensions.entries();
    let sidecar = extensions.insert(&negotiated);
    let ghost sidecar_bytes = json_object_text(entries_text(set_entry(es, extension(t.0)->0, t.1)));
    let batch = vec![(String::from_str(negotiated.storage_key()), Some(body)), (sidecar.0, sidecar.1)];
    proof {
        let bv = batch_view(batch@);
        assert(bv[0] == (t.0, Some(body_view)));
        assert(bv[1] == (sidecar_key(path@), Some(sidecar_bytes)));
        assert(bv.drop_last().drop_last() =~= Seq::<(Seq<char>, Option<Seq<u8>>)>::empty());
        assert(bv.last() == bv[1] && bv.drop_last().last() == bv[0]);
        reveal_with_fuel(apply_batch, 3);
        assert(apply_batch(start, bv) == start.insert(t.0, body_view).insert(sidecar_key(path@), sidecar_bytes));
    }
    if let Err(e) = db.batch_update(batch) {
        return Err(e);
    }
    assert(es == stored_sidecar(start, path@) && distinct_keys(es));
    let status: u16 = if key_exists {
        204
    } else {
        201
    };
    Ok(
        Response {
            status,
            content_type: None,
            content_length: None,
            content_location: Some(negotiated.content_location_header()),
            body: Vec::new(),
        },
    )
}

/// Answers `DELETE` of `path`, negotiated like a read.
pub fn handle_delete<B: StorageBackend>(db: &mut B, path: &str, accept: Option<&str>) -> (r: Result<Response, BackendError>)
    requires
        old(db).wf(),
    ensures
        final(db).wf(),
        delete_outcome(old(db).contents(), final(db).contents(), path@, opt_str_view(accept), r),
        r matches Ok(resp) ==> final(db).pending() == old(db).pending() + delete_queued(
            old(db).contents(),
            path@,
            opt_str_view(accept),
            resp,
        ),
{
    let ghost start = db.contents();
    let mut extensions = PathExtensions::load(path, &*db)?;
    let ghost es = extensions.entries();
    let negotiated = match NegotiatedPath::for_read(path, &extensions, accept) {
        Some(n) => n,
        None => {
            return Ok(bare(404));
        },
    };
    let ghost t = negotiated@;
    let ext = negotiated.storage_extension();
    // A recorded extension may itself hold a dot (`tar.gz`), so the key's
    // own extension need not be recorded.
    if !extensions.contains_extension(ext.as_str()) {
        return Ok(bare(404));
    }
    let sidecar = extensions.remove(ext.as_str());
    let batch = vec![(String::from_str(negotiated.storage_key()), None), (sidecar.0, sidecar.1)];
    proof {
        let bv = batch_view(batch@);
        let rest = remove_entry(es, extension(t.0)->0);
        assert(bv[0] == (t.0, None::<Seq<u8>>));
        assert(bv.drop_last().drop_last() =~= Seq::<(Seq<char>, Option<Seq<u8>>)>::empty());
        assert(bv.last() == bv[1] && bv.drop_last().last() == bv[0]);
        reveal_with_fuel(apply_batch, 3);
        if rest.len() == 0 {
            assert(bv[1] == (sidecar_key(path@), None::<Seq<u8>>));
        } else {
            assert(bv[1] == (sidecar_key(path@), Some(json_object_text(entries_text(rest)))));
        }
        assert(apply_batch(start, bv) == after_delete(start, t.0, sidecar_key(path@), rest));
    }
    if let Err(e) = db.batch_update(batch) {
        return Err(e);
    }
    assert(es == stored_sidecar(start, path@) && distinct_keys(es));
    Ok(bare(204))
}

/// Answers a request: `GET`, `HEAD`, `PUT` and `DELETE` as above, any
/// other method with 501.
pub fn handle_request<B: StorageBackend>(
    db: &mut B,
    method: Method,
    path: &str,
    content_type: Option<&str>,
    accept: Option<&str>,
    body: Vec<u8>,
) -> (r: Result<Response, BackendError>)
    requires
        old(db).wf(),
    ensures
        final(db).wf(),
        match method {
            Method::Get => r matches Ok(resp) && read_outcome(old(db).contents(), path@, opt_str_view(accept), false, resp) && final(db).contents() == old(db).contents() && final(db).pending() == old(db).pending(),
            Method::Head => r matches Ok(resp) && read_outcome(old(db).contents(), path@, opt_str_view(accept), true, resp) && final(db).contents() == old(db).contents() && final(db).pending() == old(db).pending(),
            Method::Put => put_outcome(old(db).contents(), final(db).contents(), path@, opt_str_view(content_type), body@, r)
                && (r matches Ok(resp) ==> final(db).pending() == old(db).pending() + put_queued(
                path@,
                opt_str_view(content_type),
                resp,
            )),
            Method::Delete => delete_outcome(old(db).contents(), final(db).contents(), path@, opt_str_view(accept), r)
                && (r matches Ok(resp) ==> final(db).pending() == old(db).pending() + delete_queued(
                old(db).contents(),
                path@,
                opt_str_view(accept),
                resp,
            )),
            Method::Other => (r matches Ok(resp) && is_bare(resp, 501)) && final(db).contents() == old(db).contents() && final(db).pending() == old(db).pending(),
        },
{
    match method {
        Method::Get => Ok(handle_read(&*db, path, accept, false)),
        Method::Head => Ok(handle_read(&*db, path, accept, true)),
        Method::Put => handle_put(db, path, content_type, body),
        Method::Delete => handle_delete(db, path, accept),
        Method::Other => Ok(bare(501)),
    }
}

} // verus!
