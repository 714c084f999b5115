//! The extensions sidecar, which records the representations stored for a
//! logical path, and the negotiation from a request to a storage key and a
//! media type.
use vstd::prelude::*;

use crate::media::{
    accept_choice, essence_text, generic_ext, generic_media_type, guessed_media_type,
    media_type_parse, media_type_text, mime_extension, negotiate_accept, extension_for_mime,
    guess_for_extension, opt_view, same_text, strings_view, MediaType, MediaTypeView,
};
use crate::paths::{
    add_extension, add_extension_to, extension, extension_of, file_name, file_name_of, file_stem,
    file_stem_of, path_stem, stem,
};
use crate::storage::{lookup, BackendError, StorageBackend};

verus! {

/// What `serde_json::from_slice` reads from bytes as a JSON object: its
/// entries in document order, each value given where it is a string.
pub uninterp spec fn json_object_entries(bytes: Seq<u8>) -> Option<Seq<(Seq<char>, Option<Seq<char>>)>>;

/// What `serde_json::to_vec` writes for an object of string entries, in
/// the order given.
pub uninterp spec fn json_object_text(entries: Seq<(Seq<char>, Seq<char>)>) -> Seq<u8>;

pub open spec fn decoded_view(v: Seq<(String, Option<String>)>) -> Seq<(Seq<char>, Option<Seq<char>>)> {
    v.map_values(|e: (String, Option<String>)| (e.0@, opt_view(e.1)))
}

pub open spec fn text_pairs_view(v: Seq<(String, String)>) -> Seq<(Seq<char>, Seq<char>)> {
    v.map_values(|e: (String, String)| (e.0@, e.1@))
}

/// Relies on `serde_json::from_slice` into a `serde_json::Map`, which keeps
/// document order (feature `preserve_order`) and holds each key once.
#[verifier::external_body]
fn decode_json_object(bytes: &[u8]) -> (r: Option<Vec<(String, Option<String>)>>)
    ensures
        match r {
            Some(v) => json_object_entries(bytes@) == Some(decoded_view(v@)) && forall|i: int, j: int|
                0 <= i < j < v@.len() ==> #[trigger] v@[i].0@ != #[trigger] v@[j].0@,
            None => json_object_entries(bytes@) is None,
        },
{
    let map: serde_json::Map<String, serde_json::Value> = serde_json::from_slice(bytes).ok()?;
    Some(
        map.into_iter().map(|(k, v)| match v {
            serde_json::Value::String(s) => (k, Some(s)),
            _ => (k, None),
        }).collect(),
    )
}

/// Relies on `serde_json::to_vec` of a `serde_json::Map` of string values,
/// built in the order given (feature `preserve_order`). It fails only for
/// non-string keys or a failing `Serialize` impl, neither of which a map of
/// strings has.
#[verifier::external_body]
fn encode_json_object(entries: &Vec<(String, String)>) -> (r: Option<Vec<u8>>)
    ensures
        r is Some,
        r matches Some(b) ==> b@ == json_object_text(text_pairs_view(entries@)),
{
    let map: serde_json::Map<String, serde_json::Value> = entries
        .iter()
        .map(|(k, v)| (k.clone(), serde_json::Value::String(v.clone())))
        .collect();
    serde_json::to_vec(&map).ok()
}

/// Extension → media type, for every representation of one logical path.
pub type Entries = Seq<(Seq<char>, MediaTypeView)>;

/// The extension of sidecar keys.
pub open spec fn meta_ext() -> Seq<char> {
    seq!['e', 'x', 't']
}

/// The key of the sidecar for logical path `p`.
pub open spec fn sidecar_key(p: Seq<char>) -> Seq<char> {
    stem(p) + seq!['.'] + meta_ext()
}

pub open spec fn distinct_keys(es: Entries) -> bool {
    forall|i: int, j: int| 0 <= i < j < es.len() ==> #[trigger] es[i].0 != #[trigger] es[j].0
}

pub open spec fn has_key(es: Entries, k: Seq<char>) -> bool {
    exists|i: int| 0 <= i < es.len() && #[trigger] es[i].0 == k
}

pub open spec fn key_index(es: Entries, k: Seq<char>) -> int {
    choose|i: int| 0 <= i < es.len() && #[trigger] es[i].0 == k
}

/// The media type recorded for extension `k`.
pub open spec fn entry_for(es: Entries, k: Seq<char>) -> Option<MediaTypeView> {
    if has_key(es, k) {
        Some(es[key_index(es, k)].1)
    } else {
        None
    }
}

/// `es` with `k` mapped to `m`: in place where `k` is recorded, else at
/// the end.
pub open spec fn set_entry(es: Entries, k: Seq<char>, m: MediaTypeView) -> Entries {
    if has_key(es, k) {
        es.update(key_index(es, k), (k, m))
    } else {
        es.push((k, m))
    }
}

/// `es` without extension `k`.
pub open spec fn remove_entry(es: Entries, k: Seq<char>) -> Entries {
    if has_key(es, k) {
        es.remove(key_index(es, k))
    } else {
        es
    }
}

pub open spec fn starts_with(s: Seq<char>, prefix: Seq<char>) -> bool {
    prefix.len() <= s.len() && s.subrange(0, prefix.len() as int) == prefix
}

/// Media types that accept negotiation offers first.
pub open spec fn is_json(m: MediaTypeView) -> bool {
    starts_with(media_type_text(m), "application/json"@)
}

/// The entries whose media type is JSON (`json`) or is not, in order.
pub open spec fn pick(es: Entries, json: bool) -> Entries
    decreases es.len(),
{
    if es.len() == 0 {
        Seq::empty()
    } else if is_json(es.last().1) == json {
        pick(es.drop_last(), json).push(es.last())
    } else {
        pick(es.drop_last(), json)
    }
}

/// The order of preference for accept negotiation: JSON first, the rest
/// in the order recorded.
pub open spec fn preference_order(es: Entries) -> Entries {
    pick(es, true) + pick(es, false)
}

/// The first extension, from `i` on, whose media type is `m`.
pub open spec fn first_ext_for(es: Entries, m: MediaTypeView, i: int) -> Option<Seq<char>>
    decreases es.len() - i,
{
    if i >= es.len() {
        None
    } else if es[i].1 == m {
        Some(es[i].0)
    } else {
        first_ext_for(es, m, i + 1)
    }
}

/// The entries as text, the form in which they are stored.
pub open spec fn entries_text(es: Entries) -> Seq<(Seq<char>, Seq<char>)> {
    es.map_values(|e: (Seq<char>, MediaTypeView)| (e.0, media_type_text(e.1)))
}

/// Every value is a string that parses as a media type.
pub open spec fn all_media_types(es: Seq<(Seq<char>, Option<Seq<char>>)>) -> bool {
    forall|i: int|
        0 <= i < es.len() ==> (#[trigger] es[i]).1 is Some && media_type_parse(es[i].1->0) is Some
}

/// The sidecar that stored bytes describe; empty where they are not a
/// JSON object of media types.
pub open spec fn sidecar_from_bytes(b: Seq<u8>) -> Entries {
    match json_object_entries(b) {
        Some(es) => if all_media_types(es) {
            es.map_values(|e: (Seq<char>, Option<Seq<char>>)| (e.0, media_type_parse(e.1->0)->0))
        } else {
            Seq::empty()
        },
        None => Seq::empty(),
    }
}

/// The sidecar stored for logical path `p`, or the empty one.
pub open spec fn stored_sidecar(contents: Map<Seq<char>, Seq<u8>>, p: Seq<char>) -> Entries {
    match lookup(contents, sidecar_key(p)) {
        Some(b) => sidecar_from_bytes(b),
        None => Seq::empty(),
    }
}

/// Recording `k` with `m` keeps the keys distinct, records `m` for `k`, and
/// leaves every other extension as it was.
pub proof fn lemma_set_entry(es: Entries, k: Seq<char>, m: MediaTypeView)
    requires
        distinct_keys(es),
    ensures
        distinct_keys(set_entry(es, k, m)),
        entry_for(set_entry(es, k, m), k) == Some(m),
        forall|j: Seq<char>| j != k ==> entry_for(set_entry(es, k, m), j) == entry_for(es, j),
{
    let n = set_entry(es, k, m);
    if has_key(es, k) {
        let i = key_index(es, k);
        assert forall|a: int, b: int| 0 <= a < b < n.len() implies #[trigger] n[a].0 != #[trigger] n[b].0 by {
            assert(es[a].0 != es[b].0);
        }
    } else {
        assert forall|a: int, b: int| 0 <= a < b < n.len() implies #[trigger] n[a].0 != #[trigger] n[b].0 by {
            if b < es.len() {
                assert(es[a].0 != es[b].0);
            } else {
                assert(es[a].0 != k);
            }
        }
    }
    assert(has_key(n, k)) by {
        if has_key(es, k) {
            assert(n[key_index(es, k)].0 == k);
        } else {
            assert(n[es.len() as int].0 == k);
        }
    }
    let ni = key_index(n, k);
    if has_key(es, k) {
        assert(ni == key_index(es, k));
    } else {
        assert(ni == es.len());
    }
    assert forall|j: Seq<char>| j != k implies entry_for(n, j) == entry_for(es, j) by {
        if has_key(es, j) {
            let i = key_index(es, j);
            assert(n[i].0 == j);
            assert(has_key(n, j));
            assert(key_index(n, j) == i);
        }
        if has_key(n, j) {
            let i = key_index(n, j);
            assert(es[i].0 == j);
            assert(has_key(es, j));
        }
    }
}

/// Removing `k` keeps the keys distinct, leaves no entry for `k`, and
/// leaves every other extension as it was.
pub proof fn lemma_remove_entry(es: Entries, k: Seq<char>)
    requires
        distinct_keys(es),
    ensures
        distinct_keys(remove_entry(es, k)),
        !has_key(remove_entry(es, k), k),
        forall|j: Seq<char>| j != k ==> entry_for(remove_entry(es, k), j) == entry_for(es, j),
{
    let n = remove_entry(es, k);
    if has_key(es, k) {
        let i = key_index(es, k);
        assert forall|a: int, b: int| 0 <= a < b < n.len() implies #[trigger] n[a].0 != #[trigger] n[b].0 by {
            if b < i {
                assert(es[a].0 != es[b].0);
            } else if a < i {
                assert(es[a].0 != es[b + 1].0);
            } else {
                assert(es[a + 1].0 != es[b + 1].0);
            }
        }
        assert(!has_key(n, k)) by {
            if has_key(n, k) {
                let j = key_index(n, k);
                if j < i {
                    assert(es[j].0 == k);
                } else {
                    assert(es[j + 1].0 == k);
                }
            }
        }
        assert forall|j: Seq<char>| j != k implies entry_for(n, j) == entry_for(es, j) by {
            if has_key(es, j) {
                let a = key_index(es, j);
                assert(a != i);
                let b = if a < i { a } else { a - 1 };
                assert(n[b].0 == j);
                assert(has_key(n, j));
                let c = key_index(n, j);
                if c < i {
                    assert(es[c].0 == j);
                } else {
                    assert(es[c + 1].0 == j);
                }
            }
            if has_key(n, j) {
                let c = key_index(n, j);
                if c < i {
                    assert(es[c].0 == j);
                } else {
                    assert(es[c + 1].0 == j);
                }
                assert(has_key(es, j));
            }
        }
    }
}

/// The record of representations for one logical path, and the key under
/// which it is stored.
#[derive(Debug)]
pub struct PathExtensions {
    path: String,
    entries: Vec<(String, MediaType)>,
}

pub open spec fn stored_entries_view(v: Seq<(String, MediaType)>) -> Entries {
    v.map_values(|e: (String, MediaType)| (e.0@, e.1@))
}

/// Whether `s` starts with `prefix`.
pub fn text_starts_with(s: &str, prefix: &str) -> (r: bool)
    ensures
        r == starts_with(s@, prefix@),
{
    let n = prefix.unicode_len();
    if n > s.unicode_len() {
        return false;
    }
    same_text(s.substring_char(0, n), prefix)
}

impl PathExtensions {
    /// The recorded extensions and media types, in order.
    pub closed spec fn entries(&self) -> Entries {
        stored_entries_view(self.entries@)
    }

    /// The key under which the sidecar is stored.
    pub closed spec fn key(&self) -> Seq<char> {
        self.path@
    }

    pub open spec fn wf(&self) -> bool {
        distinct_keys(self.entries())
    }

    /// The key under which the sidecar is stored.
    pub fn path(&self) -> (r: &str)
        ensures
            r@ == self.key(),
    {
        self.path.as_str()
    }

    /// The sidecar for `path` as described by `stored`, the bytes kept
    /// under its key, if any.
    pub fn from_stored(path: &str, stored: Option<&[u8]>) -> (r: PathExtensions)
        ensures
            r.wf(),
            r.key() == sidecar_key(path@),
            r.entries() == match stored {
                Some(b) => sidecar_from_bytes(b@),
                None => Seq::empty(),
            },
    {
        proof {
            reveal_strlit(".ext");
        }
        let key = path_stem(path).concat(".ext");
        assert(key@ =~= sidecar_key(path@));
        let mut entries: Vec<(String, MediaType)> = Vec::new();
        let empty = PathExtensions { path: key.clone(), entries: Vec::new() };
        assert(empty.entries() =~= Seq::<(Seq<char>, MediaTypeView)>::empty());
        let bytes = match stored {
            Some(b) => b,
            None => {
                return empty;
            },
        };
        let decoded = match decode_json_object(bytes) {
            Some(d) => d,
            None => {
                return empty;
            },
        };
        let ghost es = decoded_view(decoded@);
        let mut i: usize = 0;
        while i < decoded.len()
            invariant
                i <= decoded@.len(),
                es == decoded_view(decoded@),
                empty.wf(),
                empty.key() == sidecar_key(path@),
                empty.entries() == Seq::<(Seq<char>, MediaTypeView)>::empty(),
                key@ == sidecar_key(path@),
                stored == Some(bytes),
                json_object_entries(bytes@) == Some(es),
                forall|a: int, b: int|
                    0 <= a < b < decoded@.len() ==> #[trigger] decoded@[a].0@ != #[trigger] decoded@[b].0@,
                entries@.len() == i,
                forall|k: int| 0 <= k < i ==> (#[trigger] es[k]).1 is Some && media_type_parse(es[k].1->0) is Some,
                forall|k: int|
                    0 <= k < i ==> #[trigger] stored_entries_view(entries@)[k] == (
                        es[k].0,
                        media_type_parse(es[k].1->0)->0,
                    ),
            decreases decoded.len() - i,
        {
            let e = &decoded[i];
            assert(es[i as int] == (e.0@, opt_view(e.1)));
            let text = match &e.1 {
                Some(t) => t,
                None => {
                    assert(!all_media_types(es));
                    return empty;
                },
            };
            let m = match MediaType::parse(text.as_str()) {
                Some(m) => m,
                None => {
                    assert(!all_media_types(es));
                    return empty;
                },
            };
            let ghost before = stored_entries_view(entries@);
            assert(m@ == media_type_parse(es[i as int].1->0)->0);
            let k = e.0.clone();
            entries.push((k, m));
            assert(stored_entries_view(entries@) =~= before.push((es[i as int].0, m@)));
            i = i + 1;
        }
        let r = PathExtensions { path: key, entries };
        assert(all_media_types(es));
        assert(r.entries() =~= sidecar_from_bytes(bytes@));
        r
    }

    /// Loads the sidecar for `path`: an absent or unreadable record gives
    /// the empty one; a failed read is reported.
    pub fn load<B: StorageBackend>(path: &str, db: &B) -> (r: Result<PathExtensions, BackendError>)
        requires
            db.wf(),
        ensures
            r matches Ok(x) ==> x.wf() && x.key() == sidecar_key(path@) && x.entries() == stored_sidecar(
                db.contents(),
                path@,
            ),
    {
        proof {
            reveal_strlit(".ext");
        }
        let key = path_stem(path).concat(".ext");
        assert(key@ =~= sidecar_key(path@));
        match db.get(key.as_str()) {
            Ok(Some(b)) => Ok(PathExtensions::from_stored(path, Some(b.as_slice()))),
            Ok(None) => Ok(PathExtensions::from_stored(path, None)),
            Err(e) => Err(e),
        }
    }

    /// The sidecar for `path` given the outcome of reading its key: a failed
    /// read, like an absent or unreadable record, gives the empty one.
    pub fn from_read(path: &str, read: Result<Option<Vec<u8>>, BackendError>) -> (r: PathExtensions)
        ensures
            r.wf(),
            r.key() == sidecar_key(path@),
            r.entries() == match read {
                Ok(Some(b)) => sidecar_from_bytes(b@),
                _ => Seq::<(Seq<char>, MediaTypeView)>::empty(),
            },
    {
        match read {
            Ok(Some(b)) => PathExtensions::from_stored(path, Some(b.as_slice())),
            _ => PathExtensions::from_stored(path, None),
        }
    }

    /// Loads the sidecar for `path`; an absent or unreadable record, or a
    /// failed read, gives the empty one.
    pub fn get_for_path<B: StorageBackend>(path: &str, db: &B) -> (r: PathExtensions)
        requires
            db.wf(),
        ensures
            r.wf(),
            r.key() == sidecar_key(path@),
            r.entries() == stored_sidecar(db.contents(), path@) || r.entries() == Seq::<
                (Seq<char>, MediaTypeView),
            >::empty(),
    {
        proof {
            reveal_strlit(".ext");
        }
        let key = path_stem(path).concat(".ext");
        assert(key@ =~= sidecar_key(path@));
        PathExtensions::from_read(path, db.get(key.as_str()))
    }

    /// The media type recorded for `extension`.
    pub fn get_media_type(&self, extension: &str) -> (r: Option<MediaType>)
        requires
            self.wf(),
        ensures
            match r {
                Some(m) => entry_for(self.entries(), extension@) == Some(m@),
                None => entry_for(self.entries(), extension@) is None,
            },
    {
        match self.index_of(extension) {
            Some(i) => Some(self.entries[i].1.clone_media()),
            None => None,
        }
    }

    fn index_of(&self, extension: &str) -> (r: Option<usize>)
        requires
            self.wf(),
        ensures
            match r {
                Some(i) => has_key(self.entries(), extension@) && i as int == key_index(
                    self.entries(),
                    extension@,
                ) && i < self.entries@.len(),
                None => !has_key(self.entries(), extension@),
            },
    {
        let ghost es = self.entries();
        let mut i: usize = 0;
        while i < self.entries.len()
            invariant
                es == self.entries(),
                distinct_keys(es),
                i <= self.entries@.len(),
                forall|k: int| 0 <= k < i ==> es[k].0 != extension@,
            decreases self.entries.len() - i,
        {
            if same_text(self.entries[i].0.as_str(), extension) {
                assert(es[i as int].0 == extension@);
                let ghost j = key_index(es, extension@);
                assert(j == i);
                return Some(i);
            }
            i = i + 1;
        }
        None
    }

    /// Whether a representation is recorded under `extension`.
    pub fn contains_extension(&self, extension: &str) -> (r: bool)
        requires
            self.wf(),
        ensures
            r == has_key(self.entries(), extension@),
    {
        self.index_of(extension).is_some()
    }

    /// The recorded media types in the order of preference for accept
    /// negotiation: JSON first, the rest in the order recorded.
    pub fn get_all_media_types(&self) -> (r: Vec<MediaType>)
        ensures
            r@.map_values(|m: MediaType| m@) == preference_order(self.entries()).map_values(
                |e: (Seq<char>, MediaTypeView)| e.1,
            ),
    {
        let ghost es = self.entries();
        let mut json: Vec<MediaType> = Vec::new();
        let mut rest: Vec<MediaType> = Vec::new();
        let mut i: usize = 0;
        while i < self.entries.len()
            invariant
                es == self.entries(),
                i <= self.entries@.len(),
                json@.map_values(|m: MediaType| m@) == pick(es.subrange(0, i as int), true).map_values(
                    |e: (Seq<char>, MediaTypeView)| e.1,
                ),
                rest@.map_values(|m: MediaType| m@) == pick(es.subrange(0, i as int), false).map_values(
                    |e: (Seq<char>, MediaTypeView)| e.1,
                ),
            decreases self.entries.len() - i,
        {
            let m = &self.entries[i].1;
            let ghost sub = es.subrange(0, i + 1);
            assert(sub.drop_last() =~= es.subrange(0, i as int));
            assert(sub.last() == es[i as int]);
            let text = m.to_text();
            let ghost jv = json@.map_values(|m: MediaType| m@);
            let ghost rv = rest@.map_values(|m: MediaType| m@);
            if text_starts_with(text.as_str(), "application/json") {
                json.push(m.clone_media());
                assert(json@.map_values(|m: MediaType| m@) =~= jv.push(m@));
                assert(pick(sub, true).map_values(|e: (Seq<char>, MediaTypeView)| e.1) =~= pick(
                    es.subrange(0, i as int),
                    true,
                ).map_values(|e: (Seq<char>, MediaTypeView)| e.1).push(m@));
            } else {
                rest.push(m.clone_media());
                assert(rest@.map_values(|m: MediaType| m@) =~= rv.push(m@));
                assert(pick(sub, false).map_values(|e: (Seq<char>, MediaTypeView)| e.1) =~= pick(
                    es.subrange(0, i as int),
                    false,
                ).map_values(|e: (Seq<char>, MediaTypeView)| e.1).push(m@));
            }
            i = i + 1;
        }
        assert(es.subrange(0, i as int) =~= es);
        let ghost jv = json@.map_values(|m: MediaType| m@);
        let ghost rv = rest@.map_values(|m: MediaType| m@);
        let mut k: usize = 0;
        while k < rest.len()
            invariant
                k <= rest@.len(),
                rv == rest@.map_values(|m: MediaType| m@),
                json@.map_values(|m: MediaType| m@) == jv + rv.subrange(0, k as int),
            decreases rest.len() - k,
        {
            let ghost before = json@.map_values(|m: MediaType| m@);
            let c = rest[k].clone_media();
            assert(c@ == rv[k as int]);
            json.push(c);
            assert(json@.map_values(|m: MediaType| m@) =~= before.push(rv[k as int]));
            assert(rv.subrange(0, k + 1) =~= rv.subrange(0, k as int).push(rv[k as int]));
            assert(json@.map_values(|m: MediaType| m@) =~= jv + rv.subrange(0, k + 1));
            k = k + 1;
        }
        assert(rv.subrange(0, k as int) =~= rv);
        assert(preference_order(es).map_values(|e: (Seq<char>, MediaTypeView)| e.1) =~= pick(
            es,
            true,
        ).map_values(|e: (Seq<char>, MediaTypeView)| e.1) + pick(es, false).map_values(
            |e: (Seq<char>, MediaTypeView)| e.1,
        ));
        json
    }

    /// The first extension recorded with media type `media_type`.
    pub fn get_extension(&self, media_type: &MediaType) -> (r: Option<String>)
        ensures
            opt_view(r) == first_ext_for(self.entries(), media_type@, 0),
    {
        let ghost es = self.entries();
        let mut i: usize = 0;
        while i < self.entries.len()
            invariant
                es == self.entries(),
                i <= self.entries@.len(),
                first_ext_for(es, media_type@, i as int) == first_ext_for(es, media_type@, 0),
            decreases self.entries.len() - i,
        {
            if self.entries[i].1.same_as(media_type) {
                return Some(self.entries[i].0.clone());
            }
            i = i + 1;
        }
        None
    }

    /// The stored form of the sidecar.
    fn encode(&self) -> (r: Vec<u8>)
        ensures
            r@ == json_object_text(entries_text(self.entries())),
    {
        let mut pairs: Vec<(String, String)> = Vec::new();
        let mut i: usize = 0;
        while i < self.entries.len()
            invariant
                i <= self.entries@.len(),
                text_pairs_view(pairs@) == entries_text(self.entries().subrange(0, i as int)),
            decreases self.entries.len() - i,
        {
            let e = &self.entries[i];
            let ghost before = text_pairs_view(pairs@);
            assert(self.entries()[i as int] == (e.0@, e.1@));
            let t = e.1.to_text();
            pairs.push((e.0.clone(), t));
            assert(text_pairs_view(pairs@) =~= before.push((e.0@, t@)));
            assert(self.entries().subrange(0, i + 1) =~= self.entries().subrange(0, i as int).push(self.entries()[i as int]));
            assert(text_pairs_view(pairs@) =~= entries_text(self.entries().subrange(0, i + 1)));
            i = i + 1;
        }
        assert(self.entries().subrange(0, i as int) =~= self.entries());
        encode_json_object(&pairs).unwrap()
    }

    /// Records `negotiated`'s extension with its media type, and returns
    /// the batch entry that stores the updated sidecar.
    pub fn insert(&mut self, negotiated: &NegotiatedPath) -> (r: (String, Option<Vec<u8>>))
        requires
            old(self).wf(),
            negotiated.wf(),
        ensures
            final(self).wf(),
            final(self).key() == old(self).key(),
            final(self).entries() == set_entry(
                old(self).entries(),
                extension(negotiated@.0)->0,
                negotiated@.1,
            ),
            r.0@ == old(self).key(),
            r.1 matches Some(v) && v@ == json_object_text(entries_text(final(self).entries())),
    {
        let ext = negotiated.storage_extension();
        let m = negotiated.media_type.clone_media();
        let ghost es = self.entries();
        let ghost k = ext@;
        proof {
            lemma_set_entry(es, k, negotiated@.1);
        }
        match self.index_of(ext.as_str()) {
            Some(i) => {
                self.entries.set(i, (ext, m));
                assert(self.entries() =~= set_entry(es, k, negotiated@.1));
            },
            None => {
                self.entries.push((ext, m));
                assert(self.entries() =~= set_entry(es, k, negotiated@.1));
            },
        }
        (self.path.clone(), Some(self.encode()))
    }

    /// Forgets `extension`, and returns the batch entry that stores the
    /// updated sidecar, or deletes it once no representation is left.
    pub fn remove(&mut self, extension: &str) -> (r: (String, Option<Vec<u8>>))
        requires
            old(self).wf(),
            has_key(old(self).entries(), extension@),
        ensures
            final(self).wf(),
            final(self).key() == old(self).key(),
            final(self).entries() == remove_entry(old(self).entries(), extension@),
            r.0@ == old(self).key(),
            if final(self).entries().len() == 0 {
                r.1 is None
            } else {
                (r.1 matches Some(v) && v@ == json_object_text(entries_text(final(self).entries())))
            },
    {
        let ghost es = self.entries();
        proof {
            lemma_remove_entry(es, extension@);
        }
        let i = self.index_of(extension).unwrap();
        self.entries.remove(i);
        assert(self.entries() =~= remove_entry(es, extension@));
        if self.entries.len() == 0 {
            (self.path.clone(), None)
        } else {
            (self.path.clone(), Some(self.encode()))
        }
    }
}

impl MediaType {
    /// A copy with the same parts.
    pub fn clone_media(&self) -> (r: MediaType)
        ensures
            r@ == self@,
    {
        let mut params: Vec<(String, String)> = Vec::new();
        let mut i: usize = 0;
        while i < self.params.len()
            invariant
                i <= self.params@.len(),
                params@.len() == i,
                forall|k: int| 0 <= k < i ==> #[trigger] params@[k].0@ == self.params@[k].0@ && params@[k].1@ == self.params@[k].1@,
            decreases self.params.len() - i,
        {
            params.push((self.params[i].0.clone(), self.params[i].1.clone()));
            i = i + 1;
        }
        let suffix = match &self.suffix {
            Some(s) => Some(s.clone()),
            None => None,
        };
        let r = MediaType { ty: self.ty.clone(), subty: self.subty.clone(), suffix, params };
        assert(r@.3 =~= self@.3);
        r
    }
}

/// A storage key and the media type that goes with it. The key always
/// carries an extension.
#[derive(Debug)]
pub struct NegotiatedPath {
    storage_key: String,
    media_type: MediaType,
}

impl View for NegotiatedPath {
    type V = (Seq<char>, MediaTypeView);

    closed spec fn view(&self) -> (Seq<char>, MediaTypeView) {
        (self.storage_key@, self.media_type@)
    }
}

/// The `content-location` of a storage key: `/` and its file name, less
/// the sentinel extension.
pub open spec fn location_of(k: Seq<char>) -> Seq<char> {
    seq!['/'] + if extension(k) == Some(generic_ext()) {
        file_stem(k)
    } else {
        file_name(k)
    }
}

/// Keeps a negotiated key only where it carries an extension.
pub open spec fn with_ext_only(t: Option<(Seq<char>, MediaTypeView)>) -> Option<(Seq<char>, MediaTypeView)> {
    match t {
        Some(x) => if extension(x.0) is Some {
            t
        } else {
            None
        },
        None => None,
    }
}

/// Where a write of logical path `p` with `content-type` `ct` goes: the
/// path's own extension, else one guessed from the media type (or the
/// sentinel); the media type as parsed, or the sentinel where none is
/// given. An unparseable media type, or a path without a file name, is
/// refused.
pub open spec fn write_target(p: Seq<char>, ct: Option<Seq<char>>) -> Option<(Seq<char>, MediaTypeView)> {
    if file_name(p).len() == 0 {
        None
    } else {
        with_ext_only(
            match ct {
                None => if extension(p) is Some {
                    Some((p, generic_media_type()))
                } else {
                    Some((add_extension(p, generic_ext()), generic_media_type()))
                },
                Some(c) => match media_type_parse(c) {
                    None => None,
                    Some(m) => if extension(p) is Some {
                        Some((p, m))
                    } else {
                        Some(
                            (
                                add_extension(
                                    p,
                                    match mime_extension(c) {
                                        Some(e) => e,
                                        None => generic_ext(),
                                    },
                                ),
                                m,
                            ),
                        )
                    },
                },
            },
        )
    }
}

/// The offers made to accept negotiation, as text.
pub open spec fn offer_texts(es: Entries) -> Seq<Seq<char>> {
    preference_order(es).map_values(|e: (Seq<char>, MediaTypeView)| media_type_text(e.1))
}

/// Where a read of logical path `p` goes, given its sidecar `es` and the
/// `accept` header: a path with an extension names its representation; a
/// path without one takes the representation that accept negotiation picks,
/// or with no `accept` the sentinel one, if recorded.
pub open spec fn read_target(p: Seq<char>, es: Entries, accept: Option<Seq<char>>) -> Option<(Seq<char>, MediaTypeView)> {
    match extension(p) {
        Some(e) => if e == generic_ext() {
            None
        } else {
            match entry_for(es, e) {
                Some(m) => Some((p, m)),
                None => None,
            }
        },
        None => if file_name(p).len() == 0 {
            None
        } else {
            with_ext_only(
                match accept {
                    Some(a) => match accept_choice(a, offer_texts(es)) {
                        Some(i) => if 0 <= i < preference_order(es).len() {
                            match first_ext_for(es, preference_order(es)[i].1, 0) {
                                Some(x) => Some((add_extension(p, x), preference_order(es)[i].1)),
                                None => None,
                            }
                        } else {
                            None
                        },
                        None => None,
                    },
                    None => if has_key(es, generic_ext()) {
                        Some((add_extension(p, generic_ext()), generic_media_type()))
                    } else {
                        None
                    },
                },
            )
        },
    }
}

/// Once a write's key and media type are recorded in the sidecar, a read of
/// that key negotiates back to the same key and media type, whatever the
/// `accept` header (for a key without the sentinel extension).
pub proof fn lemma_read_after_write(
    p: Seq<char>,
    ct: Option<Seq<char>>,
    es: Entries,
    accept: Option<Seq<char>>,
)
    requires
        write_target(p, ct) is Some,
        distinct_keys(es),
        extension((write_target(p, ct)->0).0) != Some(generic_ext()),
    ensures
        ({
            let t = write_target(p, ct)->0;
            read_target(t.0, set_entry(es, extension(t.0)->0, t.1), accept) == Some(t)
        }),
{
    let t = write_target(p, ct)->0;
    lemma_set_entry(es, extension(t.0)->0, t.1);
}

/// Once a representation's extension is removed from the sidecar, a read
/// of its key is refused, whatever the `accept` header.
pub proof fn lemma_read_after_remove(k: Seq<char>, es: Entries, accept: Option<Seq<char>>)
    requires
        extension(k) is Some,
        distinct_keys(es),
    ensures
        read_target(k, remove_entry(es, extension(k)->0), accept) is None,
{
    lemma_remove_entry(es, extension(k)->0);
}

/// Why a media type could not be guessed from a storage key's extension.
#[derive(Debug, Clone)]
pub enum GuessError {
    /// No media type is known for the extension.
    UnknownExtension,
    /// The media type that was found does not parse.
    Unparseable,
}

impl NegotiatedPath {
    pub open spec fn wf(&self) -> bool {
        extension(self@.0) is Some
    }

    fn checked(storage_key: String, media_type: MediaType) -> (r: Option<NegotiatedPath>)
        ensures
            r == (if extension(storage_key@) is Some { Some(NegotiatedPath { storage_key, media_type }) } else { None }),
            r matches Some(n) ==> n@ == (storage_key@, media_type@) && n.wf(),
    {
        if extension_of(storage_key.as_str()).is_some() {
            Some(NegotiatedPath { storage_key, media_type })
        } else {
            None
        }
    }

    /// Negotiates a write of `path` with the given `content-type`; `None`
    /// where the media type is not acceptable.
    pub fn for_write(path: &str, content_type: Option<&str>) -> (r: Option<NegotiatedPath>)
        ensures
            match r {
                Some(n) => n.wf() && write_target(path@, opt_str_view(content_type)) == Some(n@),
                None => write_target(path@, opt_str_view(content_type)) is None,
            },
    {
        proof {
            reveal_strlit("octet-stream");
            assert("octet-stream"@ =~= generic_ext());
        }
        if file_name_of(path).unicode_len() == 0 {
            return None;
        }
        let has_ext = extension_of(path).is_some();
        match content_type {
            None => {
                let key = if has_ext {
                    String::from_str(path)
                } else {
                    add_extension_to(path, "octet-stream")
                };
                NegotiatedPath::checked(key, MediaType::generic())
            },
            Some(c) => match MediaType::parse(c) {
                None => None,
                Some(m) => {
                    if has_ext {
                        NegotiatedPath::checked(String::from_str(path), m)
                    } else {
                        let ext = match extension_for_mime(c) {
                            Some(e) => e,
                            None => String::from_str("octet-stream"),
                        };
                        NegotiatedPath::checked(add_extension_to(path, ext.as_str()), m)
                    }
                },
            },
        }
    }

    /// Negotiates a read of `path` against its sidecar and the `accept`
    /// header; `None` where no representation is acceptable.
    pub fn for_read(path: &str, extensions: &PathExtensions, accept: Option<&str>) -> (r: Option<NegotiatedPath>)
        requires
            extensions.wf(),
        ensures
            match r {
                Some(n) => n.wf() && read_target(path@, extensions.entries(), opt_str_view(accept))
                    == Some(n@),
                None => read_target(path@, extensions.entries(), opt_str_view(accept)) is None,
            },
    {
        proof {
            reveal_strlit("octet-stream");
            assert("octet-stream"@ =~= generic_ext());
        }
        let ghost es = extensions.entries();
        match extension_of(path) {
            Some(e) => {
                if same_text(e, "octet-stream") {
                    return None;
                }
                match extensions.get_media_type(e) {
                    Some(m) => {
                        let r = NegotiatedPath { storage_key: String::from_str(path), media_type: m };
                        Some(r)
                    },
                    None => None,
                }
            },
            None => {
                if file_name_of(path).unicode_len() == 0 {
                    return None;
                }
                match accept {
                    Some(a) => {
                        let available = extensions.get_all_media_types();
                        let ghost pref = preference_order(es);
                        assert(available@.map_values(|m: MediaType| m@).len() == available@.len());
                        assert(available@.len() == pref.len());
                        let mut texts: Vec<String> = Vec::new();
                        let mut i: usize = 0;
                        while i < available.len()
                            invariant
                                i <= available@.len(),
                                available@.len() == pref.len(),
                                available@.map_values(|m: MediaType| m@) == pref.map_values(|e: (Seq<char>, MediaTypeView)| e.1),
                                strings_view(texts@) == offer_texts(es).subrange(0, i as int),
                                pref == preference_order(es),
                            decreases available.len() - i,
                        {
                            assert(available@[i as int]@ == pref[i as int].1) by {
                                assert(available@.map_values(|m: MediaType| m@)[i as int] == available@[i as int]@);
                            }
                            let ghost before = strings_view(texts@);
                            let t = available[i].to_text();
                            texts.push(t);
                            assert(strings_view(texts@) =~= before.push(t@));
                            assert(offer_texts(es)[i as int] == media_type_text(pref[i as int].1));
                            assert(offer_texts(es).subrange(0, i + 1) =~= offer_texts(es).subrange(0, i as int).push(offer_texts(es)[i as int]));
                            assert(strings_view(texts@) =~= offer_texts(es).subrange(0, i + 1));
                            i = i + 1;
                        }
                        assert(strings_view(texts@) =~= offer_texts(es));
                        match negotiate_accept(a, &texts) {
                            Some(j) => {
                                let m = &available[j];
                                assert(m@ == pref[j as int].1) by {
                                    assert(available@.map_values(|m: MediaType| m@)[j as int] == available@[j as int]@);
                                }
                                match extensions.get_extension(m) {
                                    Some(x) => NegotiatedPath::checked(add_extension_to(path, x.as_str()), m.clone_media()),
                                    None => None,
                                }
                            },
                            None => None,
                        }
                    },
                    None => {
                        if extensions.contains_extension("octet-stream") {
                            NegotiatedPath::checked(add_extension_to(path, "octet-stream"), MediaType::generic())
                        } else {
                            None
                        }
                    },
                }
            },
        }
    }

    /// The storage key.
    pub fn storage_key(&self) -> (r: &str)
        ensures
            r@ == self@.0,
    {
        self.storage_key.as_str()
    }

    /// The media type.
    pub fn media_type(&self) -> (r: &MediaType)
        ensures
            r@ == self@.1,
    {
        &self.media_type
    }

    /// The extension of the storage key.
    pub fn storage_extension(&self) -> (r: String)
        requires
            self.wf(),
        ensures
            Some(r@) == extension(self@.0),
    {
        String::from_str(extension_of(self.storage_key.as_str()).unwrap())
    }

    /// Replaces the media type by the one that the storage key's extension
    /// suggests.
    pub fn guess_media_type(&mut self) -> (r: Result<(), GuessError>)
        requires
            old(self).wf(),
        ensures
            final(self).wf(),
            final(self)@.0 == old(self)@.0,
            match guessed_media_type(extension(old(self)@.0)->0) {
                None => r == Err::<(), GuessError>(GuessError::UnknownExtension) && final(self)@ == old(self)@,
                Some(g) => match media_type_parse(g) {
                    None => r == Err::<(), GuessError>(GuessError::Unparseable) && final(self)@ == old(self)@,
                    Some(m) => r is Ok && final(self)@.1 == m,
                },
            },
    {
        let ext = self.storage_extension();
        let guess = match guess_for_extension(ext.as_str()) {
            Some(g) => g,
            None => {
                return Err(GuessError::UnknownExtension);
            },
        };
        match MediaType::parse(guess.as_str()) {
            Some(m) => {
                self.media_type = m;
                Ok(())
            },
            None => Err(GuessError::Unparseable),
        }
    }

    /// The `content-type` header: the media type's essence.
    pub fn content_type_header(&self) -> (r: String)
        ensures
            r@ == essence_text(self@.1),
    {
        self.media_type.essence()
    }

    /// The `content-location` header: `/` and the storage key's file name,
    /// less the sentinel extension.
    pub fn content_location_header(&self) -> (r: String)
        ensures
            r@ == location_of(self@.0),
    {
        proof {
            reveal_strlit("/");
            reveal_strlit("octet-stream");
            assert("octet-stream"@ =~= generic_ext());
            assert("/"@ =~= seq!['/']);
        }
        let key = self.storage_key.as_str();
        let generic = match extension_of(key) {
            Some(e) => same_text(e, "octet-stream"),
            None => false,
        };
        let name = if generic {
            file_stem_of(key)
        } else {
            file_name_of(key)
        };
        String::from_str("/").concat(name)
    }

    /// The storage key and media type, as text.
    pub fn describe(&self) -> (r: String)
        ensures
            r@ == seq!['"'] + self@.0 + seq!['"', ' '] + media_type_text(self@.1),
    {
        proof {
            reveal_strlit("\"");
            reveal_strlit("\" ");
        }
        let t = self.media_type.to_text();
        String::from_str("\"").concat(self.storage_key.as_str()).concat("\" ").concat(t.as_str())
    }
}

pub open spec fn opt_str_view(o: Option<&str>) -> Option<Seq<char>> {
    match o {
        Some(s) => Some(s@),
        None => None,
    }
}

} // verus!
