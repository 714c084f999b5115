//! The directory mirror: which keys changed, where each goes on disk, and
//! how files found on disk enter the store. The caller walks the directory
//! and carries out the file operations.
use vstd::prelude::*;
use vstd::slice::slice_to_vec;

use crate::ignore_filter::{ignores, IgnoreFilter};
use crate::media::{generic_ext, guessed_media_type, media_type_parse, MediaTypeView};
use crate::negotiation::{
    stored_sidecar, entries_text, json_object_text, set_entry, sidecar_key, write_target, NegotiatedPath,
    PathExtensions,
};
use crate::order::{lemma_seq_le_order, seq_le, str_le};
use crate::paths::{ext_dot, extension, extension_of, lemma_path_positions};
use crate::storage::{apply_batch, batch_view, lookup, BackendError, StorageBackend};

verus! {

/// The keys a mirror writes: sidecar keys are left out.
pub open spec fn mirrored_key(k: Seq<char>) -> bool {
    extension(k) != Some(seq!['e', 'x', 't'])
}

/// Strictly increasing in lexicographic order.
pub open spec fn strictly_sorted(v: Seq<Seq<char>>) -> bool {
    forall|i: int, j: int| 0 <= i < j < v.len() ==> seq_le(#[trigger] v[i], #[trigger] v[j]) && v[i] != v[j]
}

pub open spec fn strings_of(v: Seq<String>) -> Seq<Seq<char>> {
    v.map_values(|s: String| s@)
}

/// The changed keys to mirror: sorted, each once, without sidecar keys.
pub fn collect_updates(updates: Vec<String>) -> (r: Vec<String>)
    requires
        forall|i: int| 0 <= i < updates@.len() ==> extension(#[trigger] updates@[i]@) is Some,
    ensures
        strictly_sorted(strings_of(r@)),
        forall|k: Seq<char>|
            #![trigger strings_of(r@).contains(k)]
            #![trigger strings_of(updates@).contains(k)]
            strings_of(r@).contains(k) <==> (strings_of(updates@).contains(k) && mirrored_key(k)),
{
    proof {
        reveal_strlit("ext");
    }
    let ghost input = strings_of(updates@);
    let mut out: Vec<String> = Vec::new();
    let mut n: usize = 0;
    while n < updates.len()
        invariant
            n <= updates@.len(),
            input == strings_of(updates@),
            strictly_sorted(strings_of(out@)),
            forall|k: Seq<char>|
                #[trigger] strings_of(out@).contains(k) <==> (exists|i: int|
                    0 <= i < n && #[trigger] input[i] == k) && mirrored_key(k),
        decreases updates.len() - n,
    {
        proof {
            lemma_seq_le_order();
            reveal_strlit("ext");
        }
        let key = updates[n].as_str();
        assert(key@ == input[n as int]);
        let ghost old_v = strings_of(out@);
        let skip = match extension_of(key) {
            Some(e) => crate::media::same_text(e, "ext"),
            None => false,
        };
        assert("ext"@ =~= seq!['e', 'x', 't']);
        if skip {
            assert(!mirrored_key(key@));
            assert forall|k: Seq<char>| #[trigger] strings_of(out@).contains(k) <==> (exists|i: int|
                0 <= i < n + 1 && #[trigger] input[i] == k) && mirrored_key(k) by {
                if exists|i: int| 0 <= i < n + 1 && #[trigger] input[i] == k {
                    let i = choose|i: int| 0 <= i < n + 1 && #[trigger] input[i] == k;
                    if i < n {
                        assert(exists|i: int| 0 <= i < n && #[trigger] input[i] == k);
                    }
                }
            }
        } else {
            let mut pos: usize = 0;
            while pos < out.len() && !str_le(key, out[pos].as_str())
                invariant
                    pos <= out@.len(),
                    old_v == strings_of(out@),
                    forall|i: int| 0 <= i < pos ==> !seq_le(key@, #[trigger] old_v[i]),
                decreases out.len() - pos,
            {
                pos = pos + 1;
            }
            let present = pos < out.len() && str_le(out[pos].as_str(), key);
            if present {
                assert(old_v[pos as int] == key@);
                assert forall|k: Seq<char>| #[trigger] strings_of(out@).contains(k) <==> (exists|i: int|
                    0 <= i < n + 1 && #[trigger] input[i] == k) && mirrored_key(k) by {
                    if exists|i: int| 0 <= i < n + 1 && #[trigger] input[i] == k {
                        let i = choose|i: int| 0 <= i < n + 1 && #[trigger] input[i] == k;
                        if i < n {
                            assert(exists|i: int| 0 <= i < n && #[trigger] input[i] == k);
                        } else {
                            assert(old_v[pos as int] == k);
                        }
                    }
                }
            } else {
                let ghost x = key@;
                out.insert(pos, String::from_str(key));
                let ghost new_v = strings_of(out@);
                assert(new_v =~= old_v.insert(pos as int, x));
                assert(pos < old_v.len() ==> seq_le(x, old_v[pos as int]) && x != old_v[pos as int]);
                assert(strictly_sorted(new_v)) by {
                    lemma_seq_le_order();
                    assert forall|i: int, j: int| 0 <= i < j < new_v.len() implies seq_le(
                        #[trigger] new_v[i],
                        #[trigger] new_v[j],
                    ) && new_v[i] != new_v[j] by {
                        if j == pos {
                            assert(!seq_le(x, old_v[i]));
                        } else if i == pos {
                            if j - 1 > pos {
                                assert(seq_le(old_v[pos as int], old_v[j - 1]) && old_v[pos as int] != old_v[j - 1]);
                            }
                        } else if j < pos {
                            assert(seq_le(old_v[i], old_v[j]) && old_v[i] != old_v[j]);
                        } else if i < pos {
                            assert(seq_le(old_v[i], old_v[j - 1]) && old_v[i] != old_v[j - 1]);
                        } else {
                            assert(seq_le(old_v[i - 1], old_v[j - 1]) && old_v[i - 1] != old_v[j - 1]);
                        }
                    }
                }
                assert forall|k: Seq<char>| #[trigger] strings_of(out@).contains(k) <==> (exists|i: int|
                    0 <= i < n + 1 && #[trigger] input[i] == k) && mirrored_key(k) by {
                    if new_v.contains(k) {
                        let j = choose|j: int| 0 <= j < new_v.len() && new_v[j] == k;
                        if j == pos {
                            assert(input[n as int] == k);
                        } else if j < pos {
                            assert(old_v[j] == k);
                            assert(old_v.contains(k));
                        } else {
                            assert(old_v[j - 1] == k);
                            assert(old_v.contains(k));
                        }
                    }
                    if (exists|i: int| 0 <= i < n + 1 && #[trigger] input[i] == k) && mirrored_key(k) {
                        let i = choose|i: int| 0 <= i < n + 1 && #[trigger] input[i] == k;
                        if i == n {
                            assert(new_v[pos as int] == k);
                        } else {
                            assert(exists|i: int| 0 <= i < n && #[trigger] input[i] == k);
                            assert(old_v.contains(k));
                            let j = choose|j: int| 0 <= j < old_v.len() && old_v[j] == k;
                            if j < pos {
                                assert(new_v[j] == k);
                            } else {
                                assert(new_v[j + 1] == k);
                            }
                        }
                    }
                }
            }
        }
        n = n + 1;
    }
    proof {
        assert forall|k: Seq<char>|
            strings_of(out@).contains(k) <==> (input.contains(k) && mirrored_key(k)) by {
            if input.contains(k) {
                let i = choose|i: int| 0 <= i < input.len() && input[i] == k;
                assert(exists|i: int| 0 <= i < n && #[trigger] input[i] == k);
            }
            if strings_of(out@).contains(k) {
                let i = choose|i: int| 0 <= i < n && #[trigger] input[i] == k;
                assert(input.contains(k));
            }
        }
    }
    out
}

/// Where a key is mirrored, relative to the directory: the key without its
/// leading `/`, and without the sentinel extension.
pub open spec fn mirror_relative(k: Seq<char>) -> Seq<char> {
    if extension(k) == Some(generic_ext()) {
        k.subrange(1, ext_dot(k))
    } else {
        k.subrange(1, k.len() as int)
    }
}

/// Where `key` is mirrored, relative to the directory; none for a key that
/// does not start with `/`.
pub fn mirror_relative_path(key: &str) -> (r: Option<String>)
    ensures
        match r {
            Some(p) => key@.len() > 0 && key@[0] == '/' && p@ == mirror_relative(key@),
            None => !(key@.len() > 0 && key@[0] == '/'),
        },
{
    proof {
        reveal_strlit("octet-stream");
        assert("octet-stream"@ =~= generic_ext());
        lemma_path_positions(key@);
    }
    let len = key.unicode_len();
    if len == 0 || key.get_char(0) != '/' {
        return None;
    }
    let generic = match extension_of(key) {
        Some(e) => crate::media::same_text(e, "octet-stream"),
        None => false,
    };
    if generic {
        let d = crate::paths::ext_dot_of(key).unwrap();
        Some(String::from_str(key.substring_char(1, d)))
    } else {
        Some(String::from_str(key.substring_char(1, len)))
    }
}

/// A file operation that brings the mirror up to date with one key.
#[derive(Debug)]
pub enum ExportAction {
    /// The filter leaves this key alone.
    Skip { key: String },
    /// Write `contents` to the file at `path`, relative to the directory.
    Write { path: String, contents: Vec<u8> },
    /// Remove the file at `path`, relative to the directory, if it exists.
    Remove { path: String },
}

/// The operation that mirrors `k`, given what the store holds.
pub open spec fn export_action_for(
    contents: Map<Seq<char>, Seq<u8>>,
    k: Seq<char>,
    ignore: Seq<(Seq<char>, bool)>,
    a: ExportAction,
) -> bool {
    if ignores(ignore, k) {
        (a matches ExportAction::Skip { key } && key@ == k)
    } else {
        match lookup(contents, k) {
            Some(v) => (a matches ExportAction::Write { path, contents: c } && path@ == mirror_relative(k)
                && c@ == v),
            None => (a matches ExportAction::Remove { path } && path@ == mirror_relative(k)),
        }
    }
}

/// Decides how to mirror one changed key.
pub fn export_key<B: StorageBackend>(db: &B, key: &str, ignore: &IgnoreFilter) -> (r: Result<ExportAction, BackendError>)
    requires
        db.wf(),
        key@.len() > 0 && key@[0] == '/',
    ensures
        ignores(ignore@, key@) ==> r is Ok,
        r matches Ok(a) ==> export_action_for(db.contents(), key@, ignore@, a),
{
    if ignore.matches(key) {
        return Ok(ExportAction::Skip { key: String::from_str(key) });
    }
    let path = mirror_relative_path(key).unwrap();
    match db.get(key) {
        Ok(Some(v)) => Ok(ExportAction::Write { path, contents: v }),
        Ok(None) => Ok(ExportAction::Remove { path }),
        Err(e) => Err(e),
    }
}

/// Decides how to mirror each of the changed keys, in order.
pub fn write_each_key<B: StorageBackend>(db: &B, update_keys: &Vec<String>, ignore: &IgnoreFilter) -> (r: Result<Vec<ExportAction>, BackendError>)
    requires
        db.wf(),
        forall|i: int| 0 <= i < update_keys@.len() ==> (#[trigger] update_keys@[i])@.len() > 0 && update_keys@[i]@[0] == '/',
    ensures
        (forall|i: int| 0 <= i < update_keys@.len() ==> ignores(ignore@, #[trigger] update_keys@[i]@))
            ==> r is Ok,
        r matches Ok(acts) ==> acts@.len() == update_keys@.len() && forall|i: int|
            0 <= i < acts@.len() ==> export_action_for(db.contents(), update_keys@[i]@, ignore@, #[trigger] acts@[i]),
{
    let mut acts: Vec<ExportAction> = Vec::new();
    let mut i: usize = 0;
    while i < update_keys.len()
        invariant
            db.wf(),
            i <= update_keys@.len(),
            acts@.len() == i,
            forall|j: int| 0 <= j < update_keys@.len() ==> (#[trigger] update_keys@[j])@.len() > 0 && update_keys@[j]@[0] == '/',
            forall|j: int| 0 <= j < i ==> export_action_for(db.contents(), update_keys@[j]@, ignore@, #[trigger] acts@[j]),
        decreases update_keys.len() - i,
    {
        let a = export_key(db, update_keys[i].as_str(), ignore)?;
        acts.push(a);
        i = i + 1;
    }
    Ok(acts)
}

/// The storage key of a file, from its path relative to the directory
/// (with `/` between components).
pub fn storage_key_for_file(relative_path: &str) -> (r: String)
    ensures
        r@ == seq!['/'] + relative_path@,
{
    proof {
        reveal_strlit("/");
        assert("/"@ =~= seq!['/']);
    }
    String::from_str("/").concat(relative_path)
}

/// What happened to one file found in the directory.
#[derive(Debug, Clone, Copy, PartialEq, Eq)]
pub enum ImportOutcome {
    /// The filter leaves the file alone.
    Ignored,
    /// The file has no name that can be stored.
    Unstorable,
    /// Stored; `guessed` tells whether its media type came from its
    /// extension.
    Stored { guessed: bool },
}

/// The media type an imported file is stored with: guessed from its
/// extension where one is known and parses, else the sentinel.
pub open spec fn import_media_type(k: Seq<char>, t: (Seq<char>, MediaTypeView)) -> MediaTypeView {
    if extension(k) is Some {
        match guessed_media_type(extension(t.0)->0) {
            Some(g) => match media_type_parse(g) {
                Some(m) => m,
                None => t.1,
            },
            None => t.1,
        }
    } else {
        t.1
    }
}

/// Whether the media type that the key's extension suggests is known and
/// parses.
pub open spec fn guess_parses(t: (Seq<char>, MediaTypeView)) -> bool {
    guessed_media_type(extension(t.0)->0) matches Some(g) && media_type_parse(g) is Some
}

/// One file imported: ignored or unstorable with the store and its queue
/// unchanged, or stored under the key that a write with no `content-type`
/// negotiates, with its value and its sidecar entry in one batch, and both
/// keys queued for the mirror.
pub open spec fn import_step(
    old_contents: Map<Seq<char>, Seq<u8>>,
    new_contents: Map<Seq<char>, Seq<u8>>,
    old_pending: Seq<Seq<char>>,
    new_pending: Seq<Seq<char>>,
    key: Seq<char>,
    content: Seq<u8>,
    ignore: Seq<(Seq<char>, bool)>,
    o: ImportOutcome,
) -> bool {
    if ignores(ignore, key) {
        o == ImportOutcome::Ignored && new_contents == old_contents && new_pending == old_pending
    } else {
        match write_target(key, None) {
            None => o == ImportOutcome::Unstorable && new_contents == old_contents && new_pending
                == old_pending,
            Some(t) => {
                &&& o == ImportOutcome::Stored { guessed: extension(key) is Some && guess_parses(t) }
                &&& new_contents == old_contents.insert(t.0, content).insert(
                    sidecar_key(key),
                    json_object_text(
                        entries_text(
                            set_entry(
                                stored_sidecar(old_contents, key),
                                extension(t.0)->0,
                                import_media_type(key, t),
                            ),
                        ),
                    ),
                )
                &&& new_pending == old_pending + seq![t.0, sidecar_key(key)]
            },
        }
    }
}

/// Stores one file found in the directory under `key`: negotiated as a write
/// with no `content-type`, its media type guessed from its extension, and
/// the value and sidecar written in one batch.
pub fn store_file<B: StorageBackend>(db: &mut B, key: &str, content: Vec<u8>, ignore: &IgnoreFilter) -> (r: Result<ImportOutcome, BackendError>)
    requires
        old(db).wf(),
    ensures
        final(db).wf(),
        ignores(ignore@, key@) ==> r == Ok::<ImportOutcome, BackendError>(ImportOutcome::Ignored),
        !ignores(ignore@, key@) && write_target(key@, None) is None ==> r == Ok::<
            ImportOutcome,
            BackendError,
        >(ImportOutcome::Unstorable),
        r matches Ok(o) ==> import_step(
            old(db).contents(),
            final(db).contents(),
            old(db).pending(),
            final(db).pending(),
            key@,
            content@,
            ignore@,
            o,
        ),
        r is Err ==> final(db).contents() == old(db).contents(),
{
    if ignore.matches(key) {
        return Ok(ImportOutcome::Ignored);
    }
    let mut negotiated = match NegotiatedPath::for_write(key, None) {
        Some(n) => n,
        None => {
            return Ok(ImportOutcome::Unstorable);
        },
    };
    let ghost t = negotiated@;
    let mut guessed = false;
    if extension_of(key).is_some() {
        guessed = negotiated.guess_media_type().is_ok();
    }
    assert(negotiated@.1 == import_media_type(key@, t));
    assert(guessed == (extension(key@) is Some && guess_parses(t)));
    let ghost start = db.contents();
    let ghost body = content@;
    let mut extensions = PathExtensions::load(key, &*db)?;
    let ghost es = extensions.entries();
    let sidecar = extensions.insert(&negotiated);
    let ghost sidecar_bytes = json_object_text(entries_text(set_entry(es, extension(t.0)->0, negotiated@.1)));
    let batch = vec![(String::from_str(negotiated.storage_key()), Some(content)), (sidecar.0, sidecar.1)];
    proof {
        let bv = batch_view(batch@);
        assert(bv[0] == (t.0, Some(body)));
        assert(bv[1] == (sidecar_key(key@), Some(sidecar_bytes)));
        assert(bv.drop_last().drop_last() =~= Seq::<(Seq<char>, Option<Seq<u8>>)>::empty());
        assert(bv.last() == bv[1] && bv.drop_last().last() == bv[0]);
        reveal_with_fuel(apply_batch, 3);
        assert(apply_batch(start, bv) == start.insert(t.0, body).insert(sidecar_key(key@), sidecar_bytes));
        assert(crate::storage::batch_keys(bv) =~= seq![t.0, sidecar_key(key@)]);
    }
    if let Err(e) = db.batch_update(batch) {
        return Err(e);
    }
    Ok(ImportOutcome::Stored { guessed })
}

/// The files as storage keys and contents.
pub open spec fn files_view(files: Seq<(String, Vec<u8>)>) -> Seq<(Seq<char>, Seq<u8>)> {
    files.map_values(|f: (String, Vec<u8>)| (f.0@, f.1@))
}

/// Files imported one after the other, from the first, with outcomes
/// `outs`, take the store from `old_contents` to `new_contents` and its
/// queue from `old_pending` to `new_pending`.
pub open spec fn import_chain(
    old_contents: Map<Seq<char>, Seq<u8>>,
    new_contents: Map<Seq<char>, Seq<u8>>,
    old_pending: Seq<Seq<char>>,
    new_pending: Seq<Seq<char>>,
    files: Seq<(Seq<char>, Seq<u8>)>,
    ignore: Seq<(Seq<char>, bool)>,
    outs: Seq<ImportOutcome>,
) -> bool {
    outs.len() == files.len() && exists|states: Seq<Map<Seq<char>, Seq<u8>>>, queues: Seq<Seq<Seq<char>>>|
        states.len() == files.len() + 1 && queues.len() == files.len() + 1 && states[0]
            == old_contents && queues[0] == old_pending && states.last() == new_contents
            && queues.last() == new_pending && forall|i: int|
            0 <= i < files.len() ==> import_step(
                #[trigger] states[i],
                states[i + 1],
                queues[i],
                queues[i + 1],
                files[i].0,
                files[i].1,
                ignore,
                outs[i],
            )
}

/// Every file is ignored or has no storable name: importing them makes no
/// call to the store.
pub open spec fn nothing_to_store(files: Seq<(Seq<char>, Seq<u8>)>, ignore: Seq<(Seq<char>, bool)>) -> bool {
    forall|i: int|
        0 <= i < files.len() ==> ignores(ignore, (#[trigger] files[i]).0) || write_target(files[i].0, None) is None
}

/// Stores each file found in the directory, given as its storage key and
/// its contents, in order; stops at the first failed read or write of the
/// store, keeping what the files before it stored.
pub fn store_each_file<B: StorageBackend>(db: &mut B, files: Vec<(String, Vec<u8>)>, ignore: &IgnoreFilter) -> (r: Result<Vec<ImportOutcome>, BackendError>)
    requires
        old(db).wf(),
    ensures
        final(db).wf(),
        r matches Ok(v) ==> v@.len() == files@.len() && import_chain(
            old(db).contents(),
            final(db).contents(),
            old(db).pending(),
            final(db).pending(),
            files_view(files@),
            ignore@,
            v@,
        ),
        nothing_to_store(files_view(files@), ignore@) ==> r is Ok,
        r is Err ==> exists|k: int, outs: Seq<ImportOutcome>, q: Seq<Seq<char>>|
            0 <= k < files@.len() && import_chain(
                old(db).contents(),
                final(db).contents(),
                old(db).pending(),
                q,
                files_view(files@).subrange(0, k),
                ignore@,
                outs,
            ),
{
    let mut outcomes: Vec<ImportOutcome> = Vec::new();
    let ghost mut states: Seq<Map<Seq<char>, Seq<u8>>> = seq![db.contents()];
    let ghost mut queues: Seq<Seq<Seq<char>>> = seq![db.pending()];
    let ghost fv = files_view(files@);
    let mut i: usize = 0;
    while i < files.len()
        invariant
            db.wf(),
            fv == files_view(files@),
            i <= files@.len(),
            outcomes@.len() == i,
            states.len() == i + 1,
            queues.len() == i + 1,
            states[0] == old(db).contents(),
            queues[0] == old(db).pending(),
            states[i as int] == db.contents(),
            queues[i as int] == db.pending(),
            forall|j: int|
                0 <= j < i ==> import_step(
                    #[trigger] states[j],
                    states[j + 1],
                    queues[j],
                    queues[j + 1],
                    fv[j].0,
                    fv[j].1,
                    ignore@,
                    outcomes@[j],
                ),
        decreases files.len() - i,
    {
        assert(fv[i as int] == (files@[i as int].0@, files@[i as int].1@));
        let content = slice_to_vec(files[i].1.as_slice());
        let o = match store_file(db, files[i].0.as_str(), content, ignore) {
            Ok(o) => o,
            Err(e) => {
                proof {
                    let sub = fv.subrange(0, i as int);
                    assert forall|j: int| 0 <= j < i implies sub[j] == fv[j] by {}
                    assert(import_chain(old(db).contents(), db.contents(), old(db).pending(), queues[i as int], sub, ignore@, outcomes@));
                }
                return Err(e);
            },
        };
        proof {
            states = states.push(db.contents());
            queues = queues.push(db.pending());
        }
        outcomes.push(o);
        i = i + 1;
    }
    assert(states.last() == states[i as int]);
    assert(queues.last() == queues[i as int]);
    assert(import_chain(old(db).contents(), db.contents(), old(db).pending(), db.pending(), fv, ignore@, outcomes@));
    Ok(outcomes)
}

/// When the mirror reads and writes the directory.
#[derive(Debug, Clone)]
pub struct FilesystemActions {
    pub sync_dir: Option<String>,
    pub sync_write: bool,
}

impl FilesystemActions {
    /// Imports the files found in the mirror directory, if there is one, and
    /// then takes the keys queued for the mirror, which it returns.
    pub fn do_read<B: StorageBackend>(&self, db: &mut B, files: Vec<(String, Vec<u8>)>, ignore: &IgnoreFilter) -> (r: Result<Vec<String>, BackendError>)
        requires
            old(db).wf(),
        ensures
            final(db).wf(),
            self.sync_dir is None ==> (r matches Ok(v) && v@.len() == 0) && final(db).contents() == old(db).contents()
                && final(db).pending() == old(db).pending(),
            nothing_to_store(files_view(files@), ignore@) ==> r is Ok,
            self.sync_dir is Some ==> (r matches Ok(keys) ==> final(db).pending() == Seq::<Seq<char>>::empty()
                && exists|outs: Seq<ImportOutcome>, q: Seq<Seq<char>>|
                import_chain(old(db).contents(), final(db).contents(), old(db).pending(), q, files_view(files@), ignore@, outs)
                    && strings_of(keys@) == q),
    {
        if self.sync_dir.is_none() {
            return Ok(Vec::new());
        }
        let outcomes = store_each_file(db, files, ignore)?;
        let ghost q = db.pending();
        let keys = db.take_updates();
        assert(strings_of(keys@) =~= crate::storage::keys_view(keys@));
        Ok(keys)
    }

    /// The file operations that bring the mirror up to date with the
    /// changed keys; none unless writing to a mirror directory is on.
    pub fn do_write<B: StorageBackend>(&self, db: &B, updates: Vec<String>, ignore: &IgnoreFilter) -> (r: Result<Vec<ExportAction>, BackendError>)
        requires
            db.wf(),
            forall|i: int| 0 <= i < updates@.len() ==> (#[trigger] updates@[i])@.len() > 0 && updates@[i]@[0] == '/',
            forall|i: int| 0 <= i < updates@.len() ==> extension(#[trigger] updates@[i]@) is Some,
        ensures
            (forall|k: Seq<char>| strings_of(updates@).contains(k) && mirrored_key(k) ==> ignores(ignore@, k))
                ==> r is Ok,
            !(self.sync_write && self.sync_dir is Some) ==> (r matches Ok(v) && v@.len() == 0),
            (self.sync_write && self.sync_dir is Some) ==> (r matches Ok(acts) ==> exists|keys: Seq<Seq<char>>|
                strictly_sorted(keys) && (forall|k: Seq<char>| keys.contains(k) <==> (strings_of(updates@).contains(k) && mirrored_key(k))) && acts@.len() == keys.len() && forall|i: int|
                    0 <= i < acts@.len() ==> export_action_for(db.contents(), keys[i], ignore@, #[trigger] acts@[i])),
    {
        if !(self.sync_write && self.sync_dir.is_some()) {
            return Ok(Vec::new());
        }
        let ghost input = strings_of(updates@);
        let keys = collect_updates(updates);
        assert forall|i: int| 0 <= i < keys@.len() implies (#[trigger] keys@[i])@.len() > 0 && keys@[i]@[0] == '/' by {
            assert(strings_of(keys@)[i] == keys@[i]@);
            assert(strings_of(keys@).contains(keys@[i]@));
            assert(strings_of(updates@).contains(keys@[i]@));
            assert(input.contains(keys@[i]@));
            let j = choose|j: int| 0 <= j < input.len() && input[j] == keys@[i]@;
            assert(input[j] == updates@[j]@);
        }
        proof {
            if forall|k: Seq<char>| strings_of(updates@).contains(k) && mirrored_key(k) ==> ignores(ignore@, k) {
                assert forall|i: int| 0 <= i < keys@.len() implies ignores(ignore@, #[trigger] keys@[i]@) by {
                    assert(strings_of(keys@)[i] == keys@[i]@);
                    assert(strings_of(keys@).contains(keys@[i]@));
                }
            }
        }
        let acts = write_each_key(db, &keys, ignore)?;
        assert forall|i: int| 0 <= i < acts@.len() implies export_action_for(db.contents(), strings_of(keys@)[i], ignore@, #[trigger] acts@[i]) by {
            assert(strings_of(keys@)[i] == keys@[i]@);
        }
        let ghost kv = strings_of(keys@);
        assert(forall|k: Seq<char>| kv.contains(k) <==> (strings_of(updates@).contains(k) && mirrored_key(k)));
        assert(strictly_sorted(kv) && acts@.len() == kv.len());
        Ok(acts)
    }
}

} // verus!
