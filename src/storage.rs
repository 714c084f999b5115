//! The storage backend: a byte-keyed map with atomic batch updates, and an
//! in-memory implementation that records the keys each batch touches.
use vstd::prelude::*;
use vstd::slice::slice_to_vec;

use crate::media::same_text;

verus! {

/// A failure reported by a storage backend.
#[derive(Debug, Clone)]
pub struct BackendError {
    pub message: String,
}

/// One entry of a batch: a key, and the value to store there or `None` to
/// delete it.
pub open spec fn batch_entry_view(e: (String, Option<Vec<u8>>)) -> (Seq<char>, Option<Seq<u8>>) {
    (
        e.0@,
        match e.1 {
            Some(v) => Some(v@),
            None => None,
        },
    )
}

pub open spec fn batch_view(b: Seq<(String, Option<Vec<u8>>)>) -> Seq<(Seq<char>, Option<Seq<u8>>)> {
    b.map_values(|e: (String, Option<Vec<u8>>)| batch_entry_view(e))
}

/// The keys of a batch's entries, in order.
pub open spec fn batch_keys(b: Seq<(Seq<char>, Option<Seq<u8>>)>) -> Seq<Seq<char>> {
    b.map_values(|e: (Seq<char>, Option<Seq<u8>>)| e.0)
}

/// The map after the batch's entries are applied in order.
pub open spec fn apply_batch(
    m: Map<Seq<char>, Seq<u8>>,
    b: Seq<(Seq<char>, Option<Seq<u8>>)>,
) -> Map<Seq<char>, Seq<u8>>
    decreases b.len(),
{
    if b.len() == 0 {
        m
    } else {
        let prev = apply_batch(m, b.drop_last());
        match b.last().1 {
            Some(v) => prev.insert(b.last().0, v),
            None => prev.remove(b.last().0),
        }
    }
}

/// The value stored at `k`, if any.
pub open spec fn lookup(m: Map<Seq<char>, Seq<u8>>, k: Seq<char>) -> Option<Seq<u8>> {
    if m.contains_key(k) {
        Some(m[k])
    } else {
        None
    }
}

/// An ordered map from keys to byte values. A batch update applies all its
/// entries or none.
pub trait StorageBackend {
    /// The stored key-value pairs.
    spec fn contents(&self) -> Map<Seq<char>, Seq<u8>>;

    /// The backend's internal consistency.
    spec fn wf(&self) -> bool;

    /// The keys that batches have touched since the mirror last took them,
    /// in order, once per batch entry.
    spec fn pending(&self) -> Seq<Seq<char>>;

    /// Retrieves the value at `key`.
    fn get(&self, key: &str) -> (r: Result<Option<Vec<u8>>, BackendError>)
        requires
            self.wf(),
        ensures
            r matches Ok(v) ==> match v {
                Some(b) => lookup(self.contents(), key@) == Some(b@),
                None => lookup(self.contents(), key@) is None,
            },
    ;

    /// Applies every entry of `batch`, in order, as one atomic update.
    fn batch_update(&mut self, batch: Vec<(String, Option<Vec<u8>>)>) -> (r: Result<(), BackendError>)
        requires
            old(self).wf(),
        ensures
            final(self).wf(),
            r is Ok ==> final(self).contents() == apply_batch(old(self).contents(), batch_view(batch@)),
            r is Ok ==> final(self).pending() == old(self).pending() + batch_keys(batch_view(batch@)),
            r is Err ==> final(self).contents() == old(self).contents(),
    ;

    /// Hands out the keys touched since the last call, and forgets them.
    fn take_updates(&mut self) -> (r: Vec<String>)
        requires
            old(self).wf(),
        ensures
            final(self).wf(),
            keys_view(r@) == old(self).pending(),
            final(self).pending() == Seq::<Seq<char>>::empty(),
            final(self).contents() == old(self).contents(),
    ;
}

/// A backend held in memory. Each key that a batch touches is recorded,
/// once per entry, for the directory mirror to pick up.
pub struct DatabaseWrapper {
    entries: Vec<(String, Vec<u8>)>,
    updates: Vec<String>,
}

/// The keys in `entries` are distinct.
pub open spec fn keys_distinct(entries: Seq<(String, Vec<u8>)>) -> bool {
    forall|i: int, j: int|
        0 <= i < j < entries.len() ==> #[trigger] entries[i].0@ != #[trigger] entries[j].0@
}

/// The map that a list of distinct key-value pairs stands for.
pub open spec fn pairs_map(entries: Seq<(String, Vec<u8>)>) -> Map<Seq<char>, Seq<u8>> {
    Map::new(
        |k: Seq<char>| exists|i: int| 0 <= i < entries.len() && #[trigger] entries[i].0@ == k,
        |k: Seq<char>|
            entries[choose|i: int| 0 <= i < entries.len() && #[trigger] entries[i].0@ == k].1@,
    )
}

pub open spec fn keys_view(v: Seq<String>) -> Seq<Seq<char>> {
    v.map_values(|s: String| s@)
}

impl DatabaseWrapper {
    /// An empty store.
    pub fn try_new() -> (r: Result<DatabaseWrapper, BackendError>)
        ensures
            r matches Ok(db) ==> db.wf() && db.contents() == Map::<Seq<char>, Seq<u8>>::empty() && db.pending()
                == Seq::<Seq<char>>::empty(),
    {
        Ok(DatabaseWrapper::new())
    }

    /// An empty store.
    pub fn new() -> (r: DatabaseWrapper)
        ensures
            r.wf(),
            r.contents() == Map::<Seq<char>, Seq<u8>>::empty(),
            r.pending() == Seq::<Seq<char>>::empty(),
    {
        let r = DatabaseWrapper { entries: Vec::new(), updates: Vec::new() };
        assert(r.contents() =~= Map::<Seq<char>, Seq<u8>>::empty());
        assert(r.pending() =~= Seq::<Seq<char>>::empty());
        r
    }


    fn find(&self, key: &str) -> (r: Option<usize>)
        ensures
            match r {
                Some(i) => i < self.entries@.len() && self.entries@[i as int].0@ == key@,
                None => forall|i: int| 0 <= i < self.entries@.len() ==> self.entries@[i].0@ != key@,
            },
    {
        let mut i: usize = 0;
        while i < self.entries.len()
            invariant
                i <= self.entries@.len(),
                forall|k: int| 0 <= k < i ==> self.entries@[k].0@ != key@,
            decreases self.entries.len() - i,
        {
            if same_text(self.entries[i].0.as_str(), key) {
                return Some(i);
            }
            i = i + 1;
        }
        None
    }

    proof fn lemma_lookup_at(&self, i: int)
        requires
            keys_distinct(self.entries@),
            0 <= i < self.entries@.len(),
        ensures
            self.contents().contains_key(self.entries@[i].0@),
            self.contents()[self.entries@[i].0@] == self.entries@[i].1@,
    {
        let k = self.entries@[i].0@;
        let j = choose|j: int| 0 <= j < self.entries@.len() && #[trigger] self.entries@[j].0@ == k;
        assert(j == i);
    }

    fn put(&mut self, key: String, value: Vec<u8>)
        requires
            old(self).wf(),
        ensures
            final(self).wf(),
            final(self).contents() == old(self).contents().insert(key@, value@),
            final(self).updates@ == old(self).updates@,
    {
        let ghost old_map = self.contents();
        let ghost old_entries = self.entries@;
        let ghost k = key@;
        let ghost v = value@;
        match self.find(key.as_str()) {
            Some(i) => {
                self.entries.set(i, (key, value));
                proof {
                    let n = self.entries@;
                    assert(keys_distinct(n)) by {
                        assert forall|a: int, b: int| 0 <= a < b < n.len() implies #[trigger] n[a].0@
                            != #[trigger] n[b].0@ by {
                            assert(old_entries[a].0@ != old_entries[b].0@);
                        }
                    }
                    assert forall|q: Seq<char>| #[trigger] self.contents().contains_key(q) <==> old_map.insert(k, v).contains_key(q) by {
                        if q != k && old_map.contains_key(q) {
                            let j = choose|j: int| 0 <= j < old_entries.len() && #[trigger] old_entries[j].0@ == q;
                            assert(n[j].0@ == q);
                        }
                        if self.contents().contains_key(q) && q != k {
                            let j = choose|j: int| 0 <= j < n.len() && #[trigger] n[j].0@ == q;
                            assert(old_entries[j].0@ == q);
                        }
                        if q == k {
                            assert(n[i as int].0@ == q);
                        }
                    }
                    assert forall|q: Seq<char>| #[trigger] self.contents().contains_key(q) implies self.contents()[q] == old_map.insert(k, v)[q] by {
                        let j = choose|j: int| 0 <= j < n.len() && #[trigger] n[j].0@ == q;
                        self.lemma_lookup_at(j);
                        if j != i {
                            assert(old_entries[j] == n[j]);
                            let jj = choose|jj: int| 0 <= jj < old_entries.len() && #[trigger] old_entries[jj].0@ == q;
                            assert(jj == j);
                        }
                    }
                    assert(self.contents() =~= old_map.insert(k, v));
                }
            },
            None => {
                self.entries.push((key, value));
                proof {
                    let n = self.entries@;
                    assert(keys_distinct(n)) by {
                        assert forall|a: int, b: int| 0 <= a < b < n.len() implies #[trigger] n[a].0@
                            != #[trigger] n[b].0@ by {
                            if b < old_entries.len() {
                                assert(old_entries[a].0@ != old_entries[b].0@);
                            }
                        }
                    }
                    assert forall|q: Seq<char>| #[trigger] self.contents().contains_key(q) <==> old_map.insert(k, v).contains_key(q) by {
                        if q != k && old_map.contains_key(q) {
                            let j = choose|j: int| 0 <= j < old_entries.len() && #[trigger] old_entries[j].0@ == q;
                            assert(n[j].0@ == q);
                        }
                        if self.contents().contains_key(q) && q != k {
                            let j = choose|j: int| 0 <= j < n.len() && #[trigger] n[j].0@ == q;
                            assert(old_entries[j].0@ == q);
                        }
                        if q == k {
                            assert(n[old_entries.len() as int].0@ == q);
                        }
                    }
                    assert forall|q: Seq<char>| #[trigger] self.contents().contains_key(q) implies self.contents()[q] == old_map.insert(k, v)[q] by {
                        let j = choose|j: int| 0 <= j < n.len() && #[trigger] n[j].0@ == q;
                        self.lemma_lookup_at(j);
                        if j < old_entries.len() {
                            let jj = choose|jj: int| 0 <= jj < old_entries.len() && #[trigger] old_entries[jj].0@ == q;
                            assert(jj == j);
                        }
                    }
                    assert(self.contents() =~= old_map.insert(k, v));
                }
            },
        }
    }

    fn delete(&mut self, key: &str)
        requires
            old(self).wf(),
        ensures
            final(self).wf(),
            final(self).contents() == old(self).contents().remove(key@),
            final(self).updates@ == old(self).updates@,
    {
        let ghost old_map = self.contents();
        let ghost old_entries = self.entries@;
        let ghost k = key@;
        match self.find(key) {
            Some(i) => {
                self.entries.remove(i);
                proof {
                    let n = self.entries@;
                    assert(n =~= old_entries.remove(i as int));
                    assert(keys_distinct(n)) by {
                        assert forall|a: int, b: int| 0 <= a < b < n.len() implies #[trigger] n[a].0@
                            != #[trigger] n[b].0@ by {
                            if a < i && b < i {
                                assert(old_entries[a].0@ != old_entries[b].0@);
                            } else if a < i {
                                assert(old_entries[a].0@ != old_entries[b + 1].0@);
                            } else {
                                assert(old_entries[a + 1].0@ != old_entries[b + 1].0@);
                            }
                        }
                    }
                    assert forall|q: Seq<char>| #[trigger] self.contents().contains_key(q) <==> old_map.remove(k).contains_key(q) by {
                        if q != k && old_map.contains_key(q) {
                            let j = choose|j: int| 0 <= j < old_entries.len() && #[trigger] old_entries[j].0@ == q;
                            if j < i {
                                assert(n[j].0@ == q);
                            } else {
                                assert(n[j - 1].0@ == q);
                            }
                        }
                        if self.contents().contains_key(q) {
                            let j = choose|j: int| 0 <= j < n.len() && #[trigger] n[j].0@ == q;
                            if j < i {
                                assert(old_entries[j].0@ == q);
                                assert(old_entries[j].0@ != old_entries[i as int].0@);
                            } else {
                                assert(old_entries[j + 1].0@ == q);
                                assert(old_entries[j + 1].0@ != old_entries[i as int].0@);
                            }
                        }
                    }
                    assert forall|q: Seq<char>| #[trigger] self.contents().contains_key(q) implies self.contents()[q] == old_map.remove(k)[q] by {
                        let j = choose|j: int| 0 <= j < n.len() && #[trigger] n[j].0@ == q;
                        self.lemma_lookup_at(j);
                        let jj = choose|jj: int| 0 <= jj < old_entries.len() && #[trigger] old_entries[jj].0@ == q;
                        if j < i {
                            assert(old_entries[j].0@ == q);
                            assert(jj == j);
                        } else {
                            assert(old_entries[j + 1].0@ == q);
                            assert(jj == j + 1);
                        }
                    }
                    assert(self.contents() =~= old_map.remove(k));
                }
            },
            None => {
                assert(self.contents() =~= old_map.remove(k));
            },
        }
    }
}

impl StorageBackend for DatabaseWrapper {
    closed spec fn contents(&self) -> Map<Seq<char>, Seq<u8>> {
        pairs_map(self.entries@)
    }

    closed spec fn wf(&self) -> bool {
        keys_distinct(self.entries@)
    }

    closed spec fn pending(&self) -> Seq<Seq<char>> {
        keys_view(self.updates@)
    }

    fn get(&self, key: &str) -> (r: Result<Option<Vec<u8>>, BackendError>) {
        match self.find(key) {
            Some(i) => {
                proof {
                    self.lemma_lookup_at(i as int);
                }
                Ok(Some(slice_to_vec(self.entries[i].1.as_slice())))
            },
            None => Ok(None),
        }
    }

    /// Hands out the keys touched since the last call, and forgets them.
    fn take_updates(&mut self) -> (r: Vec<String>) {
        let mut r: Vec<String> = Vec::new();
        std::mem::swap(&mut r, &mut self.updates);
        assert(self.pending() =~= Seq::<Seq<char>>::empty());
        r
    }

    fn batch_update(&mut self, batch: Vec<(String, Option<Vec<u8>>)>) -> (r: Result<(), BackendError>) {
        let ghost start = self.contents();
        let ghost b = batch_view(batch@);
        let ghost start_pending = self.pending();
        let mut i: usize = 0;
        while i < batch.len()
            invariant
                i <= batch@.len(),
                b == batch_view(batch@),
                self.wf(),
                self.contents() == apply_batch(start, b.subrange(0, i as int)),
                self.pending() == start_pending + batch_keys(b.subrange(0, i as int)),
            decreases batch.len() - i,
        {
            let key = batch[i].0.clone();
            let ghost before = self.updates@;
            let k2 = key.clone();
            self.updates.push(k2);
            assert(keys_view(self.updates@) =~= keys_view(before).push(key@));
            match &batch[i].1 {
                Some(v) => self.put(key, slice_to_vec(v.as_slice())),
                None => self.delete(key.as_str()),
            }
            assert(b.subrange(0, i + 1).drop_last() =~= b.subrange(0, i as int));
            assert(b[i as int].0 == key@);
            assert(batch_keys(b.subrange(0, i + 1)) =~= batch_keys(b.subrange(0, i as int)).push(key@));
            assert(self.pending() =~= start_pending + batch_keys(b.subrange(0, i + 1)));
            i = i + 1;
        }
        assert(b.subrange(0, i as int) =~= b);
        Ok(())
    }
}

/// Creates the backend that the server uses.
pub struct StorageFactory;

impl StorageFactory {
    /// A new, empty backend.
    pub fn create() -> (r: DatabaseWrapper)
        ensures
            r.wf(),
            r.contents() == Map::<Seq<char>, Seq<u8>>::empty(),
            r.pending() == Seq::<Seq<char>>::empty(),
    {
        DatabaseWrapper::new()
    }
}

} // verus!
