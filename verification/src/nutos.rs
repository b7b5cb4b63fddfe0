//! The public face of the store, and its iterator.
//!
//! `Notus` wraps the datastore with the guards callers expect: the empty
//! key is never live, so reads and deletes of it short-circuit. Iteration
//! snapshots the keys first and then looks each one up, so a long scan
//! never pins the store's internal state.

use vstd::prelude::*;
use vstd::map::*;
use crate::errors::NotusError;
use crate::keybytes::{KeyBound, lex_lt, is_prefix, lo_admits, hi_admits};
use crate::datastore::{DataStore, IndexState};
use crate::memtable::MemTableEntryV;
use crate::file_ops::Volume;
use crate::schema::clone_bytes;

verus! {

/// The store, behind its façade.
pub struct Notus {
    store: DataStore,
}

impl Notus {
    /// The wrapped store's shape.
    pub closed spec fn wf(self) -> bool {
        self.store.wf()
    }

    /// The wrapped store's agreement with its volume.
    pub closed spec fn index_consistent(self) -> bool {
        self.store.index_consistent()
    }

    /// What a read of `k` answers.
    pub closed spec fn spec_get(self, k: Seq<u8>) -> Result<Option<Seq<u8>>, NotusError> {
        self.store.spec_get(k)
    }

    /// Is `k` live?
    pub closed spec fn spec_contains(self, k: Seq<u8>) -> bool {
        self.store.spec_contains(k)
    }

    /// The key directory's map.
    pub closed spec fn keydir(self) -> Map<Seq<u8>, IndexState> {
        self.store.keydir()
    }

    /// The write buffer's map.
    pub closed spec fn buffer(self) -> Map<Seq<u8>, MemTableEntryV> {
        self.store.buffer()
    }

    /// The write buffer's footprint.
    pub closed spec fn buffer_size(self) -> int {
        self.store.buffer_size()
    }

    /// Every persisted binding reads back a record carrying its own key.
    pub closed spec fn index_clean(self) -> bool {
        self.store.index_clean()
    }

    /// The segment pairs of the volume the store works over.
    pub closed spec fn segs(self) -> Seq<crate::file_ops::FilePairV> {
        self.store.segs()
    }

    /// Open a store over `volume`.
    pub fn open(volume: Volume) -> (r: Result<Notus, NotusError>)
        ensures
            match r {
                Ok(s) => {
                    &&& !volume@.locked
                    &&& s.wf()
                    &&& s.index_consistent()
                    &&& s.buffer() == Map::<Seq<u8>, MemTableEntryV>::empty()
                    &&& s.buffer_size() == 0
                    &&& s.keydir() == crate::file_ops::replay_volume(
                        crate::file_ops::repaired_segs(volume@.segments),
                    )
                    &&& (crate::file_ops::repaired_segs(volume@.segments) == volume@.segments
                        ==> s.keydir() == crate::file_ops::replay_volume(volume@.segments))
                    &&& (crate::datastore::volume_clean(
                        crate::file_ops::repaired_segs(volume@.segments),
                    ) ==> s.index_clean())
                },
                Err(e) => {
                    &&& (volume@.locked <==> e == NotusError::LockFailed)
                    &&& (e == NotusError::LockFailed || e == NotusError::Unknown)
                },
            },
    {
        match DataStore::open(volume) {
            Ok(store) => Ok(Notus { store }),
            Err(e) => Err(e),
        }
    }

    /// Open a store over a volume a host means to throw away afterwards.
    pub fn temp(volume: Volume) -> (r: Result<Notus, NotusError>)
        ensures
            match r {
                Ok(s) => {
                    &&& !volume@.locked
                    &&& s.wf()
                    &&& s.index_consistent()
                    &&& s.buffer() == Map::<Seq<u8>, MemTableEntryV>::empty()
                    &&& s.buffer_size() == 0
                    &&& s.keydir() == crate::file_ops::replay_volume(
                        crate::file_ops::repaired_segs(volume@.segments),
                    )
                    &&& (crate::file_ops::repaired_segs(volume@.segments) == volume@.segments
                        ==> s.keydir() == crate::file_ops::replay_volume(volume@.segments))
                    &&& (crate::datastore::volume_clean(
                        crate::file_ops::repaired_segs(volume@.segments),
                    ) ==> s.index_clean())
                },
                Err(e) => {
                    &&& (volume@.locked <==> e == NotusError::LockFailed)
                    &&& (e == NotusError::LockFailed || e == NotusError::Unknown)
                },
            },
    {
        Notus::open(volume)
    }

    /// Bind `key` to `value`. The empty key is accepted here for the
    /// buffer's sake, but the point reads above never answer it; only a
    /// scan lists it.
    pub fn put(&mut self, key: Vec<u8>, value: Vec<u8>) -> (r: Result<(), NotusError>)
        requires
            old(self).wf(),
            key@.len() <= u32::MAX,
            value@.len() <= u32::MAX,
            old(self).buffer_size() + key@.len() + value@.len() + 9 <= usize::MAX,
        ensures
            r is Ok,
            final(self).wf(),
            final(self).keydir() == old(self).keydir().insert(key@, IndexState::InBuffer),
            final(self).spec_contains(key@),
            final(self).spec_get(key@) == Ok::<Option<Seq<u8>>, NotusError>(Some(value@)),
            forall|k: Seq<u8>|
                k != key@ ==> #[trigger] final(self).spec_get(k) == old(self).spec_get(k),
            forall|k: Seq<u8>|
                k != key@ ==> #[trigger] final(self).spec_contains(k) == old(self).spec_contains(
                    k,
                ),
            old(self).index_consistent() ==> final(self).index_consistent(),
            old(self).index_clean() ==> final(self).index_clean(),
    {
        let r = self.store.put(key, value);
        proof {
            assert(r is Ok);
        }
        r
    }

    /// Read `key`; the empty key is never live.
    pub fn get(&self, key: &Vec<u8>) -> (r: Result<Option<Vec<u8>>, NotusError>)
        requires
            self.wf(),
        ensures
            key@.len() == 0 ==> r == Ok::<Option<Vec<u8>>, NotusError>(None),
            key@.len() > 0 ==> (match self.spec_get(key@) {
                Ok(ov) => r is Ok && (match ov {
                    Some(v) => r->Ok_0 is Some && r->Ok_0->0@ == v,
                    None => r->Ok_0 is None,
                }),
                Err(x) => r == Err::<Option<Vec<u8>>, NotusError>(x),
            }),
    {
        if key.len() == 0 {
            return Ok(None);
        }
        self.store.get(key)
    }

    /// Is `key` live? The empty key never is.
    pub fn contains(&self, key: &Vec<u8>) -> (r: Result<bool, NotusError>)
        requires
            self.wf(),
        ensures
            key@.len() == 0 ==> r == Ok::<bool, NotusError>(false),
            key@.len() > 0 ==> r == Ok::<bool, NotusError>(self.spec_contains(key@)),
    {
        if key.len() == 0 {
            return Ok(false);
        }
        self.store.contains(key)
    }

    /// Forget `key`; deleting the empty key, or a missing one, is a no-op.
    pub fn delete(&mut self, key: &Vec<u8>) -> (r: Result<(), NotusError>)
        requires
            old(self).wf(),
            key@.len() <= u32::MAX,
            old(self).buffer_size() + key@.len() + 9 <= usize::MAX,
        ensures
            r is Ok,
            final(self).wf(),
            key@.len() == 0 ==> *final(self) == *old(self),
            key@.len() > 0 ==> final(self).keydir() == old(self).keydir().remove(key@),
            key@.len() > 0 ==> !final(self).spec_contains(key@),
            key@.len() > 0 ==> final(self).spec_get(key@) == Ok::<Option<Seq<u8>>, NotusError>(
                None,
            ),
            forall|k: Seq<u8>|
                k != key@ ==> #[trigger] final(self).spec_get(k) == old(self).spec_get(k),
            forall|k: Seq<u8>|
                k != key@ ==> #[trigger] final(self).spec_contains(k) == old(self).spec_contains(
                    k,
                ),
            old(self).index_consistent() ==> final(self).index_consistent(),
            old(self).index_clean() ==> final(self).index_clean(),
    {
        if key.len() == 0 {
            return Ok(());
        }
        self.store.delete(key)
    }

    /// Compact the store.
    pub fn compact(&mut self) -> (r: Result<(), NotusError>)
        requires
            old(self).wf(),
        ensures
            final(self).wf(),
            final(self).buffer() == old(self).buffer(),
            forall|k: Seq<u8>|
                #[trigger] final(self).keydir().contains_key(k) == old(
                    self,
                ).keydir().contains_key(k),
            forall|k: Seq<u8>|
                #[trigger] final(self).spec_contains(k) == old(self).spec_contains(k),
            r is Err ==> r->Err_0 == NotusError::CorruptValue || r->Err_0
                == NotusError::DecodeFailure || r->Err_0 == NotusError::Unknown,
            old(self).index_clean() ==> final(self).index_clean(),
            old(self).index_clean() && r is Ok ==> forall|k: Seq<u8>|
                #[trigger] final(self).spec_get(k) == old(self).spec_get(k),
    {
        self.store.merge()
    }

    /// Forget every key.
    pub fn clear(&mut self) -> (r: Result<(), NotusError>)
        requires
            old(self).wf(),
        ensures
            r is Ok,
            final(self).wf(),
            final(self).keydir() == Map::<Seq<u8>, IndexState>::empty(),
            final(self).buffer() == Map::<Seq<u8>, MemTableEntryV>::empty(),
            forall|k: Seq<u8>| !(#[trigger] final(self).spec_contains(k)),
            old(self).index_consistent() ==> final(self).index_consistent(),
    {
        self.store.clear()
    }

    /// Drain the write buffer to the active segment.
    pub fn flush(&mut self) -> (r: Result<(), NotusError>)
        requires
            old(self).wf(),
        ensures
            r is Ok,
            final(self).wf(),
            final(self).buffer() == Map::<Seq<u8>, MemTableEntryV>::empty(),
            final(self).buffer_size() == 0,
            old(self).index_consistent() ==> final(self).index_consistent(),
            old(self).index_clean() ==> final(self).index_clean(),
    {
        self.store.flush()
    }

    /// Shut the store down and hand its volume back, unlocked. What the
    /// volume replays, and what each replayed key reads back, is what this
    /// store held.
    pub fn close(self) -> (r: Result<Volume, NotusError>)
        requires
            self.wf(),
        ensures
            r is Ok,
            r->Ok_0@.locked == false,
            r is Ok ==> crate::datastore::seg_ids_sorted(r->Ok_0@.segments),
            crate::file_ops::repaired_segs(r->Ok_0@.segments) == r->Ok_0@.segments,
            self.index_consistent() && self.index_clean() ==> crate::datastore::volume_clean(
                r->Ok_0@.segments,
            ),
            self.index_consistent() ==> forall|k: Seq<u8>|
                #[trigger] crate::file_ops::replay_volume(r->Ok_0@.segments).contains_key(k)
                    == self.spec_contains(k),
            self.index_consistent() ==> forall|k: Seq<u8>|
                (#[trigger] self.spec_get(k)) is Ok && self.spec_get(k)->Ok_0 is Some ==> {
                    let m = crate::file_ops::replay_volume(r->Ok_0@.segments);
                    &&& m.contains_key(k)
                    &&& m[k] is Persisted
                    &&& crate::datastore::has_seg(
                        r->Ok_0@.segments,
                        m[k]->Persisted_0.file_id,
                    )
                    &&& crate::file_ops::read_result(
                        crate::datastore::seg_at_id(
                            r->Ok_0@.segments,
                            m[k]->Persisted_0.file_id,
                        ),
                        m[k]->Persisted_0.data_entry_position,
                    ) is Ok
                    &&& crate::file_ops::read_result(
                        crate::datastore::seg_at_id(
                            r->Ok_0@.segments,
                            m[k]->Persisted_0.file_id,
                        ),
                        m[k]->Persisted_0.data_entry_position,
                    )->Ok_0.value == self.spec_get(k)->Ok_0->0
                },
    {
        self.store.close()
    }

    /// Every live key, ascending.
    pub fn keys(&self) -> (r: Vec<Vec<u8>>)
        requires
            self.wf(),
        ensures
            forall|i: int, j: int|
                0 <= i < j < r@.len() ==> lex_lt(#[trigger] r@[i]@, #[trigger] r@[j]@),
            forall|i: int| 0 <= i < r@.len() ==> self.keydir().contains_key(#[trigger] r@[i]@),
            forall|k: Seq<u8>|
                #[trigger] self.keydir().contains_key(k) ==> exists|i: int|
                    0 <= i < r@.len() && #[trigger] r@[i]@ == k,
            r@.len() == self.keydir().dom().len(),
    {
        self.store.keys()
    }

    /// Iterate over every live key.
    pub fn iter(&self) -> (r: DBIterator<'_>)
        requires
            self.wf(),
        ensures
            r.wf(),
            r.cursor_at() == 0,
            forall|i: int|
                0 <= i < r.snapshot().len() ==> self.keydir().contains_key(
                    #[trigger] r.snapshot()[i],
                ),
            forall|k: Seq<u8>|
                #[trigger] self.keydir().contains_key(k) ==> exists|i: int|
                    0 <= i < r.snapshot().len() && #[trigger] r.snapshot()[i] == k,
            forall|i: int, j: int|
                0 <= i < j < r.snapshot().len() ==> lex_lt(
                    #[trigger] r.snapshot()[i],
                    #[trigger] r.snapshot()[j],
                ),
    {
        DBIterator::new(&self.store)
    }

    /// Iterate over the live keys between the bounds.
    pub fn range(&self, lo: &KeyBound, hi: &KeyBound) -> (r: DBIterator<'_>)
        requires
            self.wf(),
        ensures
            r.wf(),
            r.cursor_at() == 0,
            forall|i: int|
                0 <= i < r.snapshot().len() ==> self.keydir().contains_key(
                    #[trigger] r.snapshot()[i],
                ) && lo_admits(*lo, r.snapshot()[i]) && hi_admits(*hi, r.snapshot()[i]),
            forall|k: Seq<u8>|
                #[trigger] self.keydir().contains_key(k) && lo_admits(*lo, k) && hi_admits(*hi, k)
                    ==> exists|i: int|
                    0 <= i < r.snapshot().len() && #[trigger] r.snapshot()[i] == k,
            forall|i: int, j: int|
                0 <= i < j < r.snapshot().len() ==> lex_lt(
                    #[trigger] r.snapshot()[i],
                    #[trigger] r.snapshot()[j],
                ),
    {
        DBIterator::range(&self.store, lo, hi)
    }

    /// Iterate over the live keys that start with `prefix`.
    pub fn prefix(&self, prefix: &Vec<u8>) -> (r: DBIterator<'_>)
        requires
            self.wf(),
        ensures
            r.wf(),
            r.cursor_at() == 0,
            forall|i: int|
                0 <= i < r.snapshot().len() ==> self.keydir().contains_key(
                    #[trigger] r.snapshot()[i],
                ) && is_prefix(prefix@, r.snapshot()[i]),
            forall|k: Seq<u8>|
                #[trigger] self.keydir().contains_key(k) && is_prefix(prefix@, k) ==> exists|
                    i: int,
                |
                    0 <= i < r.snapshot().len() && #[trigger] r.snapshot()[i] == k,
            forall|i: int, j: int|
                0 <= i < j < r.snapshot().len() ==> lex_lt(
                    #[trigger] r.snapshot()[i],
                    #[trigger] r.snapshot()[j],
                ),
    {
        DBIterator::prefix(&self.store, prefix)
    }
}

/// A snapshot iterator over the store: the keys as they stood when it was
/// made, walked forwards or backwards, each key answered by a point read.
pub struct DBIterator<'a> {
    store: &'a DataStore,
    inner: Vec<Vec<u8>>,
    cursor: usize,
}

impl<'a> DBIterator<'a> {
    /// The store behind the iterator is well formed, and the cursor sane.
    pub closed spec fn wf(self) -> bool {
        (*self.store).wf() && self.cursor <= self.inner@.len()
    }

    /// The keys captured at construction.
    pub closed spec fn snapshot(self) -> Seq<Seq<u8>> {
        self.inner@.map_values(|v: Vec<u8>| v@)
    }

    /// How many keys have been consumed.
    pub closed spec fn cursor_at(self) -> int {
        self.cursor as int
    }

    /// The store the iterator reads through.
    pub closed spec fn backing(self) -> DataStore {
        *self.store
    }

    /// What the backing store answers for `k`.
    pub closed spec fn store_get(self, k: Seq<u8>) -> Result<Option<Seq<u8>>, NotusError> {
        (*self.store).spec_get(k)
    }

    /// Snapshot every key of `store`.
    fn new(store: &'a DataStore) -> (r: DBIterator<'a>)
        requires
            store.wf(),
        ensures
            r.wf(),
            r.cursor_at() == 0,
            r.store == store,
            forall|i: int|
                0 <= i < r.snapshot().len() ==> store.keydir().contains_key(
                    #[trigger] r.snapshot()[i],
                ),
            forall|k: Seq<u8>|
                #[trigger] store.keydir().contains_key(k) ==> exists|i: int|
                    0 <= i < r.snapshot().len() && #[trigger] r.snapshot()[i] == k,
            forall|i: int, j: int|
                0 <= i < j < r.snapshot().len() ==> lex_lt(
                    #[trigger] r.snapshot()[i],
                    #[trigger] r.snapshot()[j],
                ),
    {
        let inner = store.keys();
        let r = DBIterator { store, inner, cursor: 0 };
        proof {
            assert forall|k: Seq<u8>| #[trigger] store.keydir().contains_key(k) implies exists|
                i: int,
            | 0 <= i < r.snapshot().len() && #[trigger] r.snapshot()[i] == k by {
                let i = choose|i: int| 0 <= i < inner@.len() && #[trigger] inner@[i]@ == k;
                assert(r.snapshot()[i] == k);
            }
        }
        r
    }

    /// Snapshot the keys between the bounds.
    fn range(store: &'a DataStore, lo: &KeyBound, hi: &KeyBound) -> (r: DBIterator<'a>)
        requires
            store.wf(),
        ensures
            r.wf(),
            r.cursor_at() == 0,
            r.store == store,
            forall|i: int|
                0 <= i < r.snapshot().len() ==> store.keydir().contains_key(
                    #[trigger] r.snapshot()[i],
                ) && lo_admits(*lo, r.snapshot()[i]) && hi_admits(*hi, r.snapshot()[i]),
            forall|k: Seq<u8>|
                #[trigger] store.keydir().contains_key(k) && lo_admits(*lo, k) && hi_admits(*hi, k)
                    ==> exists|i: int|
                    0 <= i < r.snapshot().len() && #[trigger] r.snapshot()[i] == k,
            forall|i: int, j: int|
                0 <= i < j < r.snapshot().len() ==> lex_lt(
                    #[trigger] r.snapshot()[i],
                    #[trigger] r.snapshot()[j],
                ),
    {
        let inner = store.range(lo, hi);
        let r = DBIterator { store, inner, cursor: 0 };
        proof {
            assert forall|k: Seq<u8>|
                #[trigger] store.keydir().contains_key(k) && lo_admits(*lo, k) && hi_admits(
                    *hi,
                    k,
                ) implies exists|i: int|
                0 <= i < r.snapshot().len() && #[trigger] r.snapshot()[i] == k by {
                let i = choose|i: int| 0 <= i < inner@.len() && #[trigger] inner@[i]@ == k;
                assert(r.snapshot()[i] == k);
            }
        }
        r
    }

    /// Snapshot the keys that start with `prefix`.
    fn prefix(store: &'a DataStore, prefix: &Vec<u8>) -> (r: DBIterator<'a>)
        requires
            store.wf(),
        ensures
            r.wf(),
            r.cursor_at() == 0,
            r.store == store,
            forall|i: int|
                0 <= i < r.snapshot().len() ==> store.keydir().contains_key(
                    #[trigger] r.snapshot()[i],
                ) && is_prefix(prefix@, r.snapshot()[i]),
            forall|k: Seq<u8>|
                #[trigger] store.keydir().contains_key(k) && is_prefix(prefix@, k) ==> exists|
                    i: int,
                |
                    0 <= i < r.snapshot().len() && #[trigger] r.snapshot()[i] == k,
            forall|i: int, j: int|
                0 <= i < j < r.snapshot().len() ==> lex_lt(
                    #[trigger] r.snapshot()[i],
                    #[trigger] r.snapshot()[j],
                ),
    {
        let inner = store.prefix(prefix);
        let r = DBIterator { store, inner, cursor: 0 };
        proof {
            assert forall|k: Seq<u8>|
                #[trigger] store.keydir().contains_key(k) && is_prefix(prefix@, k) implies exists|
                i: int,
            | 0 <= i < r.snapshot().len() && #[trigger] r.snapshot()[i] == k by {
                let i = choose|i: int| 0 <= i < inner@.len() && #[trigger] inner@[i]@ == k;
                assert(r.snapshot()[i] == k);
            }
        }
        r
    }

    /// The next key-value pair, walking forwards. A snapshot key whose
    /// read comes back empty — deleted since the snapshot — is silently
    /// skipped; a read error ends the walk with the cursor on the failing
    /// key.
    pub fn next(&mut self) -> (r: Option<(Vec<u8>, Vec<u8>)>)
        requires
            old(self).wf(),
        ensures
            final(self).wf(),
            final(self).snapshot() == old(self).snapshot(),
            final(self).backing() == old(self).backing(),
            old(self).cursor_at() <= final(self).cursor_at() <= old(self).snapshot().len(),
            forall|j: int|
                old(self).cursor_at() <= j < (match r {
                    Some(_) => final(self).cursor_at() - 1,
                    None => final(self).cursor_at(),
                }) ==> old(self).store_get(#[trigger] old(self).snapshot()[j]) == Ok::<
                    Option<Seq<u8>>,
                    NotusError,
                >(None),
            match r {
                Some(kv) => {
                    &&& old(self).cursor_at() < final(self).cursor_at()
                    &&& kv.0@ == old(self).snapshot()[final(self).cursor_at() - 1]
                    &&& old(self).store_get(kv.0@) == Ok::<Option<Seq<u8>>, NotusError>(
                        Some(kv.1@),
                    )
                },
                None => {
                    &&& (final(self).cursor_at() == old(self).snapshot().len() || old(
                        self,
                    ).store_get(old(self).snapshot()[final(self).cursor_at()]) is Err)
                },
            },
    {
        loop
            invariant
                self.wf(),
                self.snapshot() == old(self).snapshot(),
                self.backing() == old(self).backing(),
                old(self).cursor_at() <= self.cursor_at() <= self.snapshot().len(),
                forall|j: int|
                    old(self).cursor_at() <= j < self.cursor_at() ==> old(self).store_get(
                        #[trigger] old(self).snapshot()[j],
                    ) == Ok::<Option<Seq<u8>>, NotusError>(None),
            decreases self.snapshot().len() - self.cursor_at(),
        {
            if self.cursor >= self.inner.len() {
                return None;
            }
            let key = clone_bytes(&self.inner[self.cursor]);
            match self.store.get(&key) {
                Ok(Some(value)) => {
                    self.cursor = self.cursor + 1;
                    return Some((key, value));
                },
                Ok(None) => {
                    self.cursor = self.cursor + 1;
                },
                Err(_) => {
                    return None;
                },
            }
        }
    }

    /// The next key-value pair, walking backwards from the end,
    /// mirroring `next`: an empty read is skipped, a read error ends the
    /// walk.
    pub fn next_back(&mut self) -> (r: Option<(Vec<u8>, Vec<u8>)>)
        requires
            old(self).wf(),
        ensures
            final(self).wf(),
            final(self).snapshot() == old(self).snapshot(),
            final(self).backing() == old(self).backing(),
            old(self).cursor_at() <= final(self).cursor_at() <= old(self).snapshot().len(),
            forall|j: int|
                old(self).cursor_at() <= j < (match r {
                    Some(_) => final(self).cursor_at() - 1,
                    None => final(self).cursor_at(),
                }) ==> old(self).store_get(
                    #[trigger] old(self).snapshot()[old(self).snapshot().len() - 1 - j],
                ) == Ok::<Option<Seq<u8>>, NotusError>(None),
            match r {
                Some(kv) => {
                    &&& old(self).cursor_at() < final(self).cursor_at()
                    &&& kv.0@ == old(self).snapshot()[old(self).snapshot().len() - final(self).cursor_at()]
                    &&& old(self).store_get(kv.0@) == Ok::<Option<Seq<u8>>, NotusError>(
                        Some(kv.1@),
                    )
                },
                None => {
                    &&& (final(self).cursor_at() == old(self).snapshot().len() || old(
                        self,
                    ).store_get(
                        old(self).snapshot()[old(self).snapshot().len() - 1 - final(self).cursor_at()],
                    ) is Err)
                },
            },
    {
        loop
            invariant
                self.wf(),
                self.snapshot() == old(self).snapshot(),
                self.backing() == old(self).backing(),
                old(self).cursor_at() <= self.cursor_at() <= self.snapshot().len(),
                forall|j: int|
                    old(self).cursor_at() <= j < self.cursor_at() ==> old(self).store_get(
                        #[trigger] old(self).snapshot()[old(self).snapshot().len() - 1 - j],
                    ) == Ok::<Option<Seq<u8>>, NotusError>(None),
            decreases self.snapshot().len() - self.cursor_at(),
        {
            if self.cursor >= self.inner.len() {
                return None;
            }
            let position = self.inner.len() - 1 - self.cursor;
            let key = clone_bytes(&self.inner[position]);
            match self.store.get(&key) {
                Ok(Some(value)) => {
                    self.cursor = self.cursor + 1;
                    return Some((key, value));
                },
                Ok(None) => {
                    self.cursor = self.cursor + 1;
                },
                Err(_) => {
                    return None;
                },
            }
        }
    }
}

impl Notus {
    /// The directory image the store works over, for a host that mirrors
    /// it onto real files.
    pub fn volume(&self) -> (r: &Volume)
        ensures
            r@.segments == self.segs(),
    {
        self.store.volume()
    }

    /// The write buffer's footprint in bytes.
    pub fn buffer_bytes(&self) -> (r: usize)
        ensures
            r == self.buffer_size(),
    {
        self.store.buffer_bytes()
    }
}

} // verus!
