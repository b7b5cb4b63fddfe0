//! The in-memory key directory and the datastore that orchestrates the
//! engine.
//!
//! The key directory (`KeysDir`) maps every live key to where its value
//! lives: still in the write buffer, or persisted at an offset of a data
//! segment. It is kept as a vector of slots sorted by key in lexicographic
//! byte order, and is specified by the map it represents.

use vstd::prelude::*;
use vstd::map::*;
use vstd::pervasive::VecAdditionalExecFns;
use crate::keybytes::{
    KeyOrder, KeyBound, lex_lt, is_prefix, lo_admits, hi_admits, key_cmp, starts_with, lo_ok,
    hi_ok, lemma_lex_asymmetric, lemma_lex_transitive,
};
use crate::errors::NotusError;
use crate::schema::{
    clone_bytes, hint_stream_clean, scan_hints, lemma_scan_empty, lemma_decode_data_extend,
    DataEntry, DataEntryV, HintEntryV,
};
use crate::memtable::{MemTable, MemTableEntryV, entry_weight};
use crate::file_ops::{
    FilePair, FilePairV, Volume, read_result, replay_one, replay_volume, replay_upto,
    create_new_file_pair, repaired_pair, repaired_segs, lemma_replay_push_empty,
    lemma_replay_append_hint, lemma_replay_upto_persisted,
};
use crate::clock::now_timestamp_nanos;

verus! {

/// Where a persisted key's record lives: which segment, and at what offset.
#[derive(Debug, Clone, Copy, PartialEq, Eq, Structural)]
pub struct KeyDirEntry {
    pub file_id: u64,
    pub key_size: u32,
    pub value_size: u32,
    pub data_entry_position: u64,
}

impl KeyDirEntry {
    /// Package the location of one persisted record.
    pub fn new(file_id: u64, key_size: u32, value_size: u32, pos: u64) -> (r: KeyDirEntry)
        ensures
            r == (KeyDirEntry { file_id, key_size, value_size, data_entry_position: pos }),
    {
        KeyDirEntry { file_id, key_size, value_size, data_entry_position: pos }
    }
}

/// The state of one key in the directory: waiting in the write buffer, or
/// persisted in a segment.
#[derive(Debug, Clone, Copy, PartialEq, Eq, Structural)]
pub enum IndexState {
    InBuffer,
    Persisted(KeyDirEntry),
}

/// The column tag of the flat, default namespace.
pub const DEFAULT_INDEX: &'static str = "_";

/// An optional-column key, kept for callers that tag keys with a namespace
/// before handing them to the flat store.
#[derive(Debug, Clone)]
pub struct RawKey(pub String, pub Vec<u8>);

impl RawKey {
    /// Wrap `key` in the default namespace.
    pub fn default(key: Vec<u8>) -> (r: RawKey)
        ensures
            r.1@ == key@,
    {
        RawKey(DEFAULT_INDEX.to_owned(), key)
    }
}

/// One slot of the key directory.
#[derive(Debug, Clone)]
struct DirSlot {
    key: Vec<u8>,
    state: IndexState,
}

/// The in-memory index from key to the latest location of its value.
pub struct KeysDir {
    slots: Vec<DirSlot>,
}

/// The map held by a sequence of slots: later slots win.
spec fn slots_to_map(s: Seq<DirSlot>) -> Map<Seq<u8>, IndexState>
    decreases s.len(),
{
    if s.len() == 0 {
        Map::empty()
    } else {
        slots_to_map(s.drop_last()).insert(s.last().key@, s.last().state)
    }
}

/// Strictly ascending keys: sorted, with no duplicates.
spec fn slots_sorted(s: Seq<DirSlot>) -> bool {
    forall|i: int, j: int|
        0 <= i < j < s.len() ==> lex_lt(#[trigger] s[i].key@, #[trigger] s[j].key@)
}

/// Membership in the represented map is membership among the slots.
proof fn lemma_slots_map_contains(s: Seq<DirSlot>, k: Seq<u8>)
    ensures
        slots_to_map(s).contains_key(k) <==> exists|i: int| 0 <= i < s.len() && #[trigger] s[i].key@ == k,
    decreases s.len(),
{
    if s.len() == 0 {
    } else {
        lemma_slots_map_contains(s.drop_last(), k);
        if s.last().key@ == k {
            assert(s[s.len() - 1].key@ == k);
        } else if slots_to_map(s).contains_key(k) {
            let i = choose|i: int| 0 <= i < s.len() - 1 && #[trigger] s.drop_last()[i].key@ == k;
            assert(s[i].key@ == k);
        } else {
            if exists|i: int| 0 <= i < s.len() && #[trigger] s[i].key@ == k {
                let i = choose|i: int| 0 <= i < s.len() && #[trigger] s[i].key@ == k;
                assert(i < s.len() - 1 ==> s.drop_last()[i].key@ == k);
            }
        }
    }
}

/// In a sorted slot sequence, the slot holding `k` gives the map's value.
proof fn lemma_slots_map_at(s: Seq<DirSlot>, i: int)
    requires
        slots_sorted(s),
        0 <= i < s.len(),
    ensures
        slots_to_map(s).contains_key(s[i].key@),
        slots_to_map(s)[s[i].key@] == s[i].state,
    decreases s.len(),
{
    if i == s.len() - 1 {
        lemma_slots_map_contains(s, s[i].key@);
    } else {
        assert(lex_lt(s[i].key@, s.last().key@));
        lemma_lex_asymmetric(s[i].key@, s.last().key@);
        assert(s.drop_last()[i] == s[i]);
        lemma_slots_map_at(s.drop_last(), i);
    }
}

impl KeysDir {
    /// The map this directory represents.
    pub closed spec fn as_map(self) -> Map<Seq<u8>, IndexState> {
        slots_to_map(self.slots@)
    }

    /// The directory's slots are strictly sorted by key.
    pub closed spec fn wf(self) -> bool {
        slots_sorted(self.slots@)
    }

    /// An empty directory.
    pub fn new() -> (r: KeysDir)
        ensures
            r.wf(),
            r.as_map() == Map::<Seq<u8>, IndexState>::empty(),
    {
        KeysDir { slots: Vec::new() }
    }

    /// The number of keys present.
    pub fn len(&self) -> (r: usize)
        requires
            self.wf(),
        ensures
            r == self.as_map().dom().len(),
    {
        proof {
            lemma_slots_dom_len(self.slots@);
        }
        self.slots.len()
    }

    /// Where, if anywhere, `key` sits among the slots: its index, or the
    /// index at which it would be inserted.
    fn find(&self, key: &Vec<u8>) -> (r: Result<usize, usize>)
        requires
            self.wf(),
        ensures
            match r {
                Ok(i) => i < self.slots@.len() && self.slots@[i as int].key@ == key@,
                Err(i) => i <= self.slots@.len() && (forall|j: int|
                    0 <= j < i ==> lex_lt(#[trigger] self.slots@[j].key@, key@)) && (forall|j: int|
                    i <= j < self.slots@.len() ==> lex_lt(key@, #[trigger] self.slots@[j].key@)),
            },
    {
        let mut i: usize = 0;
        while i < self.slots.len()
            invariant
                self.wf(),
                0 <= i <= self.slots@.len(),
                forall|j: int| 0 <= j < i ==> lex_lt(#[trigger] self.slots@[j].key@, key@),
            decreases self.slots@.len() - i,
        {
            match key_cmp(&self.slots[i].key, key) {
                KeyOrder::Less => {
                    i = i + 1;
                },
                KeyOrder::Equal => {
                    return Ok(i);
                },
                KeyOrder::Greater => {
                    proof {
                        assert forall|j: int| i <= j < self.slots@.len() implies lex_lt(
                            key@,
                            #[trigger] self.slots@[j].key@,
                        ) by {
                            if j > i {
                                lemma_lex_transitive(key@, self.slots@[i as int].key@, self.slots@[j].key@);
                            }
                        }
                    }
                    return Err(i);
                },
            }
        }
        Err(i)
    }

    /// Look up the state of `key`.
    pub fn get(&self, key: &Vec<u8>) -> (r: Option<IndexState>)
        requires
            self.wf(),
        ensures
            r is Some <==> self.as_map().contains_key(key@),
            r is Some ==> r->0 == self.as_map()[key@],
    {
        match self.find(key) {
            Ok(i) => {
                proof {
                    lemma_slots_map_at(self.slots@, i as int);
                }
                Some(self.slots[i].state)
            },
            Err(_) => {
                proof {
                    lemma_slots_map_contains(self.slots@, key@);
                    if self.as_map().contains_key(key@) {
                        let i = choose|i: int|
                            0 <= i < self.slots@.len() && #[trigger] self.slots@[i].key@ == key@;
                        lemma_lex_asymmetric(key@, self.slots@[i].key@);
                    }
                }
                None
            },
        }
    }

    /// Is `key` present?
    pub fn contains(&self, key: &Vec<u8>) -> (r: bool)
        requires
            self.wf(),
        ensures
            r == self.as_map().contains_key(key@),
    {
        match self.get(key) {
            Some(_) => true,
            None => false,
        }
    }

    /// Bind `key` to `state`, replacing any earlier binding.
    pub fn insert(&mut self, key: Vec<u8>, state: IndexState)
        requires
            old(self).wf(),
        ensures
            final(self).wf(),
            final(self).as_map() == old(self).as_map().insert(key@, state),
    {
        let ghost s0 = self.slots@;
        match self.find(&key) {
            Ok(i) => {
                let slot = DirSlot { key, state };
                self.slots.set(i, slot);
                proof {
                    lemma_slots_update(s0, i as int, self.slots@[i as int]);
                    assert(slots_sorted(self.slots@));
                }
            },
            Err(i) => {
                let slot = DirSlot { key, state };
                self.slots.insert(i, slot);
                proof {
                    lemma_slots_map_contains(s0, self.slots@[i as int].key@);
                    lemma_slots_insert(s0, i as int, self.slots@[i as int]);
                }
            },
        }
    }

    /// Drop any binding of `key`.
    pub fn remove(&mut self, key: &Vec<u8>)
        requires
            old(self).wf(),
        ensures
            final(self).wf(),
            final(self).as_map() == old(self).as_map().remove(key@),
    {
        let ghost s0 = self.slots@;
        match self.find(key) {
            Ok(i) => {
                self.slots.remove(i);
                proof {
                    lemma_slots_remove(s0, i as int);
                }
            },
            Err(_) => {
                proof {
                    lemma_slots_map_contains(s0, key@);
                    if slots_to_map(s0).contains_key(key@) {
                        let i = choose|i: int| 0 <= i < s0.len() && #[trigger] s0[i].key@ == key@;
                        lemma_lex_asymmetric(key@, s0[i].key@);
                    }
                    assert(self.as_map() =~= old(self).as_map().remove(key@));
                }
            },
        }
    }

    /// Drop every binding.
    pub fn clear(&mut self)
        ensures
            final(self).wf(),
            final(self).as_map() == Map::<Seq<u8>, IndexState>::empty(),
    {
        self.slots = Vec::new();
    }
}

/// Replacing the slot at `i` by one with the same key rebinds that key.
proof fn lemma_slots_update(s: Seq<DirSlot>, i: int, slot: DirSlot)
    requires
        slots_sorted(s),
        0 <= i < s.len(),
        slot.key@ == s[i].key@,
    ensures
        slots_to_map(s.update(i, slot)) == slots_to_map(s).insert(slot.key@, slot.state),
        slots_sorted(s.update(i, slot)),
    decreases s.len(),
{
    let t = s.update(i, slot);
    if i == s.len() - 1 {
        assert(t.drop_last() =~= s.drop_last());
        assert(t.last() == slot);
    } else {
        assert(t.last() == s.last());
        assert(t.drop_last() =~= s.drop_last().update(i, slot));
        lemma_slots_update(s.drop_last(), i, slot);
        assert(lex_lt(s[i].key@, s.last().key@));
        lemma_lex_asymmetric(s[i].key@, s.last().key@);
        assert(slots_to_map(t) =~= slots_to_map(s).insert(slot.key@, slot.state));
    }
}

/// Inserting a slot whose key splits the order at `i` binds a fresh key.
proof fn lemma_slots_insert(s: Seq<DirSlot>, i: int, slot: DirSlot)
    requires
        slots_sorted(s),
        0 <= i <= s.len(),
        forall|j: int| 0 <= j < i ==> lex_lt(#[trigger] s[j].key@, slot.key@),
        forall|j: int| i <= j < s.len() ==> lex_lt(slot.key@, #[trigger] s[j].key@),
    ensures
        slots_to_map(s.insert(i, slot)) == slots_to_map(s).insert(slot.key@, slot.state),
        slots_sorted(s.insert(i, slot)),
    decreases s.len(),
{
    let t = s.insert(i, slot);
    assert forall|a: int, b: int| 0 <= a < b < t.len() implies lex_lt(
        #[trigger] t[a].key@,
        #[trigger] t[b].key@,
    ) by {
        if a < i && b == i {
        } else if a == i && b > i {
        } else if a < i && b > i {
            assert(t[a] == s[a]);
            assert(t[b] == s[b - 1]);
        }
    }
    if i == s.len() {
        assert(t.drop_last() =~= s);
        assert(t.last() == slot);
    } else {
        assert(t.last() == s.last());
        assert(t.drop_last() =~= s.drop_last().insert(i, slot));
        lemma_slots_insert(s.drop_last(), i, slot);
        assert(lex_lt(slot.key@, s.last().key@));
        lemma_lex_asymmetric(slot.key@, s.last().key@);
        assert(slots_to_map(t) =~= slots_to_map(s).insert(slot.key@, slot.state));
    }
}

/// Removing the slot at `i` unbinds exactly its key.
proof fn lemma_slots_remove(s: Seq<DirSlot>, i: int)
    requires
        slots_sorted(s),
        0 <= i < s.len(),
    ensures
        slots_to_map(s.remove(i)) == slots_to_map(s).remove(s[i].key@),
        slots_sorted(s.remove(i)),
    decreases s.len(),
{
    let t = s.remove(i);
    assert forall|a: int, b: int| 0 <= a < b < t.len() implies lex_lt(
        #[trigger] t[a].key@,
        #[trigger] t[b].key@,
    ) by {
        if b < i {
        } else if a < i && b >= i {
            assert(t[b] == s[b + 1]);
        } else {
            assert(t[a] == s[a + 1]);
            assert(t[b] == s[b + 1]);
        }
    }
    if i == s.len() - 1 {
        assert(t =~= s.drop_last());
        lemma_slots_map_contains(t, s[i].key@);
        if slots_to_map(t).contains_key(s[i].key@) {
            let j = choose|j: int| 0 <= j < t.len() && #[trigger] t[j].key@ == s[i].key@;
            lemma_lex_asymmetric(t[j].key@, s[i].key@);
        }
        assert(slots_to_map(t) =~= slots_to_map(s).remove(s[i].key@));
    } else {
        assert(t.last() == s.last());
        assert(t.drop_last() =~= s.drop_last().remove(i));
        lemma_slots_remove(s.drop_last(), i);
        assert(lex_lt(s[i].key@, s.last().key@));
        lemma_lex_asymmetric(s[i].key@, s.last().key@);
        assert(slots_to_map(t) =~= slots_to_map(s).remove(s[i].key@));
    }
}

/// A sorted slot sequence has as many slots as its map has keys.
proof fn lemma_slots_dom_len(s: Seq<DirSlot>)
    requires
        slots_sorted(s),
    ensures
        slots_to_map(s).dom().len() == s.len(),
        slots_to_map(s).dom().finite(),
    decreases s.len(),
{
    if s.len() == 0 {
        assert(slots_to_map(s).dom() =~= Set::<Seq<u8>>::empty());
    } else {
        lemma_slots_dom_len(s.drop_last());
        lemma_slots_map_contains(s.drop_last(), s.last().key@);
        if slots_to_map(s.drop_last()).contains_key(s.last().key@) {
            let j = choose|j: int|
                0 <= j < s.len() - 1 && #[trigger] s.drop_last()[j].key@ == s.last().key@;
            assert(lex_lt(s[j].key@, s.last().key@));
            lemma_lex_asymmetric(s[j].key@, s.last().key@);
        }
        assert(slots_to_map(s).dom() =~= slots_to_map(s.drop_last()).dom().insert(s.last().key@));
        vstd::set::axiom_set_insert_len(slots_to_map(s.drop_last()).dom(), s.last().key@);
    }
}

impl KeysDir {
    /// Every key present, ascending.
    pub fn keys(&self) -> (r: Vec<Vec<u8>>)
        requires
            self.wf(),
        ensures
            forall|i: int, j: int| 0 <= i < j < r@.len() ==> lex_lt(#[trigger] r@[i]@, #[trigger] r@[j]@),
            forall|i: int| 0 <= i < r@.len() ==> self.as_map().contains_key(#[trigger] r@[i]@),
            forall|k: Seq<u8>|
                #[trigger] self.as_map().contains_key(k) ==> exists|i: int|
                    0 <= i < r@.len() && #[trigger] r@[i]@ == k,
            r@.len() == self.as_map().dom().len(),
    {
        let mut out: Vec<Vec<u8>> = Vec::new();
        let mut i: usize = 0;
        while i < self.slots.len()
            invariant
                self.wf(),
                0 <= i <= self.slots@.len(),
                out@.len() == i,
                forall|j: int| 0 <= j < i ==> #[trigger] out@[j]@ == self.slots@[j].key@,
            decreases self.slots@.len() - i,
        {
            let k = clone_bytes(&self.slots[i].key);
            out.push(k);
            i = i + 1;
        }
        proof {
            lemma_slots_dom_len(self.slots@);
            assert forall|j: int| 0 <= j < out@.len() implies self.as_map().contains_key(
                #[trigger] out@[j]@,
            ) by {
                lemma_slots_map_at(self.slots@, j);
            }
            assert forall|k: Seq<u8>| #[trigger] self.as_map().contains_key(k) implies exists|j: int|
                0 <= j < out@.len() && #[trigger] out@[j]@ == k by {
                lemma_slots_map_contains(self.slots@, k);
                let j = choose|j: int| 0 <= j < self.slots@.len() && #[trigger] self.slots@[j].key@ == k;
                assert(out@[j]@ == k);
            }
        }
        out
    }

    /// Every key between the two bounds, ascending.
    pub fn range(&self, lo: &KeyBound, hi: &KeyBound) -> (r: Vec<Vec<u8>>)
        requires
            self.wf(),
        ensures
            forall|i: int, j: int| 0 <= i < j < r@.len() ==> lex_lt(#[trigger] r@[i]@, #[trigger] r@[j]@),
            forall|i: int|
                0 <= i < r@.len() ==> self.as_map().contains_key(#[trigger] r@[i]@) && lo_admits(
                    *lo,
                    r@[i]@,
                ) && hi_admits(*hi, r@[i]@),
            forall|k: Seq<u8>|
                #[trigger] self.as_map().contains_key(k) && lo_admits(*lo, k) && hi_admits(*hi, k)
                    ==> exists|i: int| 0 <= i < r@.len() && #[trigger] r@[i]@ == k,
    {
        let mut out: Vec<Vec<u8>> = Vec::new();
        let mut i: usize = 0;
        while i < self.slots.len()
            invariant
                self.wf(),
                0 <= i <= self.slots@.len(),
                forall|a: int|
                    0 <= a < out@.len() ==> exists|j: int|
                        0 <= j < i && #[trigger] out@[a]@ == self.slots@[j].key@,
                forall|a: int|
                    0 <= a < out@.len() ==> lo_admits(*lo, #[trigger] out@[a]@) && hi_admits(
                        *hi,
                        out@[a]@,
                    ),
                forall|a: int, b: int| 0 <= a < b < out@.len() ==> lex_lt(#[trigger] out@[a]@, #[trigger] out@[b]@),
                forall|j: int|
                    0 <= j < i && lo_admits(*lo, #[trigger] self.slots@[j].key@) && hi_admits(
                        *hi,
                        self.slots@[j].key@,
                    ) ==> exists|a: int| 0 <= a < out@.len() && #[trigger] out@[a]@ == self.slots@[j].key@,
            decreases self.slots@.len() - i,
        {
            let ghost out0 = out@;
            if lo_ok(lo, &self.slots[i].key) && hi_ok(hi, &self.slots[i].key) {
                let k = clone_bytes(&self.slots[i].key);
                proof {
                    assert forall|a: int| 0 <= a < out@.len() implies lex_lt(
                        #[trigger] out@[a]@,
                        self.slots@[i as int].key@,
                    ) by {
                        let j = choose|j: int| 0 <= j < i && #[trigger] out@[a]@ == self.slots@[j].key@;
                        assert(lex_lt(self.slots@[j].key@, self.slots@[i as int].key@));
                    }
                }
                out.push(k);
            }
            proof {
                assert forall|j: int|
                    0 <= j < i + 1 && lo_admits(*lo, #[trigger] self.slots@[j].key@) && hi_admits(
                        *hi,
                        self.slots@[j].key@,
                    ) implies exists|a: int|
                    0 <= a < out@.len() && #[trigger] out@[a]@ == self.slots@[j].key@ by {
                    if j == i {
                        assert(out@[out@.len() - 1]@ == self.slots@[j].key@);
                    } else {
                        let a = choose|a: int| 0 <= a < out0.len() && #[trigger] out0[a]@ == self.slots@[j].key@;
                        assert(out@[a]@ == self.slots@[j].key@);
                    }
                }
            }
            i = i + 1;
        }
        proof {
            assert forall|a: int| 0 <= a < out@.len() implies self.as_map().contains_key(
                #[trigger] out@[a]@,
            ) by {
                let j = choose|j: int|
                    0 <= j < self.slots@.len() && #[trigger] out@[a]@ == self.slots@[j].key@;
                lemma_slots_map_at(self.slots@, j);
            }
            assert forall|k: Seq<u8>|
                #[trigger] self.as_map().contains_key(k) && lo_admits(*lo, k) && hi_admits(
                    *hi,
                    k,
                ) implies exists|a: int| 0 <= a < out@.len() && #[trigger] out@[a]@ == k by {
                lemma_slots_map_contains(self.slots@, k);
            }
        }
        out
    }

    /// Every key that starts with `prefix`, ascending.
    pub fn prefix(&self, prefix: &Vec<u8>) -> (r: Vec<Vec<u8>>)
        requires
            self.wf(),
        ensures
            forall|i: int, j: int| 0 <= i < j < r@.len() ==> lex_lt(#[trigger] r@[i]@, #[trigger] r@[j]@),
            forall|i: int|
                0 <= i < r@.len() ==> self.as_map().contains_key(#[trigger] r@[i]@) && is_prefix(
                    prefix@,
                    r@[i]@,
                ),
            forall|k: Seq<u8>|
                #[trigger] self.as_map().contains_key(k) && is_prefix(prefix@, k) ==> exists|i: int|
                    0 <= i < r@.len() && #[trigger] r@[i]@ == k,
    {
        let mut out: Vec<Vec<u8>> = Vec::new();
        let mut i: usize = 0;
        while i < self.slots.len()
            invariant
                self.wf(),
                0 <= i <= self.slots@.len(),
                forall|a: int|
                    0 <= a < out@.len() ==> exists|j: int|
                        0 <= j < i && #[trigger] out@[a]@ == self.slots@[j].key@,
                forall|a: int| 0 <= a < out@.len() ==> is_prefix(prefix@, #[trigger] out@[a]@),
                forall|a: int, b: int| 0 <= a < b < out@.len() ==> lex_lt(#[trigger] out@[a]@, #[trigger] out@[b]@),
                forall|j: int|
                    0 <= j < i && is_prefix(prefix@, #[trigger] self.slots@[j].key@) ==> exists|a: int|
                        0 <= a < out@.len() && #[trigger] out@[a]@ == self.slots@[j].key@,
            decreases self.slots@.len() - i,
        {
            let ghost out0 = out@;
            if starts_with(&self.slots[i].key, prefix) {
                let k = clone_bytes(&self.slots[i].key);
                proof {
                    assert forall|a: int| 0 <= a < out@.len() implies lex_lt(
                        #[trigger] out@[a]@,
                        self.slots@[i as int].key@,
                    ) by {
                        let j = choose|j: int| 0 <= j < i && #[trigger] out@[a]@ == self.slots@[j].key@;
                        assert(lex_lt(self.slots@[j].key@, self.slots@[i as int].key@));
                    }
                }
                out.push(k);
            }
            proof {
                assert forall|j: int|
                    0 <= j < i + 1 && is_prefix(prefix@, #[trigger] self.slots@[j].key@) implies exists|a: int|
                    0 <= a < out@.len() && #[trigger] out@[a]@ == self.slots@[j].key@ by {
                    if j == i {
                        assert(out@[out@.len() - 1]@ == self.slots@[j].key@);
                    } else {
                        let a = choose|a: int| 0 <= a < out0.len() && #[trigger] out0[a]@ == self.slots@[j].key@;
                        assert(out@[a]@ == self.slots@[j].key@);
                    }
                }
            }
            i = i + 1;
        }
        proof {
            assert forall|a: int| 0 <= a < out@.len() implies self.as_map().contains_key(
                #[trigger] out@[a]@,
            ) by {
                let j = choose|j: int|
                    0 <= j < self.slots@.len() && #[trigger] out@[a]@ == self.slots@[j].key@;
                lemma_slots_map_at(self.slots@, j);
            }
            assert forall|k: Seq<u8>|
                #[trigger] self.as_map().contains_key(k) && is_prefix(prefix@, k) implies exists|a: int|
                0 <= a < out@.len() && #[trigger] out@[a]@ == k by {
                lemma_slots_map_contains(self.slots@, k);
            }
        }
        out
    }
}

// ---------------------------------------------------------------------------
// The datastore
// ---------------------------------------------------------------------------

/// Strictly ascending file-ids.
pub open spec fn seg_ids_sorted(segs: Seq<FilePairV>) -> bool {
    forall|i: int, j: int|
        0 <= i < j < segs.len() ==> (#[trigger] segs[i].file_id) < (#[trigger] segs[j].file_id)
}

/// Some segment carries this file-id.
pub open spec fn has_seg(segs: Seq<FilePairV>, fid: u64) -> bool {
    exists|i: int| 0 <= i < segs.len() && (#[trigger] segs[i].file_id) == fid
}

/// The segment carrying this file-id.
pub open spec fn seg_at_id(segs: Seq<FilePairV>, fid: u64) -> FilePairV {
    segs[choose|i: int| 0 <= i < segs.len() && (#[trigger] segs[i].file_id) == fid]
}

/// With ids strictly sorted, the segment at `i` is the one its id finds.
proof fn lemma_seg_at_id(segs: Seq<FilePairV>, i: int)
    requires
        seg_ids_sorted(segs),
        0 <= i < segs.len(),
    ensures
        has_seg(segs, segs[i].file_id),
        seg_at_id(segs, segs[i].file_id) == segs[i],
{
    let fid = segs[i].file_id;
    assert(has_seg(segs, fid));
    let j = choose|j: int| 0 <= j < segs.len() && (#[trigger] segs[j].file_id) == fid;
    if i < j {
        assert(segs[i].file_id < segs[j].file_id);
    } else if j < i {
        assert(segs[j].file_id < segs[i].file_id);
    }
}

/// What a read of `k` answers against a buffer, a key directory and a
/// sequence of segments: the buffered value, or the record read where the
/// directory points, or nothing.
pub open spec fn lookup_get(
    buf: Map<Seq<u8>, MemTableEntryV>,
    kd: Map<Seq<u8>, IndexState>,
    segs: Seq<FilePairV>,
    k: Seq<u8>,
) -> Result<Option<Seq<u8>>, NotusError> {
    if buf.contains_key(k) {
        if buf[k].tombstone {
            Ok(None)
        } else {
            Ok(Some(buf[k].value->0))
        }
    } else if !kd.contains_key(k) {
        Ok(None)
    } else {
        match kd[k] {
            IndexState::InBuffer => Ok(None),
            IndexState::Persisted(e) => {
                if !has_seg(segs, e.file_id) {
                    Ok(None)
                } else {
                    match read_result(seg_at_id(segs, e.file_id), e.data_entry_position) {
                        Ok(d) => Ok(Some(d.value)),
                        Err(x) => Err(x),
                    }
                }
            },
        }
    }
}

/// Every persisted binding of `kd` points into an existing segment of
/// `segs`, at a whole record that passes its CRC and carries the bound
/// key itself.
pub open spec fn clean_index(kd: Map<Seq<u8>, IndexState>, segs: Seq<FilePairV>) -> bool {
    forall|k: Seq<u8>|
        #[trigger] kd.contains_key(k) && kd[k] is Persisted ==> {
            let e = kd[k]->Persisted_0;
            &&& has_seg(segs, e.file_id)
            &&& read_result(seg_at_id(segs, e.file_id), e.data_entry_position) is Ok
            &&& read_result(seg_at_id(segs, e.file_id), e.data_entry_position)->Ok_0.key == k
        }
}

/// Every binding the volume's replay would rebuild reads back a whole,
/// CRC-valid record carrying its own key.
pub open spec fn volume_clean(segs: Seq<FilePairV>) -> bool {
    forall|k: Seq<u8>|
        #[trigger] replay_volume(segs).contains_key(k) ==> replay_volume(segs)[k] is Persisted
            && {
            let e = replay_volume(segs)[k]->Persisted_0;
            &&& has_seg(segs, e.file_id)
            &&& read_result(seg_at_id(segs, e.file_id), e.data_entry_position) is Ok
            &&& read_result(seg_at_id(segs, e.file_id), e.data_entry_position)->Ok_0.key == k
        }
}

/// Two maps hold the same answer for `k`.
pub open spec fn agree_at(
    a: Map<Seq<u8>, IndexState>,
    b: Map<Seq<u8>, IndexState>,
    k: Seq<u8>,
) -> bool {
    a.contains_key(k) == b.contains_key(k) && (a.contains_key(k) ==> a[k] == b[k])
}

/// The storage engine: key directory, write buffer, and the volume that
/// mirrors the directory on disk. The last segment of the volume is the
/// active one; every append goes there.
pub struct DataStore {
    volume: Volume,
    keys_dir: KeysDir,
    memtable: MemTable,
}

impl DataStore {
    /// The segment pairs of the volume, ascending by file-id.
    pub closed spec fn segs(self) -> Seq<FilePairV> {
        self.volume@.segments
    }

    /// The key directory's map.
    pub closed spec fn keydir(self) -> Map<Seq<u8>, IndexState> {
        self.keys_dir.as_map()
    }

    /// The write buffer's map.
    pub closed spec fn buffer(self) -> Map<Seq<u8>, MemTableEntryV> {
        self.memtable.as_map()
    }

    /// The write buffer's tracked footprint.
    pub closed spec fn buffer_size(self) -> int {
        self.memtable.spec_size()
    }

    /// The active segment: the last one.
    pub closed spec fn active(self) -> FilePairV {
        self.segs().last()
    }

    /// The store's internal shape: sorted segments, a clean active hint
    /// stream, and a key directory that marks exactly the live buffered
    /// keys as in-buffer.
    pub closed spec fn wf(self) -> bool {
        &&& self.keys_dir.wf()
        &&& self.memtable.wf()
        &&& self.volume@.locked
        &&& self.segs().len() > 0
        &&& seg_ids_sorted(self.segs())
        &&& hint_stream_clean(self.active().hint)
        &&& forall|i: int|
            0 <= i < self.segs().len() ==> repaired_pair(#[trigger] self.segs()[i])
                == self.segs()[i]
        &&& forall|k: Seq<u8>| #[trigger] self.keydir().contains_key(k) ==> k.len() <= u32::MAX
        &&& forall|k: Seq<u8>|
            #[trigger] self.buffer().contains_key(k) ==> self.buffer()[k].key == k
                && k.len() <= u32::MAX && (self.buffer()[k].tombstone <==> self.buffer()[k].value
                is None) && (self.buffer()[k].value is Some ==> self.buffer()[k].value->0.len()
                <= u32::MAX)
        &&& forall|k: Seq<u8>|
            #[trigger] self.keydir().contains_key(k) && self.keydir()[k] is InBuffer
                ==> self.buffer().contains_key(k) && !self.buffer()[k].tombstone
        &&& forall|k: Seq<u8>|
            #[trigger] self.buffer().contains_key(k) ==> (if self.buffer()[k].tombstone {
                !self.keydir().contains_key(k)
            } else {
                self.keydir().contains_key(k) && self.keydir()[k] is InBuffer
            })
    }

    /// The key directory agrees with what a reopen would rebuild from the
    /// volume, except at keys the buffer still holds; and a buffered
    /// tombstone's key is absent from that rebuild.
    pub closed spec fn index_consistent(self) -> bool {
        &&& forall|k: Seq<u8>|
            !(#[trigger] self.buffer().contains_key(k)) ==> agree_at(
                replay_volume(self.segs()),
                self.keydir(),
                k,
            )
        &&& forall|k: Seq<u8>|
            #[trigger] self.buffer().contains_key(k) && self.buffer()[k].tombstone
                ==> !replay_volume(self.segs()).contains_key(k)
    }

    /// Every persisted binding points into an existing segment, at a whole
    /// record that passes its CRC and carries the bound key itself.
    pub closed spec fn index_clean(self) -> bool {
        clean_index(self.keydir(), self.segs())
    }

    /// What `get` answers for `k`: the buffered value, or the record read
    /// where the key directory points, or nothing.
    pub closed spec fn spec_get(self, k: Seq<u8>) -> Result<Option<Seq<u8>>, NotusError> {
        lookup_get(self.buffer(), self.keydir(), self.segs(), k)
    }

    /// Is `k` live: buffered with a value, or indexed?
    pub closed spec fn spec_contains(self, k: Seq<u8>) -> bool {
        if self.buffer().contains_key(k) {
            !self.buffer()[k].tombstone
        } else {
            self.keydir().contains_key(k)
        }
    }

    /// Open a store over `volume`. Fails with `LockFailed` if the
    /// directory lock is already held; fails if the segments do not come
    /// in strictly ascending file-id order, or leave no id for a fresh
    /// active segment. Otherwise the key directory is rebuilt by replaying
    /// every hint, a fresh active segment is created, and the lock is
    /// taken.
    pub fn open(volume: Volume) -> (r: Result<DataStore, NotusError>)
        ensures
            match r {
                Ok(s) => {
                    &&& !volume@.locked
                    &&& s.wf()
                    &&& s.index_consistent()
                    &&& s.buffer() == Map::<Seq<u8>, MemTableEntryV>::empty()
                    &&& s.buffer_size() == 0
                    &&& s.keydir() == replay_volume(repaired_segs(volume@.segments))
                    &&& (repaired_segs(volume@.segments) == volume@.segments ==> s.keydir()
                        == replay_volume(volume@.segments))
                    &&& (volume_clean(repaired_segs(volume@.segments)) ==> s.index_clean())
                    &&& s.segs().len() == volume@.segments.len() + 1
                    &&& forall|i: int|
                        0 <= i < volume@.segments.len() ==> s.segs()[i] == repaired_pair(
                            volume@.segments[i],
                        )
                    &&& s.active().data == Seq::<u8>::empty()
                    &&& s.active().hint == Seq::<u8>::empty()
                    &&& (volume@.segments.len() == 0 ==> s.index_clean())
                },
                Err(e) => {
                    &&& (volume@.locked <==> e == NotusError::LockFailed)
                    &&& (e == NotusError::LockFailed || e == NotusError::Unknown)
                    &&& (!volume@.locked && seg_ids_sorted(volume@.segments) && (forall|i: int|
                        0 <= i < volume@.segments.len() ==> (#[trigger] volume@.segments[i].file_id)
                            < u64::MAX) ==> r is Ok)
                },
            },
    {
        let mut vol = volume;
        if vol.is_locked() {
            return Err(NotusError::LockFailed);
        }
        let n = vol.segment_count();
        let mut ri: usize = 0;
        while ri < n
            invariant
                volume@.locked == false,
                vol@.locked == false,
                n == vol@.segments.len(),
                n == volume@.segments.len(),
                0 <= ri <= n,
                forall|j: int|
                    0 <= j < ri ==> vol@.segments[j] == repaired_pair(
                        #[trigger] volume@.segments[j],
                    ),
                forall|j: int| ri <= j < n ==> vol@.segments[j] == volume@.segments[j],
            decreases n - ri,
        {
            let ghost before = vol@.segments;
            let mut pair = vol.segments.remove(ri);
            pair.rebuild_missing_hint();
            vol.segments.insert(ri, pair);
            proof {
                assert(vol@.segments =~= before.update(
                    ri as int,
                    repaired_pair(volume@.segments[ri as int]),
                ));
            }
            ri = ri + 1;
        }
        proof {
            assert(vol@.segments =~= repaired_segs(volume@.segments));
        }
        let mut i: usize = 1;
        while i < n
            invariant
                vol@.segments == repaired_segs(volume@.segments),
                vol@.locked == false,
                volume@.locked == false,
                n == vol@.segments.len(),
                1 <= i,
                forall|a: int, b: int|
                    0 <= a < b < i ==> (#[trigger] vol@.segments[a].file_id) < (
                    #[trigger] vol@.segments[b].file_id),
            decreases n - i,
        {
            if vol.segment_at(i - 1).file_id() >= vol.segment_at(i).file_id() {
                proof {
                    assert(vol@.segments[i - 1] == repaired_pair(volume@.segments[i - 1]));
                    assert(vol@.segments[i as int] == repaired_pair(volume@.segments[i as int]));
                    assert(volume@.segments[i - 1].file_id >= volume@.segments[i as int].file_id);
                    assert(!seg_ids_sorted(volume@.segments));
                }
                return Err(NotusError::Unknown);
            }
            i = i + 1;
        }
        let mut keys_dir = KeysDir::new();
        let mut j: usize = 0;
        while j < n
            invariant
                vol@.segments == repaired_segs(volume@.segments),
                vol@.locked == false,
                volume@.locked == false,
                n == vol@.segments.len(),
                0 <= j <= n,
                keys_dir.wf(),
                keys_dir.as_map() == replay_upto(repaired_segs(volume@.segments), j as int),
            decreases n - j,
        {
            vol.segment_at(j).fetch_hint_entries(&mut keys_dir);
            j = j + 1;
        }
        let ghost segs0 = vol@.segments;
        let id = match create_new_file_pair(&mut vol) {
            Ok(id) => id,
            Err(e) => {
                return Err(e);
            },
        };
        vol.locked = true;
        let store = DataStore { volume: vol, keys_dir, memtable: MemTable::new() };
        proof {
            lemma_scan_empty();
            lemma_replay_push_empty(
                segs0,
                FilePairV { file_id: id, data: Seq::<u8>::empty(), hint: Seq::<u8>::empty() },
            );
            lemma_replay_upto_persisted(segs0, segs0.len() as int);
            crate::file_ops::lemma_replay_upto_key_fits(segs0, segs0.len() as int);
            assert(store.active() == store.segs().last());
            assert(store.segs() =~= segs0.push(
                FilePairV { file_id: id, data: Seq::<u8>::empty(), hint: Seq::<u8>::empty() },
            ));
            assert forall|a: int, b: int| 0 <= a < b < store.segs().len() implies (
            #[trigger] store.segs()[a].file_id) < (#[trigger] store.segs()[b].file_id) by {
                if b == store.segs().len() - 1 {
                    assert(store.segs()[a] == segs0[a]);
                }
            }
            if segs0.len() == 0 {
                assert(store.keydir() =~= Map::<Seq<u8>, IndexState>::empty());
            }
            assert forall|i: int| 0 <= i < volume@.segments.len() implies store.segs()[i]
                == repaired_pair(volume@.segments[i]) by {
                assert(store.segs()[i] == segs0[i]);
            }
            assert forall|i: int| 0 <= i < store.segs().len() implies repaired_pair(
                #[trigger] store.segs()[i],
            ) == store.segs()[i] by {
                if i < store.segs().len() - 1 {
                    assert(store.segs()[i] == repaired_pair(volume@.segments[i]));
                    crate::file_ops::lemma_repaired_idempotent(volume@.segments[i]);
                }
            }
            if volume_clean(repaired_segs(volume@.segments)) {
                assert forall|k: Seq<u8>|
                    #[trigger] store.keydir().contains_key(k) && store.keydir()[k]
                        is Persisted implies {
                    let e = store.keydir()[k]->Persisted_0;
                    &&& has_seg(store.segs(), e.file_id)
                    &&& read_result(seg_at_id(store.segs(), e.file_id), e.data_entry_position)
                        is Ok
                    &&& read_result(
                        seg_at_id(store.segs(), e.file_id),
                        e.data_entry_position,
                    )->Ok_0.key == k
                } by {
                    let e = store.keydir()[k]->Persisted_0;
                    let i = choose|i: int|
                        0 <= i < segs0.len() && (#[trigger] segs0[i].file_id) == e.file_id;
                    assert(store.segs()[i] == segs0[i]);
                    assert(has_seg(store.segs(), e.file_id));
                    lemma_seg_at_id(segs0, i);
                    lemma_seg_at_id(store.segs(), i);
                }
            }
        }
        Ok(store)
    }

    /// Bind `key` to `value`: the pair goes into the write buffer and the
    /// key directory marks the key as buffered. Nothing is written to the
    /// volume until the next flush.
    pub fn put(&mut self, key: Vec<u8>, value: Vec<u8>) -> (r: Result<(), NotusError>)
        requires
            old(self).wf(),
            key@.len() <= u32::MAX,
            value@.len() <= u32::MAX,
            old(self).buffer_size() + key@.len() + value@.len() + 9 <= usize::MAX,
        ensures
            r is Ok,
            final(self).wf(),
            final(self).segs() == old(self).segs(),
            final(self).keydir() == old(self).keydir().insert(key@, IndexState::InBuffer),
            final(self).buffer().contains_key(key@),
            final(self).buffer() == old(self).buffer().insert(key@, final(self).buffer()[key@]),
            final(self).buffer()[key@].value == Some(value@),
            final(self).buffer()[key@].tombstone == false,
            final(self).buffer_size() == old(self).buffer_size() - (if old(self).buffer().contains_key(key@) {
                entry_weight(old(self).buffer()[key@])
            } else {
                0int
            }) + key@.len() + value@.len() + 9,
            final(self).spec_contains(key@),
            final(self).spec_get(key@) == Ok::<Option<Seq<u8>>, NotusError>(Some(value@)),
            forall|k: Seq<u8>|
                k != key@ ==> #[trigger] final(self).spec_get(k) == old(self).spec_get(k),
            forall|k: Seq<u8>|
                k != key@ ==> #[trigger] final(self).spec_contains(k) == old(self).spec_contains(
                    k,
                ),
            old(self).index_consistent() ==> final(self).index_consistent(),
            old(self).index_clean() ==> final(self).index_clean(),
    {
        self.memtable.insert(&key, &value);
        self.keys_dir.insert(key, IndexState::InBuffer);
        Ok(())
    }

    /// Look up `key`: the buffered value if one is waiting, the persisted
    /// record where the key directory points, or nothing. Fails with
    /// `CorruptValue` when the record there fails its CRC check and with
    /// `DecodeFailure` when no record can be decoded there.
    pub fn get(&self, key: &Vec<u8>) -> (r: Result<Option<Vec<u8>>, NotusError>)
        requires
            self.wf(),
        ensures
            match self.spec_get(key@) {
                Ok(ov) => r is Ok && (match ov {
                    Some(v) => r->Ok_0 is Some && r->Ok_0->0@ == v,
                    None => r->Ok_0 is None,
                }),
                Err(x) => r == Err::<Option<Vec<u8>>, NotusError>(x),
            },
    {
        match self.memtable.get(key) {
            Some(entry) => {
                if entry.tombstone {
                    Ok(None)
                } else {
                    match &entry.value {
                        Some(v) => Ok(Some(clone_bytes(v))),
                        None => Ok(None),
                    }
                }
            },
            None => {
                match self.keys_dir.get(key) {
                    None => Ok(None),
                    Some(IndexState::InBuffer) => Ok(None),
                    Some(IndexState::Persisted(e)) => {
                        match self.find_segment(e.file_id) {
                            None => Ok(None),
                            Some(i) => {
                                proof {
                                    lemma_seg_at_id(self.segs(), i as int);
                                }
                                match self.volume.segment_at(i).read(e.data_entry_position) {
                                    Ok(entry) => Ok(Some(entry.value())),
                                    Err(x) => Err(x),
                                }
                            },
                        }
                    },
                }
            },
        }
    }

    /// The position of the segment carrying `fid`, if any.
    fn find_segment(&self, fid: u64) -> (r: Option<usize>)
        ensures
            match r {
                Some(i) => i < self.segs().len() && self.segs()[i as int].file_id == fid,
                None => !has_seg(self.segs(), fid),
            },
    {
        let n = self.volume.segment_count();
        let mut i: usize = 0;
        while i < n
            invariant
                n == self.segs().len(),
                0 <= i <= n,
                forall|j: int| 0 <= j < i ==> (#[trigger] self.segs()[j].file_id) != fid,
            decreases n - i,
        {
            if self.volume.segment_at(i).file_id() == fid {
                return Some(i);
            }
            i = i + 1;
        }
        None
    }

    /// Forget `key`: drop it from the buffer and the key directory, and
    /// append a tombstone hint to the active segment. Deleting a missing
    /// key leaves the maps as they are, beyond the tombstone.
    #[verifier::rlimit(60)]
    pub fn delete(&mut self, key: &Vec<u8>) -> (r: Result<(), NotusError>)
        requires
            old(self).wf(),
            key@.len() <= u32::MAX,
            old(self).buffer_size() + key@.len() + 9 <= usize::MAX,
        ensures
            r is Ok,
            final(self).wf(),
            final(self).keydir() == old(self).keydir().remove(key@),
            final(self).buffer().contains_key(key@),
            final(self).buffer() == old(self).buffer().insert(key@, final(self).buffer()[key@]),
            final(self).buffer()[key@].tombstone == true,
            final(self).buffer()[key@].value is None,
            final(self).buffer_size() == old(self).buffer_size() - (if old(self).buffer().contains_key(key@) {
                entry_weight(old(self).buffer()[key@])
            } else {
                0int
            }) + key@.len() + 9,
            final(self).segs().len() == old(self).segs().len(),
            forall|i: int|
                0 <= i < old(self).segs().len() - 1 ==> final(self).segs()[i] == old(self).segs()[i],
            final(self).active().file_id == old(self).active().file_id,
            final(self).active().data == old(self).active().data,
            hint_stream_clean(final(self).active().hint),
            scan_hints(final(self).active().hint) == scan_hints(old(self).active().hint).push(
                scan_hints(final(self).active().hint).last(),
            ),
            scan_hints(final(self).active().hint).len() == scan_hints(
                old(self).active().hint,
            ).len() + 1,
            scan_hints(final(self).active().hint).last().deleted == true,
            scan_hints(final(self).active().hint).last().key == key@,
            !final(self).spec_contains(key@),
            final(self).spec_get(key@) == Ok::<Option<Seq<u8>>, NotusError>(None),
            forall|k: Seq<u8>|
                k != key@ ==> #[trigger] final(self).spec_get(k) == old(self).spec_get(k),
            forall|k: Seq<u8>|
                k != key@ ==> #[trigger] final(self).spec_contains(k) == old(self).spec_contains(
                    k,
                ),
            old(self).index_consistent() ==> final(self).index_consistent(),
            old(self).index_clean() ==> final(self).index_clean(),
    {
        self.memtable.remove(key);
        let kcopy = clone_bytes(key);
        let ghost segs0 = self.volume@.segments;
        let mut pair = match self.volume.segments.pop() {
            Some(p) => p,
            None => {
                proof {
                    assert(false);
                }
                FilePair::new(0)
            },
        };
        pair.remove(kcopy);
        let ghost h = scan_hints(pair@.hint).last();
        self.volume.segments.push(pair);
        self.keys_dir.remove(key);
        proof {
            assert(self.segs() =~= segs0.update(segs0.len() - 1, self.segs().last()));
            lemma_replay_append_hint(segs0, self.segs(), h);
            assert forall|a: int, b: int| 0 <= a < b < self.segs().len() implies (
            #[trigger] self.segs()[a].file_id) < (#[trigger] self.segs()[b].file_id) by {
                assert(segs0[a].file_id < segs0[b].file_id);
            }
            if old(self).index_consistent() {
                assert forall|k: Seq<u8>| !(#[trigger] self.buffer().contains_key(k)) implies
                    agree_at(replay_volume(self.segs()), self.keydir(), k) by {
                    assert(k != key@);
                    assert(replay_volume(self.segs()) == replay_one(
                        replay_volume(segs0),
                        h,
                        old(self).active().file_id,
                    ));
                }
            }
            assert forall|k: Seq<u8>| k != key@ implies #[trigger] self.spec_get(k) == old(self).spec_get(k) by {
                if !self.buffer().contains_key(k) && self.keydir().contains_key(k) {
                    match self.keydir()[k] {
                        IndexState::InBuffer => {},
                        IndexState::Persisted(e) => {
                            lemma_reads_unchanged(old(self).segs(), self.segs(), e);
                        },
                    }
                }
            }
            if old(self).index_clean() {
                assert forall|k: Seq<u8>|
                    #[trigger] self.keydir().contains_key(k) && self.keydir()[k]
                        is Persisted implies {
                    let e = self.keydir()[k]->Persisted_0;
                    &&& has_seg(self.segs(), e.file_id)
                    &&& read_result(seg_at_id(self.segs(), e.file_id), e.data_entry_position)
                        is Ok
                    &&& read_result(
                        seg_at_id(self.segs(), e.file_id),
                        e.data_entry_position,
                    )->Ok_0.key == k
                } by {
                    let e = self.keydir()[k]->Persisted_0;
                    assert(old(self).keydir().contains_key(k));
                    lemma_reads_unchanged(old(self).segs(), self.segs(), e);
                }
            }
        }
        Ok(())
    }
    /// Is `key` live in the store?
    pub fn contains(&self, key: &Vec<u8>) -> (r: Result<bool, NotusError>)
        requires
            self.wf(),
        ensures
            r == Ok::<bool, NotusError>(self.spec_contains(key@)),
    {
        match self.memtable.get(key) {
            Some(entry) => Ok(!entry.tombstone),
            None => Ok(self.keys_dir.contains(key)),
        }
    }

    /// Every live key, ascending.
    pub fn keys(&self) -> (r: Vec<Vec<u8>>)
        requires
            self.wf(),
        ensures
            forall|i: int, j: int|
                0 <= i < j < r@.len() ==> lex_lt(#[trigger] r@[i]@, #[trigger] r@[j]@),
            forall|i: int| 0 <= i < r@.len() ==> self.keydir().contains_key(#[trigger] r@[i]@),
            forall|k: Seq<u8>|
                #[trigger] self.keydir().contains_key(k) ==> exists|i: int|
                    0 <= i < r@.len() && #[trigger] r@[i]@ == k,
            r@.len() == self.keydir().dom().len(),
    {
        self.keys_dir.keys()
    }

    /// Every live key between the two bounds, ascending.
    pub fn range(&self, lo: &KeyBound, hi: &KeyBound) -> (r: Vec<Vec<u8>>)
        requires
            self.wf(),
        ensures
            forall|i: int, j: int|
                0 <= i < j < r@.len() ==> lex_lt(#[trigger] r@[i]@, #[trigger] r@[j]@),
            forall|i: int|
                0 <= i < r@.len() ==> self.keydir().contains_key(#[trigger] r@[i]@) && lo_admits(
                    *lo,
                    r@[i]@,
                ) && hi_admits(*hi, r@[i]@),
            forall|k: Seq<u8>|
                #[trigger] self.keydir().contains_key(k) && lo_admits(*lo, k) && hi_admits(*hi, k)
                    ==> exists|i: int| 0 <= i < r@.len() && #[trigger] r@[i]@ == k,
    {
        self.keys_dir.range(lo, hi)
    }

    /// Every live key that starts with `prefix`, ascending.
    pub fn prefix(&self, prefix: &Vec<u8>) -> (r: Vec<Vec<u8>>)
        requires
            self.wf(),
        ensures
            forall|i: int, j: int|
                0 <= i < j < r@.len() ==> lex_lt(#[trigger] r@[i]@, #[trigger] r@[j]@),
            forall|i: int|
                0 <= i < r@.len() ==> self.keydir().contains_key(#[trigger] r@[i]@) && is_prefix(
                    prefix@,
                    r@[i]@,
                ),
            forall|k: Seq<u8>|
                #[trigger] self.keydir().contains_key(k) && is_prefix(prefix@, k) ==> exists|
                    i: int,
                |
                    0 <= i < r@.len() && #[trigger] r@[i]@ == k,
    {
        self.keys_dir.prefix(prefix)
    }
}

/// `k` is bound to a persisted entry of pair `p` whose record decodes
/// there, carries `k` and `v`, and passes its CRC.
pub open spec fn flushed_at(
    m: Map<Seq<u8>, IndexState>,
    p: FilePairV,
    k: Seq<u8>,
    v: Seq<u8>,
) -> bool {
    &&& m.contains_key(k)
    &&& m[k] is Persisted
    &&& {
        let e = m[k]->Persisted_0;
        &&& e.file_id == p.file_id
        &&& e.data_entry_position <= p.data.len()
        &&& match crate::schema::decode_data_at(p.data, e.data_entry_position as int) {
            Some(d) => d.0.key == k && d.0.value == v && crate::schema::data_crc_ok(d.0),
            None => false,
        }
    }
}

/// Some live entry among the first `i` carries key `k`.
pub open spec fn flushed_among(es: Seq<MemTableEntryV>, i: int, k: Seq<u8>) -> bool {
    exists|j: int| 0 <= j < i && (#[trigger] es[j]).key == k && !es[j].tombstone
}

/// Away from the keys of the first `i` live entries, the replays of `a`
/// and `b` answer alike for `k`.
pub open spec fn replay_agrees_outside(
    es: Seq<MemTableEntryV>,
    i: int,
    a: Seq<FilePairV>,
    b: Seq<FilePairV>,
    k: Seq<u8>,
) -> bool {
    !flushed_among(es, i, k) ==> (replay_volume(a).contains_key(k) == replay_volume(
        b,
    ).contains_key(k)) && (replay_volume(a).contains_key(k) ==> replay_volume(a)[k]
        == replay_volume(b)[k])
}

impl DataStore {
    /// Drain the write buffer: append a data record and its hint to the
    /// active segment for every buffered value, point the key directory at
    /// the new records, and drop every buffered entry, tombstones
    /// included.
    #[verifier::rlimit(100)]
    pub fn flush(&mut self) -> (r: Result<(), NotusError>)
        requires
            old(self).wf(),
        ensures
            r is Ok,
            final(self).wf(),
            final(self).buffer() == Map::<Seq<u8>, MemTableEntryV>::empty(),
            final(self).buffer_size() == 0,
            final(self).segs().len() == old(self).segs().len(),
            forall|i: int|
                0 <= i < old(self).segs().len() - 1 ==> final(self).segs()[i] == old(self).segs()[i],
            final(self).active().file_id == old(self).active().file_id,
            forall|k: Seq<u8>|
                !(#[trigger] old(self).buffer().contains_key(k)) ==> (final(self).keydir().contains_key(k) == old(self).keydir().contains_key(k)) && (old(self).keydir().contains_key(k) ==> final(self).keydir()[k] == old(self).keydir()[k]),
            forall|k: Seq<u8>|
                #[trigger] old(self).buffer().contains_key(k) && !old(self).buffer()[k].tombstone
                    ==> final(self).spec_get(k) == Ok::<Option<Seq<u8>>, NotusError>(
                    Some(old(self).buffer()[k].value->0),
                ),
            forall|k: Seq<u8>|
                #[trigger] old(self).buffer().contains_key(k) && old(self).buffer()[k].tombstone
                    ==> !final(self).keydir().contains_key(k),
            forall|k: Seq<u8>|
                !(#[trigger] old(self).buffer().contains_key(k)) && old(self).spec_get(k) is Ok
                    ==> final(self).spec_get(k) == old(self).spec_get(k),
            old(self).index_consistent() ==> final(self).index_consistent(),
            old(self).index_clean() ==> final(self).index_clean(),
    {
        let ghost es = old(self).memtable.entries_seq();
        let ghost segs0 = old(self).segs();
        let ghost act0 = segs0.last();
        let ghost fid = act0.file_id;
        let n = self.memtable.len();
        let mut pair = match self.volume.segments.pop() {
            Some(p) => p,
            None => {
                proof {
                    assert(false);
                }
                FilePair::new(0)
            },
        };
        proof {
            assert(pair@ == act0);
            assert(self.volume@.segments =~= segs0.drop_last());
            assert(act0.data.subrange(0, act0.data.len() as int) =~= act0.data);
            assert(self.volume@.segments.push(pair@) =~= segs0);
            old(self).memtable.lemma_entries_in_map();
        }
        let mut i: usize = 0;
        while i < n
            invariant
                old(self).wf(),
                self.memtable == old(self).memtable,
                0 <= i <= n,
                n == es.len(),
                es == old(self).memtable.entries_seq(),
                segs0 == old(self).segs(),
                segs0.len() > 0,
                act0 == segs0.last(),
                fid == act0.file_id,
                self.volume@.segments == segs0.drop_last(),
                self.volume@.locked,
                pair@.file_id == fid,
                hint_stream_clean(pair@.hint),
                repaired_pair(pair@) == pair@,
                act0.data.len() <= pair@.data.len(),
                pair@.data.subrange(0, act0.data.len() as int) == act0.data,
                self.keys_dir.wf(),
                forall|k: Seq<u8>|
                    !(#[trigger] old(self).buffer().contains_key(k)) ==> (
                    self.keys_dir.as_map().contains_key(k) == old(self).keydir().contains_key(k))
                        && (self.keys_dir.as_map().contains_key(k)
                        ==> self.keys_dir.as_map()[k] == old(self).keydir()[k]),
                forall|k: Seq<u8>|
                    #[trigger] self.keys_dir.as_map().contains_key(k) ==> k.len() <= u32::MAX,
                forall|j: int|
                    0 <= j < i && !(#[trigger] es[j]).tombstone ==> flushed_at(
                        self.keys_dir.as_map(),
                        pair@,
                        es[j].key,
                        es[j].value->0,
                    ),
                forall|j: int|
                    0 <= j < n && (#[trigger] es[j]).tombstone
                        ==> !self.keys_dir.as_map().contains_key(es[j].key),
                forall|k: Seq<u8>|
                    #[trigger] replay_agrees_outside(
                        es,
                        i as int,
                        self.volume@.segments.push(pair@),
                        segs0,
                        k,
                    ),
                forall|j: int|
                    0 <= j < i && !(#[trigger] es[j]).tombstone ==> agree_at(
                        replay_volume(self.volume@.segments.push(pair@)),
                        self.keys_dir.as_map(),
                        es[j].key,
                    ),
            decreases n - i,
        {
            let ghost pair_before = pair@;
            let ghost segs_before = self.volume@.segments.push(pair@);
            proof {
                old(self).memtable.lemma_entries_in_map();
            }
            let entry_ref = self.memtable.entry_at(i);
            if !entry_ref.tombstone {
                let key1 = clone_bytes(&entry_ref.key);
                let val1 = match &entry_ref.value {
                    Some(v) => clone_bytes(v),
                    None => {
                        proof {
                            assert(old(self).buffer().contains_key(es[i as int].key));
                            assert(false);
                        }
                        Vec::new()
                    },
                };
                let ts = match now_timestamp_nanos() {
                    Some(t) => if t >= 0 {
                        t as u64
                    } else {
                        0
                    },
                    None => 0,
                };
                proof {
                    assert(old(self).buffer().contains_key(es[i as int].key));
                }
                let rec = DataEntry::new(key1, val1, ts);
                let kde = pair.write(&rec);
                let key2 = clone_bytes(&self.memtable.entry_at(i).key);
                self.keys_dir.insert(key2, IndexState::Persisted(kde));
                proof {
                    let k_i = es[i as int].key;
                    let segs_after = self.volume@.segments.push(pair@);
                    let h = HintEntryV {
                        timestamp: rec@.timestamp,
                        value_size: rec@.value.len() as u32,
                        data_entry_position: pair_before.data.len() as u64,
                        deleted: false,
                        key: rec@.key,
                    };
                    lemma_replay_append_hint(segs_before, segs_after, h);
                    assert(pair@.data =~= pair_before.data + crate::schema::encode_data(rec@));
                    assert(pair@.data.subrange(0, act0.data.len() as int) =~= act0.data);
                    assert(es[i as int].key == k_i && !es[i as int].tombstone);
                    assert(flushed_among(es, i + 1, k_i));
                    assert forall|j: int| 0 <= j < n && j != i implies (#[trigger] es[j]).key
                        != k_i by {
                        if j < i {
                            lemma_lex_asymmetric(es[j].key, k_i);
                        } else {
                            lemma_lex_asymmetric(k_i, es[j].key);
                        }
                    }
                    // earlier appended records still decode the same
                    assert forall|j: int|
                        0 <= j < i + 1 && !(#[trigger] es[j]).tombstone implies flushed_at(
                        self.keys_dir.as_map(),
                        pair@,
                        es[j].key,
                        es[j].value->0,
                    ) by {
                        if j < i {
                            assert(es[j].key != k_i);
                            let e = self.keys_dir.as_map()[es[j].key]->Persisted_0;
                            lemma_decode_data_extend(
                                pair_before.data,
                                crate::schema::encode_data(rec@),
                                e.data_entry_position as int,
                            );
                        } else {
                            assert(self.keys_dir.as_map()[k_i] == IndexState::Persisted(kde));
                        }
                    }
                    // replay changes only at the appended key
                    assert(replay_volume(segs_after) == replay_one(
                        replay_volume(segs_before),
                        h,
                        fid,
                    ));
                    assert forall|k: Seq<u8>|
                        #[trigger] replay_agrees_outside(es, i + 1, segs_after, segs0, k) by {
                        if !flushed_among(es, i + 1, k) {
                            if flushed_among(es, i as int, k) {
                                let j = choose|j: int|
                                    0 <= j < i && (#[trigger] es[j]).key == k && !es[j].tombstone;
                                assert(0 <= j < i + 1 && es[j].key == k && !es[j].tombstone);
                            }
                            assert(!flushed_among(es, i as int, k));
                            assert(replay_agrees_outside(es, i as int, segs_before, segs0, k));
                            assert(k != k_i);
                        }
                    }
                    assert forall|j: int|
                        0 <= j < i + 1 && !(#[trigger] es[j]).tombstone implies agree_at(
                        replay_volume(segs_after),
                        self.keys_dir.as_map(),
                        es[j].key,
                    ) by {
                        if j < i {
                            assert(es[j].key != k_i);
                        } else {
                            assert(replay_volume(segs_after)[k_i] == IndexState::Persisted(
                                KeyDirEntry {
                                    file_id: fid,
                                    key_size: h.key.len() as u32,
                                    value_size: h.value_size,
                                    data_entry_position: h.data_entry_position,
                                },
                            ));
                        }
                    }
                    // distinct buffered keys: tombstone entries stay untouched
                    assert forall|j: int|
                        0 <= j < n && (#[trigger] es[j]).tombstone implies
                        !self.keys_dir.as_map().contains_key(es[j].key) by {
                        assert(es[j].key != k_i);
                    }
                }
            } else {
                proof {
                    let segs_now = self.volume@.segments.push(pair@);
                    assert forall|k: Seq<u8>|
                        #[trigger] replay_agrees_outside(es, i + 1, segs_now, segs0, k) by {
                        if !flushed_among(es, i + 1, k) {
                            if flushed_among(es, i as int, k) {
                                let j = choose|j: int|
                                    0 <= j < i && (#[trigger] es[j]).key == k && !es[j].tombstone;
                                assert(0 <= j < i + 1 && es[j].key == k && !es[j].tombstone);
                            }
                            assert(!flushed_among(es, i as int, k));
                            assert(replay_agrees_outside(es, i as int, segs_now, segs0, k));
                        }
                    }
                }
            }
            i = i + 1;
        }
        let ghost pair_end = pair@;
        self.volume.segments.push(pair);
        self.memtable.clear();
        proof {
            let segs1 = self.volume@.segments;
            assert(segs1 =~= segs0.drop_last().push(pair_end));
            assert(self.segs() == segs1);
            assert(self.active() == pair_end);
            assert(segs1.len() == segs0.len());
            assert forall|a: int| 0 <= a < segs1.len() implies (#[trigger] segs1[a].file_id)
                == segs0[a].file_id by {
                if a < segs1.len() - 1 {
                    assert(segs1[a] == segs0[a]);
                }
            }
            assert forall|a: int, b: int| 0 <= a < b < segs1.len() implies (
            #[trigger] segs1[a].file_id) < (#[trigger] segs1[b].file_id) by {
                assert(segs0[a].file_id < segs0[b].file_id);
            }
            assert forall|a: int| 0 <= a < segs1.len() implies repaired_pair(
                #[trigger] segs1[a],
            ) == segs1[a] by {
                if a < segs1.len() - 1 {
                    assert(segs1[a] == segs0[a]);
                }
            }
            old(self).memtable.lemma_entries_in_map();
            // well-formedness: no in-buffer marks remain
            assert forall|k: Seq<u8>|
                #[trigger] self.keydir().contains_key(k) && self.keydir()[k]
                    is InBuffer implies false by {
                if old(self).buffer().contains_key(k) {
                    let j = choose|j: int|
                        0 <= j < es.len() && (#[trigger] es[j]).key == k;
                    if es[j].tombstone {
                    } else {
                        assert(flushed_at(self.keys_dir.as_map(), pair_end, k, es[j].value->0));
                    }
                }
            }
            // flushed keys answer with their buffered value
            assert forall|k: Seq<u8>|
                #[trigger] old(self).buffer().contains_key(k) && !old(self).buffer()[k].tombstone implies self.spec_get(k) == Ok::<Option<Seq<u8>>, NotusError>(
                Some(old(self).buffer()[k].value->0),
            ) by {
                let j = choose|j: int| 0 <= j < es.len() && (#[trigger] es[j]).key == k;
                assert(es[j] == old(self).buffer()[k]);
                assert(flushed_at(self.keys_dir.as_map(), pair_end, k, es[j].value->0));
                let e = self.keydir()[k]->Persisted_0;
                lemma_seg_at_id(segs1, segs1.len() - 1);
                assert(seg_at_id(segs1, fid) == pair_end);
            }
            // untouched persisted reads are unchanged
            assert forall|k: Seq<u8>|
                !(#[trigger] old(self).buffer().contains_key(k)) && old(self).spec_get(k) is Ok implies self.spec_get(k) == old(self).spec_get(k) by {
                if old(self).keydir().contains_key(k) {
                    match old(self).keydir()[k] {
                        IndexState::InBuffer => {},
                        IndexState::Persisted(e) => {
                            if has_seg(segs0, e.file_id) {
                                let si = choose|si: int|
                                    0 <= si < segs0.len() && (#[trigger] segs0[si].file_id)
                                        == e.file_id;
                                lemma_seg_at_id(segs0, si);
                                lemma_seg_at_id(segs1, si);
                                assert(seg_at_id(segs0, e.file_id) == segs0[si]);
                                assert(seg_at_id(segs1, e.file_id) == segs1[si]);
                                if si < segs0.len() - 1 {
                                    assert(segs1[si] == segs0[si]);
                                } else {
                                    assert(segs0[si] == act0);
                                    assert(segs1[si] == pair_end);
                                    match read_result(act0, e.data_entry_position) {
                                        Ok(_) => {
                                            assert(pair_end.data =~= act0.data + pair_end.data.skip(
                                                act0.data.len() as int,
                                            ));
                                            lemma_decode_data_extend(
                                                act0.data,
                                                pair_end.data.skip(act0.data.len() as int),
                                                e.data_entry_position as int,
                                            );
                                        },
                                        Err(_) => {},
                                    }
                                }
                            } else {
                                assert forall|si: int|
                                    0 <= si < segs1.len() implies (#[trigger] segs1[si].file_id)
                                    != e.file_id by {
                                    assert(segs1[si].file_id == segs0[si].file_id);
                                }
                            }
                        },
                    }
                }
            }
            // index cleanliness carries over
            if old(self).index_clean() {
                assert forall|k: Seq<u8>|
                    #[trigger] self.keydir().contains_key(k) && self.keydir()[k]
                        is Persisted implies {
                    let e = self.keydir()[k]->Persisted_0;
                    &&& has_seg(self.segs(), e.file_id)
                    &&& read_result(seg_at_id(self.segs(), e.file_id), e.data_entry_position)
                        is Ok
                    &&& read_result(
                        seg_at_id(self.segs(), e.file_id),
                        e.data_entry_position,
                    )->Ok_0.key == k
                } by {
                    let e = self.keydir()[k]->Persisted_0;
                    if old(self).buffer().contains_key(k) {
                        let j = choose|j: int|
                            0 <= j < es.len() && (#[trigger] es[j]).key == k;
                        assert(es[j] == old(self).buffer()[k]);
                        assert(!es[j].tombstone);
                        assert(flushed_at(self.keys_dir.as_map(), pair_end, k, es[j].value->0));
                        lemma_seg_at_id(segs1, segs1.len() - 1);
                    } else {
                        assert(old(self).keydir().contains_key(k));
                        assert(old(self).keydir()[k] == self.keydir()[k]);
                        let si = choose|si: int|
                            0 <= si < segs0.len() && (#[trigger] segs0[si].file_id) == e.file_id;
                        lemma_seg_at_id(segs0, si);
                        lemma_seg_at_id(segs1, si);
                        if si < segs0.len() - 1 {
                            assert(segs1[si] == segs0[si]);
                        } else {
                            assert(segs0[si] == act0);
                            assert(segs1[si] == pair_end);
                            assert(pair_end.data =~= act0.data + pair_end.data.skip(
                                act0.data.len() as int,
                            ));
                            lemma_decode_data_extend(
                                act0.data,
                                pair_end.data.skip(act0.data.len() as int),
                                e.data_entry_position as int,
                            );
                        }
                    }
                }
            }
            // index consistency carries over
            if old(self).index_consistent() {
                assert forall|k: Seq<u8>| !(#[trigger] self.buffer().contains_key(k)) implies
                    agree_at(replay_volume(self.segs()), self.keydir(), k) by {
                    if old(self).buffer().contains_key(k) {
                        let j = choose|j: int|
                            0 <= j < es.len() && (#[trigger] es[j]).key == k;
                        assert(es[j] == old(self).buffer()[k]);
                        if es[j].tombstone {
                            assert(replay_agrees_outside(es, n as int, segs1, segs0, k));
                            assert(!flushed_among(es, n as int, k));
                        } else {
                            assert(flushed_among(es, n as int, k));
                            let jj = choose|jj: int|
                                0 <= jj < n && (#[trigger] es[jj]).key == k && !es[jj].tombstone;
                            assert(agree_at(replay_volume(segs1), self.keydir(), k));
                        }
                    } else {
                        assert(replay_agrees_outside(es, n as int, segs1, segs0, k));
                        assert(!flushed_among(es, n as int, k));
                    }
                }
            }
        }
        Ok(())
    }
}

/// Some key among the first `i` equals `k`.
pub open spec fn key_among(ks: Seq<Seq<u8>>, i: int, k: Seq<u8>) -> bool {
    exists|j: int| 0 <= j < i && ks[j] == k
}

/// After tombstoning the first `i` keys, the replay of `a` has dropped
/// exactly them, answering like `b` elsewhere.
pub open spec fn clear_tracks(
    ks: Seq<Seq<u8>>,
    i: int,
    a: Seq<FilePairV>,
    b: Seq<FilePairV>,
    k: Seq<u8>,
) -> bool {
    if key_among(ks, i, k) {
        !replay_volume(a).contains_key(k)
    } else {
        replay_volume(a).contains_key(k) == replay_volume(b).contains_key(k) && (replay_volume(
            a,
        ).contains_key(k) ==> replay_volume(a)[k] == replay_volume(b)[k])
    }
}

impl DataStore {
    /// Forget every key: append a tombstone for each indexed key, then
    /// empty the key directory and the write buffer.
    #[verifier::rlimit(60)]
    pub fn clear(&mut self) -> (r: Result<(), NotusError>)
        requires
            old(self).wf(),
        ensures
            r is Ok,
            final(self).wf(),
            final(self).keydir() == Map::<Seq<u8>, IndexState>::empty(),
            final(self).buffer() == Map::<Seq<u8>, MemTableEntryV>::empty(),
            final(self).buffer_size() == 0,
            final(self).segs().len() == old(self).segs().len(),
            forall|i: int|
                0 <= i < old(self).segs().len() - 1 ==> final(self).segs()[i] == old(self).segs()[i],
            final(self).active().file_id == old(self).active().file_id,
            final(self).active().data == old(self).active().data,
            forall|k: Seq<u8>| !(#[trigger] final(self).spec_contains(k)),
            final(self).index_clean(),
            old(self).index_consistent() ==> final(self).index_consistent(),
            old(self).index_consistent() ==> forall|k: Seq<u8>|
                !(#[trigger] replay_volume(final(self).segs()).contains_key(k)),
    {
        let ghost segs0 = old(self).segs();
        let ghost act0 = segs0.last();
        let ghost fid = act0.file_id;
        let ks = self.keys_dir.keys();
        let ghost ksv = ks@.map_values(|v: Vec<u8>| v@);
        let mut pair = match self.volume.segments.pop() {
            Some(p) => p,
            None => {
                proof {
                    assert(false);
                }
                FilePair::new(0)
            },
        };
        proof {
            assert(pair@ == act0);
            assert(self.volume@.segments =~= segs0.drop_last());
            assert(self.volume@.segments.push(pair@) =~= segs0);
        }
        let n = ks.len();
        proof {
            assert forall|k: Seq<u8>| #[trigger] old(self).keydir().contains_key(k) implies
                key_among(ksv, n as int, k) by {
                let j = choose|j: int| 0 <= j < ks@.len() && #[trigger] ks@[j]@ == k;
                assert(ksv[j] == k);
            }
        }
        let mut i: usize = 0;
        while i < n
            invariant
                old(self).wf(),
                0 <= i <= n,
                n == ksv.len(),
                ksv == ks@.map_values(|v: Vec<u8>| v@),
                segs0 == old(self).segs(),
                segs0.len() > 0,
                act0 == segs0.last(),
                fid == act0.file_id,
                self.volume@.segments == segs0.drop_last(),
                self.volume@.locked,
                self.keys_dir == old(self).keys_dir,
                self.memtable == old(self).memtable,
                pair@.file_id == fid,
                pair@.data == act0.data,
                hint_stream_clean(pair@.hint),
                repaired_pair(pair@) == pair@,
                forall|j: int|
                    0 <= j < n ==> old(self).keydir().contains_key(#[trigger] ksv[j]),
                forall|k: Seq<u8>|
                    #[trigger] old(self).keydir().contains_key(k) ==> key_among(ksv, n as int, k),
                forall|k: Seq<u8>|
                    #[trigger] clear_tracks(
                        ksv,
                        i as int,
                        self.volume@.segments.push(pair@),
                        segs0,
                        k,
                    ),
            decreases n - i,
        {
            let ghost segs_before = self.volume@.segments.push(pair@);
            let key = clone_bytes(&ks[i]);
            proof {
                assert(old(self).keydir().contains_key(ksv[i as int]));
            }
            pair.remove(key);
            proof {
                let segs_now = self.volume@.segments.push(pair@);
                let h = scan_hints(pair@.hint).last();
                lemma_replay_append_hint(segs_before, segs_now, h);
                assert forall|k: Seq<u8>|
                    #[trigger] clear_tracks(ksv, i + 1, segs_now, segs0, k) by {
                    assert(clear_tracks(ksv, i as int, segs_before, segs0, k));
                    if key_among(ksv, i + 1, k) {
                        if k == ksv[i as int] {
                        } else {
                            let j = choose|j: int| 0 <= j < i + 1 && ksv[j] == k;
                            assert(0 <= j < i && ksv[j] == k);
                        }
                    } else {
                        assert(!key_among(ksv, i as int, k));
                        assert(k != ksv[i as int]);
                    }
                }
            }
            i = i + 1;
        }
        let ghost pair_end = pair@;
        self.volume.segments.push(pair);
        self.keys_dir.clear();
        self.memtable.clear();
        proof {
            let segs1 = self.volume@.segments;
            assert(segs1 =~= segs0.drop_last().push(pair_end));
            assert forall|a: int| 0 <= a < segs1.len() implies (#[trigger] segs1[a].file_id)
                == segs0[a].file_id by {
                if a < segs1.len() - 1 {
                    assert(segs1[a] == segs0[a]);
                }
            }
            assert forall|a: int, b: int| 0 <= a < b < segs1.len() implies (
            #[trigger] segs1[a].file_id) < (#[trigger] segs1[b].file_id) by {
                assert(segs0[a].file_id < segs0[b].file_id);
            }
            assert forall|a: int| 0 <= a < segs1.len() implies repaired_pair(
                #[trigger] segs1[a],
            ) == segs1[a] by {
                if a < segs1.len() - 1 {
                    assert(segs1[a] == segs0[a]);
                }
            }
            if old(self).index_consistent() {
                assert forall|k: Seq<u8>| !(#[trigger] replay_volume(segs1).contains_key(k)) by {
                    assert(clear_tracks(ksv, n as int, segs1, segs0, k));
                    if !key_among(ksv, n as int, k) {
                        assert(!old(self).keydir().contains_key(k));
                        if old(self).buffer().contains_key(k) {
                            if !old(self).buffer()[k].tombstone {
                                assert(old(self).keydir().contains_key(k));
                            }
                        } else {
                            assert(agree_at(replay_volume(segs0), old(self).keydir(), k));
                        }
                    }
                }
            }
        }
        Ok(())
    }

    /// Shut the store down: drain the write buffer, release the directory
    /// lock, and hand the volume back.
    #[verifier::rlimit(100)]
    pub fn close(self) -> (r: Result<Volume, NotusError>)
        requires
            self.wf(),
        ensures
            r is Ok,
            r->Ok_0@.locked == false,
            self.index_consistent() ==> forall|k: Seq<u8>|
                #[trigger] replay_volume(r->Ok_0@.segments).contains_key(k) == self.spec_contains(
                    k,
                ),
            r is Ok ==> seg_ids_sorted(r->Ok_0@.segments),
            r->Ok_0@.segments.len() == self.segs().len(),
            forall|i: int|
                0 <= i < self.segs().len() - 1 ==> r->Ok_0@.segments[i] == self.segs()[i],
            r->Ok_0@.segments.last().file_id == self.active().file_id,
            repaired_segs(r->Ok_0@.segments) == r->Ok_0@.segments,
            self.index_consistent() && self.index_clean() ==> volume_clean(r->Ok_0@.segments),
            self.index_consistent() ==> forall|k: Seq<u8>|
                (#[trigger] self.spec_get(k)) is Ok && self.spec_get(k)->Ok_0 is Some ==> {
                    let m = replay_volume(r->Ok_0@.segments);
                    &&& m.contains_key(k)
                    &&& m[k] is Persisted
                    &&& has_seg(r->Ok_0@.segments, m[k]->Persisted_0.file_id)
                    &&& read_result(
                        seg_at_id(r->Ok_0@.segments, m[k]->Persisted_0.file_id),
                        m[k]->Persisted_0.data_entry_position,
                    ) is Ok
                    &&& read_result(
                        seg_at_id(r->Ok_0@.segments, m[k]->Persisted_0.file_id),
                        m[k]->Persisted_0.data_entry_position,
                    )->Ok_0.value == self.spec_get(k)->Ok_0->0
                },
    {
        let mut s = self;
        let flush_r = s.flush();
        proof {
            assert(flush_r is Ok);
        }
        s.volume.locked = false;
        let ghost segs1 = s.volume@.segments;
        proof {
            if self.index_consistent() {
                assert forall|k: Seq<u8>|
                    #[trigger] replay_volume(segs1).contains_key(k) == self.spec_contains(k) by {
                    assert(!s.buffer().contains_key(k));
                    assert(agree_at(replay_volume(segs1), s.keys_dir.as_map(), k));
                    if self.buffer().contains_key(k) {
                    } else {
                    }
                }
                assert forall|k: Seq<u8>|
                    (#[trigger] self.spec_get(k)) is Ok && self.spec_get(k)->Ok_0 is Some implies {
                    let m = replay_volume(segs1);
                    &&& m.contains_key(k)
                    &&& m[k] is Persisted
                    &&& has_seg(segs1, m[k]->Persisted_0.file_id)
                    &&& read_result(
                        seg_at_id(segs1, m[k]->Persisted_0.file_id),
                        m[k]->Persisted_0.data_entry_position,
                    ) is Ok
                    &&& read_result(
                        seg_at_id(segs1, m[k]->Persisted_0.file_id),
                        m[k]->Persisted_0.data_entry_position,
                    )->Ok_0.value == self.spec_get(k)->Ok_0->0
                } by {
                    let v = self.spec_get(k)->Ok_0->0;
                    assert(!s.buffer().contains_key(k));
                    assert(agree_at(replay_volume(segs1), s.keys_dir.as_map(), k));
                    if self.buffer().contains_key(k) {
                        assert(!self.buffer()[k].tombstone);
                        assert(s.spec_get(k) == Ok::<Option<Seq<u8>>, NotusError>(Some(v)));
                    } else {
                        assert(self.spec_get(k) is Ok);
                        assert(s.spec_get(k) == self.spec_get(k));
                    }
                }
            }
        }
        proof {
            assert forall|i: int| 0 <= i < segs1.len() implies repaired_pair(
                #[trigger] segs1[i],
            ) == segs1[i] by {
                assert(repaired_pair(s.segs()[i]) == s.segs()[i]);
            }
            assert(repaired_segs(segs1) =~= segs1);
            if self.index_consistent() && self.index_clean() {
                assert(s.index_clean());
                assert forall|k: Seq<u8>|
                    #[trigger] replay_volume(segs1).contains_key(k) implies replay_volume(
                    segs1,
                )[k] is Persisted && {
                    let e = replay_volume(segs1)[k]->Persisted_0;
                    &&& has_seg(segs1, e.file_id)
                    &&& read_result(seg_at_id(segs1, e.file_id), e.data_entry_position) is Ok
                    &&& read_result(
                        seg_at_id(segs1, e.file_id),
                        e.data_entry_position,
                    )->Ok_0.key == k
                } by {
                    assert(!s.buffer().contains_key(k));
                    assert(agree_at(replay_volume(segs1), s.keys_dir.as_map(), k));
                    assert(s.keydir().contains_key(k));
                    if s.keydir()[k] is InBuffer {
                        assert(s.buffer().contains_key(k));
                    }
                }
                assert(volume_clean(segs1));
            }
        }
        Ok(s.volume)
    }
}

impl DataStore {
    /// Compact the store: copy every record the key directory still
    /// points at out of the sealed segments into a fresh segment, point
    /// the directory at the copies, and drop the sealed segments. The
    /// fresh segment becomes the active one; under a clean index, what
    /// every reader sees is unchanged.
    #[verifier::rlimit(100)]
    #[verifier::spinoff_prover]
    pub fn merge(&mut self) -> (r: Result<(), NotusError>)
        requires
            old(self).wf(),
        ensures
            final(self).wf(),
            final(self).buffer() == old(self).buffer(),
            final(self).buffer_size() == old(self).buffer_size(),
            forall|k: Seq<u8>|
                #[trigger] final(self).keydir().contains_key(k) == old(self).keydir().contains_key(k),
            forall|k: Seq<u8>|
                #[trigger] final(self).keydir().contains_key(k) ==> (final(self).keydir()[k]
                    is InBuffer <==> old(self).keydir()[k] is InBuffer),
            forall|k: Seq<u8>|
                #[trigger] final(self).spec_contains(k) == old(self).spec_contains(k),
            r is Err ==> r->Err_0 == NotusError::CorruptValue || r->Err_0
                == NotusError::DecodeFailure || r->Err_0 == NotusError::Unknown,
            old(self).index_clean() && (forall|i: int|
                0 <= i < old(self).segs().len() ==> (#[trigger] old(self).segs()[i].file_id)
                    < u64::MAX) ==> r is Ok,
            r is Ok ==> final(self).segs().len() == 2,
            r is Ok ==> final(self).segs()[0] == old(self).segs().last(),
            r is Ok ==> final(self).active().file_id > old(self).active().file_id,
            r is Ok ==> crate::file_ops::vol_size(final(self).segs()) == old(self).active().data.len() + old(self).active().hint.len() + final(self).active().data.len() + final(self).active().hint.len(),
            old(self).index_clean() ==> final(self).index_clean(),
            old(self).index_clean() && r is Ok ==> forall|k: Seq<u8>|
                #[trigger] final(self).spec_get(k) == old(self).spec_get(k),
    {
        let ghost segs0 = old(self).segs();
        let n = self.volume.segment_count();
        let active_id = self.volume.segment_at(n - 1).file_id();
        let mid = match create_new_file_pair(&mut self.volume) {
            Ok(id) => id,
            Err(e) => {
                proof {
                    let i = choose|i: int|
                        0 <= i < segs0.len() && (#[trigger] segs0[i].file_id) == u64::MAX;
                    assert(!(segs0[i].file_id < u64::MAX));
                }
                return Err(e);
            },
        };
        proof {
            lemma_scan_empty();
        }
        let ks = self.keys_dir.keys();
        let ghost ksv = ks@.map_values(|v: Vec<u8>| v@);
        let nk = ks.len();
        proof {
            let segs_m = self.volume@.segments;
            assert(segs_m =~= segs0.push(segs_m.last()));
            assert(self.buffer() == old(self).buffer());
            if old(self).index_clean() {
                assert(self.keys_dir.as_map() == old(self).keydir());
                lemma_lookup_push_seg(
                    old(self).buffer(),
                    self.keys_dir.as_map(),
                    segs0,
                    segs_m.last(),
                );
                assert(segs_m == segs0.push(segs_m.last()));
                assert(clean_index(self.keys_dir.as_map(), segs_m));
                assert forall|k: Seq<u8>|
                    #[trigger] lookup_get(
                        old(self).buffer(),
                        self.keys_dir.as_map(),
                        segs_m,
                        k,
                    ) == old(self).spec_get(k) by {
                    assert(lookup_get(
                        old(self).buffer(),
                        self.keys_dir.as_map(),
                        segs0.push(segs_m.last()),
                        k,
                    ) == lookup_get(old(self).buffer(), self.keys_dir.as_map(), segs0, k));
                }
                assert forall|k: Seq<u8>|
                    self.keys_dir.as_map().contains_key(k) && self.keys_dir.as_map()[k]
                        is Persisted && (#[trigger] self.keys_dir.as_map()[k]->Persisted_0.file_id)
                        != mid && self.keys_dir.as_map()[k]->Persisted_0.file_id
                        != active_id implies exists|j: int| 0 <= j < nk && #[trigger] ksv[j] == k by {
                    let j = choose|j: int| 0 <= j < ks@.len() && #[trigger] ks@[j]@ == k;
                    assert(ksv[j] == k);
                }
            }
        }
        let mut i: usize = 0;
        while i < nk
            invariant
                old(self).wf(),
                segs0 == old(self).segs(),
                n == segs0.len(),
                n >= 1,
                0 <= i <= nk,
                nk == ksv.len(),
                ksv == ks@.map_values(|v: Vec<u8>| v@),
                active_id == segs0.last().file_id,
                self.memtable == old(self).memtable,
                self.volume@.locked,
                self.volume@.segments.len() == n + 1,
                forall|j: int| 0 <= j < n ==> self.volume@.segments[j] == segs0[j],
                self.volume@.segments.last().file_id == mid,
                forall|j: int| 0 <= j < n ==> (#[trigger] segs0[j].file_id) < mid,
                hint_stream_clean(self.volume@.segments.last().hint),
                repaired_pair(self.volume@.segments.last()) == self.volume@.segments.last(),
                self.keys_dir.wf(),
                forall|k: Seq<u8>|
                    #[trigger] self.keys_dir.as_map().contains_key(k) == old(self).keydir().contains_key(k),
                forall|k: Seq<u8>|
                    #[trigger] self.keys_dir.as_map().contains_key(k)
                        ==> (self.keys_dir.as_map()[k] is InBuffer <==> old(self).keydir()[k]
                        is InBuffer),
                forall|k: Seq<u8>|
                    #[trigger] self.keys_dir.as_map().contains_key(k) ==> k.len() <= u32::MAX,
                forall|k: Seq<u8>|
                    #[trigger] self.keys_dir.as_map().contains_key(k)
                        && self.keys_dir.as_map()[k] is Persisted
                        && self.keys_dir.as_map()[k]->Persisted_0.file_id != mid
                        ==> self.keys_dir.as_map()[k] == old(self).keydir()[k],
                old(self).index_clean() ==> clean_index(
                    self.keys_dir.as_map(),
                    self.volume@.segments,
                ),
                old(self).index_clean() ==> forall|k: Seq<u8>|
                    #[trigger] lookup_get(
                        old(self).buffer(),
                        self.keys_dir.as_map(),
                        self.volume@.segments,
                        k,
                    ) == old(self).spec_get(k),
                old(self).index_clean() ==> forall|k: Seq<u8>|
                    self.keys_dir.as_map().contains_key(k) && self.keys_dir.as_map()[k]
                        is Persisted && (#[trigger] self.keys_dir.as_map()[k]->Persisted_0.file_id)
                        != mid && self.keys_dir.as_map()[k]->Persisted_0.file_id != active_id
                        ==> exists|j: int| i <= j < nk && #[trigger] ksv[j] == k,
            decreases nk - i,
        {
            let ghost k_i = ksv[i as int];
            match self.keys_dir.get(&ks[i]) {
                Some(IndexState::Persisted(e)) => {
                    if e.file_id != active_id && e.file_id != mid {
                        match self.find_segment(e.file_id) {
                            Some(si) => {
                                proof {
                                    assert(si < n);
                                    assert(self.volume@.segments[si as int] == segs0[si as int]);
                                }
                                let rec = match self.volume.segment_at(si).read(
                                    e.data_entry_position,
                                ) {
                                    Ok(rec) => rec,
                                    Err(x) => {
                                        proof {
                                            if old(self).index_clean() {
                                                assert(self.keys_dir.as_map()[k_i]
                                                    == IndexState::Persisted(e));
                                                lemma_seg_at_id(
                                                    self.volume@.segments,
                                                    si as int,
                                                );
                                                assert(false);
                                            }
                                            assert forall|a: int, b: int|
                                                0 <= a < b < self.segs().len() implies (
                                            #[trigger] self.segs()[a].file_id) < (
                                            #[trigger] self.segs()[b].file_id) by {
                                                assert(self.segs()[a] == segs0[a]);
                                                if b < self.segs().len() - 1 {
                                                    assert(self.segs()[b] == segs0[b]);
                                                }
                                            }
                                            assert forall|a: int|
                                                0 <= a < self.segs().len() implies repaired_pair(
                                                #[trigger] self.segs()[a],
                                            ) == self.segs()[a] by {
                                                if a < self.segs().len() - 1 {
                                                    assert(self.segs()[a] == segs0[a]);
                                                }
                                            }
                                            assert forall|k: Seq<u8>|
                                                #[trigger] self.keydir().contains_key(k)
                                                    && self.keydir()[k]
                                                is InBuffer implies self.buffer().contains_key(k)
                                                && !self.buffer()[k].tombstone by {
                                                assert(old(self).keydir().contains_key(k));
                                                assert(old(self).keydir()[k] is InBuffer);
                                            }
                                            assert forall|k: Seq<u8>|
                                                #[trigger] self.buffer().contains_key(
                                                k,
                                            ) implies (if self.buffer()[k].tombstone {
                                                !self.keydir().contains_key(k)
                                            } else {
                                                self.keydir().contains_key(k) && self.keydir()[k]
                                                    is InBuffer
                                            }) by {
                                                assert(old(self).buffer().contains_key(k));
                                            }
                                        }
                                        return Err(x);
                                    },
                                };
                                let ghost segs_before = self.volume@.segments;
                                let ghost m_before = segs_before.last();
                                let mut m_pair = match self.volume.segments.pop() {
                                    Some(p) => p,
                                    None => {
                                        proof {
                                            assert(false);
                                        }
                                        FilePair::new(0)
                                    },
                                };
                                proof {
                                    assert(crate::schema::data_entry_fits(rec@));
                                }
                                let kde = m_pair.write(&rec);
                                self.volume.segments.push(m_pair);
                                let key2 = clone_bytes(&ks[i]);
                                let ghost kd0 = self.keys_dir.as_map();
                                self.keys_dir.insert(key2, IndexState::Persisted(kde));
                                proof {
                                    let segs_now = self.volume@.segments;
                                    let m_now = segs_now.last();
                                    assert(segs_now =~= segs_before.update((n) as int, m_now));
                                    assert forall|j: int| 0 <= j < n implies segs_now[j]
                                        == segs0[j] by {
                                        assert(segs_now[j] == segs_before[j]);
                                    }
                                    assert forall|a: int, b: int|
                                        0 <= a < b < segs_before.len() implies (
                                    #[trigger] segs_before[a].file_id) < (
                                    #[trigger] segs_before[b].file_id) by {
                                        assert(segs_before[a] == segs0[a]);
                                        if b < segs_before.len() - 1 {
                                            assert(segs_before[b] == segs0[b]);
                                        }
                                    }
                                    assert forall|a: int, b: int|
                                        0 <= a < b < segs_now.len() implies (
                                    #[trigger] segs_now[a].file_id) < (
                                    #[trigger] segs_now[b].file_id) by {
                                        assert(segs_now[a].file_id == segs_before[a].file_id);
                                        assert(segs_now[b].file_id == segs_before[b].file_id);
                                        assert(segs_before[a].file_id < segs_before[b].file_id);
                                    }
                                    assert(self.buffer() == old(self).buffer());
                                    assert(m_now.data =~= m_before.data
                                        + crate::schema::encode_data(rec@));
                                    assert(m_now.data.subrange(0, m_before.data.len() as int)
                                        =~= m_before.data);
                                    if old(self).index_clean() {
                                        assert(kd0[k_i] == IndexState::Persisted(e));
                                        assert(old(self).keydir()[k_i] == IndexState::Persisted(
                                            e,
                                        ));
                                        assert(clean_index(kd0, segs_before));
                                        assert forall|k: Seq<u8>|
                                            #[trigger] lookup_get(
                                                old(self).buffer(),
                                                kd0,
                                                segs_before,
                                                k,
                                            ) == lookup_get(
                                            old(self).buffer(),
                                            old(self).keydir(),
                                            old(self).segs(),
                                            k,
                                        ) by {
                                            assert(lookup_get(
                                                old(self).buffer(),
                                                kd0,
                                                segs_before,
                                                k,
                                            ) == old(self).spec_get(k));
                                        }
                                        assert(read_result(m_now, kde.data_entry_position)
                                            == Ok::<DataEntryV, NotusError>(rec@));
                                        assert(rec@.key == k_i) by {
                                            lemma_seg_at_id(segs_before, si as int);
                                        }
                                        assert(!old(self).buffer().contains_key(k_i));
                                        assert(lookup_get(
                                            old(self).buffer(),
                                            old(self).keydir(),
                                            old(self).segs(),
                                            k_i,
                                        ) == Ok::<Option<Seq<u8>>, NotusError>(Some(rec@.value)))
                                            by {
                                            assert(lookup_get(
                                                old(self).buffer(),
                                                kd0,
                                                segs_before,
                                                k_i,
                                            ) == old(self).spec_get(k_i));
                                            lemma_seg_at_id(segs_before, si as int);
                                        }
                                        lemma_merge_copy(
                                            old(self).buffer(),
                                            old(self).keydir(),
                                            old(self).segs(),
                                            kd0,
                                            segs_before,
                                            segs_now,
                                            k_i,
                                            kde,
                                            rec@,
                                        );
                                        assert(clean_index(self.keys_dir.as_map(), segs_now));
                                        assert forall|k: Seq<u8>|
                                            #[trigger] lookup_get(
                                                old(self).buffer(),
                                                self.keys_dir.as_map(),
                                                segs_now,
                                                k,
                                            ) == old(self).spec_get(k) by {
                                            assert(lookup_get(
                                                old(self).buffer(),
                                                kd0.insert(k_i, IndexState::Persisted(kde)),
                                                segs_now,
                                                k,
                                            ) == lookup_get(
                                                old(self).buffer(),
                                                old(self).keydir(),
                                                old(self).segs(),
                                                k,
                                            ));
                                        }
                                        assert forall|k: Seq<u8>|
                                            self.keys_dir.as_map().contains_key(k)
                                                && self.keys_dir.as_map()[k] is Persisted && (
                                            #[trigger] self.keys_dir.as_map()[k]->Persisted_0.file_id)
                                                != mid
                                                && self.keys_dir.as_map()[k]->Persisted_0.file_id
                                                != active_id implies exists|j: int|
                                            i + 1 <= j < nk && #[trigger] ksv[j] == k by {
                                            assert(k != k_i);
                                            let j = choose|j: int|
                                                i <= j < nk && #[trigger] ksv[j] == k;
                                            assert(j != i);
                                        }
                                    }
                                }
                            },
                            None => {
                                proof {
                                    if old(self).index_clean() {
                                        assert(self.keys_dir.as_map().contains_key(k_i));
                                        assert(self.keys_dir.as_map()[k_i]
                                            == IndexState::Persisted(e));
                                        assert(has_seg(self.segs(), e.file_id));
                                        assert(false);
                                    }
                                }
                            },
                        }
                    } else {
                        proof {
                            if old(self).index_clean() {
                                assert forall|k: Seq<u8>|
                                    self.keys_dir.as_map().contains_key(k)
                                        && self.keys_dir.as_map()[k] is Persisted && (
                                #[trigger] self.keys_dir.as_map()[k]->Persisted_0.file_id) != mid
                                        && self.keys_dir.as_map()[k]->Persisted_0.file_id
                                        != active_id implies exists|j: int|
                                    i + 1 <= j < nk && #[trigger] ksv[j] == k by {
                                    assert(k != k_i);
                                    let j = choose|j: int| i <= j < nk && #[trigger] ksv[j] == k;
                                    assert(j != i);
                                }
                            }
                        }
                    }
                },
                _ => {
                    proof {
                        if old(self).index_clean() {
                            assert forall|k: Seq<u8>|
                                self.keys_dir.as_map().contains_key(k)
                                    && self.keys_dir.as_map()[k] is Persisted && (
                            #[trigger] self.keys_dir.as_map()[k]->Persisted_0.file_id) != mid
                                    && self.keys_dir.as_map()[k]->Persisted_0.file_id
                                    != active_id implies exists|j: int|
                                i + 1 <= j < nk && #[trigger] ksv[j] == k by {
                                assert(k != k_i);
                                let j = choose|j: int| i <= j < nk && #[trigger] ksv[j] == k;
                                assert(j != i);
                            }
                        }
                    }
                },
            }
            i = i + 1;
        }
        proof {
            if old(self).index_clean() {
                assert forall|k: Seq<u8>|
                    #[trigger] self.keys_dir.as_map().contains_key(k) && self.keys_dir.as_map()[k]
                        is Persisted implies self.keys_dir.as_map()[k]->Persisted_0.file_id == mid
                    || self.keys_dir.as_map()[k]->Persisted_0.file_id == active_id by {
                    if self.keys_dir.as_map()[k]->Persisted_0.file_id != mid
                        && self.keys_dir.as_map()[k]->Persisted_0.file_id != active_id {
                        let j = choose|j: int| nk <= j < nk && #[trigger] ksv[j] == k;
                        assert(false);
                    }
                }
            }
        }
        self.merge_retain_phase(active_id, mid, Ghost(segs0), Ghost(*old(self)));
        Ok(())
    }
}

// ---------------------------------------------------------------------------
// Laws
// ---------------------------------------------------------------------------

/// Putting the same key and value a second time changes nothing a reader
/// can see: the key directory is the same, and every read answers the
/// same. The hypotheses restate what two consecutive `put` calls ensure.
pub proof fn lemma_put_idempotent(
    s1: DataStore,
    s2: DataStore,
    key: Seq<u8>,
    value: Seq<u8>,
)
    requires
        s1.buffer().contains_key(key),
        s1.buffer()[key].value == Some(value),
        s1.buffer()[key].tombstone == false,
        s2.segs() == s1.segs(),
        s2.keydir() == s1.keydir().insert(key, IndexState::InBuffer),
        s1.keydir().contains_key(key),
        s1.keydir()[key] == IndexState::InBuffer,
        s2.buffer() == s1.buffer().insert(key, s2.buffer()[key]),
        s2.buffer().contains_key(key),
        s2.buffer()[key].value == Some(value),
        s2.buffer()[key].tombstone == false,
    ensures
        s2.keydir() == s1.keydir(),
        forall|k: Seq<u8>| #[trigger] s2.spec_get(k) == s1.spec_get(k),
        forall|k: Seq<u8>| #[trigger] s2.spec_contains(k) == s1.spec_contains(k),
{
    assert(s2.keydir() =~= s1.keydir());
    assert forall|k: Seq<u8>| #[trigger] s2.spec_get(k) == s1.spec_get(k) by {
        if k == key {
        } else {
            assert(s2.buffer().contains_key(k) == s1.buffer().contains_key(k));
            if s1.buffer().contains_key(k) {
                assert(s2.buffer()[k] == s1.buffer()[k]);
            }
        }
    }
    assert forall|k: Seq<u8>| #[trigger] s2.spec_contains(k) == s1.spec_contains(k) by {
        if k != key && s1.buffer().contains_key(k) {
            assert(s2.buffer()[k] == s1.buffer()[k]);
        }
    }
}

/// Deleting a key a second time changes nothing a reader can see, and the
/// extra tombstone record has no further effect on what a reopen rebuilds.
/// The hypotheses restate what two consecutive `delete` calls ensure.
pub proof fn lemma_delete_idempotent(
    s1: DataStore,
    s2: DataStore,
    key: Seq<u8>,
)
    requires
        s1.buffer().contains_key(key),
        s1.buffer()[key].tombstone == true,
        !s1.keydir().contains_key(key),
        !replay_volume(s1.segs()).contains_key(key),
        s2.keydir() == s1.keydir().remove(key),
        s2.buffer() == s1.buffer().insert(key, s2.buffer()[key]),
        s2.buffer().contains_key(key),
        s2.buffer()[key].tombstone == true,
        s2.buffer()[key].value is None,
        s1.buffer()[key].value is None,
        s2.segs().len() == s1.segs().len(),
        s1.segs().len() > 0,
        forall|i: int| 0 <= i < s1.segs().len() - 1 ==> s2.segs()[i] == s1.segs()[i],
        s2.active().file_id == s1.active().file_id,
        s2.active().data == s1.active().data,
        seg_ids_sorted(s1.segs()),
        scan_hints(s2.active().hint) == scan_hints(s1.active().hint).push(
            scan_hints(s2.active().hint).last(),
        ),
        scan_hints(s2.active().hint).last().deleted == true,
        scan_hints(s2.active().hint).last().key == key,
        scan_hints(s2.active().hint).len() == scan_hints(s1.active().hint).len() + 1,
    ensures
        s2.keydir() == s1.keydir(),
        forall|k: Seq<u8>| #[trigger] s2.spec_get(k) == s1.spec_get(k),
        forall|k: Seq<u8>| #[trigger] s2.spec_contains(k) == s1.spec_contains(k),
        replay_volume(s2.segs()) == replay_volume(s1.segs()),
{
    assert(s2.keydir() =~= s1.keydir());
    assert forall|k: Seq<u8>| #[trigger] s2.spec_get(k) == s1.spec_get(k) by {
        if k == key {
        } else {
            assert(s2.buffer().contains_key(k) == s1.buffer().contains_key(k));
            if s1.buffer().contains_key(k) {
                assert(s2.buffer()[k] == s1.buffer()[k]);
            } else if s1.keydir().contains_key(k) {
                match s1.keydir()[k] {
                    IndexState::InBuffer => {},
                    IndexState::Persisted(e) => {
                        lemma_reads_unchanged(s1.segs(), s2.segs(), e);
                    },
                }
            }
        }
    }
    assert forall|k: Seq<u8>| #[trigger] s2.spec_contains(k) == s1.spec_contains(k) by {
        if k != key && s1.buffer().contains_key(k) {
            assert(s2.buffer()[k] == s1.buffer()[k]);
        }
    }
    let h = scan_hints(s2.active().hint).last();
    lemma_replay_append_hint(s1.segs(), s2.segs(), h);
    assert(replay_volume(s2.segs()) =~= replay_volume(s1.segs()));
}

/// Closing a store and reopening over the volume it returned shows the
/// same live keys, each answering with the same value. The hypotheses
/// restate what `close` says of the returned volume and what `open` says
/// of the store rebuilt over it.
pub proof fn lemma_reopen_preserves_state(s: DataStore, segs1: Seq<FilePairV>, t: DataStore)
    requires
        forall|k: Seq<u8>|
            #[trigger] replay_volume(segs1).contains_key(k) == s.spec_contains(k),
        forall|k: Seq<u8>|
            (#[trigger] s.spec_get(k)) is Ok && s.spec_get(k)->Ok_0 is Some ==> {
                let m = replay_volume(segs1);
                &&& m.contains_key(k)
                &&& m[k] is Persisted
                &&& has_seg(segs1, m[k]->Persisted_0.file_id)
                &&& read_result(
                    seg_at_id(segs1, m[k]->Persisted_0.file_id),
                    m[k]->Persisted_0.data_entry_position,
                ) is Ok
                &&& read_result(
                    seg_at_id(segs1, m[k]->Persisted_0.file_id),
                    m[k]->Persisted_0.data_entry_position,
                )->Ok_0.value == s.spec_get(k)->Ok_0->0
            },
        seg_ids_sorted(segs1),
        t.wf(),
        t.buffer() == Map::<Seq<u8>, MemTableEntryV>::empty(),
        t.keydir() == replay_volume(segs1),
        t.segs().len() == segs1.len() + 1,
        forall|i: int| 0 <= i < segs1.len() ==> t.segs()[i] == segs1[i],
    ensures
        forall|k: Seq<u8>| #[trigger] t.spec_contains(k) == s.spec_contains(k),
        forall|k: Seq<u8>|
            (#[trigger] s.spec_get(k)) is Ok && s.spec_get(k)->Ok_0 is Some ==> t.spec_get(k)
                == s.spec_get(k),
{
    assert forall|k: Seq<u8>| #[trigger] t.spec_contains(k) == s.spec_contains(k) by {
        assert(!t.buffer().contains_key(k));
    }
    assert forall|k: Seq<u8>|
        (#[trigger] s.spec_get(k)) is Ok && s.spec_get(k)->Ok_0 is Some implies t.spec_get(k)
        == s.spec_get(k) by {
        assert(!t.buffer().contains_key(k));
        let m = replay_volume(segs1);
        let e = m[k]->Persisted_0;
        let i = choose|i: int| 0 <= i < segs1.len() && (#[trigger] segs1[i].file_id) == e.file_id;
        assert(t.segs()[i] == segs1[i]);
        assert(has_seg(t.segs(), e.file_id));
        lemma_seg_at_id(segs1, i);
        lemma_seg_at_id(t.segs(), i);
    }
}

impl DataStore {
    /// The directory image the store works over, for a host that mirrors
    /// it onto real files.
    pub fn volume(&self) -> (r: &Volume)
        ensures
            r@.segments == self.segs(),
    {
        &self.volume
    }

    /// The write buffer's footprint in bytes.
    pub fn buffer_bytes(&self) -> (r: usize)
        ensures
            r == self.buffer_size(),
    {
        self.memtable.size()
    }
}

/// Positioned reads that succeeded are unchanged when only the last
/// segment's byte streams grew.
proof fn lemma_reads_extend_last(sa: Seq<FilePairV>, sb: Seq<FilePairV>, e: KeyDirEntry)
    requires
        seg_ids_sorted(sa),
        sa.len() > 0,
        sb.len() == sa.len(),
        forall|i: int| 0 <= i < sa.len() - 1 ==> sb[i] == sa[i],
        sb.last().file_id == sa.last().file_id,
        sa.last().data.len() <= sb.last().data.len(),
        sb.last().data.subrange(0, sa.last().data.len() as int) == sa.last().data,
    ensures
        has_seg(sb, e.file_id) == has_seg(sa, e.file_id),
        has_seg(sa, e.file_id) && read_result(
            seg_at_id(sa, e.file_id),
            e.data_entry_position,
        ) is Ok ==> read_result(seg_at_id(sb, e.file_id), e.data_entry_position) == read_result(
            seg_at_id(sa, e.file_id),
            e.data_entry_position,
        ),
{
    assert forall|i: int| 0 <= i < sa.len() implies (#[trigger] sb[i].file_id)
        == sa[i].file_id by {
        if i < sa.len() - 1 {
            assert(sb[i] == sa[i]);
        }
    }
    assert forall|a1: int, b1: int| 0 <= a1 < b1 < sb.len() implies (#[trigger] sb[a1].file_id)
        < (#[trigger] sb[b1].file_id) by {
        assert(sa[a1].file_id < sa[b1].file_id);
    }
    if has_seg(sa, e.file_id) {
        let i = choose|i: int| 0 <= i < sa.len() && (#[trigger] sa[i].file_id) == e.file_id;
        assert(sb[i].file_id == e.file_id);
        assert(has_seg(sb, e.file_id));
        lemma_seg_at_id(sa, i);
        lemma_seg_at_id(sb, i);
        if i < sa.len() - 1 {
            assert(sb[i] == sa[i]);
        } else {
            if read_result(sa[i], e.data_entry_position) is Ok {
                assert(sb.last().data =~= sa.last().data + sb.last().data.skip(
                    sa.last().data.len() as int,
                ));
                lemma_decode_data_extend(
                    sa.last().data,
                    sb.last().data.skip(sa.last().data.len() as int),
                    e.data_entry_position as int,
                );
            }
        }
    } else {
        if has_seg(sb, e.file_id) {
            let i = choose|i: int| 0 <= i < sb.len() && (#[trigger] sb[i].file_id) == e.file_id;
            assert(sa[i].file_id == e.file_id);
        }
    }
}

/// A read through a segment that both sequences hold is the same read.
proof fn lemma_reads_same_pair(
    sa: Seq<FilePairV>,
    sb: Seq<FilePairV>,
    ia: int,
    ib: int,
    e: KeyDirEntry,
)
    requires
        seg_ids_sorted(sa),
        seg_ids_sorted(sb),
        0 <= ia < sa.len(),
        0 <= ib < sb.len(),
        sa[ia] == sb[ib],
        sa[ia].file_id == e.file_id,
    ensures
        has_seg(sa, e.file_id),
        has_seg(sb, e.file_id),
        read_result(seg_at_id(sb, e.file_id), e.data_entry_position) == read_result(
            seg_at_id(sa, e.file_id),
            e.data_entry_position,
        ),
{
    lemma_seg_at_id(sa, ia);
    lemma_seg_at_id(sb, ib);
}

/// Positioned reads are unchanged between two segment sequences that
/// differ at most in the last segment's hint stream.
proof fn lemma_reads_unchanged(sa: Seq<FilePairV>, sb: Seq<FilePairV>, e: KeyDirEntry)
    requires
        seg_ids_sorted(sa),
        sa.len() > 0,
        sb.len() == sa.len(),
        forall|i: int| 0 <= i < sa.len() - 1 ==> sb[i] == sa[i],
        sb.last().file_id == sa.last().file_id,
        sb.last().data == sa.last().data,
    ensures
        has_seg(sb, e.file_id) == has_seg(sa, e.file_id),
        has_seg(sa, e.file_id) ==> read_result(
            seg_at_id(sb, e.file_id),
            e.data_entry_position,
        ) == read_result(seg_at_id(sa, e.file_id), e.data_entry_position),
{
    assert forall|i: int| 0 <= i < sa.len() implies (#[trigger] sb[i].file_id)
        == sa[i].file_id by {
        if i < sa.len() - 1 {
            assert(sb[i] == sa[i]);
        }
    }
    assert forall|a1: int, b1: int| 0 <= a1 < b1 < sb.len() implies (#[trigger] sb[a1].file_id)
        < (#[trigger] sb[b1].file_id) by {
        assert(sa[a1].file_id < sa[b1].file_id);
    }
    if has_seg(sa, e.file_id) {
        let i = choose|i: int| 0 <= i < sa.len() && (#[trigger] sa[i].file_id) == e.file_id;
        assert(sb[i].file_id == e.file_id);
        assert(has_seg(sb, e.file_id));
        lemma_seg_at_id(sa, i);
        lemma_seg_at_id(sb, i);
        if i < sa.len() - 1 {
            assert(sb[i] == sa[i]);
        } else {
            assert(sb[i].data == sa[i].data);
        }
    } else {
        if has_seg(sb, e.file_id) {
            let i = choose|i: int| 0 <= i < sb.len() && (#[trigger] sb[i].file_id) == e.file_id;
            assert(sa[i].file_id == e.file_id);
        }
    }
}

/// Appending a fresh segment with a new id changes no binding's read.
proof fn lemma_lookup_push_seg(
    buf: Map<Seq<u8>, MemTableEntryV>,
    kd: Map<Seq<u8>, IndexState>,
    segs: Seq<FilePairV>,
    p: FilePairV,
)
    requires
        seg_ids_sorted(segs),
        forall|i: int| 0 <= i < segs.len() ==> (#[trigger] segs[i].file_id) < p.file_id,
        clean_index(kd, segs),
    ensures
        clean_index(kd, segs.push(p)),
        forall|k: Seq<u8>|
            #[trigger] lookup_get(buf, kd, segs.push(p), k) == lookup_get(buf, kd, segs, k),
{
    let segsB = segs.push(p);
    assert forall|a: int, b: int| 0 <= a < b < segsB.len() implies (#[trigger] segsB[a].file_id)
        < (#[trigger] segsB[b].file_id) by {
        if b < segsB.len() - 1 {
            assert(segsB[a] == segs[a]);
            assert(segsB[b] == segs[b]);
        } else {
            assert(segsB[a] == segs[a]);
        }
    }
    assert forall|k: Seq<u8>|
        #[trigger] kd.contains_key(k) && kd[k] is Persisted implies {
        let e = kd[k]->Persisted_0;
        &&& has_seg(segsB, e.file_id)
        &&& read_result(seg_at_id(segsB, e.file_id), e.data_entry_position) is Ok
        &&& read_result(seg_at_id(segsB, e.file_id), e.data_entry_position)->Ok_0.key == k
    } by {
        let e = kd[k]->Persisted_0;
        let i = choose|i: int| 0 <= i < segs.len() && (#[trigger] segs[i].file_id) == e.file_id;
        lemma_reads_same_pair(segs, segsB, i, i, e);
    }
    assert forall|k: Seq<u8>|
        #[trigger] lookup_get(buf, kd, segsB, k) == lookup_get(buf, kd, segs, k) by {
        if !buf.contains_key(k) && kd.contains_key(k) {
            match kd[k] {
                IndexState::InBuffer => {},
                IndexState::Persisted(e) => {
                    let i = choose|i: int|
                        0 <= i < segs.len() && (#[trigger] segs[i].file_id) == e.file_id;
                    lemma_reads_same_pair(segs, segsB, i, i, e);
                },
            }
        }
    }
}

/// One copied record re-binds its key without changing what any reader
/// sees: the new binding reads back the very record the old one held.
proof fn lemma_merge_copy(
    buf: Map<Seq<u8>, MemTableEntryV>,
    old_kd: Map<Seq<u8>, IndexState>,
    old_segs: Seq<FilePairV>,
    kd0: Map<Seq<u8>, IndexState>,
    segsA: Seq<FilePairV>,
    segsB: Seq<FilePairV>,
    k_i: Seq<u8>,
    kde: KeyDirEntry,
    rec: DataEntryV,
)
    requires
        seg_ids_sorted(segsA),
        seg_ids_sorted(segsB),
        segsA.len() > 0,
        segsB.len() == segsA.len(),
        forall|i: int| 0 <= i < segsA.len() - 1 ==> segsB[i] == segsA[i],
        segsB.last().file_id == segsA.last().file_id,
        segsA.last().data.len() <= segsB.last().data.len(),
        segsB.last().data.subrange(0, segsA.last().data.len() as int) == segsA.last().data,
        clean_index(kd0, segsA),
        forall|k: Seq<u8>|
            #[trigger] lookup_get(buf, kd0, segsA, k) == lookup_get(buf, old_kd, old_segs, k),
        kde.file_id == segsB.last().file_id,
        read_result(segsB.last(), kde.data_entry_position) == Ok::<DataEntryV, NotusError>(rec),
        rec.key == k_i,
        !buf.contains_key(k_i),
        lookup_get(buf, old_kd, old_segs, k_i) == Ok::<Option<Seq<u8>>, NotusError>(
            Some(rec.value),
        ),
    ensures
        clean_index(kd0.insert(k_i, IndexState::Persisted(kde)), segsB),
        forall|k: Seq<u8>|
            #[trigger] lookup_get(buf, kd0.insert(k_i, IndexState::Persisted(kde)), segsB, k)
                == lookup_get(buf, old_kd, old_segs, k),
{
    let kd1 = kd0.insert(k_i, IndexState::Persisted(kde));
    lemma_seg_at_id(segsB, segsB.len() - 1);
    assert(seg_at_id(segsB, kde.file_id) == segsB.last());
    assert(has_seg(segsB, kde.file_id));
    assert forall|k: Seq<u8>|
        #[trigger] kd1.contains_key(k) && kd1[k] is Persisted implies {
        let e = kd1[k]->Persisted_0;
        &&& has_seg(segsB, e.file_id)
        &&& read_result(seg_at_id(segsB, e.file_id), e.data_entry_position) is Ok
        &&& read_result(seg_at_id(segsB, e.file_id), e.data_entry_position)->Ok_0.key == k
    } by {
        if k != k_i {
            assert(kd0.contains_key(k));
            lemma_reads_extend_last(segsA, segsB, kd0[k]->Persisted_0);
        }
    }
    assert forall|k: Seq<u8>|
        #[trigger] lookup_get(buf, kd1, segsB, k) == lookup_get(buf, old_kd, old_segs, k) by {
        assert(lookup_get(buf, kd0, segsA, k) == lookup_get(buf, old_kd, old_segs, k));
        if !buf.contains_key(k) {
            if k == k_i {
                assert(lookup_get(buf, kd1, segsB, k_i) == Ok::<Option<Seq<u8>>, NotusError>(
                    Some(rec.value),
                ));
            } else if kd0.contains_key(k) {
                match kd0[k] {
                    IndexState::InBuffer => {},
                    IndexState::Persisted(e) => {
                        lemma_reads_extend_last(segsA, segsB, e);
                    },
                }
            }
        }
    }
}

/// Dropping the migrated sealed segments changes no binding's read once
/// every binding points at the kept pair or the merged one.
proof fn lemma_merge_retain(
    buf: Map<Seq<u8>, MemTableEntryV>,
    kd: Map<Seq<u8>, IndexState>,
    segsC: Seq<FilePairV>,
    segs1: Seq<FilePairV>,
    mid: u64,
    active_id: u64,
)
    requires
        seg_ids_sorted(segsC),
        seg_ids_sorted(segs1),
        segsC.len() >= 2,
        segs1.len() == 2,
        segs1[0] == segsC[segsC.len() - 2],
        segs1[1] == segsC.last(),
        segsC.last().file_id == mid,
        segsC[segsC.len() - 2].file_id == active_id,
        clean_index(kd, segsC),
        forall|k: Seq<u8>|
            #[trigger] kd.contains_key(k) && kd[k] is Persisted
                ==> kd[k]->Persisted_0.file_id == mid || kd[k]->Persisted_0.file_id == active_id,
    ensures
        clean_index(kd, segs1),
        forall|k: Seq<u8>|
            #[trigger] lookup_get(buf, kd, segs1, k) == lookup_get(buf, kd, segsC, k),
{
    assert forall|k: Seq<u8>|
        #[trigger] kd.contains_key(k) && kd[k] is Persisted implies {
        let e = kd[k]->Persisted_0;
        &&& has_seg(segs1, e.file_id)
        &&& read_result(seg_at_id(segs1, e.file_id), e.data_entry_position) is Ok
        &&& read_result(seg_at_id(segs1, e.file_id), e.data_entry_position)->Ok_0.key == k
    } by {
        let e = kd[k]->Persisted_0;
        if e.file_id == mid {
            lemma_reads_same_pair(segsC, segs1, segsC.len() - 1, 1, e);
        } else {
            lemma_reads_same_pair(segsC, segs1, segsC.len() - 2, 0, e);
        }
    }
    assert forall|k: Seq<u8>|
        #[trigger] lookup_get(buf, kd, segs1, k) == lookup_get(buf, kd, segsC, k) by {
        if !buf.contains_key(k) && kd.contains_key(k) {
            match kd[k] {
                IndexState::InBuffer => {},
                IndexState::Persisted(e) => {
                    if e.file_id == mid {
                        lemma_reads_same_pair(segsC, segs1, segsC.len() - 1, 1, e);
                    } else {
                        lemma_reads_same_pair(segsC, segs1, segsC.len() - 2, 0, e);
                    }
                },
            }
        }
    }
}


impl DataStore {
    /// The retain phase of compaction: drop the migrated sealed segments,
    /// keeping the old active pair and the merged pair, in that order.
    #[verifier::rlimit(100)]
    #[verifier::spinoff_prover]
    fn merge_retain_phase(
        &mut self,
        active_id: u64,
        mid: u64,
        Ghost(segs0): Ghost<Seq<FilePairV>>,
        Ghost(old_st): Ghost<DataStore>,
    )
        requires
            old_st.wf(),
            segs0 == old_st.segs(),
            segs0.len() >= 1,
            active_id == segs0.last().file_id,
            old(self).memtable == old_st.memtable,
            old(self).volume@.locked,
            old(self).volume@.segments.len() == segs0.len() + 1,
            forall|j: int| 0 <= j < segs0.len() ==> old(self).volume@.segments[j] == segs0[j],
            old(self).volume@.segments.last().file_id == mid,
            forall|j: int| 0 <= j < segs0.len() ==> (#[trigger] segs0[j].file_id) < mid,
            hint_stream_clean(old(self).volume@.segments.last().hint),
            repaired_pair(old(self).volume@.segments.last()) == old(self).volume@.segments.last(),
            old(self).keys_dir.wf(),
            forall|k: Seq<u8>|
                #[trigger] old(self).keys_dir.as_map().contains_key(k)
                    == old_st.keydir().contains_key(k),
            forall|k: Seq<u8>|
                #[trigger] old(self).keys_dir.as_map().contains_key(k) ==> (old(self).keys_dir.as_map()[k] is InBuffer <==> old_st.keydir()[k] is InBuffer),
            forall|k: Seq<u8>|
                #[trigger] old(self).keys_dir.as_map().contains_key(k) ==> k.len() <= u32::MAX,
            old_st.index_clean() ==> clean_index(
                old(self).keys_dir.as_map(),
                old(self).volume@.segments,
            ),
            old_st.index_clean() ==> forall|k: Seq<u8>|
                #[trigger] lookup_get(
                    old_st.buffer(),
                    old(self).keys_dir.as_map(),
                    old(self).volume@.segments,
                    k,
                ) == old_st.spec_get(k),
            old_st.index_clean() ==> forall|k: Seq<u8>|
                #[trigger] old(self).keys_dir.as_map().contains_key(k) && old(self).keys_dir.as_map()[k] is Persisted ==> old(self).keys_dir.as_map()[k]->Persisted_0.file_id == mid || old(self).keys_dir.as_map()[k]->Persisted_0.file_id == active_id,
        ensures
            final(self).wf(),
            final(self).buffer() == old_st.buffer(),
            final(self).buffer_size() == old_st.buffer_size(),
            final(self).memtable == old_st.memtable,
            forall|k: Seq<u8>|
                #[trigger] final(self).keydir().contains_key(k) == old_st.keydir().contains_key(
                    k,
                ),
            forall|k: Seq<u8>|
                #[trigger] final(self).keydir().contains_key(k) ==> (final(self).keydir()[k]
                    is InBuffer <==> old_st.keydir()[k] is InBuffer),
            forall|k: Seq<u8>|
                #[trigger] final(self).spec_contains(k) == old_st.spec_contains(k),
            final(self).segs().len() == 2,
            final(self).segs()[0] == segs0.last(),
            final(self).active().file_id == mid,
            crate::file_ops::vol_size(final(self).segs()) == segs0.last().data.len()
                + segs0.last().hint.len() + final(self).active().data.len() + final(self).active().hint.len(),
            old_st.index_clean() ==> final(self).index_clean(),
            old_st.index_clean() ==> forall|k: Seq<u8>|
                #[trigger] final(self).spec_get(k) == old_st.spec_get(k),
    {
        let ghost n = segs0.len() as int;
        let ghost segsC = self.volume@.segments;
        let ghost kd_end = self.keys_dir.as_map();
        proof {
            assert(segsC =~= segs0.push(segsC.last()));
            assert forall|a: int, b: int| 0 <= a < b < segsC.len() implies (
            #[trigger] segsC[a].file_id) < (#[trigger] segsC[b].file_id) by {
                assert(segsC[a] == segs0[a]);
                if b < segsC.len() - 1 {
                    assert(segsC[b] == segs0[b]);
                }
            }
            assert(self.buffer() == old_st.buffer());
        }
        let m_pair = match self.volume.segments.pop() {
            Some(p) => p,
            None => {
                proof {
                    assert(false);
                }
                FilePair::new(0)
            },
        };
        let act_pair = match self.volume.segments.pop() {
            Some(p) => p,
            None => {
                proof {
                    assert(false);
                }
                FilePair::new(0)
            },
        };
        proof {
            assert(act_pair@ == segs0.last());
            assert(m_pair@ == segsC.last());
        }
        while self.volume.segments.len() > 0
            invariant
                old_st.wf(),
                self.volume@.locked,
                self.memtable == old_st.memtable,
                self.keys_dir.wf(),
                self.keys_dir.as_map() == kd_end,
                n == segs0.len(),
                n >= 1,
                segs0 == old_st.segs(),
                active_id == segs0.last().file_id,
                forall|j: int| 0 <= j < n ==> (#[trigger] segs0[j].file_id) < mid,
                act_pair@ == segs0.last(),
                m_pair@ == segsC.last(),
                segsC.len() == n + 1,
                forall|j: int| 0 <= j < n ==> segsC[j] == segs0[j],
                segsC.last().file_id == mid,
                hint_stream_clean(segsC.last().hint),
                repaired_pair(segsC.last()) == segsC.last(),
                seg_ids_sorted(segsC),
                forall|k: Seq<u8>|
                    #[trigger] kd_end.contains_key(k) == old_st.keydir().contains_key(k),
                forall|k: Seq<u8>|
                    #[trigger] kd_end.contains_key(k) ==> (kd_end[k] is InBuffer <==> old_st.keydir()[k] is InBuffer),
                forall|k: Seq<u8>| #[trigger] kd_end.contains_key(k) ==> k.len() <= u32::MAX,
                old_st.index_clean() ==> clean_index(kd_end, segsC),
                old_st.index_clean() ==> forall|k: Seq<u8>|
                    #[trigger] lookup_get(old_st.buffer(), kd_end, segsC, k) == old_st.spec_get(k),
                old_st.index_clean() ==> forall|k: Seq<u8>|
                    #[trigger] kd_end.contains_key(k) && kd_end[k] is Persisted
                        ==> kd_end[k]->Persisted_0.file_id == mid
                        || kd_end[k]->Persisted_0.file_id == active_id,
            decreases self.volume@.segments.len(),
        {
            let _dropped = self.volume.segments.pop();
        }
        self.volume.segments.push(act_pair);
        self.volume.segments.push(m_pair);
        proof {
            let segs1 = self.volume@.segments;
            assert(segs1.len() == 2);
            assert(segs1[0] == act_pair@);
            assert(segs1[1] == segsC.last());
            assert(segs1.last() == segsC.last());
            assert(act_pair@.file_id < mid);
            assert forall|a: int, b: int| 0 <= a < b < segs1.len() implies (
            #[trigger] segs1[a].file_id) < (#[trigger] segs1[b].file_id) by {
                assert(a == 0 && b == 1);
            }
            assert forall|a: int| 0 <= a < segs1.len() implies repaired_pair(
                #[trigger] segs1[a],
            ) == segs1[a] by {
                if a == 0 {
                    assert(repaired_pair(old_st.segs()[n - 1]) == old_st.segs()[n - 1]);
                }
            }
            assert(self.buffer() == old_st.buffer());
            assert forall|k: Seq<u8>|
                #[trigger] self.keydir().contains_key(k) && self.keydir()[k]
                is InBuffer implies self.buffer().contains_key(k) && !self.buffer()[k].tombstone
                by {
                assert(old_st.keydir().contains_key(k));
                assert(old_st.keydir()[k] is InBuffer);
            }
            assert forall|k: Seq<u8>|
                #[trigger] self.buffer().contains_key(k) implies (if self.buffer()[k].tombstone {
                !self.keydir().contains_key(k)
            } else {
                self.keydir().contains_key(k) && self.keydir()[k] is InBuffer
            }) by {
                assert(old_st.buffer().contains_key(k));
            }
            assert forall|k: Seq<u8>|
                #[trigger] self.spec_contains(k) == old(self).spec_contains(k) by {
                if self.buffer().contains_key(k) {
                }
            }
            assert(crate::file_ops::vol_size(segs1) == crate::file_ops::vol_size(
                segs1.drop_last(),
            ) + segsC.last().data.len() + segsC.last().hint.len());
            assert(segs1.drop_last() =~= seq![act_pair@]);
            assert(seq![act_pair@].drop_last() =~= Seq::<FilePairV>::empty());
            assert(crate::file_ops::vol_size(Seq::<FilePairV>::empty()) == 0);
            assert(crate::file_ops::vol_size(seq![act_pair@]) == crate::file_ops::vol_size(
                seq![act_pair@].drop_last(),
            ) + seq![act_pair@].last().data.len() + seq![act_pair@].last().hint.len());
            assert(crate::file_ops::vol_size(seq![act_pair@]) == act_pair@.data.len()
                + act_pair@.hint.len());
            if old_st.index_clean() {
                lemma_merge_retain(old_st.buffer(), kd_end, segsC, segs1, mid, active_id);
                assert(self.index_clean());
                assert forall|k: Seq<u8>| #[trigger] self.spec_get(k) == old_st.spec_get(k) by {
                    assert(lookup_get(old_st.buffer(), kd_end, segs1, k) == lookup_get(
                        old_st.buffer(),
                        kd_end,
                        segsC,
                        k,
                    ));
                    assert(lookup_get(old_st.buffer(), kd_end, segsC, k) == old_st.spec_get(k));
                }
            }
        }

    }
}
} // verus!
