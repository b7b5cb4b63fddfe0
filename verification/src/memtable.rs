//! The write buffer: unflushed puts and deletes, resident in memory.
//!
//! Entries are kept sorted by key. A delete leaves a tombstone entry so a
//! later read knows the key is gone without consulting the key directory.
//! The table tracks its own footprint: key bytes, value bytes, and nine
//! bytes of fixed cost (timestamp and tombstone flag) per entry.

use vstd::prelude::*;
use vstd::map::*;
use vstd::pervasive::VecAdditionalExecFns;
use crate::keybytes::{KeyOrder, lex_lt, key_cmp, lemma_lex_asymmetric, lemma_lex_transitive};
use crate::schema::clone_bytes;
use crate::clock::now_timestamp_secs;

verus! {

/// The mathematical content of one buffered entry.
#[verifier::ext_equal]
pub ghost struct MemTableEntryV {
    pub key: Seq<u8>,
    pub value: Option<Seq<u8>>,
    pub tombstone: bool,
    pub timestamp: i64,
}

/// One buffered put (a value) or delete (a tombstone).
#[derive(Debug, Clone)]
pub struct MemTableEntry {
    pub key: Vec<u8>,
    pub value: Option<Vec<u8>>,
    pub tombstone: bool,
    pub timestamp: i64,
}

impl View for MemTableEntry {
    type V = MemTableEntryV;

    open spec fn view(&self) -> MemTableEntryV {
        MemTableEntryV {
            key: self.key@,
            value: match self.value {
                Some(v) => Some(v@),
                None => None,
            },
            tombstone: self.tombstone,
            timestamp: self.timestamp,
        }
    }
}

/// The bytes an entry accounts for: key, value if any, and nine fixed.
pub open spec fn entry_weight(e: MemTableEntryV) -> int {
    e.key.len() + (match e.value {
        Some(v) => v.len() as int,
        None => 0int,
    }) + 9
}

/// The write buffer.
#[derive(Debug)]
pub struct MemTable {
    entries: Vec<MemTableEntry>,
    size: usize,
}

/// The map held by a sequence of entries: later entries win.
spec fn mem_to_map(s: Seq<MemTableEntry>) -> Map<Seq<u8>, MemTableEntryV>
    decreases s.len(),
{
    if s.len() == 0 {
        Map::empty()
    } else {
        mem_to_map(s.drop_last()).insert(s.last().key@, s.last()@)
    }
}

/// Strictly ascending keys: sorted, with no duplicates.
spec fn mem_sorted(s: Seq<MemTableEntry>) -> bool {
    forall|i: int, j: int|
        0 <= i < j < s.len() ==> lex_lt(#[trigger] s[i].key@, #[trigger] s[j].key@)
}

/// The summed weight of a sequence of entries.
spec fn mem_weight(s: Seq<MemTableEntry>) -> int
    decreases s.len(),
{
    if s.len() == 0 {
        0
    } else {
        mem_weight(s.drop_last()) + entry_weight(s.last()@)
    }
}

/// Membership in the represented map is membership among the entries.
proof fn lemma_mem_map_contains(s: Seq<MemTableEntry>, k: Seq<u8>)
    ensures
        mem_to_map(s).contains_key(k) <==> exists|i: int|
            0 <= i < s.len() && #[trigger] s[i].key@ == k,
    decreases s.len(),
{
    if s.len() == 0 {
    } else {
        lemma_mem_map_contains(s.drop_last(), k);
        if s.last().key@ == k {
            assert(s[s.len() - 1].key@ == k);
        } else if mem_to_map(s).contains_key(k) {
            let i = choose|i: int| 0 <= i < s.len() - 1 && #[trigger] s.drop_last()[i].key@ == k;
            assert(s[i].key@ == k);
        } else {
            if exists|i: int| 0 <= i < s.len() && #[trigger] s[i].key@ == k {
                let i = choose|i: int| 0 <= i < s.len() && #[trigger] s[i].key@ == k;
                assert(i < s.len() - 1 ==> s.drop_last()[i].key@ == k);
            }
        }
    }
}

/// In a sorted entry sequence, the entry holding `k` gives the map's value.
proof fn lemma_mem_map_at(s: Seq<MemTableEntry>, i: int)
    requires
        mem_sorted(s),
        0 <= i < s.len(),
    ensures
        mem_to_map(s).contains_key(s[i].key@),
        mem_to_map(s)[s[i].key@] == s[i]@,
    decreases s.len(),
{
    if i == s.len() - 1 {
        lemma_mem_map_contains(s, s[i].key@);
    } else {
        assert(lex_lt(s[i].key@, s.last().key@));
        lemma_lex_asymmetric(s[i].key@, s.last().key@);
        assert(s.drop_last()[i] == s[i]);
        lemma_mem_map_at(s.drop_last(), i);
    }
}

/// The whole is at least any one entry's weight, and weights are positive.
proof fn lemma_mem_weight_at(s: Seq<MemTableEntry>, i: int)
    requires
        0 <= i < s.len(),
    ensures
        mem_weight(s) >= entry_weight(s[i]@),
        entry_weight(s[i]@) >= 9,
        mem_weight(s) >= 0,
    decreases s.len(),
{
    lemma_mem_weight_nonneg(s.drop_last());
    if i == s.len() - 1 {
    } else {
        lemma_mem_weight_at(s.drop_last(), i);
    }
}

/// Weights never sum below zero.
proof fn lemma_mem_weight_nonneg(s: Seq<MemTableEntry>)
    ensures
        mem_weight(s) >= 0,
    decreases s.len(),
{
    if s.len() > 0 {
        lemma_mem_weight_nonneg(s.drop_last());
    }
}

/// Replacing the entry at `i` by one with the same key rebinds that key.
proof fn lemma_mem_update(s: Seq<MemTableEntry>, i: int, e: MemTableEntry)
    requires
        mem_sorted(s),
        0 <= i < s.len(),
        e.key@ == s[i].key@,
    ensures
        mem_to_map(s.update(i, e)) == mem_to_map(s).insert(e.key@, e@),
        mem_sorted(s.update(i, e)),
        mem_weight(s.update(i, e)) == mem_weight(s) - entry_weight(s[i]@) + entry_weight(e@),
    decreases s.len(),
{
    let t = s.update(i, e);
    if i == s.len() - 1 {
        assert(t.drop_last() =~= s.drop_last());
        assert(t.last() == e);
    } else {
        assert(t.last() == s.last());
        assert(t.drop_last() =~= s.drop_last().update(i, e));
        lemma_mem_update(s.drop_last(), i, e);
        assert(lex_lt(s[i].key@, s.last().key@));
        lemma_lex_asymmetric(s[i].key@, s.last().key@);
        assert(mem_to_map(t) =~= mem_to_map(s).insert(e.key@, e@));
    }
}

/// Inserting an entry whose key splits the order at `i` binds a fresh key.
proof fn lemma_mem_insert(s: Seq<MemTableEntry>, i: int, e: MemTableEntry)
    requires
        mem_sorted(s),
        0 <= i <= s.len(),
        forall|j: int| 0 <= j < i ==> lex_lt(#[trigger] s[j].key@, e.key@),
        forall|j: int| i <= j < s.len() ==> lex_lt(e.key@, #[trigger] s[j].key@),
    ensures
        mem_to_map(s.insert(i, e)) == mem_to_map(s).insert(e.key@, e@),
        mem_sorted(s.insert(i, e)),
        mem_weight(s.insert(i, e)) == mem_weight(s) + entry_weight(e@),
    decreases s.len(),
{
    let t = s.insert(i, e);
    assert forall|a: int, b: int| 0 <= a < b < t.len() implies lex_lt(
        #[trigger] t[a].key@,
        #[trigger] t[b].key@,
    ) by {
        if a < i && b == i {
        } else if a == i && b > i {
        } else if a < i && b > i {
            assert(t[a] == s[a]);
            assert(t[b] == s[b - 1]);
        }
    }
    if i == s.len() {
        assert(t.drop_last() =~= s);
        assert(t.last() == e);
    } else {
        assert(t.last() == s.last());
        assert(t.drop_last() =~= s.drop_last().insert(i, e));
        lemma_mem_insert(s.drop_last(), i, e);
        assert(lex_lt(e.key@, s.last().key@));
        lemma_lex_asymmetric(e.key@, s.last().key@);
        assert(mem_to_map(t) =~= mem_to_map(s).insert(e.key@, e@));
    }
}

impl MemTable {
    /// The map this buffer represents.
    pub closed spec fn as_map(self) -> Map<Seq<u8>, MemTableEntryV> {
        mem_to_map(self.entries@)
    }

    /// The entries in ascending key order.
    pub closed spec fn entries_seq(self) -> Seq<MemTableEntryV> {
        self.entries@.map_values(|e: MemTableEntry| e@)
    }

    /// The tracked footprint in bytes.
    pub closed spec fn spec_size(self) -> int {
        self.size as int
    }

    /// Sorted entries, and a footprint that is exactly their summed weight.
    pub closed spec fn wf(self) -> bool {
        mem_sorted(self.entries@) && self.size == mem_weight(self.entries@)
    }

    /// An empty buffer.
    pub fn new() -> (r: MemTable)
        ensures
            r.wf(),
            r.as_map() == Map::<Seq<u8>, MemTableEntryV>::empty(),
            r.spec_size() == 0,
    {
        MemTable { entries: Vec::new(), size: 0 }
    }

    /// The bytes the buffer accounts for.
    pub fn size(&self) -> (r: usize)
        ensures
            r == self.spec_size(),
    {
        self.size
    }

    /// How many entries the buffer holds, tombstones included.
    pub fn len(&self) -> (r: usize)
        ensures
            r == self.entries_seq().len(),
    {
        self.entries.len()
    }

    /// The entry at position `i` of the key order.
    pub fn entry_at(&self, i: usize) -> (r: &MemTableEntry)
        requires
            i < self.entries_seq().len(),
        ensures
            r@ == self.entries_seq()[i as int],
    {
        &self.entries[i]
    }

    /// Where, if anywhere, `key` sits among the entries.
    fn get_index(&self, key: &Vec<u8>) -> (r: Result<usize, usize>)
        requires
            self.wf(),
        ensures
            match r {
                Ok(i) => i < self.entries@.len() && self.entries@[i as int].key@ == key@,
                Err(i) => i <= self.entries@.len() && (forall|j: int|
                    0 <= j < i ==> lex_lt(#[trigger] self.entries@[j].key@, key@)) && (forall|
                    j: int,
                |
                    i <= j < self.entries@.len() ==> lex_lt(
                        key@,
                        #[trigger] self.entries@[j].key@,
                    )),
            },
    {
        let mut i: usize = 0;
        while i < self.entries.len()
            invariant
                self.wf(),
                0 <= i <= self.entries@.len(),
                forall|j: int| 0 <= j < i ==> lex_lt(#[trigger] self.entries@[j].key@, key@),
            decreases self.entries@.len() - i,
        {
            match key_cmp(&self.entries[i].key, key) {
                KeyOrder::Less => {
                    i = i + 1;
                },
                KeyOrder::Equal => {
                    return Ok(i);
                },
                KeyOrder::Greater => {
                    proof {
                        assert forall|j: int| i <= j < self.entries@.len() implies lex_lt(
                            key@,
                            #[trigger] self.entries@[j].key@,
                        ) by {
                            if j > i {
                                lemma_lex_transitive(
                                    key@,
                                    self.entries@[i as int].key@,
                                    self.entries@[j].key@,
                                );
                            }
                        }
                    }
                    return Err(i);
                },
            }
        }
        Err(i)
    }

    /// Buffer a put of `key` to `value`, replacing whatever was there.
    pub fn insert(&mut self, key: &Vec<u8>, value: &Vec<u8>)
        requires
            old(self).wf(),
            old(self).spec_size() + key@.len() + value@.len() + 9 <= usize::MAX,
        ensures
            final(self).wf(),
            final(self).as_map().contains_key(key@),
            final(self).as_map() == old(self).as_map().insert(
                key@,
                final(self).as_map()[key@],
            ),
            final(self).as_map()[key@].key == key@,
            final(self).as_map()[key@].value == Some(value@),
            final(self).as_map()[key@].tombstone == false,
            final(self).spec_size() == old(self).spec_size() - (if old(
                self,
            ).as_map().contains_key(key@) {
                entry_weight(old(self).as_map()[key@])
            } else {
                0int
            }) + key@.len() + value@.len() + 9,
    {
        let timestamp = now_timestamp_secs();
        let entry = MemTableEntry {
            key: clone_bytes(key),
            value: Some(clone_bytes(value)),
            tombstone: false,
            timestamp,
        };
        let ghost s0 = self.entries@;
        match self.get_index(key) {
            Ok(i) => {
                proof {
                    lemma_mem_weight_at(s0, i as int);
                    lemma_mem_map_at(s0, i as int);
                }
                let old_weight = match &self.entries[i].value {
                    Some(v) => v.len(),
                    None => 0,
                } + self.entries[i].key.len() + 9;
                let new_size = self.size - old_weight + key.len() + value.len() + 9;
                self.size = new_size;
                self.entries.set(i, entry);
                proof {
                    lemma_mem_update(s0, i as int, self.entries@[i as int]);
                }
            },
            Err(i) => {
                proof {
                    lemma_mem_map_contains(s0, key@);
                    if mem_to_map(s0).contains_key(key@) {
                        let j = choose|j: int| 0 <= j < s0.len() && #[trigger] s0[j].key@ == key@;
                        lemma_lex_asymmetric(key@, s0[j].key@);
                    }
                    lemma_mem_weight_nonneg(s0);
                }
                self.size = self.size + key.len() + value.len() + 9;
                self.entries.insert(i, entry);
                proof {
                    lemma_mem_insert(s0, i as int, self.entries@[i as int]);
                }
            },
        }
    }

    /// Buffer a delete of `key`: a tombstone replaces whatever was there.
    pub fn remove(&mut self, key: &Vec<u8>)
        requires
            old(self).wf(),
            old(self).spec_size() + key@.len() + 9 <= usize::MAX,
        ensures
            final(self).wf(),
            final(self).as_map().contains_key(key@),
            final(self).as_map() == old(self).as_map().insert(
                key@,
                final(self).as_map()[key@],
            ),
            final(self).as_map()[key@].key == key@,
            final(self).as_map()[key@].value is None,
            final(self).as_map()[key@].tombstone == true,
            final(self).spec_size() == old(self).spec_size() - (if old(
                self,
            ).as_map().contains_key(key@) {
                entry_weight(old(self).as_map()[key@])
            } else {
                0int
            }) + key@.len() + 9,
    {
        let timestamp = now_timestamp_secs();
        let entry = MemTableEntry {
            key: clone_bytes(key),
            value: None,
            tombstone: true,
            timestamp,
        };
        let ghost s0 = self.entries@;
        match self.get_index(key) {
            Ok(i) => {
                proof {
                    lemma_mem_weight_at(s0, i as int);
                    lemma_mem_map_at(s0, i as int);
                }
                let old_weight = match &self.entries[i].value {
                    Some(v) => v.len(),
                    None => 0,
                } + self.entries[i].key.len() + 9;
                let new_size = self.size - old_weight + key.len() + 9;
                self.size = new_size;
                self.entries.set(i, entry);
                proof {
                    lemma_mem_update(s0, i as int, self.entries@[i as int]);
                }
            },
            Err(i) => {
                proof {
                    lemma_mem_map_contains(s0, key@);
                    if mem_to_map(s0).contains_key(key@) {
                        let j = choose|j: int| 0 <= j < s0.len() && #[trigger] s0[j].key@ == key@;
                        lemma_lex_asymmetric(key@, s0[j].key@);
                    }
                    lemma_mem_weight_nonneg(s0);
                }
                self.size = self.size + key.len() + 9;
                self.entries.insert(i, entry);
                proof {
                    lemma_mem_insert(s0, i as int, self.entries@[i as int]);
                }
            },
        }
    }

    /// Look up the buffered entry for `key`, tombstone or value.
    pub fn get(&self, key: &Vec<u8>) -> (r: Option<&MemTableEntry>)
        requires
            self.wf(),
        ensures
            r is Some <==> self.as_map().contains_key(key@),
            r is Some ==> r->0@ == self.as_map()[key@],
    {
        match self.get_index(key) {
            Ok(i) => {
                proof {
                    lemma_mem_map_at(self.entries@, i as int);
                }
                Some(&self.entries[i])
            },
            Err(_) => {
                proof {
                    lemma_mem_map_contains(self.entries@, key@);
                    if self.as_map().contains_key(key@) {
                        let i = choose|i: int|
                            0 <= i < self.entries@.len() && #[trigger] self.entries@[i].key@
                                == key@;
                        lemma_lex_asymmetric(key@, self.entries@[i].key@);
                    }
                }
                None
            },
        }
    }

    /// Drop every entry.
    pub fn clear(&mut self)
        ensures
            final(self).wf(),
            final(self).as_map() == Map::<Seq<u8>, MemTableEntryV>::empty(),
            final(self).spec_size() == 0,
    {
        self.entries = Vec::new();
        self.size = 0;
    }

    /// Every entry's key is bound in the map, to that entry.
    pub proof fn lemma_entries_in_map(self)
        requires
            self.wf(),
        ensures
            forall|i: int|
                0 <= i < self.entries_seq().len() ==> self.as_map().contains_key(
                    #[trigger] self.entries_seq()[i].key,
                ) && self.as_map()[self.entries_seq()[i].key] == self.entries_seq()[i],
            forall|i: int, j: int|
                0 <= i < j < self.entries_seq().len() ==> lex_lt(
                    #[trigger] self.entries_seq()[i].key,
                    #[trigger] self.entries_seq()[j].key,
                ),
            forall|k: Seq<u8>|
                #[trigger] self.as_map().contains_key(k) ==> exists|i: int|
                    0 <= i < self.entries_seq().len() && #[trigger] self.entries_seq()[i].key == k,
    {
        assert forall|i: int| 0 <= i < self.entries_seq().len() implies self.as_map().contains_key(
            #[trigger] self.entries_seq()[i].key,
        ) && self.as_map()[self.entries_seq()[i].key] == self.entries_seq()[i] by {
            lemma_mem_map_at(self.entries@, i);
        }
        assert forall|k: Seq<u8>| #[trigger] self.as_map().contains_key(k) implies exists|i: int|
            0 <= i < self.entries_seq().len() && #[trigger] self.entries_seq()[i].key == k by {
            lemma_mem_map_contains(self.entries@, k);
            let i = choose|i: int|
                0 <= i < self.entries@.len() && #[trigger] self.entries@[i].key@ == k;
            assert(self.entries_seq()[i].key == k);
        }
    }
}

} // verus!
