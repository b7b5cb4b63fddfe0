//! Segment pairs and the volume: the byte image of the store's directory.
//!
//! A [`FilePair`] is one `.data` / `.hint` pair sharing a numeric file-id:
//! here, the bytes those two files hold. A [`Volume`] is the whole
//! directory: every segment pair, and the directory lock. The engine works
//! on the volume; a host process mirrors it onto real files, loading them on
//! open and replaying every append.

use vstd::prelude::*;
use vstd::map::*;
use crate::errors::NotusError;
use crate::clock::now_timestamp_nanos;
use crate::schema::{
    DataEntry, DataEntryV, HintEntry, HintEntryV, data_entry_fits, hint_entry_fits, encode_data,
    encode_hint, decode_data_at, data_crc_ok, scan_hints, hint_stream_clean,
    lemma_data_round_trip, lemma_hint_round_trip, lemma_decode_data_shift, lemma_scan_append,
    lemma_scan_empty, push_bytes, clone_bytes,
};
use crate::datastore::{KeyDirEntry, KeysDir, IndexState};

verus! {

/// The mathematical content of one segment pair.
#[verifier::ext_equal]
pub ghost struct FilePairV {
    pub file_id: u64,
    pub data: Seq<u8>,
    pub hint: Seq<u8>,
}

/// One segment pair: the bytes of its `.data` and `.hint` files.
#[derive(Debug, Clone)]
pub struct FilePair {
    file_id: u64,
    data: Vec<u8>,
    hint: Vec<u8>,
}

impl View for FilePair {
    type V = FilePairV;

    closed spec fn view(&self) -> FilePairV {
        FilePairV { file_id: self.file_id, data: self.data@, hint: self.hint@ }
    }
}

/// What a positioned read of a data record yields: the record, or why not.
pub open spec fn read_result(p: FilePairV, pos: u64) -> Result<DataEntryV, NotusError> {
    if pos > p.data.len() {
        Err(NotusError::CorruptValue)
    } else {
        match decode_data_at(p.data, pos as int) {
            None => Err(NotusError::DecodeFailure),
            Some(d) => if data_crc_ok(d.0) {
                Ok(d.0)
            } else {
                Err(NotusError::CorruptValue)
            },
        }
    }
}

impl FilePair {
    /// A fresh, empty segment pair.
    pub fn new(file_id: u64) -> (r: FilePair)
        ensures
            r@.file_id == file_id,
            r@.data == Seq::<u8>::empty(),
            r@.hint == Seq::<u8>::empty(),
    {
        FilePair { file_id, data: Vec::new(), hint: Vec::new() }
    }

    /// Rebuild a segment pair from bytes a host read off disk.
    pub fn from_bytes(file_id: u64, data: Vec<u8>, hint: Vec<u8>) -> (r: FilePair)
        ensures
            r@.file_id == file_id,
            r@.data == data@,
            r@.hint == hint@,
    {
        FilePair { file_id, data, hint }
    }

    /// The numeric identifier the pair's file names carry.
    pub fn file_id(&self) -> (r: u64)
        ensures
            r == self@.file_id,
    {
        self.file_id
    }

    /// The bytes of the `.data` file.
    pub fn data(&self) -> (r: &Vec<u8>)
        ensures
            r@ == self@.data,
    {
        &self.data
    }

    /// The bytes of the `.hint` file.
    pub fn hint(&self) -> (r: &Vec<u8>)
        ensures
            r@ == self@.hint,
    {
        &self.hint
    }

    /// Read and check the data record at `pos`.
    pub fn read(&self, pos: u64) -> (r: Result<DataEntry, NotusError>)
        ensures
            match read_result(self@, pos) {
                Ok(e) => r is Ok && r->Ok_0@ == e,
                Err(x) => r == Err::<DataEntry, NotusError>(x),
            },
    {
        let n = self.data.len();
        if pos > n as u64 {
            return Err(NotusError::CorruptValue);
        }
        let off = pos as usize;
        match DataEntry::decode(&self.data, off) {
            Err(e) => Err(e),
            Ok((entry, _next)) => {
                if entry.check_crc() {
                    Ok(entry)
                } else {
                    Err(NotusError::CorruptValue)
                }
            },
        }
    }

    /// Append one data record and its hint; where the record begins is
    /// returned inside the key-directory entry.
    pub fn write(&mut self, entry: &DataEntry) -> (r: KeyDirEntry)
        requires
            data_entry_fits(entry@),
            hint_stream_clean(old(self)@.hint),
        ensures
            final(self)@.file_id == old(self)@.file_id,
            final(self)@.data == old(self)@.data + encode_data(entry@),
            hint_stream_clean(final(self)@.hint),
            scan_hints(final(self)@.hint) == scan_hints(old(self)@.hint).push(
                HintEntryV {
                    timestamp: entry@.timestamp,
                    value_size: entry@.value.len() as u32,
                    data_entry_position: old(self)@.data.len() as u64,
                    deleted: false,
                    key: entry@.key,
                },
            ),
            r == (KeyDirEntry {
                file_id: old(self)@.file_id,
                key_size: entry@.key.len() as u32,
                value_size: entry@.value.len() as u32,
                data_entry_position: old(self)@.data.len() as u64,
            }),
            old(self)@.data.len() <= u64::MAX,
            final(self)@.hint.len() >= old(self)@.hint.len() + 25,
            decode_data_at(final(self)@.data, old(self)@.data.len() as int) == Some(
                (entry@, final(self)@.data.len() as int),
            ),
    {
        let pos = self.data.len() as u64;
        let enc = entry.encode();
        push_bytes(&mut self.data, &enc);
        let hint_entry = HintEntry::from(entry, pos);
        let henc = hint_entry.encode();
        push_bytes(&mut self.hint, &henc);
        proof {
            lemma_data_round_trip(entry@);
            lemma_decode_data_shift(old(self)@.data, encode_data(entry@), 0);
            lemma_hint_round_trip(hint_entry@);
            lemma_scan_append(old(self)@.hint, encode_hint(hint_entry@), 0);
        }
        KeyDirEntry::new(self.file_id, entry.key().len() as u32, entry.value_len(), pos)
    }

    /// Append a tombstone hint for `key`; no data record is written.
    pub fn remove(&mut self, key: Vec<u8>)
        requires
            key@.len() <= u32::MAX,
            hint_stream_clean(old(self)@.hint),
        ensures
            final(self)@.file_id == old(self)@.file_id,
            final(self)@.data == old(self)@.data,
            hint_stream_clean(final(self)@.hint),
            scan_hints(final(self)@.hint).len() == scan_hints(old(self)@.hint).len() + 1,
            scan_hints(final(self)@.hint) == scan_hints(old(self)@.hint).push(
                scan_hints(final(self)@.hint).last(),
            ),
            scan_hints(final(self)@.hint).last().deleted == true,
            scan_hints(final(self)@.hint).last().key == key@,
            final(self)@.hint.len() >= old(self)@.hint.len() + 25,
    {
        let ts = match now_timestamp_nanos() {
            Some(t) => if t >= 0 {
                t as u64
            } else {
                0
            },
            None => 0,
        };
        let hint_entry = HintEntry::tombstone(key, ts);
        let henc = hint_entry.encode();
        push_bytes(&mut self.hint, &henc);
        proof {
            lemma_hint_round_trip(hint_entry@);
            lemma_scan_append(old(self)@.hint, encode_hint(hint_entry@), 0);
        }
    }

    /// Every hint record of the pair, in append order.
    pub fn get_hints(&self) -> (r: Vec<HintEntry>)
        ensures
            r@.map_values(|h: HintEntry| h@) == scan_hints(self@.hint),
    {
        crate::schema::decode_hint_stream(&self.hint)
    }

    /// Replay this pair's hints into `keys_dir`: a tombstone removes its
    /// key, any other hint binds its key to this pair at the hint's offset.
    pub fn fetch_hint_entries(&self, keys_dir: &mut KeysDir)
        requires
            old(keys_dir).wf(),
        ensures
            final(keys_dir).wf(),
            final(keys_dir).as_map() == replay_seg(
                old(keys_dir).as_map(),
                scan_hints(self@.hint),
                self@.file_id,
            ),
    {
        let hints = self.get_hints();
        let ghost m0 = keys_dir.as_map();
        let ghost all = scan_hints(self@.hint);
        proof {
            assert(all.skip(0) =~= all);
            crate::schema::lemma_scan_fits(self@.hint, 0);
        }
        let mut i: usize = 0;
        while i < hints.len()
            invariant
                keys_dir.wf(),
                0 <= i <= hints@.len(),
                all == hints@.map_values(|h: HintEntry| h@),
                all == scan_hints(self@.hint),
                replay_seg(m0, all, self@.file_id) == replay_seg(
                    keys_dir.as_map(),
                    all.skip(i as int),
                    self@.file_id,
                ),
            decreases hints@.len() - i,
        {
            let h = &hints[i];
            proof {
                assert(all.skip(i as int).len() > 0);
                assert(all.skip(i as int)[0] == h@);
                assert(all.skip(i as int).skip(1) =~= all.skip(i + 1));
                crate::schema::lemma_scan_fits(self@.hint, 0);
                assert(h@ == all[i as int]);
                assert(hint_entry_fits(h@));
            }
            if h.is_deleted() {
                let key = h.key();
                keys_dir.remove(&key);
            } else {
                let entry = KeyDirEntry::new(
                    self.file_id,
                    h.key_size(),
                    h.value_size(),
                    h.data_entry_position(),
                );
                keys_dir.insert(h.key(), IndexState::Persisted(entry));
            }
            i = i + 1;
        }
        proof {
            assert(all.skip(all.len() as int) =~= Seq::<HintEntryV>::empty());
        }
    }
}

/// One hint applied to the key directory map.
pub open spec fn replay_one(
    m: Map<Seq<u8>, IndexState>,
    h: HintEntryV,
    fid: u64,
) -> Map<Seq<u8>, IndexState> {
    if h.deleted {
        m.remove(h.key)
    } else {
        m.insert(
            h.key,
            IndexState::Persisted(
                KeyDirEntry {
                    file_id: fid,
                    key_size: h.key.len() as u32,
                    value_size: h.value_size,
                    data_entry_position: h.data_entry_position,
                },
            ),
        )
    }
}

/// A segment's hints applied in order.
pub open spec fn replay_seg(
    m: Map<Seq<u8>, IndexState>,
    hs: Seq<HintEntryV>,
    fid: u64,
) -> Map<Seq<u8>, IndexState>
    decreases hs.len(),
{
    if hs.len() == 0 {
        m
    } else {
        replay_seg(replay_one(m, hs[0], fid), hs.skip(1), fid)
    }
}

/// The first `n` segments replayed in order, starting from nothing.
pub open spec fn replay_upto(segs: Seq<FilePairV>, n: int) -> Map<Seq<u8>, IndexState>
    decreases n,
{
    if n <= 0 {
        Map::empty()
    } else {
        replay_seg(replay_upto(segs, n - 1), scan_hints(segs[n - 1].hint), segs[n - 1].file_id)
    }
}

/// The key directory a volume's hints rebuild on open.
pub open spec fn replay_volume(segs: Seq<FilePairV>) -> Map<Seq<u8>, IndexState> {
    replay_upto(segs, segs.len() as int)
}

/// The whole directory: its segment pairs, and the directory lock.
#[derive(Debug)]
pub struct Volume {
    pub locked: bool,
    pub segments: Vec<FilePair>,
}

/// The mathematical content of a volume.
#[verifier::ext_equal]
pub ghost struct VolumeV {
    pub locked: bool,
    pub segments: Seq<FilePairV>,
}

impl View for Volume {
    type V = VolumeV;

    open spec fn view(&self) -> VolumeV {
        VolumeV {
            locked: self.locked,
            segments: self.segments@.map_values(|p: FilePair| p@),
        }
    }
}

impl Volume {
    /// An empty, unlocked directory.
    pub fn new() -> (r: Volume)
        ensures
            r@.locked == false,
            r@.segments == Seq::<FilePairV>::empty(),
    {
        let r = Volume { locked: false, segments: Vec::new() };
        proof {
            assert(r@.segments =~= Seq::<FilePairV>::empty());
        }
        r
    }

    /// Is the directory lock held by an open store?
    pub fn is_locked(&self) -> (r: bool)
        ensures
            r == self@.locked,
    {
        self.locked
    }

    /// How many segment pairs the directory holds.
    pub fn segment_count(&self) -> (r: usize)
        ensures
            r == self@.segments.len(),
    {
        self.segments.len()
    }

    /// The segment pair at position `i`.
    pub fn segment_at(&self, i: usize) -> (r: &FilePair)
        requires
            i < self@.segments.len(),
        ensures
            r@ == self@.segments[i as int],
    {
        &self.segments[i]
    }

    /// Install a segment pair a host read off disk. Pairs must be added in
    /// ascending file-id order for the store to accept the volume.
    pub fn add_segment(&mut self, pair: FilePair)
        ensures
            final(self)@.locked == old(self)@.locked,
            final(self)@.segments == old(self)@.segments.push(pair@),
    {
        self.segments.push(pair);
        proof {
            assert(self@.segments =~= old(self)@.segments.push(pair@));
        }
    }

    /// The bytes the directory occupies: every segment's data and hint
    /// files together, saturating at `u64::MAX`.
    pub fn total_size(&self) -> (r: u64)
        ensures
            vol_size(self@.segments) <= u64::MAX ==> r == vol_size(self@.segments),
    {
        let mut total: u64 = 0;
        let mut i: usize = 0;
        while i < self.segments.len()
            invariant
                0 <= i <= self@.segments.len(),
                vol_size(self@.segments) <= u64::MAX ==> total == vol_size(
                    self@.segments.take(i as int),
                ),
            decreases self@.segments.len() - i,
        {
            proof {
                assert(self@.segments.take(i + 1).drop_last() =~= self@.segments.take(i as int));
                assert(self@.segments.take(i + 1).last() == self@.segments[i as int]);
                lemma_vol_size_prefix(self@.segments, i + 1);
                lemma_vol_size_prefix(self@.segments.take(i + 1), i as int);
            }
            let d = self.segments[i].data.len() as u64;
            let h = self.segments[i].hint.len() as u64;
            let add = if d <= u64::MAX - h {
                d + h
            } else {
                u64::MAX
            };
            total = if total <= u64::MAX - add {
                total + add
            } else {
                u64::MAX
            };
            i = i + 1;
        }
        proof {
            assert(self@.segments.take(self@.segments.len() as int) =~= self@.segments);
        }
        total
    }
}

/// The summed byte size of a sequence of segment pairs.
pub open spec fn vol_size(segs: Seq<FilePairV>) -> int
    decreases segs.len(),
{
    if segs.len() == 0 {
        0
    } else {
        vol_size(segs.drop_last()) + segs.last().data.len() + segs.last().hint.len()
    }
}

/// Prefixes never outweigh the whole.
proof fn lemma_vol_size_prefix(segs: Seq<FilePairV>, n: int)
    requires
        0 <= n <= segs.len(),
    ensures
        vol_size(segs.take(n)) <= vol_size(segs),
        vol_size(segs.take(n)) >= 0,
    decreases segs.len(),
{
    if segs.len() == 0 {
        assert(segs.take(n) =~= segs);
    } else if n == segs.len() {
        assert(segs.take(n) =~= segs);
        lemma_vol_size_prefix(segs.drop_last(), n - 1);
    } else {
        assert(segs.take(n) =~= segs.drop_last().take(n));
        lemma_vol_size_prefix(segs.drop_last(), n);
    }
}

/// Mint a fresh, empty segment pair in the volume, with a file-id above
/// every existing one: the wall clock where it is ahead, the successor of
/// the newest id where it is not.
pub fn create_new_file_pair(vol: &mut Volume) -> (r: Result<u64, NotusError>)
    ensures
        match r {
            Ok(id) => {
                &&& final(vol)@.segments == old(vol)@.segments.push(
                    FilePairV { file_id: id, data: Seq::<u8>::empty(), hint: Seq::<u8>::empty() },
                )
                &&& forall|i: int|
                    0 <= i < old(vol)@.segments.len() ==> (#[trigger] old(
                        vol,
                    )@.segments[i].file_id) < id
                &&& final(vol)@.locked == old(vol)@.locked
            },
            Err(e) => {
                &&& e == NotusError::Unknown
                &&& final(vol)@ == old(vol)@
                &&& exists|i: int|
                    0 <= i < old(vol)@.segments.len() && (#[trigger] old(
                        vol,
                    )@.segments[i].file_id) == u64::MAX
            },
        },
{
    let mut mx: u64 = 0;
    let mut any_max = false;
    let mut i: usize = 0;
    while i < vol.segments.len()
        invariant
            0 <= i <= vol@.segments.len(),
            forall|j: int| 0 <= j < i ==> (#[trigger] vol@.segments[j].file_id) <= mx,
            mx > 0 ==> exists|j: int| 0 <= j < i && (#[trigger] vol@.segments[j].file_id) == mx,
            any_max <==> exists|j: int|
                0 <= j < i && (#[trigger] vol@.segments[j].file_id) == u64::MAX,
        decreases vol@.segments.len() - i,
    {
        let id = self_segment_id(vol, i);
        if id > mx {
            mx = id;
        }
        if id == u64::MAX {
            any_max = true;
        }
        i = i + 1;
    }
    let ts: u64 = match now_timestamp_nanos() {
        Some(t) => if t >= 0 {
            t as u64
        } else {
            0
        },
        None => 0,
    };
    let id: u64 = if ts > mx {
        ts
    } else {
        if mx == u64::MAX {
            return Err(NotusError::Unknown);
        }
        mx + 1
    };
    let pair = FilePair::new(id);
    vol.segments.push(pair);
    proof {
        assert(final(vol)@.segments =~= old(vol)@.segments.push(
            FilePairV { file_id: id, data: Seq::<u8>::empty(), hint: Seq::<u8>::empty() },
        ));
    }
    Ok(id)
}

/// The file-id of the segment at `i`.
fn self_segment_id(vol: &Volume, i: usize) -> (r: u64)
    requires
        i < vol@.segments.len(),
    ensures
        r == vol@.segments[i as int].file_id,
{
    vol.segments[i].file_id
}

/// Replaying one more hint is applying it to the replay of the rest.
pub proof fn lemma_replay_seg_snoc(
    m: Map<Seq<u8>, IndexState>,
    hs: Seq<HintEntryV>,
    h: HintEntryV,
    fid: u64,
)
    ensures
        replay_seg(m, hs.push(h), fid) == replay_one(replay_seg(m, hs, fid), h, fid),
    decreases hs.len(),
{
    if hs.len() == 0 {
        assert(hs.push(h)[0] == h);
        assert(hs.push(h).skip(1) =~= Seq::<HintEntryV>::empty());
        assert(replay_seg(m, hs.push(h), fid) == replay_seg(
            replay_one(m, hs.push(h)[0], fid),
            hs.push(h).skip(1),
            fid,
        ));
        assert(replay_seg(replay_one(m, h, fid), Seq::<HintEntryV>::empty(), fid) == replay_one(
            m,
            h,
            fid,
        ));
    } else {
        assert(hs.push(h)[0] == hs[0]);
        assert(hs.push(h).skip(1) =~= hs.skip(1).push(h));
        lemma_replay_seg_snoc(replay_one(m, hs[0], fid), hs.skip(1), h, fid);
        assert(replay_seg(m, hs.push(h), fid) == replay_seg(
            replay_one(m, hs.push(h)[0], fid),
            hs.push(h).skip(1),
            fid,
        ));
        assert(replay_seg(m, hs, fid) == replay_seg(replay_one(m, hs[0], fid), hs.skip(1), fid));
    }
}

/// The replay of the first `n` segments reads nothing past them.
pub proof fn lemma_replay_upto_same_prefix(a: Seq<FilePairV>, b: Seq<FilePairV>, n: int)
    requires
        n <= a.len(),
        n <= b.len(),
        forall|i: int| 0 <= i < n ==> a[i] == b[i],
    ensures
        replay_upto(a, n) == replay_upto(b, n),
    decreases n,
{
    if n > 0 {
        lemma_replay_upto_same_prefix(a, b, n - 1);
    }
}

/// A fresh, empty segment adds nothing to the replay.
pub proof fn lemma_replay_push_empty(segs: Seq<FilePairV>, p: FilePairV)
    requires
        p.hint == Seq::<u8>::empty(),
    ensures
        replay_volume(segs.push(p)) == replay_volume(segs),
{
    let segs2 = segs.push(p);
    lemma_replay_upto_same_prefix(segs2, segs, segs.len() as int);
    lemma_scan_empty();
    assert(replay_upto(segs2, segs2.len() as int) == replay_seg(
        replay_upto(segs2, segs.len() as int),
        scan_hints(p.hint),
        p.file_id,
    ));
}

/// Appending one hint to the last segment applies exactly that hint to the
/// volume's replay.
pub proof fn lemma_replay_append_hint(segs: Seq<FilePairV>, segs2: Seq<FilePairV>, h: HintEntryV)
    requires
        segs.len() > 0,
        segs2.len() == segs.len(),
        forall|i: int| 0 <= i < segs.len() - 1 ==> segs2[i] == segs[i],
        segs2.last().file_id == segs.last().file_id,
        scan_hints(segs2.last().hint) == scan_hints(segs.last().hint).push(h),
    ensures
        replay_volume(segs2) == replay_one(replay_volume(segs), h, segs.last().file_id),
{
    let n = segs.len() as int;
    lemma_replay_upto_same_prefix(segs2, segs, n - 1);
    assert(segs2[n - 1] == segs2.last());
    assert(segs[n - 1] == segs.last());
    lemma_replay_seg_snoc(
        replay_upto(segs, n - 1),
        scan_hints(segs.last().hint),
        h,
        segs.last().file_id,
    );
}

/// The replay of a segment binds keys only to persisted states.
pub proof fn lemma_replay_seg_persisted(
    m: Map<Seq<u8>, IndexState>,
    hs: Seq<HintEntryV>,
    fid: u64,
)
    requires
        forall|k: Seq<u8>|
            #[trigger] m.contains_key(k) ==> m[k] is Persisted,
    ensures
        forall|k: Seq<u8>|
            #[trigger] replay_seg(m, hs, fid).contains_key(k) ==> replay_seg(m, hs, fid)[k]
                is Persisted,
    decreases hs.len(),
{
    if hs.len() > 0 {
        lemma_replay_seg_persisted(replay_one(m, hs[0], fid), hs.skip(1), fid);
    }
}

/// A volume's replay binds keys only to persisted states.
pub proof fn lemma_replay_upto_persisted(segs: Seq<FilePairV>, n: int)
    ensures
        forall|k: Seq<u8>|
            #[trigger] replay_upto(segs, n).contains_key(k) ==> replay_upto(segs, n)[k]
                is Persisted,
    decreases n,
{
    if n <= 0 {
    } else {
        lemma_replay_upto_persisted(segs, n - 1);
        lemma_replay_seg_persisted(
            replay_upto(segs, n - 1),
            scan_hints(segs[n - 1].hint),
            segs[n - 1].file_id,
        );
    }
}

/// Replaying a segment binds only keys short enough for the wire format.
pub proof fn lemma_replay_seg_key_fits(
    m: Map<Seq<u8>, IndexState>,
    hs: Seq<HintEntryV>,
    fid: u64,
)
    requires
        forall|k: Seq<u8>| #[trigger] m.contains_key(k) ==> k.len() <= u32::MAX,
        forall|i: int| 0 <= i < hs.len() ==> (#[trigger] hs[i]).key.len() <= u32::MAX,
    ensures
        forall|k: Seq<u8>|
            #[trigger] replay_seg(m, hs, fid).contains_key(k) ==> k.len() <= u32::MAX,
    decreases hs.len(),
{
    if hs.len() > 0 {
        assert(hs[0].key.len() <= u32::MAX);
        assert(forall|i: int|
            0 <= i < hs.skip(1).len() ==> (#[trigger] hs.skip(1)[i]).key.len() <= u32::MAX);
        assert forall|k: Seq<u8>| #[trigger] replay_one(m, hs[0], fid).contains_key(k) implies k.len()
            <= u32::MAX by {
            if k != hs[0].key {
                assert(m.contains_key(k));
            }
        }
        lemma_replay_seg_key_fits(replay_one(m, hs[0], fid), hs.skip(1), fid);
        assert(replay_seg(m, hs, fid) == replay_seg(replay_one(m, hs[0], fid), hs.skip(1), fid));
    }
}

/// A volume's replay binds only keys short enough for the wire format.
pub proof fn lemma_replay_upto_key_fits(segs: Seq<FilePairV>, n: int)
    ensures
        forall|k: Seq<u8>|
            #[trigger] replay_upto(segs, n).contains_key(k) ==> k.len() <= u32::MAX,
    decreases n,
{
    if n > 0 {
        lemma_replay_upto_key_fits(segs, n - 1);
        crate::schema::lemma_scan_fits(segs[n - 1].hint, 0);
        lemma_replay_seg_key_fits(
            replay_upto(segs, n - 1),
            scan_hints(segs[n - 1].hint),
            segs[n - 1].file_id,
        );
    }
}

// ---------------------------------------------------------------------------
// File names
// ---------------------------------------------------------------------------

/// The decimal digits of `n`, most significant first, as ASCII bytes.
pub open spec fn dec_rep(n: nat) -> Seq<u8>
    decreases n,
{
    if n < 10 {
        seq![(n + 48) as u8]
    } else {
        dec_rep(n / 10).push(((n % 10) + 48) as u8)
    }
}

/// The ASCII bytes `.data` or `.hint`.
pub open spec fn ext_bytes(is_data: bool) -> Seq<u8> {
    if is_data {
        seq![46u8, 100u8, 97u8, 116u8, 97u8]
    } else {
        seq![46u8, 104u8, 105u8, 110u8, 116u8]
    }
}

/// The file name of one half of a segment pair: the decimal file-id, a
/// dot, and the extension.
pub open spec fn file_name(id: u64, is_data: bool) -> Seq<u8> {
    dec_rep(id as nat) + ext_bytes(is_data)
}

/// The numeric value of a digit string.
pub open spec fn dec_val(s: Seq<u8>) -> nat
    decreases s.len(),
{
    if s.len() == 0 {
        0
    } else {
        dec_val(s.drop_last()) * 10 + (if 48 <= s.last() <= 57 {
            (s.last() - 48) as nat
        } else {
            0
        })
    }
}

/// Only digits, written without a leading zero.
pub open spec fn canonical_digits(s: Seq<u8>) -> bool {
    &&& s.len() > 0
    &&& forall|i: int| 0 <= i < s.len() ==> 48 <= #[trigger] s[i] <= 57
    &&& (s.len() > 1 ==> s[0] != 48)
}

/// What a directory entry's name means: the file-id and which half of the
/// pair it is, if the name is a canonical segment file name of at most
/// nineteen digits.
pub open spec fn spec_parse_name(s: Seq<u8>) -> Option<(u64, bool)> {
    if s.len() >= 6 && {
        let stem = s.take(s.len() - 5);
        let ext = s.skip(s.len() - 5);
        &&& canonical_digits(stem)
        &&& stem.len() <= 19
        &&& (ext == ext_bytes(true) || ext == ext_bytes(false))
    } {
        Some((dec_val(s.take(s.len() - 5)) as u64, s.skip(s.len() - 5) == ext_bytes(true)))
    } else {
        None
    }
}

/// Ten to the `n`.
pub open spec fn pow10(n: nat) -> nat
    decreases n,
{
    if n == 0 {
        1
    } else {
        10 * pow10((n - 1) as nat)
    }
}

/// A digit string's value stays under ten to its length.
proof fn lemma_dec_val_bound(s: Seq<u8>)
    requires
        forall|i: int| 0 <= i < s.len() ==> 48 <= #[trigger] s[i] <= 57,
    ensures
        dec_val(s) < pow10(s.len()),
    decreases s.len(),
{
    if s.len() == 0 {
    } else {
        assert forall|i: int| 0 <= i < s.drop_last().len() implies 48 <= #[trigger] s.drop_last()[i]
            <= 57 by {
            assert(s.drop_last()[i] == s[i]);
        }
        lemma_dec_val_bound(s.drop_last());
    }
}

/// Nineteen digits stay inside a `u64`.
proof fn lemma_pow10_19()
    ensures
        pow10(19) == 10_000_000_000_000_000_000,
{
    assert(pow10(0) == 1);
    assert(pow10(1) == 10);
    assert(pow10(2) == 100);
    assert(pow10(3) == 1000);
    assert(pow10(4) == 10000);
    assert(pow10(5) == 100000);
    assert(pow10(6) == 1000000);
    assert(pow10(7) == 10000000);
    assert(pow10(8) == 100000000);
    assert(pow10(9) == 1000000000);
    assert(pow10(10) == 10000000000);
    assert(pow10(11) == 100000000000);
    assert(pow10(12) == 1000000000000);
    assert(pow10(13) == 10000000000000);
    assert(pow10(14) == 100000000000000);
    assert(pow10(15) == 1000000000000000);
    assert(pow10(16) == 10000000000000000);
    assert(pow10(17) == 100000000000000000);
    assert(pow10(18) == 1000000000000000000);
    assert(pow10(19) == 10000000000000000000);
}

/// Rendering and reading back a decimal are inverse to each other.
proof fn lemma_dec_rep_val(n: nat)
    ensures
        dec_val(dec_rep(n)) == n,
        canonical_digits(dec_rep(n)),
        dec_rep(n).len() >= 1,
        n < 10 ==> dec_rep(n).len() == 1,
        n >= 10 ==> dec_rep(n).len() >= 2,
    decreases n,
{
    if n < 10 {
        let s = dec_rep(n);
        assert(s =~= seq![(n + 48) as u8]);
        assert(s.drop_last() =~= Seq::<u8>::empty());
        assert(s.last() == (n + 48) as u8);
        assert(dec_val(s.drop_last()) == 0);
        assert(48 <= s.last() <= 57);
        assert(dec_val(s) == n);
        assert(s[0] == (n + 48) as u8);
        assert(canonical_digits(s));
    } else {
        lemma_dec_rep_val(n / 10);
        let s = dec_rep(n);
        assert(s =~= dec_rep(n / 10).push(((n % 10) + 48) as u8));
        assert(s.drop_last() =~= dec_rep(n / 10));
        assert(s.last() == ((n % 10) + 48) as u8);
        assert(48 <= s.last() <= 57);
        assert(dec_val(s) == dec_val(dec_rep(n / 10)) * 10 + (n % 10));
        assert(dec_val(s) == n);
        assert(s[0] == dec_rep(n / 10)[0]);
        assert forall|i: int| 0 <= i < s.len() implies 48 <= #[trigger] s[i] <= 57 by {
            if i < s.len() - 1 {
                assert(s[i] == dec_rep(n / 10)[i]);
            }
        }
        if dec_rep(n / 10).len() > 1 {
            assert(s[0] != 48);
        } else {
            assert(n / 10 < 10);
            assert(dec_rep(n / 10) =~= seq![((n / 10) + 48) as u8]);
            assert(n / 10 >= 1);
            assert(s[0] != 48);
        }
        assert(canonical_digits(s));
    }
}

/// Render `n` in decimal.
pub fn render_decimal(n: u64) -> (r: Vec<u8>)
    ensures
        r@ == dec_rep(n as nat),
{
    let mut digits: Vec<u8> = Vec::new();
    let mut m = n;
    loop
        invariant_except_break
            dec_rep(n as nat) == dec_rep(m as nat) + digits@.reverse(),
        ensures
            dec_rep(n as nat) == digits@.reverse(),
        decreases m,
    {
        let ghost digits0 = digits@;
        let d = ((m % 10) as u8) + 48;
        digits.push(d);
        proof {
            assert(digits@.reverse() =~= seq![((m % 10) + 48) as u8] + digits0.reverse());
            if m >= 10 {
                assert(dec_rep(m as nat) =~= dec_rep((m / 10) as nat).push(
                    ((m % 10) + 48) as u8,
                ));
                assert(dec_rep(m as nat) + digits0.reverse() =~= dec_rep((m / 10) as nat)
                    + digits@.reverse());
            } else {
                assert(dec_rep(m as nat) =~= seq![((m % 10) + 48) as u8]);
                assert(dec_rep(m as nat) + digits0.reverse() =~= digits@.reverse());
            }
        }
        if m < 10 {
            break;
        }
        m = m / 10;
    }
    let mut out: Vec<u8> = Vec::new();
    let mut i = digits.len();
    while i > 0
        invariant
            0 <= i <= digits@.len(),
            out@ == digits@.skip(i as int).reverse(),
        decreases i,
    {
        i = i - 1;
        out.push(digits[i]);
        proof {
            assert(digits@.skip(i as int).reverse() =~= digits@.skip(i + 1).reverse().push(
                digits@[i as int],
            ));
        }
    }
    proof {
        assert(digits@.skip(0) =~= digits@);
    }
    out
}

/// The file name of `id`'s data or hint file.
pub fn render_file_name(id: u64, is_data: bool) -> (r: Vec<u8>)
    ensures
        r@ == file_name(id, is_data),
{
    let mut out = render_decimal(id);
    out.push(46);
    if is_data {
        out.push(100);
        out.push(97);
        out.push(116);
        out.push(97);
    } else {
        out.push(104);
        out.push(105);
        out.push(110);
        out.push(116);
    }
    proof {
        assert(out@ =~= file_name(id, is_data));
    }
    out
}

/// Parse a directory entry's name as a segment file name.
pub fn parse_file_name(s: &Vec<u8>) -> (r: Option<(u64, bool)>)
    ensures
        r == spec_parse_name(s@),
{
    let n = s.len();
    if n < 6 {
        return None;
    }
    let stem_len = n - 5;
    if stem_len > 19 {
        return None;
    }
    // the extension
    let is_data = s[stem_len] == 46 && s[stem_len + 1] == 100 && s[stem_len + 2] == 97 && s[stem_len
        + 3] == 116 && s[stem_len + 4] == 97;
    let is_hint = s[stem_len] == 46 && s[stem_len + 1] == 104 && s[stem_len + 2] == 105 && s[stem_len
        + 3] == 110 && s[stem_len + 4] == 116;
    proof {
        let ext = s@.skip(stem_len as int);
        assert(ext.len() == 5);
        assert(ext[0] == s@[stem_len as int]);
        assert(ext[1] == s@[stem_len + 1]);
        assert(ext[2] == s@[stem_len + 2]);
        assert(ext[3] == s@[stem_len + 3]);
        assert(ext[4] == s@[stem_len + 4]);
        assert(is_data <==> ext =~= ext_bytes(true));
        assert(is_hint <==> ext =~= ext_bytes(false));
    }
    if !is_data && !is_hint {
        return None;
    }
    let ghost stem = s@.take(stem_len as int);
    if stem_len > 1 && s[0] == 48 {
        proof {
            assert(stem[0] == s@[0]);
            assert(!canonical_digits(stem));
        }
        return None;
    }
    proof {
        lemma_pow10_19();
        assert(stem.take(0) =~= Seq::<u8>::empty());
        lemma_pow10_monotone(0nat, 19nat);
    }
    let mut value: u64 = 0;
    let mut i: usize = 0;
    while i < stem_len
        invariant
            0 <= i <= stem_len,
            stem_len <= 19,
            stem_len == s@.len() - 5,
            stem == s@.take(stem_len as int),
            forall|j: int| 0 <= j < i ==> 48 <= #[trigger] stem[j] <= 57,
            value == dec_val(stem.take(i as int)),
            value < pow10(i as nat),
            pow10(i as nat) <= pow10(19),
        decreases stem_len - i,
    {
        let c = s[i];
        if c < 48 || c > 57 {
            proof {
                assert(stem[i as int] == c);
                assert(!canonical_digits(stem));
            }
            return None;
        }
        proof {
            lemma_pow10_19();
            lemma_pow10_monotone((i + 1) as nat, 19nat);
            assert(stem.take(i + 1).drop_last() =~= stem.take(i as int));
            assert(stem.take(i + 1).last() == stem[i as int]);
            assert(stem[i as int] == c);
            assert(pow10((i + 1) as nat) == 10 * pow10(i as nat));
        }
        value = value * 10 + ((c - 48) as u64);
        i = i + 1;
    }
    proof {
        lemma_pow10_19();
        assert(stem.take(stem_len as int) =~= stem);
        assert(canonical_digits(stem));
        assert(spec_parse_name(s@) == Some((dec_val(stem) as u64, s@.skip(stem_len as int)
            == ext_bytes(true))));
    }
    Some((value, is_data))
}

/// Powers of ten grow with the exponent.
proof fn lemma_pow10_monotone(a: nat, b: nat)
    requires
        a <= b,
    ensures
        pow10(a) <= pow10(b),
    decreases b,
{
    if a < b {
        lemma_pow10_monotone(a, (b - 1) as nat);
        assert(pow10(b) == 10 * pow10((b - 1) as nat));
    }
}

/// A canonical digit string with a nonzero lead has a positive value.
proof fn lemma_dec_val_pos(t: Seq<u8>)
    requires
        canonical_digits(t),
        t[0] != 48,
    ensures
        dec_val(t) >= 1,
    decreases t.len(),
{
    if t.len() == 1 {
        assert(t.last() == t[0]);
    } else {
        let b = t.drop_last();
        assert(b[0] == t[0]);
        assert forall|i: int| 0 <= i < b.len() implies 48 <= #[trigger] b[i] <= 57 by {
            assert(b[i] == t[i]);
        }
        lemma_dec_val_pos(b);
    }
}

/// Reading a canonical digit string and rendering the value gives the
/// string back.
proof fn lemma_canonical_dec_rep(s: Seq<u8>)
    requires
        canonical_digits(s),
    ensures
        dec_rep(dec_val(s)) == s,
    decreases s.len(),
{
    if s.len() == 1 {
        assert(s.last() == s[0]);
        assert(s.drop_last() =~= Seq::<u8>::empty());
        assert(dec_val(s) == (s[0] - 48) as nat);
        assert(dec_rep(dec_val(s)) =~= s);
    } else {
        let b = s.drop_last();
        let d = (s.last() - 48) as nat;
        assert(b[0] == s[0]);
        assert(b[0] != 48);
        assert forall|i: int| 0 <= i < b.len() implies 48 <= #[trigger] b[i] <= 57 by {
            assert(b[i] == s[i]);
        }
        assert(canonical_digits(b));
        lemma_canonical_dec_rep(b);
        lemma_dec_val_pos(b);
        assert(dec_val(s) == dec_val(b) * 10 + d);
        assert(dec_val(s) / 10 == dec_val(b));
        assert(dec_val(s) % 10 == d);
        assert(dec_val(s) >= 10);
        assert(dec_rep(dec_val(s)) == dec_rep(dec_val(b)).push((d + 48) as u8));
        assert(dec_rep(dec_val(s)) =~= s);
    }
}

/// A segment file name parses back to its id and kind, and nothing else
/// parses to them.
pub proof fn lemma_parse_file_name(s: Seq<u8>, id: u64, is_data: bool)
    requires
        id < 10_000_000_000_000_000_000,
    ensures
        spec_parse_name(s) == Some((id, is_data)) <==> s == file_name(id, is_data),
{
    lemma_dec_rep_val(id as nat);
    lemma_pow10_19();
    lemma_dec_val_bound(dec_rep(id as nat));
    if s == file_name(id, is_data) {
        let w = file_name(id, is_data);
        assert(w.take(w.len() - 5) =~= dec_rep(id as nat));
        assert(w.skip(w.len() - 5) =~= ext_bytes(is_data));
        assert(ext_bytes(true)[1] != ext_bytes(false)[1]);
        if dec_rep(id as nat).len() > 19 {
            assert(id >= 10);
            lemma_dec_rep_lower(id as nat);
            lemma_pow10_monotone(19nat, (dec_rep(id as nat).len() - 1) as nat);
        }
        assert(spec_parse_name(w) == Some((id, is_data)));
    }
    if spec_parse_name(s) == Some((id, is_data)) {
        let stem = s.take(s.len() - 5);
        lemma_canonical_dec_rep(stem);
        lemma_dec_val_bound(stem);
        lemma_pow10_monotone(stem.len(), 19nat);
        assert(dec_val(stem) < pow10(19));
        assert(dec_val(stem) == id as nat);
        assert(s =~= stem + s.skip(s.len() - 5));
        if is_data {
            assert(s.skip(s.len() - 5) == ext_bytes(true));
        } else {
            assert(ext_bytes(true)[1] != ext_bytes(false)[1]);
            assert(s.skip(s.len() - 5) == ext_bytes(false));
        }
    }
}

/// A decimal rendering of `n` digits stands for at least ten to the
/// `n - 1`.
proof fn lemma_dec_rep_lower(n: nat)
    requires
        n >= 1,
    ensures
        n >= pow10((dec_rep(n).len() - 1) as nat),
    decreases n,
{
    lemma_dec_rep_val(n);
    if n < 10 {
        assert(pow10(0) == 1);
    } else {
        lemma_dec_rep_lower(n / 10);
        lemma_dec_rep_val(n / 10);
        assert(dec_rep(n).len() == dec_rep(n / 10).len() + 1);
        assert(n >= 10 * (n / 10));
        assert(pow10(dec_rep(n / 10).len() as nat) == 10 * pow10(
            (dec_rep(n / 10).len() - 1) as nat,
        ));
    }
}

impl FilePair {
    /// The name of the pair's `.data` file.
    pub fn data_file_path(&self) -> (r: Vec<u8>)
        ensures
            r@ == file_name(self@.file_id, true),
    {
        render_file_name(self.file_id, true)
    }

    /// The name of the pair's `.hint` file.
    pub fn hint_file_path(&self) -> (r: Vec<u8>)
        ensures
            r@ == file_name(self@.file_id, false),
    {
        render_file_name(self.file_id, false)
    }
}

/// Which halves of one segment pair a directory listing holds.
#[derive(Debug, Clone, Copy, PartialEq, Eq, Structural)]
pub struct PairFiles {
    pub file_id: u64,
    pub has_data: bool,
    pub has_hint: bool,
}

/// The byte sequences of a listing's names.
pub open spec fn names_views(ns: Seq<Vec<u8>>) -> Seq<Seq<u8>> {
    ns.map_values(|v: Vec<u8>| v@)
}

/// Some name among the first `p` parses to this id and kind.
pub open spec fn listed(nsv: Seq<Seq<u8>>, p: int, id: u64, is_data: bool) -> bool {
    exists|j: int| 0 <= j < p && spec_parse_name(#[trigger] nsv[j]) == Some((id, is_data))
}

/// Group a directory listing into segment pairs: every name that parses as
/// `<decimal id>.data` or `<decimal id>.hint` is slotted by id; everything
/// else is ignored. Ids come back ascending, each once.
pub fn fetch_file_pairs(names: &Vec<Vec<u8>>) -> (r: Vec<PairFiles>)
    ensures
        forall|a: int, b: int|
            0 <= a < b < r@.len() ==> (#[trigger] r@[a].file_id) < (#[trigger] r@[b].file_id),
        forall|i: int|
            0 <= i < r@.len() ==> ((#[trigger] r@[i]).has_data == listed(
                names_views(names@),
                names@.len() as int,
                r@[i].file_id,
                true,
            ) && r@[i].has_hint == listed(
                names_views(names@),
                names@.len() as int,
                r@[i].file_id,
                false,
            ) && (r@[i].has_data || r@[i].has_hint)),
        forall|id: u64, b: bool|
            #[trigger] listed(names_views(names@), names@.len() as int, id, b) ==> exists|i: int|
                0 <= i < r@.len() && (#[trigger] r@[i]).file_id == id,
{
    let ghost nsv = names_views(names@);
    let mut out: Vec<PairFiles> = Vec::new();
    let mut p: usize = 0;
    while p < names.len()
        invariant
            0 <= p <= names@.len(),
            nsv == names_views(names@),
            forall|a: int, b: int|
                0 <= a < b < out@.len() ==> (#[trigger] out@[a].file_id) < (
                #[trigger] out@[b].file_id),
            forall|i: int|
                0 <= i < out@.len() ==> ((#[trigger] out@[i]).has_data == listed(
                    nsv,
                    p as int,
                    out@[i].file_id,
                    true,
                ) && out@[i].has_hint == listed(nsv, p as int, out@[i].file_id, false) && (
                out@[i].has_data || out@[i].has_hint)),
            forall|id: u64, b: bool|
                #[trigger] listed(nsv, p as int, id, b) ==> exists|i: int|
                    0 <= i < out@.len() && (#[trigger] out@[i]).file_id == id,
        decreases names@.len() - p,
    {
        let ghost out0 = out@;
        match parse_file_name(&names[p]) {
            None => {
                proof {
                    lemma_listed_step(nsv, p as int, None);
                }
            },
            Some((id, is_data)) => {
                let mut lo: usize = 0;
                while lo < out.len() && out[lo].file_id < id
                    invariant
                        0 <= lo <= out@.len(),
                        out@ == out0,
                        forall|j: int| 0 <= j < lo ==> (#[trigger] out@[j].file_id) < id,
                    decreases out@.len() - lo,
                {
                    lo = lo + 1;
                }
                if lo < out.len() && out[lo].file_id == id {
                    let cur = out[lo];
                    let updated = PairFiles {
                        file_id: id,
                        has_data: cur.has_data || is_data,
                        has_hint: cur.has_hint || !is_data,
                    };
                    out.set(lo, updated);
                    proof {
                        lemma_listed_step(nsv, p as int, Some((id, is_data)));
                        assert(out@ =~= out0.update(lo as int, updated));
                        assert forall|i: int|
                            0 <= i < out@.len() implies ((#[trigger] out@[i]).has_data == listed(
                            nsv,
                            p + 1,
                            out@[i].file_id,
                            true,
                        ) && out@[i].has_hint == listed(nsv, p + 1, out@[i].file_id, false) && (
                        out@[i].has_data || out@[i].has_hint)) by {
                            if i != lo {
                                assert(out@[i] == out0[i]);
                                assert(out@[i].file_id != id);
                            }
                        }
                        assert forall|id2: u64, b: bool| #[trigger] listed(nsv, p + 1, id2, b) implies exists|
                            i: int,
                        | 0 <= i < out@.len() && (#[trigger] out@[i]).file_id == id2 by {
                            if id2 == id {
                                assert(out@[lo as int].file_id == id2);
                            } else {
                                assert(listed(nsv, p as int, id2, b));
                                let i = choose|i: int|
                                    0 <= i < out0.len() && (#[trigger] out0[i]).file_id == id2;
                                assert(out@[i].file_id == id2);
                            }
                        }
                    }
                } else {
                    let fresh = PairFiles { file_id: id, has_data: is_data, has_hint: !is_data };
                    out.insert(lo, fresh);
                    proof {
                        lemma_listed_step(nsv, p as int, Some((id, is_data)));
                        assert(out@ =~= out0.insert(lo as int, fresh));
                        assert forall|a: int, b: int| 0 <= a < b < out@.len() implies (
                        #[trigger] out@[a].file_id) < (#[trigger] out@[b].file_id) by {
                            if a < lo && b == lo {
                                assert(out@[a] == out0[a]);
                            } else if a == lo && b > lo {
                                assert(out@[b] == out0[b - 1]);
                            } else if a < lo && b > lo {
                                assert(out@[a] == out0[a]);
                                assert(out@[b] == out0[b - 1]);
                            } else if b < lo {
                                assert(out@[a] == out0[a]);
                                assert(out@[b] == out0[b]);
                            } else if a > lo {
                                assert(out@[a] == out0[a - 1]);
                                assert(out@[b] == out0[b - 1]);
                            }
                        }
                        assert forall|i: int|
                            0 <= i < out@.len() implies ((#[trigger] out@[i]).has_data == listed(
                            nsv,
                            p + 1,
                            out@[i].file_id,
                            true,
                        ) && out@[i].has_hint == listed(nsv, p + 1, out@[i].file_id, false) && (
                        out@[i].has_data || out@[i].has_hint)) by {
                            if i < lo {
                                assert(out@[i] == out0[i]);
                                assert(out@[i].file_id != id);
                            } else if i > lo {
                                assert(out@[i] == out0[i - 1]);
                                assert(out@[i].file_id != id);
                            } else {
                                assert(!listed(nsv, p as int, id, true) && !listed(
                                    nsv,
                                    p as int,
                                    id,
                                    false,
                                )) by {
                                    if listed(nsv, p as int, id, true) || listed(
                                        nsv,
                                        p as int,
                                        id,
                                        false,
                                    ) {
                                        let i2 = choose|i2: int|
                                            0 <= i2 < out0.len() && (#[trigger] out0[i2]).file_id
                                                == id;
                                        if i2 < lo {
                                        }
                                    }
                                }
                            }
                        }
                        assert forall|id2: u64, b: bool| #[trigger] listed(nsv, p + 1, id2, b) implies exists|
                            i: int,
                        | 0 <= i < out@.len() && (#[trigger] out@[i]).file_id == id2 by {
                            if id2 == id {
                                assert(out@[lo as int].file_id == id2);
                            } else {
                                assert(listed(nsv, p as int, id2, b));
                                let i = choose|i: int|
                                    0 <= i < out0.len() && (#[trigger] out0[i]).file_id == id2;
                                if i < lo {
                                    assert(out@[i].file_id == id2);
                                } else {
                                    assert(out@[i + 1].file_id == id2);
                                }
                            }
                        }
                    }
                }
            },
        }
        p = p + 1;
    }
    out
}

/// One more name extends what is listed by exactly its parse.
proof fn lemma_listed_step(nsv: Seq<Seq<u8>>, p: int, parsed: Option<(u64, bool)>)
    requires
        0 <= p < nsv.len(),
        spec_parse_name(nsv[p]) == parsed,
    ensures
        forall|id: u64, b: bool|
            #[trigger] listed(nsv, p + 1, id, b) <==> (listed(nsv, p, id, b) || parsed == Some(
                (id, b),
            )),
{
    assert forall|id: u64, b: bool| #[trigger] listed(nsv, p + 1, id, b) implies (listed(
        nsv,
        p,
        id,
        b,
    ) || parsed == Some((id, b))) by {
        let j = choose|j: int|
            0 <= j < p + 1 && spec_parse_name(#[trigger] nsv[j]) == Some((id, b));
        if j < p {
            assert(listed(nsv, p, id, b));
        }
    }
    assert forall|id: u64, b: bool|
        (listed(nsv, p, id, b) || parsed == Some((id, b))) implies #[trigger] listed(
        nsv,
        p + 1,
        id,
        b,
    ) by {
        if listed(nsv, p, id, b) {
            let j = choose|j: int|
                0 <= j < p && spec_parse_name(#[trigger] nsv[j]) == Some((id, b));
            assert(spec_parse_name(nsv[j]) == Some((id, b)));
        } else {
            assert(spec_parse_name(nsv[p]) == Some((id, b)));
        }
    }
}

// ---------------------------------------------------------------------------
// Hint recovery
// ---------------------------------------------------------------------------

/// The hint that a data record at `off` would have been written with.
pub open spec fn derived_hint_of(e: DataEntryV, off: int) -> HintEntryV {
    HintEntryV {
        timestamp: e.timestamp,
        value_size: e.value.len() as u32,
        data_entry_position: off as u64,
        deleted: false,
        key: e.key,
    }
}

/// The hint stream derived by scanning a data stream from `off`: one hint
/// per whole record, in order, stopping at the first position that holds
/// no record.
pub open spec fn derived_hint_bytes(b: Seq<u8>, off: int) -> Seq<u8>
    decreases b.len() - off,
{
    match decode_data_at(b, off) {
        Some(p) => encode_hint(derived_hint_of(p.0, off)) + derived_hint_bytes(b, p.1),
        None => Seq::<u8>::empty(),
    }
}

/// A segment pair as the store accepts it: a pair whose hint file is
/// missing while its data file holds records gets the hint stream derived
/// from those records.
pub open spec fn repaired_pair(p: FilePairV) -> FilePairV {
    if p.hint.len() == 0 && p.data.len() > 0 {
        FilePairV { file_id: p.file_id, data: p.data, hint: derived_hint_bytes(p.data, 0) }
    } else {
        p
    }
}

/// Every pair of a listing, repaired.
pub open spec fn repaired_segs(s: Seq<FilePairV>) -> Seq<FilePairV> {
    s.map_values(|p: FilePairV| repaired_pair(p))
}

impl FilePair {
    /// Recover a missing hint file: when the pair has data records but no
    /// hint stream at all, scan the data sequentially and derive the hint
    /// each record would have been written with.
    pub fn rebuild_missing_hint(&mut self)
        ensures
            final(self)@ == repaired_pair(old(self)@),
    {
        if !(self.hint.len() == 0 && self.data.len() > 0) {
            return ;
        }
        let mut out: Vec<u8> = Vec::new();
        let mut off: usize = 0;
        loop
            invariant
                off <= self.data.len(),
                self@ == old(self)@,
                derived_hint_bytes(self@.data, 0) == out@ + derived_hint_bytes(
                    self@.data,
                    off as int,
                ),
            ensures
                self@ == old(self)@,
                derived_hint_bytes(self@.data, 0) == out@,
            decreases self@.data.len() - off,
        {
            match DataEntry::decode(&self.data, off) {
                Ok((entry, next)) => {
                    let hint_entry = HintEntry::from(&entry, off as u64);
                    let henc = hint_entry.encode();
                    proof {
                        assert(hint_entry@ == derived_hint_of(entry@, off as int));
                        assert(out@ + derived_hint_bytes(self@.data, off as int) =~= (out@
                            + henc@) + derived_hint_bytes(self@.data, next as int));
                    }
                    push_bytes(&mut out, &henc);
                    off = next;
                },
                Err(_) => {
                    proof {
                        assert(out@ + derived_hint_bytes(self@.data, off as int) =~= out@);
                    }
                    break;
                },
            }
        }
        self.hint = out;
        proof {
            assert(self@ =~= repaired_pair(old(self)@));
        }
    }
}

/// Repair is idempotent: a repaired pair repairs to itself.
pub proof fn lemma_repaired_idempotent(p: FilePairV)
    ensures
        repaired_pair(repaired_pair(p)) == repaired_pair(p),
{
}

} // verus!
