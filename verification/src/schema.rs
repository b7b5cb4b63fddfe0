//! The record codec: the on-disk byte format of data and hint records.
//!
//! A data record is laid out as
//! `crc32 (u32) | timestamp_ns (u64) | key_size (u32) | value_size (u32) | key | value`,
//! a hint record as
//! `timestamp_ns (u64) | key_size (u32) | value_size (u32) | data_offset (u64) | tombstone flag (u8) | key`.
//! All integers are big-endian. The CRC covers every data-record byte after
//! the CRC field itself.

use vstd::prelude::*;
use crate::errors::NotusError;

verus! {

// ---------------------------------------------------------------------------
// Big-endian integer fields
// ---------------------------------------------------------------------------

/// The four bytes of `x`, most significant first.
pub open spec fn u32_be(x: u32) -> Seq<u8> {
    seq![(x >> 24) as u8, (x >> 16) as u8, (x >> 8) as u8, x as u8]
}

/// The eight bytes of `x`, most significant first.
pub open spec fn u64_be(x: u64) -> Seq<u8> {
    seq![
        (x >> 56) as u8,
        (x >> 48) as u8,
        (x >> 40) as u8,
        (x >> 32) as u8,
        (x >> 24) as u8,
        (x >> 16) as u8,
        (x >> 8) as u8,
        x as u8,
    ]
}

/// The `u32` read from four big-endian bytes.
pub open spec fn u32_from_be(b: Seq<u8>) -> u32
    recommends
        b.len() == 4,
{
    ((b[0] as u32) << 24) | ((b[1] as u32) << 16) | ((b[2] as u32) << 8) | (b[3] as u32)
}

/// The `u64` read from eight big-endian bytes.
pub open spec fn u64_from_be(b: Seq<u8>) -> u64
    recommends
        b.len() == 8,
{
    ((b[0] as u64) << 56) | ((b[1] as u64) << 48) | ((b[2] as u64) << 40) | ((b[3] as u64) << 32)
        | ((b[4] as u64) << 24) | ((b[5] as u64) << 16) | ((b[6] as u64) << 8) | (b[7] as u64)
}

/// Reading back the four bytes of `x` gives `x`.
pub proof fn lemma_u32_be_round_trip(x: u32)
    ensures
        u32_from_be(u32_be(x)) == x,
{
    assert((((x >> 24) as u8 as u32) << 24) | (((x >> 16) as u8 as u32) << 16) | (((x >> 8)
        as u8 as u32) << 8) | (x as u8 as u32) == x) by (bit_vector);
}

/// Reading back the eight bytes of `x` gives `x`.
pub proof fn lemma_u64_be_round_trip(x: u64)
    ensures
        u64_from_be(u64_be(x)) == x,
{
    assert((((x >> 56) as u8 as u64) << 56) | (((x >> 48) as u8 as u64) << 48) | (((x >> 40)
        as u8 as u64) << 40) | (((x >> 32) as u8 as u64) << 32) | (((x >> 24) as u8 as u64) << 24)
        | (((x >> 16) as u8 as u64) << 16) | (((x >> 8) as u8 as u64) << 8) | (x as u8 as u64)
        == x) by (bit_vector);
}

/// Append the four big-endian bytes of `x` to `out`.
pub fn push_u32_be(out: &mut Vec<u8>, x: u32)
    ensures
        final(out)@ == old(out)@ + u32_be(x),
{
    out.push((x >> 24) as u8);
    out.push((x >> 16) as u8);
    out.push((x >> 8) as u8);
    out.push(x as u8);
    proof {
        assert(out@ =~= old(out)@ + u32_be(x));
    }
}

/// Append the eight big-endian bytes of `x` to `out`.
pub fn push_u64_be(out: &mut Vec<u8>, x: u64)
    ensures
        final(out)@ == old(out)@ + u64_be(x),
{
    out.push((x >> 56) as u8);
    out.push((x >> 48) as u8);
    out.push((x >> 40) as u8);
    out.push((x >> 32) as u8);
    out.push((x >> 24) as u8);
    out.push((x >> 16) as u8);
    out.push((x >> 8) as u8);
    out.push(x as u8);
    proof {
        assert(out@ =~= old(out)@ + u64_be(x));
    }
}

/// Read a big-endian `u32` from `b` at `off`.
pub fn read_u32_be(b: &Vec<u8>, off: usize) -> (r: u32)
    requires
        off + 4 <= b.len(),
    ensures
        r == u32_from_be(b@.subrange(off as int, off + 4)),
{
    let r = ((b[off] as u32) << 24) | ((b[off + 1] as u32) << 16) | ((b[off + 2] as u32) << 8) | (
    b[off + 3] as u32);
    proof {
        let s = b@.subrange(off as int, off + 4);
        assert(s[0] == b@[off as int]);
        assert(s[1] == b@[off + 1]);
        assert(s[2] == b@[off + 2]);
        assert(s[3] == b@[off + 3]);
    }
    r
}

/// Read a big-endian `u64` from `b` at `off`.
pub fn read_u64_be(b: &Vec<u8>, off: usize) -> (r: u64)
    requires
        off + 8 <= b.len(),
    ensures
        r == u64_from_be(b@.subrange(off as int, off + 8)),
{
    let r = ((b[off] as u64) << 56) | ((b[off + 1] as u64) << 48) | ((b[off + 2] as u64) << 40) | (
    (b[off + 3] as u64) << 32) | ((b[off + 4] as u64) << 24) | ((b[off + 5] as u64) << 16) | ((b[off
        + 6] as u64) << 8) | (b[off + 7] as u64);
    proof {
        let s = b@.subrange(off as int, off + 8);
        assert(s[0] == b@[off as int]);
        assert(s[1] == b@[off + 1]);
        assert(s[2] == b@[off + 2]);
        assert(s[3] == b@[off + 3]);
        assert(s[4] == b@[off + 4]);
        assert(s[5] == b@[off + 5]);
        assert(s[6] == b@[off + 6]);
        assert(s[7] == b@[off + 7]);
    }
    r
}

// ---------------------------------------------------------------------------
// CRC-32
// ---------------------------------------------------------------------------

/// One shift of the reflected CRC-32 register (polynomial `0xEDB88320`).
pub open spec fn crc32_shift(c: u32) -> u32 {
    if c & 1 == 1 {
        (c >> 1) ^ 0xEDB88320
    } else {
        c >> 1
    }
}

/// `n` register shifts in a row.
pub open spec fn crc32_shifts(c: u32, n: nat) -> u32
    decreases n,
{
    if n == 0 {
        c
    } else {
        crc32_shifts(crc32_shift(c), (n - 1) as nat)
    }
}

/// Absorb one byte into the register.
pub open spec fn crc32_step(c: u32, byte: u8) -> u32 {
    crc32_shifts(c ^ (byte as u32), 8)
}

/// Absorb a whole byte sequence.
pub open spec fn crc32_acc(c: u32, s: Seq<u8>) -> u32
    decreases s.len(),
{
    if s.len() == 0 {
        c
    } else {
        crc32_acc(crc32_step(c, s[0]), s.skip(1))
    }
}

/// The CRC-32 checksum of `s`.
pub open spec fn crc32_of(s: Seq<u8>) -> u32 {
    crc32_acc(0xFFFFFFFFu32, s) ^ 0xFFFFFFFFu32
}

/// Absorbing `s.take(i + 1)` is absorbing `s.take(i)` and then `s[i]`.
proof fn lemma_crc32_acc_snoc(c: u32, s: Seq<u8>, i: int)
    requires
        0 <= i < s.len(),
    ensures
        crc32_acc(c, s.take(i + 1)) == crc32_step(crc32_acc(c, s.take(i)), s[i]),
    decreases i,
{
    if i == 0 {
        assert(s.take(1) =~= seq![s[0]]);
        assert(s.take(0) =~= Seq::<u8>::empty());
        assert(s.take(1).skip(1) =~= Seq::<u8>::empty());
        assert(s.take(1)[0] == s[0]);
        assert(crc32_acc(c, s.take(1)) == crc32_acc(crc32_step(c, s.take(1)[0]), s.take(1).skip(
            1,
        )));
        assert(crc32_acc(crc32_step(c, s[0]), Seq::<u8>::empty()) == crc32_step(c, s[0]));
        assert(crc32_acc(c, s.take(0)) == c);
        assert(crc32_acc(c, s.take(i + 1)) == crc32_step(crc32_acc(c, s.take(i)), s[i]));
    } else {
        let t = s.skip(1);
        assert(s.take(i + 1)[0] == s[0]);
        assert(s.take(i)[0] == s[0]);
        assert(s.take(i + 1).skip(1) =~= t.take(i));
        assert(s.take(i).skip(1) =~= t.take(i - 1));
        assert(t[i - 1] == s[i]);
        lemma_crc32_acc_snoc(crc32_step(c, s[0]), t, i - 1);
        assert(crc32_acc(c, s.take(i + 1)) == crc32_acc(crc32_step(c, s.take(i + 1)[0]), s.take(
            i + 1,
        ).skip(1)));
        assert(crc32_acc(c, s.take(i)) == crc32_acc(crc32_step(c, s.take(i)[0]), s.take(i).skip(
            1,
        )));
    }
}

/// Compute the CRC-32 checksum of `data`.
pub fn crc32(data: &Vec<u8>) -> (r: u32)
    ensures
        r == crc32_of(data@),
{
    let mut c: u32 = 0xFFFFFFFF;
    let mut i: usize = 0;
    while i < data.len()
        invariant
            0 <= i <= data@.len(),
            c == crc32_acc(0xFFFFFFFFu32, data@.take(i as int)),
        decreases data@.len() - i,
    {
        let byte = data[i];
        let mut c2: u32 = c ^ (byte as u32);
        let mut j: usize = 0;
        while j < 8
            invariant
                0 <= j <= 8,
                c2 == crc32_shifts(c ^ (byte as u32), j as nat),
            decreases 8 - j,
        {
            proof {
                lemma_crc32_shifts_snoc(c ^ (byte as u32), j as nat);
            }
            if c2 & 1 == 1 {
                c2 = (c2 >> 1) ^ 0xEDB88320;
            } else {
                c2 = c2 >> 1;
            }
            j = j + 1;
        }
        proof {
            lemma_crc32_acc_snoc(0xFFFFFFFFu32, data@, i as int);
        }
        c = c2;
        i = i + 1;
    }
    proof {
        assert(data@.take(data@.len() as int) =~= data@);
    }
    c ^ 0xFFFFFFFF
}

/// One more shift extends a run of shifts on the left.
proof fn lemma_crc32_shifts_snoc(c: u32, n: nat)
    ensures
        crc32_shifts(c, n + 1) == crc32_shift(crc32_shifts(c, n)),
    decreases n,
{
    if n == 0 {
        assert(crc32_shifts(c, 1) == crc32_shifts(crc32_shift(c), 0));
    } else {
        lemma_crc32_shifts_snoc(crc32_shift(c), (n - 1) as nat);
        assert(crc32_shifts(c, n + 1) == crc32_shifts(crc32_shift(c), n));
        assert(crc32_shifts(c, n) == crc32_shifts(crc32_shift(c), (n - 1) as nat));
    }
}

// ---------------------------------------------------------------------------
// Byte-vector helpers
// ---------------------------------------------------------------------------

/// Append every byte of `s` to `out`.
pub fn push_bytes(out: &mut Vec<u8>, s: &Vec<u8>)
    ensures
        final(out)@ == old(out)@ + s@,
{
    let mut i: usize = 0;
    while i < s.len()
        invariant
            0 <= i <= s@.len(),
            out@ == old(out)@ + s@.take(i as int),
        decreases s@.len() - i,
    {
        out.push(s[i]);
        proof {
            assert(old(out)@ + s@.take(i + 1) =~= (old(out)@ + s@.take(i as int)).push(
                s@[i as int],
            ));
        }
        i = i + 1;
    }
    proof {
        assert(s@.take(s@.len() as int) =~= s@);
    }
}

/// A fresh copy of `v`.
pub fn clone_bytes(v: &Vec<u8>) -> (r: Vec<u8>)
    ensures
        r@ == v@,
{
    let mut out: Vec<u8> = Vec::new();
    push_bytes(&mut out, v);
    proof {
        assert(Seq::<u8>::empty() + v@ =~= v@);
    }
    out
}

/// The bytes of `b` from `start` on, `len` of them, as a fresh vector.
pub fn copy_range(b: &Vec<u8>, start: usize, len: usize) -> (r: Vec<u8>)
    requires
        start + len <= b.len(),
    ensures
        r@ == b@.subrange(start as int, start + len),
{
    let mut out: Vec<u8> = Vec::new();
    let mut i: usize = 0;
    while i < len
        invariant
            0 <= i <= len,
            start + len <= b.len(),
            out@ == b@.subrange(start as int, start + i),
        decreases len - i,
    {
        out.push(b[start + i]);
        proof {
            assert(b@.subrange(start as int, start + i + 1) =~= b@.subrange(
                start as int,
                start + i,
            ).push(b@[start + i]));
        }
        i = i + 1;
    }
    out
}

// ---------------------------------------------------------------------------
// Data records
// ---------------------------------------------------------------------------

/// The mathematical content of a data record.
#[verifier::ext_equal]
pub ghost struct DataEntryV {
    pub crc: u32,
    pub timestamp: u64,
    pub key: Seq<u8>,
    pub value: Seq<u8>,
}

/// A record of the `.data` segment: one put of a key and its value.
#[derive(Debug, Clone)]
pub struct DataEntry {
    crc: u32,
    timestamp: u64,
    key: Vec<u8>,
    value: Vec<u8>,
}

impl View for DataEntry {
    type V = DataEntryV;

    closed spec fn view(&self) -> DataEntryV {
        DataEntryV {
            crc: self.crc,
            timestamp: self.timestamp,
            key: self.key@,
            value: self.value@,
        }
    }
}

/// The key and the value each fit the `u32` size fields of the wire format.
pub open spec fn data_entry_fits(e: DataEntryV) -> bool {
    e.key.len() <= u32::MAX && e.value.len() <= u32::MAX
}

/// The bytes the CRC of a data record covers.
pub open spec fn data_payload(e: DataEntryV) -> Seq<u8> {
    u64_be(e.timestamp) + u32_be(e.key.len() as u32) + u32_be(e.value.len() as u32) + e.key
        + e.value
}

/// The stored CRC matches the payload.
pub open spec fn data_crc_ok(e: DataEntryV) -> bool {
    e.crc == crc32_of(data_payload(e))
}

/// The full wire encoding of a data record.
pub open spec fn encode_data(e: DataEntryV) -> Seq<u8> {
    u32_be(e.crc) + data_payload(e)
}

/// Decode one data record of `b` starting at `off`: the record and the
/// position just past it, or nothing if the bytes there do not hold one.
pub open spec fn decode_data_at(b: Seq<u8>, off: int) -> Option<(DataEntryV, int)> {
    if 0 <= off && off + 20 <= b.len() {
        let crc = u32_from_be(b.subrange(off, off + 4));
        let ts = u64_from_be(b.subrange(off + 4, off + 12));
        let ks = u32_from_be(b.subrange(off + 12, off + 16)) as int;
        let vs = u32_from_be(b.subrange(off + 16, off + 20)) as int;
        if off + 20 + ks + vs <= b.len() {
            Some(
                (
                    DataEntryV {
                        crc,
                        timestamp: ts,
                        key: b.subrange(off + 20, off + 20 + ks),
                        value: b.subrange(off + 20 + ks, off + 20 + ks + vs),
                    },
                    off + 20 + ks + vs,
                ),
            )
        } else {
            None
        }
    } else {
        None
    }
}

/// The payload bytes of a data record, built field by field.
fn data_payload_exec(timestamp: u64, key: &Vec<u8>, value: &Vec<u8>) -> (r: Vec<u8>)
    requires
        key@.len() <= u32::MAX,
        value@.len() <= u32::MAX,
    ensures
        r@ == data_payload(
            DataEntryV { crc: 0, timestamp, key: key@, value: value@ },
        ),
{
    let mut out: Vec<u8> = Vec::new();
    push_u64_be(&mut out, timestamp);
    push_u32_be(&mut out, key.len() as u32);
    push_u32_be(&mut out, value.len() as u32);
    push_bytes(&mut out, key);
    push_bytes(&mut out, value);
    proof {
        assert(out@ =~= data_payload(
            DataEntryV { crc: 0, timestamp, key: key@, value: value@ },
        ));
    }
    out
}

impl DataEntry {
    /// A fresh record for one put, stamped with `timestamp_ns` and carrying
    /// the CRC of its own payload.
    pub fn new(key: Vec<u8>, value: Vec<u8>, timestamp_ns: u64) -> (r: DataEntry)
        requires
            key@.len() <= u32::MAX,
            value@.len() <= u32::MAX,
        ensures
            r@.key == key@,
            r@.value == value@,
            r@.timestamp == timestamp_ns,
            data_crc_ok(r@),
    {
        let payload = data_payload_exec(timestamp_ns, &key, &value);
        let crc = crc32(&payload);
        DataEntry { crc, timestamp: timestamp_ns, key, value }
    }

    /// The key the record binds.
    pub fn key(&self) -> (r: &Vec<u8>)
        ensures
            r@ == self@.key,
    {
        &self.key
    }

    /// An owned copy of the value.
    pub fn value(&self) -> (r: Vec<u8>)
        ensures
            r@ == self@.value,
    {
        clone_bytes(&self.value)
    }

    /// The creation timestamp in nanoseconds.
    pub fn timestamp(&self) -> (r: u64)
        ensures
            r == self@.timestamp,
    {
        self.timestamp
    }

    /// Recompute the CRC over the payload and compare it with the stored one.
    pub fn check_crc(&self) -> (r: bool)
        requires
            data_entry_fits(self@),
        ensures
            r == data_crc_ok(self@),
    {
        let payload = data_payload_exec(self.timestamp, &self.key, &self.value);
        let crc = crc32(&payload);
        crc == self.crc
    }

    /// The wire encoding of the record.
    pub fn encode(&self) -> (r: Vec<u8>)
        requires
            data_entry_fits(self@),
        ensures
            r@ == encode_data(self@),
    {
        let mut out: Vec<u8> = Vec::new();
        push_u32_be(&mut out, self.crc);
        push_u64_be(&mut out, self.timestamp);
        push_u32_be(&mut out, self.key.len() as u32);
        push_u32_be(&mut out, self.value.len() as u32);
        push_bytes(&mut out, &self.key);
        push_bytes(&mut out, &self.value);
        proof {
            assert(out@ =~= encode_data(self@));
        }
        out
    }

    /// Decode one data record of `b` at `off`.
    pub fn decode(b: &Vec<u8>, off: usize) -> (r: Result<(DataEntry, usize), NotusError>)
        ensures
            r is Ok <==> decode_data_at(b@, off as int) is Some,
            r is Ok ==> r->Ok_0.0@ == decode_data_at(b@, off as int)->Some_0.0 && r->Ok_0.1
                == decode_data_at(b@, off as int)->Some_0.1,
            r is Err ==> r->Err_0 == NotusError::DecodeFailure,
    {
        let n = b.len();
        if off > n || n - off < 20 {
            return Err(NotusError::DecodeFailure);
        }
        let crc = read_u32_be(b, off);
        let ts = read_u64_be(b, off + 4);
        let ks = read_u32_be(b, off + 12) as usize;
        let vs = read_u32_be(b, off + 16) as usize;
        let rest = n - (off + 20);
        if ks > rest || vs > rest - ks {
            return Err(NotusError::DecodeFailure);
        }
        let key = copy_range(b, off + 20, ks);
        let value = copy_range(b, off + 20 + ks, vs);
        let next = off + 20 + ks + vs;
        let entry = DataEntry { crc, timestamp: ts, key, value };
        proof {
            assert(entry@ =~= decode_data_at(b@, off as int)->Some_0.0);
        }
        Ok((entry, next))
    }
}

/// Decoding an encoded data record gives the record back, whole.
pub proof fn lemma_data_round_trip(e: DataEntryV)
    requires
        data_entry_fits(e),
    ensures
        decode_data_at(encode_data(e), 0) == Some((e, encode_data(e).len() as int)),
{
    let b = encode_data(e);
    let k = e.key.len() as int;
    let v = e.value.len() as int;
    assert(b.len() == 20 + k + v);
    assert(b.subrange(0, 4) =~= u32_be(e.crc));
    assert(b.subrange(4, 12) =~= u64_be(e.timestamp));
    assert(b.subrange(12, 16) =~= u32_be(e.key.len() as u32));
    assert(b.subrange(16, 20) =~= u32_be(e.value.len() as u32));
    lemma_u32_be_round_trip(e.crc);
    lemma_u64_be_round_trip(e.timestamp);
    lemma_u32_be_round_trip(e.key.len() as u32);
    lemma_u32_be_round_trip(e.value.len() as u32);
    assert(b.subrange(20, 20 + k) =~= e.key);
    assert(b.subrange(20 + k, 20 + k + v) =~= e.value);
    assert(decode_data_at(b, 0)->Some_0.0 =~= e);
}

/// A record decoded inside `b` is decoded the same inside `b + ext`.
pub proof fn lemma_decode_data_extend(b: Seq<u8>, ext: Seq<u8>, off: int)
    requires
        decode_data_at(b, off) is Some,
    ensures
        decode_data_at(b + ext, off) == decode_data_at(b, off),
{
    let w = b + ext;
    assert(w.subrange(off, off + 4) =~= b.subrange(off, off + 4));
    assert(w.subrange(off + 4, off + 12) =~= b.subrange(off + 4, off + 12));
    assert(w.subrange(off + 12, off + 16) =~= b.subrange(off + 12, off + 16));
    assert(w.subrange(off + 16, off + 20) =~= b.subrange(off + 16, off + 20));
    let ks = u32_from_be(b.subrange(off + 12, off + 16)) as int;
    let vs = u32_from_be(b.subrange(off + 16, off + 20)) as int;
    assert(w.subrange(off + 20, off + 20 + ks) =~= b.subrange(off + 20, off + 20 + ks));
    assert(w.subrange(off + 20 + ks, off + 20 + ks + vs) =~= b.subrange(
        off + 20 + ks,
        off + 20 + ks + vs,
    ));
    assert(decode_data_at(w, off)->Some_0.0 =~= decode_data_at(b, off)->Some_0.0);
}

/// Decoding after a prefix is decoding within the suffix, shifted.
pub proof fn lemma_decode_data_shift(pre: Seq<u8>, b: Seq<u8>, off: int)
    requires
        0 <= off,
        decode_data_at(b, off) is Some,
    ensures
        decode_data_at(pre + b, pre.len() + off) is Some,
        decode_data_at(pre + b, pre.len() + off)->Some_0.0 == decode_data_at(b, off)->Some_0.0,
        decode_data_at(pre + b, pre.len() + off)->Some_0.1 == pre.len() + decode_data_at(
            b,
            off,
        )->Some_0.1,
{
    let w = pre + b;
    let p = pre.len() as int;
    assert(w.subrange(p + off, p + off + 4) =~= b.subrange(off, off + 4));
    assert(w.subrange(p + off + 4, p + off + 12) =~= b.subrange(off + 4, off + 12));
    assert(w.subrange(p + off + 12, p + off + 16) =~= b.subrange(off + 12, off + 16));
    assert(w.subrange(p + off + 16, p + off + 20) =~= b.subrange(off + 16, off + 20));
    let ks = u32_from_be(b.subrange(off + 12, off + 16)) as int;
    let vs = u32_from_be(b.subrange(off + 16, off + 20)) as int;
    assert(w.subrange(p + off + 20, p + off + 20 + ks) =~= b.subrange(off + 20, off + 20 + ks));
    assert(w.subrange(p + off + 20 + ks, p + off + 20 + ks + vs) =~= b.subrange(
        off + 20 + ks,
        off + 20 + ks + vs,
    ));
    assert(decode_data_at(w, p + off)->Some_0.0 =~= decode_data_at(b, off)->Some_0.0);
}

// ---------------------------------------------------------------------------
// Hint records
// ---------------------------------------------------------------------------

/// The mathematical content of a hint record.
#[verifier::ext_equal]
pub ghost struct HintEntryV {
    pub timestamp: u64,
    pub value_size: u32,
    pub data_entry_position: u64,
    pub deleted: bool,
    pub key: Seq<u8>,
}

/// A record of the `.hint` segment: where one put landed, or a tombstone.
#[derive(Debug, Clone)]
pub struct HintEntry {
    timestamp: u64,
    value_size: u32,
    data_entry_position: u64,
    deleted: bool,
    key: Vec<u8>,
}

impl View for HintEntry {
    type V = HintEntryV;

    closed spec fn view(&self) -> HintEntryV {
        HintEntryV {
            timestamp: self.timestamp,
            value_size: self.value_size,
            data_entry_position: self.data_entry_position,
            deleted: self.deleted,
            key: self.key@,
        }
    }
}

/// The key fits the `u32` size field of the wire format.
pub open spec fn hint_entry_fits(h: HintEntryV) -> bool {
    h.key.len() <= u32::MAX
}

/// The full wire encoding of a hint record.
pub open spec fn encode_hint(h: HintEntryV) -> Seq<u8> {
    u64_be(h.timestamp) + u32_be(h.key.len() as u32) + u32_be(h.value_size) + u64_be(
        h.data_entry_position,
    ) + seq![if h.deleted { 1u8 } else { 0u8 }] + h.key
}

/// Decode one hint record of `b` starting at `off`: the record and the
/// position just past it, or nothing if the bytes there do not hold one.
pub open spec fn decode_hint_at(b: Seq<u8>, off: int) -> Option<(HintEntryV, int)> {
    if 0 <= off && off + 25 <= b.len() {
        let ts = u64_from_be(b.subrange(off, off + 8));
        let ks = u32_from_be(b.subrange(off + 8, off + 12)) as int;
        let vs = u32_from_be(b.subrange(off + 12, off + 16));
        let pos = u64_from_be(b.subrange(off + 16, off + 24));
        let flag = b[off + 24];
        if flag <= 1 && off + 25 + ks <= b.len() {
            Some(
                (
                    HintEntryV {
                        timestamp: ts,
                        value_size: vs,
                        data_entry_position: pos,
                        deleted: flag == 1,
                        key: b.subrange(off + 25, off + 25 + ks),
                    },
                    off + 25 + ks,
                ),
            )
        } else {
            None
        }
    } else {
        None
    }
}

impl HintEntry {
    /// The hint that records where `entry` was appended.
    pub fn from(entry: &DataEntry, data_entry_position: u64) -> (r: HintEntry)
        requires
            data_entry_fits(entry@),
        ensures
            r@.timestamp == entry@.timestamp,
            r@.value_size == entry@.value.len(),
            r@.data_entry_position == data_entry_position,
            r@.deleted == false,
            r@.key == entry@.key,
    {
        HintEntry {
            timestamp: entry.timestamp(),
            value_size: entry.value_len(),
            data_entry_position,
            deleted: false,
            key: clone_bytes(entry.key()),
        }
    }

    /// The hint that records the deletion of `key`.
    pub fn tombstone(key: Vec<u8>, timestamp_ns: u64) -> (r: HintEntry)
        ensures
            r@.timestamp == timestamp_ns,
            r@.value_size == 0,
            r@.data_entry_position == 0,
            r@.deleted == true,
            r@.key == key@,
    {
        HintEntry {
            timestamp: timestamp_ns,
            value_size: 0,
            data_entry_position: 0,
            deleted: true,
            key,
        }
    }

    /// An owned copy of the key.
    pub fn key(&self) -> (r: Vec<u8>)
        ensures
            r@ == self@.key,
    {
        clone_bytes(&self.key)
    }

    /// The length of the key, as the wire format carries it.
    pub fn key_size(&self) -> (r: u32)
        requires
            hint_entry_fits(self@),
        ensures
            r == self@.key.len(),
    {
        self.key.len() as u32
    }

    /// The value length recorded beside the position.
    pub fn value_size(&self) -> (r: u32)
        ensures
            r == self@.value_size,
    {
        self.value_size
    }

    /// The offset of the data record this hint points at.
    pub fn data_entry_position(&self) -> (r: u64)
        ensures
            r == self@.data_entry_position,
    {
        self.data_entry_position
    }

    /// Is this hint a tombstone?
    pub fn is_deleted(&self) -> (r: bool)
        ensures
            r == self@.deleted,
    {
        self.deleted
    }

    /// The creation timestamp in nanoseconds.
    pub fn timestamp(&self) -> (r: u64)
        ensures
            r == self@.timestamp,
    {
        self.timestamp
    }

    /// The wire encoding of the record.
    pub fn encode(&self) -> (r: Vec<u8>)
        requires
            hint_entry_fits(self@),
        ensures
            r@ == encode_hint(self@),
    {
        let mut out: Vec<u8> = Vec::new();
        push_u64_be(&mut out, self.timestamp);
        push_u32_be(&mut out, self.key.len() as u32);
        push_u32_be(&mut out, self.value_size);
        push_u64_be(&mut out, self.data_entry_position);
        if self.deleted {
            out.push(1u8);
        } else {
            out.push(0u8);
        }
        push_bytes(&mut out, &self.key);
        proof {
            assert(out@ =~= encode_hint(self@));
        }
        out
    }

    /// Decode one hint record of `b` at `off`.
    pub fn decode(b: &Vec<u8>, off: usize) -> (r: Result<(HintEntry, usize), NotusError>)
        ensures
            r is Ok <==> decode_hint_at(b@, off as int) is Some,
            r is Ok ==> r->Ok_0.0@ == decode_hint_at(b@, off as int)->Some_0.0 && r->Ok_0.1
                == decode_hint_at(b@, off as int)->Some_0.1,
            r is Err ==> r->Err_0 == NotusError::DecodeFailure,
    {
        let n = b.len();
        if off > n || n - off < 25 {
            return Err(NotusError::DecodeFailure);
        }
        let ts = read_u64_be(b, off);
        let ks = read_u32_be(b, off + 8) as usize;
        let vs = read_u32_be(b, off + 12);
        let pos = read_u64_be(b, off + 16);
        let flag = b[off + 24];
        let rest = n - (off + 25);
        if flag > 1 || ks > rest {
            return Err(NotusError::DecodeFailure);
        }
        let key = copy_range(b, off + 25, ks);
        let next = off + 25 + ks;
        let entry = HintEntry {
            timestamp: ts,
            value_size: vs,
            data_entry_position: pos,
            deleted: flag == 1,
            key,
        };
        proof {
            assert(entry@ =~= decode_hint_at(b@, off as int)->Some_0.0);
        }
        Ok((entry, next))
    }
}

impl DataEntry {
    /// The length of the value, as the wire format carries it.
    pub fn value_len(&self) -> (r: u32)
        requires
            data_entry_fits(self@),
        ensures
            r == self@.value.len(),
    {
        self.value.len() as u32
    }
}

/// Decoding an encoded hint record gives the record back, whole.
pub proof fn lemma_hint_round_trip(h: HintEntryV)
    requires
        hint_entry_fits(h),
    ensures
        decode_hint_at(encode_hint(h), 0) == Some((h, encode_hint(h).len() as int)),
{
    let b = encode_hint(h);
    let k = h.key.len() as int;
    assert(b.len() == 25 + k);
    assert(b.subrange(0, 8) =~= u64_be(h.timestamp));
    assert(b.subrange(8, 12) =~= u32_be(h.key.len() as u32));
    assert(b.subrange(12, 16) =~= u32_be(h.value_size));
    assert(b.subrange(16, 24) =~= u64_be(h.data_entry_position));
    assert(b[24] == if h.deleted { 1u8 } else { 0u8 });
    lemma_u64_be_round_trip(h.timestamp);
    lemma_u32_be_round_trip(h.key.len() as u32);
    lemma_u32_be_round_trip(h.value_size);
    lemma_u64_be_round_trip(h.data_entry_position);
    assert(b.subrange(25, 25 + k) =~= h.key);
    assert(decode_hint_at(b, 0)->Some_0.0 =~= h);
}

/// A hint decoded inside `b` is decoded the same inside `b + ext`.
pub proof fn lemma_decode_hint_extend(b: Seq<u8>, ext: Seq<u8>, off: int)
    requires
        decode_hint_at(b, off) is Some,
    ensures
        decode_hint_at(b + ext, off) == decode_hint_at(b, off),
{
    let w = b + ext;
    assert(w.subrange(off, off + 8) =~= b.subrange(off, off + 8));
    assert(w.subrange(off + 8, off + 12) =~= b.subrange(off + 8, off + 12));
    assert(w.subrange(off + 12, off + 16) =~= b.subrange(off + 12, off + 16));
    assert(w.subrange(off + 16, off + 24) =~= b.subrange(off + 16, off + 24));
    assert(w[off + 24] == b[off + 24]);
    let ks = u32_from_be(b.subrange(off + 8, off + 12)) as int;
    assert(w.subrange(off + 25, off + 25 + ks) =~= b.subrange(off + 25, off + 25 + ks));
    assert(decode_hint_at(w, off)->Some_0.0 =~= decode_hint_at(b, off)->Some_0.0);
}

/// Decoding after a prefix is decoding within the suffix, shifted.
pub proof fn lemma_decode_hint_shift(pre: Seq<u8>, b: Seq<u8>, off: int)
    requires
        0 <= off,
        decode_hint_at(b, off) is Some,
    ensures
        decode_hint_at(pre + b, pre.len() + off) is Some,
        decode_hint_at(pre + b, pre.len() + off)->Some_0.0 == decode_hint_at(b, off)->Some_0.0,
        decode_hint_at(pre + b, pre.len() + off)->Some_0.1 == pre.len() + decode_hint_at(
            b,
            off,
        )->Some_0.1,
{
    let w = pre + b;
    let p = pre.len() as int;
    assert(w.subrange(p + off, p + off + 8) =~= b.subrange(off, off + 8));
    assert(w.subrange(p + off + 8, p + off + 12) =~= b.subrange(off + 8, off + 12));
    assert(w.subrange(p + off + 12, p + off + 16) =~= b.subrange(off + 12, off + 16));
    assert(w.subrange(p + off + 16, p + off + 24) =~= b.subrange(off + 16, off + 24));
    assert(w[p + off + 24] == b[off + 24]);
    let ks = u32_from_be(b.subrange(off + 8, off + 12)) as int;
    assert(w.subrange(p + off + 25, p + off + 25 + ks) =~= b.subrange(off + 25, off + 25 + ks));
    assert(decode_hint_at(w, p + off)->Some_0.0 =~= decode_hint_at(b, off)->Some_0.0);
}

// ---------------------------------------------------------------------------
// Hint streams
// ---------------------------------------------------------------------------

/// Scan hint records from `off` to the first position that does not hold
/// one: the records found, and where the scan stopped. A torn trailing
/// record is treated as the end of the stream.
pub open spec fn scan_hints_from(b: Seq<u8>, off: int) -> (Seq<HintEntryV>, int)
    decreases b.len() - off,
{
    match decode_hint_at(b, off) {
        Some(p) => {
            let rest = scan_hints_from(b, p.1);
            (seq![p.0] + rest.0, rest.1)
        },
        None => (seq![], off),
    }
}

/// Every hint record of `b`, in append order.
pub open spec fn scan_hints(b: Seq<u8>) -> Seq<HintEntryV> {
    scan_hints_from(b, 0).0
}

/// The stream decodes to its very last byte: no torn tail.
pub open spec fn hint_stream_clean(b: Seq<u8>) -> bool {
    scan_hints_from(b, 0).1 == b.len()
}

/// The empty stream is clean and holds nothing.
pub proof fn lemma_scan_empty()
    ensures
        scan_hints(Seq::<u8>::empty()) == Seq::<HintEntryV>::empty(),
        hint_stream_clean(Seq::<u8>::empty()),
{
    assert(scan_hints_from(Seq::<u8>::empty(), 0).0 =~= Seq::<HintEntryV>::empty());
}

/// Decode every hint record of `b`, stopping cleanly at the first tear.
pub fn decode_hint_stream(b: &Vec<u8>) -> (r: Vec<HintEntry>)
    ensures
        r@.map_values(|h: HintEntry| h@) == scan_hints(b@),
{
    let mut out: Vec<HintEntry> = Vec::new();
    let mut off: usize = 0;
    loop
        invariant
            off <= b.len(),
            scan_hints_from(b@, 0).0 == out@.map_values(|h: HintEntry| h@) + scan_hints_from(
                b@,
                off as int,
            ).0,
        decreases b@.len() - off,
    {
        match HintEntry::decode(b, off) {
            Ok((entry, next)) => {
                proof {
                    assert(out@.push(entry).map_values(|h: HintEntry| h@) =~= out@.map_values(
                        |h: HintEntry| h@,
                    ).push(entry@));
                    assert(out@.map_values(|h: HintEntry| h@) + scan_hints_from(b@, off as int).0
                        =~= out@.push(entry).map_values(|h: HintEntry| h@) + scan_hints_from(
                        b@,
                        next as int,
                    ).0);
                }
                out.push(entry);
                off = next;
            },
            Err(_) => {
                proof {
                    assert(out@.map_values(|h: HintEntry| h@) + scan_hints_from(
                        b@,
                        off as int,
                    ).0 =~= out@.map_values(|h: HintEntry| h@));
                }
                return out;
            },
        }
    }
}

/// Appending one whole record to a clean stream appends exactly that record
/// to the scan, and the stream stays clean.
pub proof fn lemma_scan_append(b: Seq<u8>, enc: Seq<u8>, off: int)
    requires
        0 <= off <= b.len(),
        scan_hints_from(b, off).1 == b.len(),
        decode_hint_at(enc, 0) is Some,
        decode_hint_at(enc, 0)->Some_0.1 == enc.len(),
    ensures
        scan_hints_from(b + enc, off).0 == scan_hints_from(b, off).0.push(
            decode_hint_at(enc, 0)->Some_0.0,
        ),
        scan_hints_from(b + enc, off).1 == b.len() + enc.len(),
    decreases b.len() - off,
{
    let h = decode_hint_at(enc, 0)->Some_0.0;
    if decode_hint_at(b, off) is Some {
        let next = decode_hint_at(b, off)->Some_0.1;
        lemma_decode_hint_extend(b, enc, off);
        lemma_scan_append(b, enc, next);
        assert(scan_hints_from(b + enc, off).0 =~= scan_hints_from(b, off).0.push(h));
    } else {
        assert(scan_hints_from(b, off).0 == Seq::<HintEntryV>::empty());
        assert(off == b.len());
        lemma_decode_hint_shift(b, enc, 0);
        let w = b + enc;
        assert(decode_hint_at(w, off) is Some);
        assert(decode_hint_at(w, off)->Some_0.0 == h);
        assert(decode_hint_at(w, off)->Some_0.1 == b.len() + enc.len());
        assert(decode_hint_at(w, b.len() + enc.len() as int) is None);
        assert(scan_hints_from(w, b.len() + enc.len() as int).0 =~= Seq::<HintEntryV>::empty());
        assert(scan_hints_from(w, off).0 =~= scan_hints_from(b, off).0.push(h));
    }
}

/// Every scanned hint's key fits the wire format's `u32` size field.
pub proof fn lemma_scan_fits(b: Seq<u8>, off: int)
    ensures
        forall|i: int|
            0 <= i < scan_hints_from(b, off).0.len() ==> hint_entry_fits(
                #[trigger] scan_hints_from(b, off).0[i],
            ),
    decreases b.len() - off,
{
    match decode_hint_at(b, off) {
        Some(p) => {
            lemma_scan_fits(b, p.1);
            assert forall|i: int| 0 <= i < scan_hints_from(b, off).0.len() implies hint_entry_fits(
                #[trigger] scan_hints_from(b, off).0[i],
            ) by {
                if i == 0 {
                    assert(scan_hints_from(b, off).0[0] == p.0);
                } else {
                    assert(scan_hints_from(b, off).0[i] == scan_hints_from(b, p.1).0[i - 1]);
                }
            }
        },
        None => {},
    }
}

} // verus!
