//! The storage file's binary codec.
//!
//! A storage file starts with one version byte, then holds a sequence of
//! records.  Each record is laid out as
//!
//! ```text
//! byte 0:          key length k (one byte)
//! bytes 1..1+k:    key bytes
//! bytes 1+k..3+k:  value length v (two bytes, big-endian)
//! bytes 3+k..3+k+v: value bytes
//! final byte:      tombstone flag (0 = live, 1 = deleted)
//! ```
//!
//! This module defines the byte layout as spec functions, the executable
//! encoder and decoder proved against them, and the lemmas that the engine
//! uses to reason about appends and scans.

use vstd::prelude::*;
use vstd::slice::{slice_subrange, slice_to_vec};

use crate::error::EngineError;

verus! {

/// The mathematical form of one record.
pub struct RecordView {
    pub key: Seq<u8>,
    pub value: Seq<u8>,
    pub tombstone: bool,
}

/// One decoded record: a key, a value, and whether this record marks the
/// key as deleted (the value of a tombstone record is a placeholder and
/// carries no meaning).
#[derive(Debug, PartialEq, Eq)]
pub struct Record {
    pub key: Vec<u8>,
    pub value: Vec<u8>,
    pub tombstone: bool,
}

impl View for Record {
    type V = RecordView;

    open spec fn view(&self) -> RecordView {
        RecordView { key: self.key@, value: self.value@, tombstone: self.tombstone }
    }
}

/// Whether a record's key and value fit their length prefixes.
pub open spec fn record_wf(r: RecordView) -> bool {
    r.key.len() <= 255 && r.value.len() <= 65535
}

/// The number of bytes a record with the given key and value lengths
/// occupies in the log.
pub open spec fn spec_record_size(key_len: nat, value_len: nat) -> nat {
    1 + key_len + 2 + value_len + 1
}

/// The byte encoding of one record.
pub open spec fn spec_encode_record(r: RecordView) -> Seq<u8> {
    seq![r.key.len() as u8] + r.key + seq![
        (r.value.len() / 256) as u8,
        (r.value.len() % 256) as u8,
    ] + r.value + seq![(if r.tombstone { 1u8 } else { 0u8 })]
}

/// Decodes the first record of `log`, if `log` starts with a complete,
/// well-formed record; returns the record and its size in bytes.
pub open spec fn spec_decode_first(log: Seq<u8>) -> Option<(RecordView, int)> {
    if log.len() < 1 {
        None
    } else {
        let kl = log[0] as int;
        if log.len() < kl + 4 {
            None
        } else {
            let vl = (log[1 + kl] as int) * 256 + (log[2 + kl] as int);
            if log.len() < kl + vl + 4 {
                None
            } else if log[kl + vl + 3] != 0 && log[kl + vl + 3] != 1 {
                None
            } else {
                Some(
                    (
                        RecordView {
                            key: log.subrange(1, 1 + kl),
                            value: log.subrange(3 + kl, 3 + kl + vl),
                            tombstone: log[kl + vl + 3] == 1,
                        },
                        kl + vl + 4,
                    ),
                )
            }
        }
    }
}

/// Parses a whole log (the bytes after the version byte) into its record
/// sequence; `None` means the bytes are corrupt.
pub open spec fn parse_log(log: Seq<u8>) -> Option<Seq<RecordView>>
    decreases log.len(),
{
    if log.len() == 0 {
        Some(Seq::empty())
    } else {
        match spec_decode_first(log) {
            Some((r, sz)) => match parse_log(log.skip(sz)) {
                Some(rest) => Some(seq![r] + rest),
                None => None,
            },
            None => None,
        }
    }
}

/// The current value of `key`: the value of the last record for `key` in
/// log order, or `None` if there is no such record or it is a tombstone.
pub open spec fn lookup(recs: Seq<RecordView>, key: Seq<u8>) -> Option<Seq<u8>>
    decreases recs.len(),
{
    if recs.len() == 0 {
        None
    } else {
        let last = recs.last();
        if last.key == key {
            if last.tombstone {
                None
            } else {
                Some(last.value)
            }
        } else {
            lookup(recs.drop_last(), key)
        }
    }
}

/// The set of keys whose last record is live.
pub open spec fn live_keys(recs: Seq<RecordView>) -> Set<Seq<u8>> {
    Set::new(|k: Seq<u8>| lookup(recs, k) is Some)
}

/// The encoding of a well-formed record has the layout the format
/// prescribes, byte region by byte region.
pub proof fn lemma_encode_record_bytes(r: RecordView)
    requires
        record_wf(r),
    ensures
        spec_encode_record(r).len() == spec_record_size(r.key.len(), r.value.len()),
        spec_encode_record(r)[0] == r.key.len() as u8,
        spec_encode_record(r).subrange(1, 1 + r.key.len() as int) == r.key,
        spec_encode_record(r)[1 + r.key.len() as int] == (r.value.len() / 256) as u8,
        spec_encode_record(r)[2 + r.key.len() as int] == (r.value.len() % 256) as u8,
        spec_encode_record(r).subrange(
            3 + r.key.len() as int,
            3 + r.key.len() + r.value.len() as int,
        ) == r.value,
        spec_encode_record(r)[3 + r.key.len() + r.value.len() as int] == (
        if r.tombstone {
            1u8
        } else {
            0u8
        }),
{
    let enc = spec_encode_record(r);
    let kl = r.key.len() as int;
    let vl = r.value.len() as int;
    assert(enc.subrange(1, 1 + kl) =~= r.key);
    assert(enc.subrange(3 + kl, 3 + kl + vl) =~= r.value);
}

/// Decoding inverts encoding: a well-formed record's bytes decode back to
/// that record, consuming exactly its size.
pub proof fn lemma_decode_encode_record(r: RecordView)
    requires
        record_wf(r),
    ensures
        spec_decode_first(spec_encode_record(r)) == Some(
            (r, spec_record_size(r.key.len(), r.value.len()) as int),
        ),
{
    let enc = spec_encode_record(r);
    let kl = r.key.len() as int;
    let vl = r.value.len() as int;
    lemma_encode_record_bytes(r);
    assert((r.value.len() / 256) as u8 as int * 256 + (r.value.len() % 256) as u8 as int == vl);
    let decoded = spec_decode_first(enc).unwrap();
    assert(decoded.0.key == r.key);
    assert(decoded.0.value == r.value);
}

/// Appending bytes after a complete first record does not change how that
/// first record decodes.
pub proof fn lemma_decode_first_prefix(a: Seq<u8>, ext: Seq<u8>)
    requires
        spec_decode_first(a) is Some,
    ensures
        spec_decode_first(a + ext) == spec_decode_first(a),
{
    let c = a + ext;
    let kl = a[0] as int;
    let vl = (a[1 + kl] as int) * 256 + (a[2 + kl] as int);
    assert(c[0] == a[0]);
    assert(c[1 + kl] == a[1 + kl]);
    assert(c[2 + kl] == a[2 + kl]);
    assert(c[kl + vl + 3] == a[kl + vl + 3]);
    assert(c.subrange(1, 1 + kl) =~= a.subrange(1, 1 + kl));
    assert(c.subrange(3 + kl, 3 + kl + vl) =~= a.subrange(3 + kl, 3 + kl + vl));
}

/// Parsing distributes over concatenation of two parseable logs.
pub proof fn lemma_parse_log_concat(a: Seq<u8>, b: Seq<u8>)
    requires
        parse_log(a) is Some,
        parse_log(b) is Some,
    ensures
        parse_log(a + b) == Some(parse_log(a).unwrap() + parse_log(b).unwrap()),
    decreases a.len(),
{
    if a.len() == 0 {
        assert(a + b =~= b);
        assert(parse_log(a).unwrap() + parse_log(b).unwrap() =~= parse_log(b).unwrap());
    } else {
        let (r, sz) = spec_decode_first(a).unwrap();
        lemma_decode_first_prefix(a, b);
        assert((a + b).skip(sz) =~= a.skip(sz) + b);
        lemma_parse_log_concat(a.skip(sz), b);
        assert(seq![r] + (parse_log(a.skip(sz)).unwrap() + parse_log(b).unwrap()) =~= (seq![r]
            + parse_log(a.skip(sz)).unwrap()) + parse_log(b).unwrap());
    }
}

/// Appending one well-formed record to a parseable log appends exactly
/// that record to the parse.
pub proof fn lemma_parse_log_append_record(log: Seq<u8>, r: RecordView)
    requires
        parse_log(log) is Some,
        record_wf(r),
    ensures
        parse_log(log + spec_encode_record(r)) == Some(parse_log(log).unwrap().push(r)),
{
    let enc = spec_encode_record(r);
    lemma_decode_encode_record(r);
    lemma_encode_record_bytes(r);
    assert(enc.skip(spec_record_size(r.key.len(), r.value.len()) as int) =~= Seq::<u8>::empty());
    assert(seq![r] + Seq::<RecordView>::empty() =~= seq![r]);
    assert(parse_log(Seq::<u8>::empty()) == Some(Seq::<RecordView>::empty()));
    assert(parse_log(enc) == Some(seq![r]));
    lemma_parse_log_concat(log, enc);
    assert(parse_log(log).unwrap() + seq![r] =~= parse_log(log).unwrap().push(r));
}

/// How `lookup` behaves when one more record is appended: the new record
/// answers for its own key and leaves every other key alone.
pub proof fn lemma_lookup_push(recs: Seq<RecordView>, r: RecordView, key: Seq<u8>)
    ensures
        lookup(recs.push(r), key) == (if r.key == key {
            if r.tombstone {
                None
            } else {
                Some(r.value)
            }
        } else {
            lookup(recs, key)
        }),
{
    assert(recs.push(r).last() == r);
    assert(recs.push(r).drop_last() =~= recs);
}

/// A key with a current value is the key of some record.
pub proof fn lemma_lookup_some_is_record_key(recs: Seq<RecordView>, key: Seq<u8>)
    requires
        lookup(recs, key) is Some,
    ensures
        exists|i: int|
            0 <= i < recs.len() && #[trigger] recs[i].key == key && recs[i].value == lookup(
                recs,
                key,
            ).unwrap(),
    decreases recs.len(),
{
    let last = recs.last();
    if last.key == key {
        assert(recs[recs.len() - 1].key == key);
    } else {
        lemma_lookup_some_is_record_key(recs.drop_last(), key);
        let i = choose|i: int|
            0 <= i < recs.drop_last().len() && #[trigger] recs.drop_last()[i].key == key
                && recs.drop_last()[i].value == lookup(recs.drop_last(), key).unwrap();
        assert(recs[i].key == key);
    }
}

/// Byte-for-byte equality of two slices.
pub fn bytes_eq(a: &[u8], b: &[u8]) -> (r: bool)
    ensures
        r == (a@ == b@),
{
    if a.len() != b.len() {
        return false;
    }
    let mut i: usize = 0;
    while i < a.len()
        invariant
            i <= a@.len(),
            a@.len() == b@.len(),
            forall|j: int| 0 <= j < i ==> a@[j] == b@[j],
        decreases a@.len() - i,
    {
        if a[i] != b[i] {
            return false;
        }
        i += 1;
    }
    proof {
        assert(a@ =~= b@);
    }
    true
}

/// Encodes a live record for `key` and `value`.  Fails, rather than
/// truncate silently, when a length prefix cannot carry its length.
pub fn encode(key: &[u8], value: &[u8]) -> (r: Result<Vec<u8>, EngineError>)
    ensures
        match r {
            Ok(bytes) => key@.len() <= 255 && value@.len() <= 65535 && bytes@
                == spec_encode_record(
                RecordView { key: key@, value: value@, tombstone: false },
            ),
            Err(e) => (key@.len() > 255 || value@.len() > 65535) && e == (if key@.len() > 255 {
                EngineError::KeyTooLong
            } else {
                EngineError::ValueTooLong
            }),
        },
{
    if key.len() > 255 {
        return Err(EngineError::KeyTooLong);
    }
    if value.len() > 65535 {
        return Err(EngineError::ValueTooLong);
    }
    let mut bytes: Vec<u8> = Vec::new();
    bytes.push(key.len() as u8);
    let mut key_bytes = slice_to_vec(key);
    bytes.append(&mut key_bytes);
    bytes.push((value.len() / 256) as u8);
    bytes.push((value.len() % 256) as u8);
    let mut value_bytes = slice_to_vec(value);
    bytes.append(&mut value_bytes);
    bytes.push(0u8);
    proof {
        assert(bytes@ =~= spec_encode_record(
            RecordView { key: key@, value: value@, tombstone: false },
        ));
    }
    Ok(bytes)
}

/// Encodes a tombstone record for `key`: the value is a one-byte
/// placeholder and the tombstone flag is set.
pub fn encode_tombstone(key: &[u8]) -> (r: Result<Vec<u8>, EngineError>)
    ensures
        match r {
            Ok(bytes) => key@.len() <= 255 && bytes@ == spec_encode_record(
                RecordView { key: key@, value: seq![0u8], tombstone: true },
            ),
            Err(e) => key@.len() > 255 && e == EngineError::KeyTooLong,
        },
{
    if key.len() > 255 {
        return Err(EngineError::KeyTooLong);
    }
    let mut bytes: Vec<u8> = Vec::new();
    bytes.push(key.len() as u8);
    let mut key_bytes = slice_to_vec(key);
    bytes.append(&mut key_bytes);
    bytes.push(0u8);
    bytes.push(1u8);
    bytes.push(0u8);
    bytes.push(1u8);
    proof {
        assert(bytes@ =~= spec_encode_record(
            RecordView { key: key@, value: seq![0u8], tombstone: true },
        ));
    }
    Ok(bytes)
}

/// Decodes the record that starts at `pos`.  Returns `Ok(None)` at end of
/// input, and a corruption error when fewer bytes remain than the declared
/// lengths require or the tombstone flag is malformed.
pub fn decode_next(log: &[u8], pos: usize) -> (r: Result<Option<(Record, usize)>, EngineError>)
    requires
        pos <= log@.len(),
    ensures
        match r {
            Ok(opt) => match opt {
                Some((rec, next)) => pos < next <= log@.len() && spec_decode_first(
                    log@.skip(pos as int),
                ) == Some((rec@, next - pos)),
                None => pos == log@.len(),
            },
            Err(e) => e == EngineError::CorruptLog && pos < log@.len() && spec_decode_first(
                log@.skip(pos as int),
            ) is None,
        },
{
    let n = log.len();
    let ghost s = log@.skip(pos as int);
    if pos == n {
        return Ok(None);
    }
    let rem = n - pos;
    let kl = log[pos] as usize;
    assert(s[0] == log@[pos as int]);
    if rem < kl + 4 {
        return Err(EngineError::CorruptLog);
    }
    let vl_hi = log[pos + 1 + kl] as usize;
    let vl_lo = log[pos + 2 + kl] as usize;
    let vl = vl_hi * 256 + vl_lo;
    assert(s[1 + kl] == log@[pos + 1 + kl]);
    assert(s[2 + kl] == log@[pos + 2 + kl]);
    if rem < kl + vl + 4 {
        return Err(EngineError::CorruptLog);
    }
    let tb = log[pos + 3 + kl + vl];
    assert(s[kl + vl + 3] == log@[pos + 3 + kl + vl]);
    if tb > 1 {
        return Err(EngineError::CorruptLog);
    }
    let key = slice_to_vec(slice_subrange(log, pos + 1, pos + 1 + kl));
    let value = slice_to_vec(slice_subrange(log, pos + 3 + kl, pos + 3 + kl + vl));
    let next = pos + kl + vl + 4;
    let rec = Record { key, value, tombstone: tb == 1 };
    proof {
        assert(s.subrange(1, 1 + kl) =~= log@.subrange(pos + 1, pos + 1 + kl));
        assert(s.subrange(3 + kl, 3 + kl + vl) =~= log@.subrange(pos + 3 + kl, pos + 3 + kl + vl));
    }
    Ok(Some((rec, next)))
}

} // verus!
