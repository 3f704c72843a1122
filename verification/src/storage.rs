//! The storage engines and the engine selector.
//!
//! `BinaryEngineV1` owns the bytes of one storage file and an offset
//! index, and implements get/set/delete/list with the shadowing and
//! tombstone semantics the codec's `lookup` defines.  `Engine` is the
//! closed set of engine variants; `new_engine` selects one from a file's
//! version byte.

use vstd::prelude::*;
use vstd::slice::{slice_subrange, slice_to_vec};
use vstd::string::StrSliceExecFns;
use vstd::utf8::{
    decode_utf8, decode_utf8_encode_utf8, encode_utf8, encode_utf8_decode_utf8,
    encode_utf8_valid_utf8, valid_utf8,
};

use crate::codec::{
    bytes_eq, decode_next, encode, encode_tombstone, lemma_encode_record_bytes,
    lemma_lookup_push, lemma_lookup_some_is_record_key, lemma_parse_log_append_record, lookup,
    parse_log, record_wf, spec_encode_record, RecordView,
};
use crate::error::EngineError;
use crate::index::{BinaryOffsetIndexer, OffsetIndexer};

verus! {

broadcast use encode_utf8_valid_utf8, encode_utf8_decode_utf8, decode_utf8_encode_utf8;

/// The version byte written at the start of every new storage file.
pub const ENCODING_VERSION: u8 = 1;

/// Relies on `std::str::from_utf8`: it succeeds exactly on input that is
/// valid UTF-8 and returns the string those bytes encode, which is what
/// vstd's `valid_utf8` and `decode_utf8` express.
#[verifier::external_body]
fn utf8_to_string(bytes: &[u8]) -> (r: Option<String>)
    ensures
        match r {
            Some(s) => valid_utf8(bytes@) && s@ == decode_utf8(bytes@),
            None => !valid_utf8(bytes@),
        },
{
    match std::str::from_utf8(bytes) {
        Ok(s) => Some(s.to_string()),
        Err(_) => None,
    }
}

/// Every record's key and value are valid UTF-8.
pub open spec fn records_utf8(recs: Seq<RecordView>) -> bool {
    forall|i: int|
        0 <= i < recs.len() ==> valid_utf8((#[trigger] recs[i]).key) && valid_utf8(recs[i].value)
}

/// The value bytes that a read at offset `off` of the value-length field
/// returns: two length bytes, then that many value bytes.
pub open spec fn value_at(log: Seq<u8>, off: int) -> Seq<u8> {
    let vl = (log[off] as int) * 256 + (log[off + 1] as int);
    log.subrange(off + 2, off + 2 + vl)
}

/// An index entry is accurate: reading at its offset stays in bounds and
/// yields exactly the current value of its key.
pub open spec fn index_entry_ok(log: Seq<u8>, key: Seq<u8>, off: int) -> bool {
    &&& 0 <= off
    &&& off + 2 <= log.len()
    &&& off + 2 + ((log[off] as int) * 256 + (log[off + 1] as int)) <= log.len()
    &&& lookup(parse_log(log.skip(1)).unwrap(), key) == Some(value_at(log, off))
}

/// A byte sequence is a well-formed version-1 storage file: the version
/// byte, then records that parse to completion and hold only UTF-8 keys
/// and values.
pub open spec fn wf_file_bytes(bytes: Seq<u8>) -> bool {
    &&& bytes.len() >= 1
    &&& bytes[0] == ENCODING_VERSION
    &&& parse_log(bytes.skip(1)) is Some
    &&& records_utf8(parse_log(bytes.skip(1)).unwrap())
}

/// The error `BinaryEngineV1::new` reports for a malformed file.
pub open spec fn spec_open_error(bytes: Seq<u8>) -> EngineError {
    if bytes.len() == 0 {
        EngineError::CorruptLog
    } else if bytes[0] != ENCODING_VERSION {
        EngineError::UnsupportedVersion { version: bytes[0] }
    } else {
        EngineError::CorruptLog
    }
}

/// The version-1 engine: one storage file held as bytes, plus an offset
/// index caching where each key's latest value sits.
pub struct BinaryEngineV1 {
    log: Vec<u8>,
    indexer: BinaryOffsetIndexer,
}

impl BinaryEngineV1 {
    /// The raw bytes of the storage file this engine holds.
    pub closed spec fn log_bytes(self) -> Seq<u8> {
        self.log@
    }

    /// The offsets the index currently caches.
    pub closed spec fn index_map(self) -> Map<Seq<u8>, usize> {
        self.indexer.offsets()
    }

    /// The record sequence of the log.
    pub open spec fn records(self) -> Seq<RecordView> {
        parse_log(self.log_bytes().skip(1)).unwrap()
    }

    /// The store's contents: every key with a live record, bound to the
    /// value of its last record, both seen as strings.
    pub open spec fn kv(self) -> Map<Seq<char>, Seq<char>> {
        Map::new(
            |k: Seq<char>| lookup(self.records(), encode_utf8(k)) is Some,
            |k: Seq<char>| decode_utf8(lookup(self.records(), encode_utf8(k)).unwrap()),
        )
    }

    /// Well-formedness: the log is a valid version-1 file and every
    /// cached index entry is accurate for it.
    pub closed spec fn wf(self) -> bool {
        &&& wf_file_bytes(self.log@)
        &&& self.indexer.wf()
        &&& forall|k: Seq<u8>| #[trigger]
            self.indexer.offsets().contains_key(k) ==> index_entry_ok(
                self.log@,
                k,
                self.indexer.offsets()[k] as int,
            )
    }

    /// Opens an engine over the bytes of a version-1 storage file,
    /// validating the version byte and every record up front; the offset
    /// index starts cold.  Fails with the exact malformation found.
    pub fn new(file_bytes: Vec<u8>) -> (r: Result<Self, EngineError>)
        ensures
            match r {
                Ok(engine) => {
                    &&& wf_file_bytes(file_bytes@)
                    &&& engine.wf()
                    &&& engine.log_bytes() == file_bytes@
                    &&& engine.index_map() == Map::<Seq<u8>, usize>::empty()
                },
                Err(e) => !wf_file_bytes(file_bytes@) && e == spec_open_error(file_bytes@),
            },
    {
        if file_bytes.len() == 0 {
            return Err(EngineError::CorruptLog);
        }
        let version = file_bytes[0];
        if version != ENCODING_VERSION {
            return Err(EngineError::UnsupportedVersion { version });
        }
        let mut pos: usize = 1;
        let ghost mut done: Seq<RecordView> = Seq::empty();
        proof {
            if parse_log(file_bytes@.skip(1)) is Some {
                assert(Seq::<RecordView>::empty() + parse_log(file_bytes@.skip(1)).unwrap()
                    =~= parse_log(file_bytes@.skip(1)).unwrap());
            }
        }
        loop
            invariant
                1 <= pos <= file_bytes@.len(),
                file_bytes@.len() >= 1,
                file_bytes@[0] == ENCODING_VERSION,
                records_utf8(done),
                parse_log(file_bytes@.skip(1)) == (match parse_log(file_bytes@.skip(pos as int)) {
                    Some(rest) => Some(done + rest),
                    None => None::<Seq<RecordView>>,
                }),
            decreases file_bytes@.len() - pos,
        {
            match decode_next(file_bytes.as_slice(), pos) {
                Ok(None) => {
                    proof {
                        assert(file_bytes@.skip(pos as int) =~= Seq::<u8>::empty());
                        assert(done + Seq::<RecordView>::empty() =~= done);
                    }
                    let engine = BinaryEngineV1 { log: file_bytes, indexer: BinaryOffsetIndexer::new() };
                    return Ok(engine);
                },
                Ok(Some((rec, next))) => {
                    proof {
                        assert(file_bytes@.skip(pos as int).skip(next - pos) =~= file_bytes@.skip(
                            next as int,
                        ));
                    }
                    if utf8_to_string(rec.key.as_slice()).is_none() || utf8_to_string(
                        rec.value.as_slice(),
                    ).is_none() {
                        proof {
                            if parse_log(file_bytes@.skip(1)) is Some {
                                let recs = parse_log(file_bytes@.skip(1)).unwrap();
                                let tail = parse_log(file_bytes@.skip(pos as int)).unwrap();
                                assert(recs == done + tail);
                                assert(tail[0] == rec@);
                                assert(recs[done.len() as int] == rec@);
                                assert(!records_utf8(recs));
                            }
                        }
                        return Err(EngineError::CorruptLog);
                    }
                    proof {
                        if parse_log(file_bytes@.skip(next as int)) is Some {
                            let tail2 = parse_log(file_bytes@.skip(next as int)).unwrap();
                            assert(done + (seq![rec@] + tail2) =~= (done + seq![rec@]) + tail2);
                        }
                        done = done + seq![rec@];
                        assert(records_utf8(done));
                    }
                    pos = next;
                },
                Err(e) => {
                    return Err(e);
                },
            }
        }
    }

    /// Looks the key up: through the offset index when it holds an
    /// entry, by a full scan of the log otherwise.  Either way the
    /// result is the key's current value — the index is only a shortcut.
    pub fn get(&self, key: &str) -> (r: Result<Option<String>, EngineError>)
        requires
            self.wf(),
        ensures
            match r {
                Ok(opt) => match opt {
                    Some(s) => self.kv().contains_key(key@) && s@ == self.kv()[key@],
                    None => !self.kv().contains_key(key@),
                },
                Err(_) => false,
            },
    {
        let key_bytes = key.as_bytes_vec();
        match self.indexer.get(key_bytes.as_slice()) {
            Some(off) => {
                proof {
                    assert(index_entry_ok(self.log@, key_bytes@, off as int));
                }
                // bring the log length into scope as a usize, so the offset
                // arithmetic below is known not to overflow
                let n: usize = self.log.len();
                let vl = (self.log[off] as usize) * 256 + (self.log[off + 1] as usize);
                let value = slice_to_vec(slice_subrange(self.log.as_slice(), off + 2, off + 2 + vl));
                proof {
                    assert(value@ == value_at(self.log@, off as int));
                    lemma_lookup_some_is_record_key(self.records(), key_bytes@);
                }
                match utf8_to_string(value.as_slice()) {
                    Some(s) => Ok(Some(s)),
                    None => {
                        // unreachable: a cached offset yields a stored
                        // record's value, and stored values are UTF-8
                        proof {
                            assert(false);
                        }
                        Err(EngineError::CorruptLog)
                    },
                }
            },
            None => self.scan_get(key_bytes),
        }
    }

    /// The scan fallback of `get`: walks every record in file order and
    /// keeps the value (or tombstone) of the last record for the key.
    fn scan_get(&self, key_bytes: Vec<u8>) -> (r: Result<Option<String>, EngineError>)
        requires
            self.wf(),
        ensures
            match r {
                Ok(opt) => match opt {
                    Some(s) => lookup(self.records(), key_bytes@) is Some && s@ == decode_utf8(
                        lookup(self.records(), key_bytes@).unwrap(),
                    ),
                    None => lookup(self.records(), key_bytes@) is None,
                },
                Err(_) => false,
            },
    {
        let mut pos: usize = 1;
        let ghost mut done: Seq<RecordView> = Seq::empty();
        let mut current: Option<Vec<u8>> = None;
        proof {
            assert(Seq::<RecordView>::empty() + self.records() =~= self.records());
        }
        loop
            invariant
                self.wf(),
                1 <= pos <= self.log@.len(),
                parse_log(self.log@.skip(pos as int)) is Some,
                self.records() == done + parse_log(self.log@.skip(pos as int)).unwrap(),
                match current {
                    Some(cv) => lookup(done, key_bytes@) == Some(cv@),
                    None => lookup(done, key_bytes@) is None,
                },
            decreases self.log@.len() - pos,
        {
            match decode_next(self.log.as_slice(), pos) {
                Ok(None) => {
                    proof {
                        assert(self.log@.skip(pos as int) =~= Seq::<u8>::empty());
                        assert(done + Seq::<RecordView>::empty() =~= done);
                        assert(done == self.records());
                    }
                    match current {
                        Some(value) => {
                            proof {
                                lemma_lookup_some_is_record_key(self.records(), key_bytes@);
                            }
                            match utf8_to_string(value.as_slice()) {
                                Some(s) => {
                                    return Ok(Some(s));
                                },
                                None => {
                                    // unreachable: stored values are UTF-8
                                    proof {
                                        assert(false);
                                    }
                                    return Err(EngineError::CorruptLog);
                                },
                            }
                        },
                        None => {
                            return Ok(None);
                        },
                    }
                },
                Ok(Some((rec, next))) => {
                    let ghost recv = rec@;
                    proof {
                        assert(self.log@.skip(pos as int).skip(next - pos) =~= self.log@.skip(
                            next as int,
                        ));
                        let tail = parse_log(self.log@.skip(pos as int)).unwrap();
                        let tail2 = parse_log(self.log@.skip(next as int)).unwrap();
                        assert(done + (seq![recv] + tail2) =~= (done + seq![recv]) + tail2);
                        assert(done.push(recv) =~= done + seq![recv]);
                        lemma_lookup_push(done, recv, key_bytes@);
                    }
                    if bytes_eq(rec.key.as_slice(), key_bytes.as_slice()) {
                        current = if rec.tombstone {
                            None
                        } else {
                            Some(rec.value)
                        };
                    }
                    proof {
                        done = done.push(recv);
                    }
                    pos = next;
                },
                Err(e) => {
                    // unreachable: a well-formed log decodes to the end
                    proof {
                        assert(false);
                    }
                    return Err(e);
                },
            }
        }
    }

    /// Appends a live record for `key` and `value` and points the index
    /// at it.  Fails, leaving the store unchanged, exactly when a length
    /// prefix cannot carry the key or the value.
    pub fn set(&mut self, key: &str, value: &str) -> (r: Result<(), EngineError>)
        requires
            old(self).wf(),
        ensures
            final(self).wf(),
            match r {
                Ok(()) => {
                    &&& encode_utf8(key@).len() <= 255
                    &&& encode_utf8(value@).len() <= 65535
                    &&& final(self).records() == old(self).records().push(
                        RecordView {
                            key: encode_utf8(key@),
                            value: encode_utf8(value@),
                            tombstone: false,
                        },
                    )
                    &&& final(self).kv() == old(self).kv().insert(key@, value@)
                },
                Err(e) => {
                    &&& *final(self) == *old(self)
                    &&& (encode_utf8(key@).len() > 255 || encode_utf8(value@).len() > 65535)
                    &&& e == (if encode_utf8(key@).len() > 255 {
                        EngineError::KeyTooLong
                    } else {
                        EngineError::ValueTooLong
                    })
                },
            },
    {
        let key_bytes = key.as_bytes_vec();
        let value_bytes = value.as_bytes_vec();
        let mut enc = match encode(key_bytes.as_slice(), value_bytes.as_slice()) {
            Ok(bytes) => bytes,
            Err(e) => {
                return Err(e);
            },
        };
        let ghost prev = *self;
        let ghost rec = RecordView { key: key_bytes@, value: value_bytes@, tombstone: false };
        let kl = key_bytes.len();
        let vl = value_bytes.len();
        self.log.append(&mut enc);
        let off = self.log.len() - 3 - vl;
        proof {
            self.lemma_after_append(prev, rec);
            assert(off == prev.log@.len() + 1 + kl);
            lemma_encode_record_bytes(rec);
            assert(self.log@.subrange(off + 2, off + 2 + vl as int) =~= spec_encode_record(
                rec,
            ).subrange(3 + kl as int, 3 + kl + vl as int));
            assert(value_at(self.log@, off as int) == rec.value);
        }
        self.indexer.set(key_bytes.as_slice(), off);
        proof {
            lemma_lookup_push(prev.records(), rec, key_bytes@);
            assert(index_entry_ok(self.log@, key_bytes@, off as int));
            assert forall|k: Seq<u8>| #[trigger] self.indexer.offsets().contains_key(k) implies
                index_entry_ok(self.log@, k, self.indexer.offsets()[k] as int) by {
                if k != key_bytes@ {
                    lemma_lookup_push(prev.records(), rec, k);
                    self.lemma_entry_stable_after_append(prev, rec, k);
                }
            }
            self.lemma_kv_after_push(prev, rec);
            assert(self.kv() =~= prev.kv().insert(key@, value@));
        }
        Ok(())
    }

    /// Appends a tombstone record for `key` and drops the key from the
    /// index, so later lookups observe the deletion.  Fails, leaving the
    /// store unchanged, exactly when the key is too long to encode.
    pub fn delete(&mut self, key: &str) -> (r: Result<(), EngineError>)
        requires
            old(self).wf(),
        ensures
            final(self).wf(),
            match r {
                Ok(()) => {
                    &&& encode_utf8(key@).len() <= 255
                    &&& final(self).records() == old(self).records().push(
                        RecordView { key: encode_utf8(key@), value: seq![0u8], tombstone: true },
                    )
                    &&& final(self).kv() == old(self).kv().remove(key@)
                },
                Err(e) => {
                    &&& *final(self) == *old(self)
                    &&& encode_utf8(key@).len() > 255
                    &&& e == EngineError::KeyTooLong
                },
            },
    {
        let key_bytes = key.as_bytes_vec();
        let mut enc = match encode_tombstone(key_bytes.as_slice()) {
            Ok(bytes) => bytes,
            Err(e) => {
                return Err(e);
            },
        };
        let ghost prev = *self;
        let ghost rec = RecordView { key: key_bytes@, value: seq![0u8], tombstone: true };
        self.log.append(&mut enc);
        proof {
            lemma_nul_byte_valid_utf8();
            self.lemma_after_append(prev, rec);
        }
        self.indexer.delete(key_bytes.as_slice());
        proof {
            assert forall|k: Seq<u8>| #[trigger] self.indexer.offsets().contains_key(k) implies
                index_entry_ok(self.log@, k, self.indexer.offsets()[k] as int) by {
                assert(k != key_bytes@);
                lemma_lookup_push(prev.records(), rec, k);
                self.lemma_entry_stable_after_append(prev, rec, k);
            }
            lemma_lookup_push(prev.records(), rec, key_bytes@);
            self.lemma_kv_after_push(prev, rec);
            assert(self.kv() =~= prev.kv().remove(key@));
        }
        Ok(())
    }

    /// What `list` promises of its result: no key twice, and exactly
    /// the keys the store currently binds.
    pub open spec fn lists_live_keys(self, keys: Seq<String>) -> bool {
        &&& forall|i: int, j: int|
            0 <= i < j < keys.len() ==> (#[trigger] keys[i])@ != (#[trigger] keys[j])@
        &&& forall|k: Seq<char>| #[trigger]
            self.kv().contains_key(k) <==> exists|i: int|
                0 <= i < keys.len() && (#[trigger] keys[i])@ == k
    }

    /// Scans the whole log in file order, adding a key when a live
    /// record for it is seen and dropping it on a tombstone.  The result
    /// lists, without duplicates, exactly the keys whose last record is
    /// live — the same keys `get` answers for.
    #[verifier::rlimit(30)]
    pub fn list(&self) -> (r: Result<Vec<String>, EngineError>)
        requires
            self.wf(),
        ensures
            match r {
                Ok(keys) => self.lists_live_keys(keys@),
                Err(_) => false,
            },
    {
        let mut found: Vec<Vec<u8>> = Vec::new();
        let mut pos: usize = 1;
        let ghost mut done: Seq<RecordView> = Seq::empty();
        proof {
            assert(Seq::<RecordView>::empty() + self.records() =~= self.records());
        }
        loop
            invariant
                self.wf(),
                1 <= pos <= self.log@.len(),
                parse_log(self.log@.skip(pos as int)) is Some,
                self.records() == done + parse_log(self.log@.skip(pos as int)).unwrap(),
                keyset_distinct(found@),
                forall|k: Seq<u8>| #[trigger] keyset_has(found@, k) <==> lookup(done, k) is Some,
            decreases self.log@.len() - pos,
        {
            match decode_next(self.log.as_slice(), pos) {
                Ok(None) => {
                    proof {
                        assert(self.log@.skip(pos as int) =~= Seq::<u8>::empty());
                        assert(done + Seq::<RecordView>::empty() =~= done);
                        assert(done == self.records());
                    }
                    return Ok(self.found_to_strings(found));
                },
                Ok(Some((rec, next))) => {
                    let ghost recv = rec@;
                    proof {
                        assert(self.log@.skip(pos as int).skip(next - pos) =~= self.log@.skip(
                            next as int,
                        ));
                        let tail2 = parse_log(self.log@.skip(next as int)).unwrap();
                        assert(done + (seq![recv] + tail2) =~= (done + seq![recv]) + tail2);
                        assert(done.push(recv) =~= done + seq![recv]);
                    }
                    if rec.tombstone {
                        keyset_remove(&mut found, rec.key.as_slice());
                    } else {
                        keyset_insert(&mut found, rec.key.as_slice());
                    }
                    proof {
                        assert forall|k: Seq<u8>| #[trigger]
                            keyset_has(found@, k) <==> lookup(done.push(recv), k) is Some by {
                            lemma_lookup_push(done, recv, k);
                        }
                        done = done.push(recv);
                    }
                    pos = next;
                },
                Err(e) => {
                    // unreachable: a well-formed log decodes to the end
                    proof {
                        assert(false);
                    }
                    return Err(e);
                },
            }
        }
    }

    /// Turns the byte keys a scan collected into strings, preserving
    /// the set of keys they stand for.
    fn found_to_strings(&self, found: Vec<Vec<u8>>) -> (keys: Vec<String>)
        requires
            self.wf(),
            keyset_distinct(found@),
            forall|k: Seq<u8>| #[trigger]
                keyset_has(found@, k) <==> lookup(self.records(), k) is Some,
        ensures
            self.lists_live_keys(keys@),
    {
        proof {
            assert forall|j: int| 0 <= j < found@.len() implies valid_utf8(
                (#[trigger] found@[j])@,
            ) by {
                assert(keyset_has(found@, found@[j]@));
                lemma_lookup_some_is_record_key(self.records(), found@[j]@);
            }
        }
        let mut out: Vec<String> = Vec::new();
        let mut i: usize = 0;
        while i < found.len()
            invariant
                i <= found@.len(),
                out@.len() == i,
                forall|j: int| 0 <= j < found@.len() ==> valid_utf8((#[trigger] found@[j])@),
                forall|j: int| 0 <= j < i ==> (#[trigger] out@[j])@ == decode_utf8(found@[j]@),
            decreases found@.len() - i,
        {
            match utf8_to_string(found[i].as_slice()) {
                Some(s) => {
                    out.push(s);
                },
                None => {
                    // unreachable: every collected key is a stored
                    // record's key, and stored keys are UTF-8
                    proof {
                        assert(false);
                    }
                    out.push(String::new());
                },
            }
            i += 1;
        }
        proof {
            assert forall|a: int, b: int| 0 <= a < b < out@.len() implies (#[trigger] out@[a])@
                != (#[trigger] out@[b])@ by {
                assert(encode_utf8(decode_utf8(found@[a]@)) == found@[a]@);
                assert(encode_utf8(decode_utf8(found@[b]@)) == found@[b]@);
            }
            assert forall|k: Seq<char>| #[trigger] self.kv().contains_key(k) <==> exists|i: int|
                0 <= i < out@.len() && (#[trigger] out@[i])@ == k by {
                if self.kv().contains_key(k) {
                    let eb = encode_utf8(k);
                    assert(keyset_has(found@, eb));
                    let i = choose|i: int| 0 <= i < found@.len() && (#[trigger] found@[i])@ == eb;
                    assert(out@[i]@ == decode_utf8(eb));
                    assert(decode_utf8(encode_utf8(k)) == k);
                    assert(out@[i]@ == k);
                }
                if exists|i: int| 0 <= i < out@.len() && (#[trigger] out@[i])@ == k {
                    let i = choose|i: int| 0 <= i < out@.len() && (#[trigger] out@[i])@ == k;
                    assert(encode_utf8(decode_utf8(found@[i]@)) == found@[i]@);
                    assert(encode_utf8(k) == found@[i]@);
                    assert(keyset_has(found@, found@[i]@));
                }
            }
        }
        out
    }

    /// After appending the encoding of one well-formed, UTF-8-clean
    /// record, the log is still a well-formed file whose records are the
    /// old ones plus that record; nothing below the old length moved.
    proof fn lemma_after_append(self, prev: Self, rec: RecordView)
        requires
            prev.wf(),
            record_wf(rec),
            valid_utf8(rec.key),
            valid_utf8(rec.value),
            self.log@ == prev.log@ + spec_encode_record(rec),
            self.indexer == prev.indexer,
        ensures
            wf_file_bytes(self.log@),
            self.records() == prev.records().push(rec),
            forall|i: int| 0 <= i < prev.log@.len() ==> self.log@[i] == prev.log@[i],
    {
        assert(self.log@.skip(1) =~= prev.log@.skip(1) + spec_encode_record(rec));
        lemma_parse_log_append_record(prev.log@.skip(1), rec);
        let recs = self.records();
        assert forall|i: int| 0 <= i < recs.len() implies valid_utf8((#[trigger] recs[i]).key)
            && valid_utf8(recs[i].value) by {
            if i < prev.records().len() {
                assert(recs[i] == prev.records()[i]);
            } else {
                assert(recs[i] == rec);
            }
        }
    }

    /// An index entry for a key that still has the same current value
    /// stays accurate after an append.
    proof fn lemma_entry_stable_after_append(self, prev: Self, rec: RecordView, k: Seq<u8>)
        requires
            prev.wf(),
            record_wf(rec),
            self.log@ == prev.log@ + spec_encode_record(rec),
            prev.indexer.offsets().contains_key(k),
            self.indexer.offsets().contains_key(k),
            self.indexer.offsets()[k] == prev.indexer.offsets()[k],
            parse_log(self.log@.skip(1)) is Some,
            lookup(self.records(), k) == lookup(prev.records(), k),
        ensures
            index_entry_ok(self.log@, k, self.indexer.offsets()[k] as int),
    {
        let off = prev.indexer.offsets()[k] as int;
        assert(index_entry_ok(prev.log@, k, off));
        assert(self.log@[off] == prev.log@[off]);
        assert(self.log@[off + 1] == prev.log@[off + 1]);
        let vl = (prev.log@[off] as int) * 256 + (prev.log@[off + 1] as int);
        assert(self.log@.subrange(off + 2, off + 2 + vl) =~= prev.log@.subrange(
            off + 2,
            off + 2 + vl,
        ));
    }

    /// How the string-level map changes when one record is appended: a
    /// live record binds its key, a tombstone unbinds it, and every other
    /// key keeps its binding.
    proof fn lemma_kv_after_push(self, prev: Self, rec: RecordView)
        requires
            valid_utf8(rec.key),
            valid_utf8(rec.value),
            parse_log(prev.log_bytes().skip(1)) is Some,
            parse_log(self.log_bytes().skip(1)) is Some,
            self.records() == prev.records().push(rec),
        ensures
            !rec.tombstone ==> self.kv() == prev.kv().insert(
                decode_utf8(rec.key),
                decode_utf8(rec.value),
            ),
            rec.tombstone ==> self.kv() == prev.kv().remove(decode_utf8(rec.key)),
    {
        let ck = decode_utf8(rec.key);
        assert(encode_utf8(ck) == rec.key);
        assert forall|c: Seq<char>| c != ck implies encode_utf8(c) != rec.key by {
            if encode_utf8(c) == rec.key {
                assert(decode_utf8(encode_utf8(c)) == c);
            }
        }
        assert forall|c: Seq<char>| true implies #[trigger] lookup(
            self.records(),
            encode_utf8(c),
        ) == (if c == ck {
            if rec.tombstone {
                None
            } else {
                Some(rec.value)
            }
        } else {
            lookup(prev.records(), encode_utf8(c))
        }) by {
            lemma_lookup_push(prev.records(), rec, encode_utf8(c));
        }
        if !rec.tombstone {
            assert(self.kv() =~= prev.kv().insert(ck, decode_utf8(rec.value)));
        } else {
            assert(self.kv() =~= prev.kv().remove(ck));
        }
    }
}

/// The closed set of engine variants.  Each on-disk format is one
/// variant, selected once at open time by `new_engine`; the format
/// reserved for a log-structured merge-tree engine has no implementation
/// yet and therefore no variant — `new_engine` refuses its version byte
/// loudly instead.
pub enum Engine {
    BinaryV1(BinaryEngineV1),
}

impl Engine {
    /// Well-formedness of the underlying engine.
    pub open spec fn wf(self) -> bool {
        match self {
            Engine::BinaryV1(engine) => engine.wf(),
        }
    }

    /// The record sequence of the underlying log.
    pub open spec fn records(self) -> Seq<RecordView> {
        match self {
            Engine::BinaryV1(engine) => engine.records(),
        }
    }

    /// The store's contents, as the underlying engine defines them.
    pub open spec fn kv(self) -> Map<Seq<char>, Seq<char>> {
        match self {
            Engine::BinaryV1(engine) => engine.kv(),
        }
    }

    /// The current value of `key`, or `None` if it has none.
    pub fn get(&self, key: &str) -> (r: Result<Option<String>, EngineError>)
        requires
            self.wf(),
        ensures
            match r {
                Ok(opt) => match opt {
                    Some(s) => self.kv().contains_key(key@) && s@ == self.kv()[key@],
                    None => !self.kv().contains_key(key@),
                },
                Err(_) => false,
            },
    {
        match self {
            Engine::BinaryV1(engine) => engine.get(key),
        }
    }

    /// Binds `key` to `value`, shadowing any earlier record for it.
    pub fn set(&mut self, key: &str, value: &str) -> (r: Result<(), EngineError>)
        requires
            old(self).wf(),
        ensures
            final(self).wf(),
            match r {
                Ok(()) => {
                    &&& encode_utf8(key@).len() <= 255
                    &&& encode_utf8(value@).len() <= 65535
                    &&& final(self).records() == old(self).records().push(
                        RecordView {
                            key: encode_utf8(key@),
                            value: encode_utf8(value@),
                            tombstone: false,
                        },
                    )
                    &&& final(self).kv() == old(self).kv().insert(key@, value@)
                },
                Err(e) => {
                    &&& *final(self) == *old(self)
                    &&& (encode_utf8(key@).len() > 255 || encode_utf8(value@).len() > 65535)
                    &&& e == (if encode_utf8(key@).len() > 255 {
                        EngineError::KeyTooLong
                    } else {
                        EngineError::ValueTooLong
                    })
                },
            },
    {
        match self {
            Engine::BinaryV1(engine) => engine.set(key, value),
        }
    }

    /// Unbinds `key` by appending a tombstone for it.
    pub fn delete(&mut self, key: &str) -> (r: Result<(), EngineError>)
        requires
            old(self).wf(),
        ensures
            final(self).wf(),
            match r {
                Ok(()) => {
                    &&& encode_utf8(key@).len() <= 255
                    &&& final(self).records() == old(self).records().push(
                        RecordView { key: encode_utf8(key@), value: seq![0u8], tombstone: true },
                    )
                    &&& final(self).kv() == old(self).kv().remove(key@)
                },
                Err(e) => {
                    &&& *final(self) == *old(self)
                    &&& encode_utf8(key@).len() > 255
                    &&& e == EngineError::KeyTooLong
                },
            },
    {
        match self {
            Engine::BinaryV1(engine) => engine.delete(key),
        }
    }

    /// What `list` promises of its result, as the underlying engine
    /// states it.
    pub open spec fn lists_live_keys(self, keys: Seq<String>) -> bool {
        match self {
            Engine::BinaryV1(engine) => engine.lists_live_keys(keys),
        }
    }

    /// Every key the store currently binds, without duplicates.
    pub fn list(&self) -> (r: Result<Vec<String>, EngineError>)
        requires
            self.wf(),
        ensures
            match r {
                Ok(keys) => self.lists_live_keys(keys@),
                Err(_) => false,
            },
    {
        match self {
            Engine::BinaryV1(engine) => engine.list(),
        }
    }
}

/// The error `new_engine` reports for a file no engine accepts.
pub open spec fn spec_select_error(bytes: Seq<u8>) -> EngineError {
    if bytes.len() == 0 {
        EngineError::CorruptLog
    } else if bytes[0] == 2 {
        EngineError::UnimplementedEngine { version: 2 }
    } else if bytes[0] != ENCODING_VERSION {
        EngineError::UnsupportedVersion { version: bytes[0] }
    } else {
        EngineError::CorruptLog
    }
}

/// The engine selector: reads the version byte of an existing file's
/// bytes and instantiates the matching engine.  Version 2 is reserved
/// for an unimplemented engine and refused loudly; an unknown version is
/// a fatal configuration error, never silently defaulted.
pub fn new_engine(file_bytes: Vec<u8>) -> (r: Result<Engine, EngineError>)
    ensures
        match r {
            Ok(engine) => {
                &&& wf_file_bytes(file_bytes@)
                &&& engine.wf()
                &&& engine matches Engine::BinaryV1(inner) && inner.log_bytes() == file_bytes@
                    && inner.index_map() == Map::<Seq<u8>, usize>::empty()
            },
            Err(e) => !wf_file_bytes(file_bytes@) && e == spec_select_error(file_bytes@),
        },
{
    if file_bytes.len() == 0 {
        return Err(EngineError::CorruptLog);
    }
    let version = file_bytes[0];
    if version == 2 {
        return Err(EngineError::UnimplementedEngine { version: 2 });
    }
    if version != ENCODING_VERSION {
        return Err(EngineError::UnsupportedVersion { version });
    }
    match BinaryEngineV1::new(file_bytes) {
        Ok(engine) => Ok(Engine::BinaryV1(engine)),
        Err(e) => Err(e),
    }
}

/// The bytes a freshly created storage file must hold before any record
/// is appended: exactly one version byte, the current one.
pub fn new_file_bytes() -> (r: Vec<u8>)
    ensures
        r@ == seq![ENCODING_VERSION],
        wf_file_bytes(r@),
{
    let mut bytes: Vec<u8> = Vec::new();
    bytes.push(ENCODING_VERSION);
    proof {
        assert(bytes@ =~= seq![ENCODING_VERSION]);
        assert(bytes@.skip(1) =~= Seq::<u8>::empty());
    }
    bytes
}

/// Whether the working set of a scan holds the key `k`.
spec fn keyset_has(s: Seq<Vec<u8>>, k: Seq<u8>) -> bool {
    exists|i: int| 0 <= i < s.len() && (#[trigger] s[i])@ == k
}

/// The working set of a scan holds no key twice.
spec fn keyset_distinct(s: Seq<Vec<u8>>) -> bool {
    forall|i: int, j: int| 0 <= i < j < s.len() ==> (#[trigger] s[i])@ != (#[trigger] s[j])@
}

/// Position of `key` in the working set, if present.
fn keyset_find(s: &Vec<Vec<u8>>, key: &[u8]) -> (r: Option<usize>)
    ensures
        match r {
            Some(i) => i < s@.len() && s@[i as int]@ == key@,
            None => !keyset_has(s@, key@),
        },
{
    let mut i: usize = 0;
    while i < s.len()
        invariant
            i <= s@.len(),
            forall|j: int| 0 <= j < i ==> (#[trigger] s@[j])@ != key@,
        decreases s@.len() - i,
    {
        if bytes_eq(s[i].as_slice(), key) {
            return Some(i);
        }
        i += 1;
    }
    None
}

/// Adds `key` to the working set if it is not yet there.
fn keyset_insert(s: &mut Vec<Vec<u8>>, key: &[u8])
    requires
        keyset_distinct(old(s)@),
    ensures
        keyset_distinct(final(s)@),
        forall|k: Seq<u8>| #[trigger]
            keyset_has(final(s)@, k) <==> (keyset_has(old(s)@, k) || k == key@),
{
    match keyset_find(s, key) {
        Some(_) => {
            proof {
                assert(keyset_has(s@, key@));
            }
        },
        None => {
            s.push(slice_to_vec(key));
            proof {
                let prev = old(s)@;
                let cur = s@;
                assert(cur[prev.len() as int]@ == key@);
                assert forall|k: Seq<u8>| #[trigger]
                    keyset_has(cur, k) <==> (keyset_has(prev, k) || k == key@) by {
                    if keyset_has(cur, k) {
                        let i = choose|i: int| 0 <= i < cur.len() && (#[trigger] cur[i])@ == k;
                        if i < prev.len() {
                            assert(prev[i]@ == k);
                        }
                    }
                    if keyset_has(prev, k) {
                        let i = choose|i: int| 0 <= i < prev.len() && (#[trigger] prev[i])@ == k;
                        assert(cur[i]@ == k);
                    }
                    if k == key@ {
                        assert(cur[prev.len() as int]@ == k);
                    }
                }
            }
        },
    }
}

/// Drops `key` from the working set, if present.
fn keyset_remove(s: &mut Vec<Vec<u8>>, key: &[u8])
    requires
        keyset_distinct(old(s)@),
    ensures
        keyset_distinct(final(s)@),
        forall|k: Seq<u8>| #[trigger]
            keyset_has(final(s)@, k) <==> (keyset_has(old(s)@, k) && k != key@),
{
    match keyset_find(s, key) {
        Some(i) => {
            s.remove(i);
            proof {
                let prev = old(s)@;
                let cur = s@;
                let iv = i as int;
                assert(cur =~= prev.remove(iv));
                assert forall|a: int, b: int| 0 <= a < b < cur.len() implies (#[trigger] cur[a])@
                    != (#[trigger] cur[b])@ by {
                    let pa = if a < iv {
                        a
                    } else {
                        a + 1
                    };
                    let pb = if b < iv {
                        b
                    } else {
                        b + 1
                    };
                    assert(cur[a] == prev[pa]);
                    assert(cur[b] == prev[pb]);
                }
                assert forall|k: Seq<u8>| #[trigger]
                    keyset_has(cur, k) <==> (keyset_has(prev, k) && k != key@) by {
                    if keyset_has(cur, k) {
                        let j = choose|j: int| 0 <= j < cur.len() && (#[trigger] cur[j])@ == k;
                        let pj = if j < iv {
                            j
                        } else {
                            j + 1
                        };
                        assert(cur[j] == prev[pj]);
                        assert(prev[pj]@ == k);
                        assert(pj != iv);
                        assert(k != key@);
                    }
                    if keyset_has(prev, k) && k != key@ {
                        let pj = choose|pj: int| 0 <= pj < prev.len() && (#[trigger] prev[pj])@ == k;
                        assert(pj != iv);
                        let j = if pj < iv {
                            pj
                        } else {
                            pj - 1
                        };
                        assert(cur[j] == prev[pj]);
                        assert(cur[j]@ == k);
                    }
                }
            }
        },
        None => {
            proof {
                assert forall|k: Seq<u8>| #[trigger]
                    keyset_has(s@, k) <==> (keyset_has(old(s)@, k) && k != key@) by {
                    if keyset_has(s@, k) && k == key@ {
                        assert(!keyset_has(s@, key@));
                    }
                }
            }
        },
    }
}

/// The one-byte placeholder value of a tombstone record is valid UTF-8.
proof fn lemma_nul_byte_valid_utf8()
    ensures
        valid_utf8(seq![0u8]),
{
    assert((0u8 & 0x7f) == 0u8) by (bit_vector);
    let b = seq![0u8];
    assert(vstd::utf8::is_leading_byte_width_1(b[0]));
    assert(vstd::utf8::length_of_first_scalar(b) == 1);
    assert(vstd::utf8::decode_first_codepoint(b) == 0);
    assert(vstd::utf8::pop_first_scalar(b) =~= Seq::<u8>::empty());
    assert(valid_utf8(Seq::<u8>::empty()));
    assert(vstd::utf8::valid_first_scalar(b));
}

} // verus!

