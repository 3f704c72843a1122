//! The store's laws.
//!
//! Each proof function here states, over the codec's record model, a
//! property that holds of every store: the engines' `set` and `delete`
//! append exactly the records these lemmas speak of (their contracts say
//! so), and `get` and `list` answer from `lookup` and `live_keys`.

use vstd::prelude::*;
use vstd::utf8::encode_utf8;

use crate::codec::{lemma_lookup_push, live_keys, lookup, RecordView};
use crate::storage::BinaryEngineV1;

verus! {

/// A live record binding `key` to `value`.
pub open spec fn live_record(key: Seq<u8>, value: Seq<u8>) -> RecordView {
    RecordView { key, value, tombstone: false }
}

/// A tombstone record for `key`, with the placeholder value
/// `encode_tombstone` writes.
pub open spec fn tombstone_record(key: Seq<u8>) -> RecordView {
    RecordView { key, value: seq![0u8], tombstone: true }
}

/// Round trip: once a live record for `key` and `value` is appended,
/// `key`'s current value is `value`.
pub proof fn lemma_round_trip(recs: Seq<RecordView>, key: Seq<u8>, value: Seq<u8>)
    ensures
        lookup(recs.push(live_record(key, value)), key) == Some(value),
{
    lemma_lookup_push(recs, live_record(key, value), key);
}

/// Shadowing: writing `key` twice leaves the value written second as the
/// current one; the first is shadowed, not erased.
pub proof fn lemma_shadowing(recs: Seq<RecordView>, key: Seq<u8>, v1: Seq<u8>, v2: Seq<u8>)
    ensures
        lookup(recs.push(live_record(key, v1)).push(live_record(key, v2)), key) == Some(v2),
{
    lemma_lookup_push(recs.push(live_record(key, v1)), live_record(key, v2), key);
}

/// Tombstone: writing `key` and then deleting it leaves the key with no
/// current value, and absent from the live-key set that `list` reports.
pub proof fn lemma_tombstone(recs: Seq<RecordView>, key: Seq<u8>, value: Seq<u8>)
    ensures
        lookup(recs.push(live_record(key, value)).push(tombstone_record(key)), key) is None,
        !live_keys(recs.push(live_record(key, value)).push(tombstone_record(key))).contains(key),
{
    lemma_lookup_push(recs.push(live_record(key, value)), tombstone_record(key), key);
}

/// Resurrection: set, delete, set again — the key is current with the
/// value written last, and live again.
pub proof fn lemma_resurrection(recs: Seq<RecordView>, key: Seq<u8>, v1: Seq<u8>, v2: Seq<u8>)
    ensures
        lookup(
            recs.push(live_record(key, v1)).push(tombstone_record(key)).push(
                live_record(key, v2),
            ),
            key,
        ) == Some(v2),
        live_keys(
            recs.push(live_record(key, v1)).push(tombstone_record(key)).push(
                live_record(key, v2),
            ),
        ).contains(key),
{
    lemma_lookup_push(
        recs.push(live_record(key, v1)).push(tombstone_record(key)),
        live_record(key, v2),
        key,
    );
}

/// Index/scan equivalence: a store's contents are a function of the log
/// bytes alone.  Two well-formed engines over the same file — one with a
/// cold index, one warmed by earlier writes — hold the same map, so
/// `get` answers identically on both.
pub proof fn lemma_contents_depend_only_on_log(e1: BinaryEngineV1, e2: BinaryEngineV1)
    requires
        e1.wf(),
        e2.wf(),
        e1.log_bytes() == e2.log_bytes(),
    ensures
        e1.kv() == e2.kv(),
{
    assert(e1.kv() =~= e2.kv());
}

/// List consistency: a key is in the store's contents exactly when the
/// last record for its byte encoding is live.
pub proof fn lemma_contents_are_live_keys(engine: BinaryEngineV1, key: Seq<char>)
    ensures
        engine.kv().contains_key(key) <==> live_keys(engine.records()).contains(encode_utf8(key)),
{
}

/// The tombstone records for a sequence of keys, in order.
pub open spec fn tombstone_records(keys: Seq<Seq<u8>>) -> Seq<RecordView>
    decreases keys.len(),
{
    if keys.len() == 0 {
        Seq::empty()
    } else {
        seq![tombstone_record(keys.first())] + tombstone_records(keys.drop_first())
    }
}

/// Deleting every live key empties the store: after appending tombstones
/// for a set of keys that covers all live ones, nothing is live, so
/// inserting then deleting any number of distinct keys leaves `list`
/// with nothing to report.
pub proof fn lemma_delete_all_empties(recs: Seq<RecordView>, keys: Seq<Seq<u8>>)
    requires
        forall|k: Seq<u8>| live_keys(recs).contains(k) ==> keys.contains(k),
    ensures
        live_keys(recs + tombstone_records(keys)) == Set::<Seq<u8>>::empty(),
    decreases keys.len(),
{
    if keys.len() == 0 {
        assert(recs + tombstone_records(keys) =~= recs);
        assert forall|k: Seq<u8>| !live_keys(recs).contains(k) by {
            if live_keys(recs).contains(k) {
                assert(keys.contains(k));
            }
        }
        assert(live_keys(recs) =~= Set::<Seq<u8>>::empty());
    } else {
        let k0 = keys.first();
        let recs2 = recs.push(tombstone_record(k0));
        assert forall|k: Seq<u8>| live_keys(recs2).contains(k) implies keys.drop_first().contains(
            k,
        ) by {
            lemma_lookup_push(recs, tombstone_record(k0), k);
            assert(k != k0);
            assert(live_keys(recs).contains(k));
            assert(keys.contains(k));
            let i = choose|i: int| 0 <= i < keys.len() && keys[i] == k;
            assert(keys.drop_first()[i - 1] == k);
        }
        lemma_delete_all_empties(recs2, keys.drop_first());
        assert(recs + tombstone_records(keys) =~= recs2 + tombstone_records(keys.drop_first()));
    }
}

/// The live records binding each key of `keys` to the value of `values`
/// at the same position, in order.
pub open spec fn live_records(keys: Seq<Seq<u8>>, values: Seq<Seq<u8>>) -> Seq<RecordView>
    decreases keys.len(),
{
    if keys.len() == 0 {
        Seq::empty()
    } else {
        seq![live_record(keys.first(), values.first())] + live_records(
            keys.drop_first(),
            values.drop_first(),
        )
    }
}

/// Appending records none of which carry `key` leaves `key`'s current
/// value untouched.
pub proof fn lemma_lookup_unmatched(recs: Seq<RecordView>, added: Seq<RecordView>, key: Seq<u8>)
    requires
        forall|i: int| 0 <= i < added.len() ==> (#[trigger] added[i]).key != key,
    ensures
        lookup(recs + added, key) == lookup(recs, key),
    decreases added.len(),
{
    if added.len() == 0 {
        assert(recs + added =~= recs);
    } else {
        assert(recs + added =~= (recs + added.drop_last()).push(added.last()));
        lemma_lookup_push(recs + added.drop_last(), added.last(), key);
        lemma_lookup_unmatched(recs, added.drop_last(), key);
    }
}

/// No lost writes: when writes for pairwise distinct keys are appended
/// in any order, every key ends up current with its own value — which is
/// why concurrent `set` calls on distinct keys, serialized in whatever
/// order a lock admits them, are all visible afterwards.
pub proof fn lemma_distinct_writes_all_visible(
    recs: Seq<RecordView>,
    keys: Seq<Seq<u8>>,
    values: Seq<Seq<u8>>,
)
    requires
        keys.len() == values.len(),
        forall|i: int, j: int| 0 <= i < j < keys.len() ==> keys[i] != keys[j],
    ensures
        forall|i: int|
            0 <= i < keys.len() ==> lookup(recs + live_records(keys, values), #[trigger] keys[i])
                == Some(values[i]),
    decreases keys.len(),
{
    if keys.len() > 0 {
        let k0 = keys.first();
        let v0 = values.first();
        let rest = live_records(keys.drop_first(), values.drop_first());
        let recs2 = recs.push(live_record(k0, v0));
        lemma_live_records_index(keys.drop_first(), values.drop_first());
        lemma_distinct_writes_all_visible(recs2, keys.drop_first(), values.drop_first());
        assert(recs + live_records(keys, values) =~= recs2 + rest);
        assert forall|i: int| 0 <= i < rest.len() implies (#[trigger] rest[i]).key != k0 by {
            assert(rest[i].key == keys.drop_first()[i]);
            assert(keys[i + 1] != keys[0]);
        }
        lemma_lookup_unmatched(recs2, rest, k0);
        lemma_lookup_push(recs, live_record(k0, v0), k0);
        assert forall|i: int| 0 <= i < keys.len() implies lookup(
            recs + live_records(keys, values),
            #[trigger] keys[i],
        ) == Some(values[i]) by {
            if i > 0 {
                assert(keys.drop_first()[i - 1] == keys[i]);
                assert(values.drop_first()[i - 1] == values[i]);
            }
        }
    }
}

/// Live records binding the one key `key` to each value in turn.
pub open spec fn same_key_records(key: Seq<u8>, values: Seq<Seq<u8>>) -> Seq<RecordView>
    decreases values.len(),
{
    if values.len() == 0 {
        Seq::empty()
    } else {
        same_key_records(key, values.drop_last()).push(live_record(key, values.last()))
    }
}

/// One winner per key: when writes for one key are appended in some
/// serialization order, exactly the value serialized last is current —
/// so concurrent `set` calls on one key, run under a lock in whatever
/// order it admits them, leave one winning value.
pub proof fn lemma_same_key_last_write_wins(
    recs: Seq<RecordView>,
    key: Seq<u8>,
    values: Seq<Seq<u8>>,
)
    requires
        values.len() > 0,
    ensures
        lookup(recs + same_key_records(key, values), key) == Some(values.last()),
{
    assert(recs + same_key_records(key, values) =~= (recs + same_key_records(
        key,
        values.drop_last(),
    )).push(live_record(key, values.last())));
    lemma_lookup_push(
        recs + same_key_records(key, values.drop_last()),
        live_record(key, values.last()),
        key,
    );
}

/// Positions and length of `live_records`.
proof fn lemma_live_records_index(keys: Seq<Seq<u8>>, values: Seq<Seq<u8>>)
    requires
        keys.len() == values.len(),
    ensures
        live_records(keys, values).len() == keys.len(),
        forall|i: int|
            0 <= i < keys.len() ==> #[trigger] live_records(keys, values)[i] == live_record(
                keys[i],
                values[i],
            ),
    decreases keys.len(),
{
    if keys.len() > 0 {
        lemma_live_records_index(keys.drop_first(), values.drop_first());
        assert forall|i: int| 0 <= i < keys.len() implies #[trigger] live_records(keys, values)[i]
            == live_record(keys[i], values[i]) by {
            if i > 0 {
                assert(live_records(keys, values)[i] == live_records(
                    keys.drop_first(),
                    values.drop_first(),
                )[i - 1]);
                assert(keys.drop_first()[i - 1] == keys[i]);
                assert(values.drop_first()[i - 1] == values[i]);
            }
        }
    }
}

} // verus!
