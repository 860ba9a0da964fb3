//! The time-series store: one handle to the ordered engine, keyed by
//! write-time seconds, with point lookup and the seek-and-scan range
//! protocol over time-encoded keys.

use vstd::prelude::*;

use crate::engine::KvEngine;
use crate::engine::lemma_map_contains;
use crate::engine::lemma_map_value;
use crate::engine::seq_to_map;
use crate::engine::sorted_insert;
use crate::engine::sorted_remove;
use crate::payload::Measurement;
use crate::payload::MeasurementView;
use crate::payload::deser_spec;
use crate::payload::deserialize;
use crate::payload::lemma_payload_round_trip;
use crate::payload::ser_spec;
use crate::payload::serialize;
use crate::timekey::decode_key;
use crate::timekey::encode_key;
use crate::timekey::lemma_key_order;
use crate::timekey::lemma_ts_key_injective;
use crate::timekey::lex_lt;
use crate::timekey::ts_key;
use crate::TsError;

verus! {

/// Relies on chrono::Utc::now and chrono::DateTime::timestamp for the
/// current wall-clock Unix time in whole seconds.  Nothing can be promised
/// of the clock's reading.
#[verifier::external_body]
fn now_seconds() -> i64 {
    chrono::Utc::now().timestamp()
}

/// A well-shaped engine entry: its key encodes some timestamp and its
/// value decodes to some record.
pub open spec fn entry_ok(e: (Seq<u8>, Seq<u8>)) -> bool {
    &&& exists|t: i64| e.0 == ts_key(t as int)
    &&& deser_spec(e.1) is Some
}

/// The timestamp a canonical key encodes.
pub open spec fn key_ts_of(k: Seq<u8>) -> int {
    choose|t: int| ts_key(t) == k
}

/// The record a payload decodes to.
pub open spec fn deser_view(p: Seq<u8>) -> MeasurementView {
    choose|m: MeasurementView| deser_spec(p) == Some(m)
}

/// The views of a vector of records.
pub open spec fn views_of(v: Seq<Measurement>) -> Seq<MeasurementView> {
    v.map(|i: int, m: Measurement| m@)
}

/// Where a seek lands: the position of the first entry whose key is at or
/// after `k`, or the length when every key is before `k`.
pub open spec fn seek_pos(es: Seq<(Seq<u8>, Seq<u8>)>, k: Seq<u8>) -> int
    decreases es.len(),
{
    if es.len() == 0 {
        0
    } else if lex_lt(es[0].0, k) {
        1 + seek_pos(es.drop_first(), k)
    } else {
        0
    }
}

/// What a seek position is: every entry before it lies below `k`, and the
/// entry at it (if any) does not.
pub proof fn lemma_seek_pos_props(es: Seq<(Seq<u8>, Seq<u8>)>, k: Seq<u8>)
    ensures
        0 <= seek_pos(es, k) <= es.len(),
        forall|j: int| 0 <= j < seek_pos(es, k) ==> lex_lt(es[j].0, k),
        seek_pos(es, k) < es.len() ==> !lex_lt(es[seek_pos(es, k)].0, k),
    decreases es.len(),
{
    if es.len() > 0 && lex_lt(es[0].0, k) {
        lemma_seek_pos_props(es.drop_first(), k);
        let p = seek_pos(es, k);
        assert forall|j: int| 0 <= j < p implies lex_lt(es[j].0, k) by {
            if j >= 1 {
                assert(es.drop_first()[j - 1] == es[j]);
            }
        }
        if p < es.len() {
            assert(es.drop_first()[p - 1] == es[p]);
        }
    }
}

/// Any position with the properties of a seek is the seek position.
pub proof fn lemma_seek_pos_char(es: Seq<(Seq<u8>, Seq<u8>)>, k: Seq<u8>, p: int)
    requires
        0 <= p <= es.len(),
        forall|j: int| 0 <= j < p ==> lex_lt(es[j].0, k),
        p < es.len() ==> !lex_lt(es[p as int].0, k),
    ensures
        p == seek_pos(es, k),
    decreases es.len(),
{
    if es.len() == 0 {
    } else if lex_lt(es[0].0, k) {
        assert(p >= 1);
        assert forall|j: int| 0 <= j < p - 1 implies lex_lt(es.drop_first()[j].0, k) by {
            assert(es.drop_first()[j] == es[j + 1]);
        }
        if p - 1 < es.drop_first().len() {
            assert(es.drop_first()[p - 1] == es[p]);
        }
        lemma_seek_pos_char(es.drop_first(), k, p - 1);
    } else {
        assert(p == 0);
    }
}

/// What a scan collects from position `i` on: each record in turn, until
/// the first entry whose key timestamp exceeds `end` or the end of the
/// keyspace, whichever comes first.
pub open spec fn scan_entries(es: Seq<(Seq<u8>, Seq<u8>)>, i: int, end: int) -> Seq<
    MeasurementView,
>
    decreases es.len() - i,
{
    if i < 0 || i >= es.len() {
        Seq::empty()
    } else if key_ts_of(es[i].0) > end {
        Seq::empty()
    } else {
        seq![deser_view(es[i].1)] + scan_entries(es, i + 1, end)
    }
}

/// The records a range scan returns: seek to the first key at or after the
/// encoded start, then collect forward while the decoded timestamps stay
/// at or below the end bound.
pub open spec fn range_model(es: Seq<(Seq<u8>, Seq<u8>)>, start: int, end: int) -> Seq<
    MeasurementView,
> {
    scan_entries(es, seek_pos(es, ts_key(start)), end)
}

/// The store: one open handle to the ordered engine, and the root path it
/// was created for (retained only for teardown by the surrounding layer).
pub struct TimeseriesLocalDatabase {
    engine: KvEngine,
    dbpath: String,
    live: bool,
}

impl TimeseriesLocalDatabase {
    /// The engine's entries in ascending key order.
    pub closed spec fn entries(self) -> Seq<(Seq<u8>, Seq<u8>)> {
        self.engine.model()
    }

    /// The stored bytes, as a map from key to payload.
    pub open spec fn contents(self) -> Map<Seq<u8>, Seq<u8>> {
        seq_to_map(self.entries())
    }

    /// Whether the store has not been destroyed yet.
    pub closed spec fn is_open(self) -> bool {
        self.live
    }

    /// The root path the store was created with.
    pub closed spec fn path_chars(self) -> Seq<char> {
        self.dbpath@
    }

    /// Well-formed: the engine's keys ascend strictly, every key encodes a
    /// timestamp, and every payload decodes to a record.
    pub closed spec fn wf(self) -> bool {
        &&& self.engine.wf()
        &&& forall|i: int| 0 <= i < self.entries().len() ==> entry_ok(self.entries()[i])
    }

    /// Open a store rooted at `basepath`.
    pub fn new(basepath: String) -> (db: Self)
        ensures
            db.wf(),
            db.is_open(),
            db.entries() == Seq::<(Seq<u8>, Seq<u8>)>::empty(),
            db.contents() == Map::<Seq<u8>, Seq<u8>>::empty(),
            db.path_chars() == basepath@,
    {
        TimeseriesLocalDatabase { engine: KvEngine::new(), dbpath: basepath, live: true }
    }

    /// Store `m` under the timestamp `ts`, overwriting whatever was there:
    /// afterwards exactly the payload of `m` is stored under the key of
    /// `ts`, and no other key is touched.
    pub fn put_at(&mut self, ts: i64, m: Measurement) -> (r: Result<i64, TsError>)
        requires
            old(self).wf(),
        ensures
            final(self).wf(),
            final(self).is_open() == old(self).is_open(),
            final(self).path_chars() == old(self).path_chars(),
            old(self).is_open() ==> r == Ok::<i64, TsError>(ts) && final(self).entries()
                == sorted_insert(old(self).entries(), ts_key(ts as int), ser_spec(m@))
                && final(self).contents() == old(self).contents().insert(ts_key(ts as int),
                ser_spec(m@)),
            !old(self).is_open() ==> r == Err::<i64, TsError>(TsError::StorageError)
                && *final(self) == *old(self),
    {
        if !self.live {
            return Err(TsError::StorageError);
        }
        let ghost m0 = self.entries();
        // the name is held in memory, so its length fits the length field
        let name_len = m.name.len();
        proof {
            assert(name_len <= u64::MAX);
            lemma_payload_round_trip(m@);
        }
        let key = encode_key(ts);
        let payload = serialize(&m);
        self.engine.put(key, payload);
        proof {
            assert forall|i: int| 0 <= i < self.entries().len()
                implies entry_ok(self.entries()[i]) by {
                if self.entries()[i] == (ts_key(ts as int), ser_spec(m@)) {
                    assert(self.entries()[i].0 == ts_key(ts as int));
                } else {
                    let j = choose|j: int| 0 <= j < m0.len() && m0[j] == self.entries()[i];
                    assert(entry_ok(m0[j]));
                }
            }
        }
        Ok(ts)
    }

    /// Store `m` under the current wall-clock second and return that
    /// second, so the caller can later retrieve it or bound a range around
    /// it.  Two calls within the same second collide: the later write
    /// overwrites the earlier one under the same key.
    pub fn put(&mut self, m: Measurement) -> (r: Result<i64, TsError>)
        requires
            old(self).wf(),
        ensures
            final(self).wf(),
            final(self).is_open() == old(self).is_open(),
            final(self).path_chars() == old(self).path_chars(),
            old(self).is_open() ==> (r matches Ok(ts) && final(self).entries()
                == sorted_insert(old(self).entries(), ts_key(ts as int), ser_spec(m@))
                && final(self).contents() == old(self).contents().insert(ts_key(ts as int),
                ser_spec(m@))),
            !old(self).is_open() ==> r == Err::<i64, TsError>(TsError::StorageError)
                && *final(self) == *old(self),
    {
        let ts = now_seconds();
        self.put_at(ts, m)
    }

    /// Exact-match lookup of the record stored under `key`; `NotFound`
    /// exactly when no record exists at that second.
    pub fn get(&mut self, key: i64) -> (r: Result<Measurement, TsError>)
        requires
            old(self).wf(),
        ensures
            *final(self) == *old(self),
            !old(self).is_open() ==> r == Err::<Measurement, TsError>(TsError::StorageError),
            old(self).is_open() ==> match r {
                Ok(m) => old(self).contents().contains_key(ts_key(key as int))
                    && deser_spec(old(self).contents()[ts_key(key as int)]) == Some(m@),
                Err(e) => e == TsError::NotFound && !old(self).contents().contains_key(
                    ts_key(key as int)),
            },
    {
        if !self.live {
            return Err(TsError::StorageError);
        }
        let k = encode_key(key);
        match self.engine.get(&k) {
            Some(v) => {
                match deserialize(v) {
                    Ok(m) => Ok(m),
                    Err(_) => {
                        proof {
                            lemma_map_contains(self.entries(), k@);
                            let i = choose|i: int|
                                0 <= i < self.entries().len() && self.entries()[i].0 == k@;
                            self.engine.lemma_keys_distinct();
                            lemma_map_value(self.entries(), i, k@);
                            assert(entry_ok(self.entries()[i]));
                            assert(false);
                        }
                        Err(TsError::DecodeError)
                    },
                }
            },
            None => Err(TsError::NotFound),
        }
    }

    /// Remove the record under `key` if there is one; removing a missing
    /// key is not an error.
    pub fn _delete(&mut self, key: i64) -> (r: Result<(), TsError>)
        requires
            old(self).wf(),
        ensures
            final(self).wf(),
            final(self).is_open() == old(self).is_open(),
            final(self).path_chars() == old(self).path_chars(),
            old(self).is_open() ==> r == Ok::<(), TsError>(()) && final(self).entries()
                == sorted_remove(old(self).entries(), ts_key(key as int))
                && final(self).contents() == old(self).contents().remove(ts_key(key as int)),
            !old(self).is_open() ==> r == Err::<(), TsError>(TsError::StorageError)
                && *final(self) == *old(self),
    {
        if !self.live {
            return Err(TsError::StorageError);
        }
        let ghost m0 = self.entries();
        let k = encode_key(key);
        self.engine.delete(&k);
        proof {
            assert forall|i: int| 0 <= i < self.entries().len()
                implies entry_ok(self.entries()[i]) by {
                let j = choose|j: int| 0 <= j < m0.len() && m0[j] == self.entries()[i];
                assert(entry_ok(m0[j]));
            }
        }
        Ok(())
    }

    /// Every record whose key timestamp the seek-and-scan protocol visits
    /// in the closed interval `[start, end]`: seek the cursor to the first
    /// key at or after the encoded start, then walk forward, decoding each
    /// visited key, and stop at the first timestamp past `end` or at the
    /// end of the keyspace.  An empty result is not an error.
    pub fn get_absolute_range(&mut self, start: i64, end: i64) -> (r: Result<
        Vec<Measurement>,
        TsError,
    >)
        requires
            old(self).wf(),
        ensures
            *final(self) == *old(self),
            !old(self).is_open() ==> r == Err::<Vec<Measurement>, TsError>(
                TsError::StorageError),
            old(self).is_open() ==> (r matches Ok(v) && views_of(v@) == range_model(
                old(self).entries(), start as int, end as int)),
    {
        if !self.live {
            return Err(TsError::StorageError);
        }
        let ghost es = self.entries();
        let lo = encode_key(start);
        let n = self.engine.num_entries();
        let pos0 = self.engine.seek(&lo);
        proof {
            lemma_seek_pos_char(es, lo@, pos0 as int);
        }
        let mut pos = pos0;
        let mut out: Vec<Measurement> = Vec::new();
        proof {
            assert(views_of(out@) + scan_entries(es, pos as int, end as int) =~= range_model(
                es, start as int, end as int));
        }
        #[verifier::loop_isolation(false)]
        loop
            invariant
                pos0 <= pos <= n,
                views_of(out@) + scan_entries(es, pos as int, end as int) == range_model(
                    es, start as int, end as int),
            decreases n - pos,
        {
            if pos >= n {
                proof {
                    assert(scan_entries(es, pos as int, end as int) == Seq::<
                        MeasurementView,
                    >::empty());
                    assert(views_of(out@) + Seq::<MeasurementView>::empty() =~= views_of(
                        out@));
                }
                break;
            }
            let key = self.engine.entry_key(pos);
            let decoded = decode_key(key);
            proof {
                assert(entry_ok(es[pos as int]));
                let t0 = choose|t: i64| es[pos as int].0 == ts_key(t as int);
                assert(key@ == ts_key(t0 as int));
            }
            match decoded {
                Err(_) => {
                    proof {
                        assert(false);
                    }
                    return Err(TsError::DecodeError);
                },
                Ok(t) => {
                    proof {
                        assert(key@ == ts_key(t as int));
                        assert(ts_key(key_ts_of(key@)) == key@);
                        lemma_ts_key_injective(key_ts_of(key@), t as int);
                    }
                    if t > end {
                        proof {
                            assert(scan_entries(es, pos as int, end as int) == Seq::<
                                MeasurementView,
                            >::empty());
                            assert(views_of(out@) + Seq::<MeasurementView>::empty()
                                =~= views_of(out@));
                        }
                        break;
                    }
                    let val = self.engine.entry_val(pos);
                    match deserialize(val) {
                        Err(_) => {
                            proof {
                                assert(false);
                            }
                            return Err(TsError::DecodeError);
                        },
                        Ok(m) => {
                            proof {
                                assert(deser_spec(es[pos as int].1) == Some(m@));
                                assert(deser_view(es[pos as int].1) == m@);
                                assert(scan_entries(es, pos as int, end as int) == seq![m@]
                                    + scan_entries(es, pos + 1, end as int));
                                assert(views_of(out@.push(m)) =~= views_of(out@) + seq![m@]);
                                assert(views_of(out@.push(m)) + scan_entries(es, pos + 1,
                                    end as int) =~= views_of(out@) + (seq![m@]
                                    + scan_entries(es, pos + 1, end as int)));
                            }
                            out.push(m);
                            pos += 1;
                        },
                    }
                },
            }
        }
        Ok(out)
    }

    /// Equivalent to an absolute range query over `[start, start +
    /// duration]`; a negative duration puts the end before the start and
    /// yields an empty sequence, not an error.
    pub fn get_relative_range_in_seconds(&mut self, start: i64, duration: i64) -> (r: Result<
        Vec<Measurement>,
        TsError,
    >)
        requires
            old(self).wf(),
            i64::MIN <= start + duration <= i64::MAX,
        ensures
            *final(self) == *old(self),
            !old(self).is_open() ==> r == Err::<Vec<Measurement>, TsError>(
                TsError::StorageError),
            old(self).is_open() ==> (r matches Ok(v) && views_of(v@) == range_model(
                old(self).entries(), start as int, start + duration)),
    {
        let end = start + duration;
        self.get_absolute_range(start, end)
    }

    /// Tear the store down: afterwards it holds nothing and is closed, and
    /// every further operation reports a storage error instead of
    /// panicking.  Destroying an already-destroyed store is harmless.
    pub fn destroy(&mut self)
        ensures
            final(self).wf(),
            !final(self).is_open(),
            final(self).entries() == Seq::<(Seq<u8>, Seq<u8>)>::empty(),
            final(self).contents() == Map::<Seq<u8>, Seq<u8>>::empty(),
            final(self).path_chars() == old(self).path_chars(),
    {
        self.engine.clear();
        self.live = false;
    }
}

/// A well-formed store's entries ascend strictly in key order, every key
/// encodes a timestamp, and every payload decodes; this lets the range
/// laws below be applied to a store's own entries.
pub proof fn lemma_wf_entries(db: TimeseriesLocalDatabase)
    requires
        db.wf(),
    ensures
        forall|i: int, j: int|
            0 <= i < j < db.entries().len() ==> lex_lt(db.entries()[i].0, db.entries()[j].0),
        forall|i: int| 0 <= i < db.entries().len() ==> entry_ok(db.entries()[i]),
{
}

/// Put-then-get: after a record is stored under a timestamp, the lookup of
/// that timestamp finds bytes that decode back to exactly that record.
pub proof fn lemma_put_then_get(c: Map<Seq<u8>, Seq<u8>>, ts: i64, m: MeasurementView)
    requires
        m.name.len() <= u64::MAX,
    ensures
        ({
            let c2 = c.insert(ts_key(ts as int), ser_spec(m));
            c2.contains_key(ts_key(ts as int)) && deser_spec(c2[ts_key(ts as int)]) == Some(m)
        }),
{
    lemma_payload_round_trip(m);
}

/// Collision overwrite: two writes within the same second leave exactly
/// one stored record under that second's key — the second write — and the
/// lookup of that second finds it.
pub proof fn lemma_collision_overwrite(
    c: Map<Seq<u8>, Seq<u8>>,
    ts: i64,
    m1: MeasurementView,
    m2: MeasurementView,
)
    requires
        m2.name.len() <= u64::MAX,
    ensures
        c.insert(ts_key(ts as int), ser_spec(m1)).insert(ts_key(ts as int), ser_spec(m2))
            == c.insert(ts_key(ts as int), ser_spec(m2)),
        deser_spec(c.insert(ts_key(ts as int), ser_spec(m1)).insert(ts_key(ts as int),
            ser_spec(m2))[ts_key(ts as int)]) == Some(m2),
{
    let k = ts_key(ts as int);
    assert(c.insert(k, ser_spec(m1)).insert(k, ser_spec(m2)) =~= c.insert(k, ser_spec(m2)));
    lemma_payload_round_trip(m2);
}

/// A store whose keys all encode nonnegative timestamps of one digit
/// length `w`; within such a store byte order and numeric order agree.
pub open spec fn uniform_entry(e: (Seq<u8>, Seq<u8>), w: nat) -> bool {
    exists|t: i64| 0 <= t && e.0 == ts_key(t as int) && ts_key(t as int).len() == w
}

pub open spec fn uniform_entries(es: Seq<(Seq<u8>, Seq<u8>)>, w: nat) -> bool {
    forall|i: int| 0 <= i < es.len() ==> uniform_entry(es[i], w)
}

/// Every entry of `es` in turn, keeping the records whose key timestamp
/// lies in the closed interval `[start, end]`.
pub open spec fn interval_views(es: Seq<(Seq<u8>, Seq<u8>)>, i: int, start: int, end: int) -> Seq<
    MeasurementView,
>
    decreases es.len() - i,
{
    if i < 0 || i >= es.len() {
        Seq::empty()
    } else if start <= key_ts_of(es[i].0) && key_ts_of(es[i].0) <= end {
        seq![deser_view(es[i].1)] + interval_views(es, i + 1, start, end)
    } else {
        interval_views(es, i + 1, start, end)
    }
}

/// Entries whose timestamps all lie above `end` contribute nothing.
proof fn lemma_interval_all_above(es: Seq<(Seq<u8>, Seq<u8>)>, i: int, start: int, end: int)
    requires
        0 <= i,
        forall|j: int| i <= j < es.len() ==> key_ts_of(es[j].0) > end,
    ensures
        interval_views(es, i, start, end) == Seq::<MeasurementView>::empty(),
    decreases es.len() - i,
{
    if i < es.len() {
        lemma_interval_all_above(es, i + 1, start, end);
    }
}

/// Entries whose timestamps lie below `start` contribute nothing.
proof fn lemma_interval_skip_below(
    es: Seq<(Seq<u8>, Seq<u8>)>,
    i: int,
    p: int,
    start: int,
    end: int,
)
    requires
        0 <= i <= p <= es.len(),
        forall|j: int| i <= j < p ==> key_ts_of(es[j].0) < start,
    ensures
        interval_views(es, i, start, end) == interval_views(es, p, start, end),
    decreases p - i,
{
    if i < p {
        lemma_interval_skip_below(es, i + 1, p, start, end);
    }
}

/// From a position whose timestamps ascend and lie at or after `start`,
/// the scan collects exactly the in-interval records.
proof fn lemma_scan_collects_interval(es: Seq<(Seq<u8>, Seq<u8>)>, i: int, start: int, end: int)
    requires
        0 <= i,
        forall|j: int| i <= j < es.len() ==> start <= key_ts_of(es[j].0),
        forall|j: int, l: int|
            i <= j < l < es.len() ==> key_ts_of(es[j].0) < key_ts_of(es[l].0),
    ensures
        scan_entries(es, i, end) == interval_views(es, i, start, end),
    decreases es.len() - i,
{
    if i >= es.len() {
    } else if key_ts_of(es[i].0) > end {
        lemma_interval_all_above(es, i, start, end);
    } else {
        lemma_scan_collects_interval(es, i + 1, start, end);
    }
}

/// Closed-interval range: over a store whose keys all encode nonnegative
/// timestamps of the digit length of the start bound, a range scan
/// returns exactly the records whose key timestamp lies in the closed
/// interval `[start, end]`, in ascending timestamp order (the order the
/// entries stand in).  With mixed digit lengths the decimal text keys do
/// not order numerically, and the scan follows the byte order instead;
/// that is a documented limit of this key shape.
pub proof fn lemma_closed_interval(es: Seq<(Seq<u8>, Seq<u8>)>, start: i64, end: i64, w: nat)
    requires
        forall|i: int, j: int| 0 <= i < j < es.len() ==> lex_lt(es[i].0, es[j].0),
        uniform_entries(es, w),
        0 <= start,
        ts_key(start as int).len() == w,
    ensures
        range_model(es, start as int, end as int) == interval_views(es, 0, start as int,
            end as int),
{
    assert forall|i: int| 0 <= i < es.len() implies (ts_key(key_ts_of(es[i].0)) == es[i].0
        && 0 <= key_ts_of(es[i].0) && ts_key(key_ts_of(es[i].0)).len() == w) by {
        assert(uniform_entry(es[i], w));
        let t = choose|t: i64|
            0 <= t && es[i].0 == ts_key(t as int) && ts_key(t as int).len() == w;
        assert(ts_key(t as int) == es[i].0);
        assert(ts_key(key_ts_of(es[i].0)) == es[i].0);
        lemma_ts_key_injective(key_ts_of(es[i].0), t as int);
    }
    assert forall|i: int, j: int| 0 <= i < j < es.len()
        implies key_ts_of(es[i].0) < key_ts_of(es[j].0) by {
        let ti = key_ts_of(es[i].0);
        let tj = key_ts_of(es[j].0);
        if ti == tj {
            assert(es[i].0 == es[j].0);
            crate::timekey::lemma_lex_irrefl(es[i].0);
        } else if ti > tj {
            lemma_key_order(tj, ti);
            crate::timekey::lemma_lex_trans(es[i].0, es[j].0, es[i].0);
            crate::timekey::lemma_lex_irrefl(es[i].0);
        }
    }
    let k0 = ts_key(start as int);
    let p = seek_pos(es, k0);
    lemma_seek_pos_props(es, k0);
    assert forall|j: int| 0 <= j < p implies key_ts_of(es[j].0) < start by {
        let tj = key_ts_of(es[j].0);
        if tj == start {
            assert(es[j].0 == k0);
            crate::timekey::lemma_lex_irrefl(k0);
        } else if tj > start {
            lemma_key_order(start as int, tj);
            crate::timekey::lemma_lex_trans(k0, es[j].0, k0);
            crate::timekey::lemma_lex_irrefl(k0);
        }
    }
    assert forall|j: int| p <= j < es.len() implies start <= key_ts_of(es[j].0) by {
        let tj = key_ts_of(es[j].0);
        if tj < start {
            lemma_key_order(tj, start as int);
            if j > p {
                crate::timekey::lemma_lex_trans(es[p].0, es[j].0, k0);
            }
            assert(lex_lt(es[p].0, k0));
        }
    }
    lemma_scan_collects_interval(es, p, start as int, end as int);
    lemma_interval_skip_below(es, 0, p, start as int, end as int);
}

/// Empty range: when the end bound lies before the start bound, a range
/// scan returns the empty sequence rather than an error.  Stated for
/// stores whose key digit length matches the start bound's, where the
/// seek is guaranteed to land past every smaller timestamp.
pub proof fn lemma_empty_range(es: Seq<(Seq<u8>, Seq<u8>)>, start: i64, end: i64, w: nat)
    requires
        end < start,
        0 <= start,
        uniform_entries(es, w),
        ts_key(start as int).len() == w,
    ensures
        range_model(es, start as int, end as int) == Seq::<MeasurementView>::empty(),
{
    let k = ts_key(start as int);
    let p = seek_pos(es, k);
    lemma_seek_pos_props(es, k);
    if p < es.len() {
        assert(uniform_entry(es[p], w));
        let t = choose|t: i64|
            0 <= t && es[p].0 == ts_key(t as int) && ts_key(t as int).len() == w;
        if t < start {
            lemma_key_order(t as int, start as int);
            assert(lex_lt(es[p].0, k));
            assert(false);
        }
        assert(ts_key(key_ts_of(es[p].0)) == es[p].0);
        lemma_ts_key_injective(key_ts_of(es[p].0), t as int);
        assert(key_ts_of(es[p].0) == t >= start > end);
        assert(scan_entries(es, p, end as int) == Seq::<MeasurementView>::empty());
    }
}

} // verus!
