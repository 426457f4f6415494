//! Dual index store: two ordered key-space partitions of one embedded store,
//! one keyed time-first and one keyed sensor-first. Writes go to both
//! partitions; reads scan one of them.
//!
//! The embedded store itself (sled) is trusted through the small set of
//! wrappers below; everything around those calls — filtering, key and
//! payload encoding, bound translation, decoding and skipping of corrupt
//! records — is verified. Each partition carries a ghost model of its
//! contents (a map from key bytes to payload bytes), and every wrapper
//! states how the call it makes relates to that model.

use vstd::pervasive::arbitrary;
use vstd::prelude::*;

use crate::keys::get_sensor_prefixed_key;
use crate::keys::get_ts_prefixed_key;
use crate::keys::decode_sensor_prefixed_key;
use crate::keys::decode_ts_prefixed_key;
use crate::keys::lex_lt;
use crate::keys::sensor_key;
use crate::keys::spec_decode_sensor_key;
use crate::keys::spec_decode_time_key;
use crate::keys::time_key;
use crate::keys::u64_be_bytes;
use crate::keys::Measurement;
use crate::keys::MeasurementView;
use crate::payload::encode_payload;
use crate::payload::decode_payload;
use crate::payload::payload_bytes;
use crate::payload::spec_decode_payload;

verus! {

/// Hard cap on how many decoded records one scan will materialize. The
/// trusted scan wrappers collect the raw entries before decoding, so the
/// cap bounds the decoded result, not the raw collection; a cap inside the
/// wrappers would put that decision beyond what is verified.
pub const MAX_POINTS_TO_PROCESS: usize = 200_000_000;

#[verifier::external_type_specification]
#[verifier::external_body]
pub struct ExSledDb(sled::Db);

#[verifier::external_type_specification]
#[verifier::external_body]
pub struct ExSledTree(sled::Tree);

#[verifier::external_type_specification]
#[verifier::external_body]
pub struct ExSledBatch(sled::Batch);

#[verifier::external_type_specification]
#[verifier::external_body]
pub struct ExSledError(sled::Error);

/// A store-level failure, surfaced to the caller of an insert or scan.
#[derive(Debug)]
pub enum IoError {
    /// The embedded store reported a failure.
    Backend(sled::Error),
    /// A stored record payload was not a value-only record payload.
    Payload,
}

/// The pending writes of a batch: each key maps to `Some(value)` for an
/// insert and to `None` for a removal. Later writes to a key replace
/// earlier ones.
pub uninterp spec fn batch_ops(b: sled::Batch) -> Map<Seq<u8>, Option<Seq<u8>>>;

/// The contents of a partition after a batch's writes are applied to it.
pub open spec fn apply_ops(
    m: Map<Seq<u8>, Seq<u8>>,
    ops: Map<Seq<u8>, Option<Seq<u8>>>,
) -> Map<Seq<u8>, Seq<u8>> {
    Map::new(
        |k: Seq<u8>|
            if ops.contains_key(k) {
                ops[k] is Some
            } else {
                m.contains_key(k)
            },
        |k: Seq<u8>|
            if ops.contains_key(k) && ops[k] is Some {
                ops[k]->0
            } else {
                m[k]
            },
    )
}

/// Relies on sled::Db::open_tree: opens the named key space of the store,
/// creating it empty if it does not exist.
#[verifier::external_body]
fn open_tree_raw(db: &sled::Db, name: &str) -> (r: Result<sled::Tree, sled::Error>) {
    db.open_tree(name)
}

/// An empty set of pending writes.
pub open spec fn no_ops() -> Map<Seq<u8>, Option<Seq<u8>>> {
    Map::empty()
}

/// Relies on sled::Batch::default: a new batch holds no writes.
#[verifier::external_body]
pub(crate) fn batch_new() -> (r: sled::Batch)
    ensures
        batch_ops(r) == no_ops(),
{
    sled::Batch::default()
}

/// Relies on sled::Batch::insert: records a pending write setting `key` to
/// `value`, replacing any earlier pending write to `key`.
#[verifier::external_body]
pub(crate) fn batch_insert(b: &mut sled::Batch, key: Vec<u8>, value: Vec<u8>)
    ensures
        batch_ops(*final(b)) == batch_ops(*old(b)).insert(key@, Some(value@)),
{
    b.insert(key, value)
}

/// Relies on sled::Batch::remove: records a pending removal of `key`,
/// replacing any earlier pending write to `key`.
#[verifier::external_body]
pub(crate) fn batch_remove(b: &mut sled::Batch, key: Vec<u8>)
    ensures
        batch_ops(*final(b)) == batch_ops(*old(b)).insert(key@, None),
{
    b.remove(key)
}

/// A bound on one end of a byte-key range.
pub enum KeyBound {
    Included(Vec<u8>),
    Excluded(Vec<u8>),
    Unbounded,
}

/// The mathematical value of a key bound.
pub ghost enum KeyBoundView {
    Included(Seq<u8>),
    Excluded(Seq<u8>),
    Unbounded,
}

impl View for KeyBound {
    type V = KeyBoundView;

    open spec fn view(&self) -> KeyBoundView {
        match self {
            KeyBound::Included(v) => KeyBoundView::Included(v@),
            KeyBound::Excluded(v) => KeyBoundView::Excluded(v@),
            KeyBound::Unbounded => KeyBoundView::Unbounded,
        }
    }
}

/// Whether key `k` lies at or above the lower bound `lo`.
pub open spec fn key_above_lo(k: Seq<u8>, lo: KeyBoundView) -> bool {
    match lo {
        KeyBoundView::Included(v) => !lex_lt(k, v),
        KeyBoundView::Excluded(v) => lex_lt(v, k),
        KeyBoundView::Unbounded => true,
    }
}

/// Whether key `k` lies at or below the upper bound `hi`.
pub open spec fn key_below_hi(k: Seq<u8>, hi: KeyBoundView) -> bool {
    match hi {
        KeyBoundView::Included(v) => !lex_lt(v, k),
        KeyBoundView::Excluded(v) => lex_lt(k, v),
        KeyBoundView::Unbounded => true,
    }
}

/// Whether `p` is a prefix of `k`.
pub open spec fn is_key_prefix(p: Seq<u8>, k: Seq<u8>) -> bool {
    p.len() <= k.len() && k.take(p.len() as int) == p
}

/// The key and value bytes of a sequence of raw entries.
pub open spec fn entry_views(s: Seq<(Vec<u8>, Vec<u8>)>) -> Seq<(Seq<u8>, Seq<u8>)> {
    s.map_values(|e: (Vec<u8>, Vec<u8>)| (e.0@, e.1@))
}

/// `es` is exactly the in-range portion of contents `m`, in ascending byte
/// order of keys: every listed entry is an in-range entry of `m`, every
/// in-range key of `m` is listed, and the keys ascend strictly.
pub open spec fn scan_entries_ok(
    m: Map<Seq<u8>, Seq<u8>>,
    lo: KeyBoundView,
    hi: KeyBoundView,
    es: Seq<(Seq<u8>, Seq<u8>)>,
) -> bool {
    &&& forall|i: int| #![trigger es[i]]
        0 <= i < es.len() ==> m.contains_key(es[i].0) && es[i].1 == m[es[i].0] && key_above_lo(
            es[i].0,
            lo,
        ) && key_below_hi(es[i].0, hi)
    &&& forall|k: Seq<u8>|
        #[trigger] m.contains_key(k) && key_above_lo(k, lo) && key_below_hi(k, hi) ==> exists|
            i: int,
        | 0 <= i < es.len() && (#[trigger] es[i]).0 == k
    &&& forall|i: int, j: int| #![trigger es[i], es[j]]
        0 <= i < j < es.len() ==> lex_lt(es[i].0, es[j].0)
}

/// `es` is exactly the portion of contents `m` whose keys start with
/// `prefix`, in ascending byte order of keys.
pub open spec fn prefix_entries_ok(
    m: Map<Seq<u8>, Seq<u8>>,
    prefix: Seq<u8>,
    es: Seq<(Seq<u8>, Seq<u8>)>,
) -> bool {
    &&& forall|i: int| #![trigger es[i]]
        0 <= i < es.len() ==> m.contains_key(es[i].0) && es[i].1 == m[es[i].0] && is_key_prefix(
            prefix,
            es[i].0,
        )
    &&& forall|k: Seq<u8>|
        #[trigger] m.contains_key(k) && is_key_prefix(prefix, k) ==> exists|i: int|
            0 <= i < es.len() && (#[trigger] es[i]).0 == k
    &&& forall|i: int, j: int| #![trigger es[i], es[j]]
        0 <= i < j < es.len() ==> lex_lt(es[i].0, es[j].0)
}

/// One ordered key-space partition of the embedded store, together with the
/// ghost model of its contents.
pub struct Partition {
    tree: sled::Tree,
    contents: Ghost<Map<Seq<u8>, Seq<u8>>>,
}

impl View for Partition {
    type V = Map<Seq<u8>, Seq<u8>>;

    closed spec fn view(&self) -> Map<Seq<u8>, Seq<u8>> {
        self.contents@
    }
}

impl Partition {
    /// Opens the named key space. The partition starts with whatever
    /// contents the store already holds, so nothing is promised of them.
    pub(crate) fn open(db: &sled::Db, name: &str) -> (r: Result<Partition, sled::Error>) {
        match open_tree_raw(db, name) {
            Ok(tree) => Ok(Partition { tree, contents: Ghost(arbitrary()) }),
            Err(e) => Err(e),
        }
    }

    /// Relies on sled::Tree::apply_batch: atomically applies the batch's
    /// pending inserts and removals to this partition.
    #[verifier::external_body]
    pub(crate) fn apply_batch(&mut self, batch: sled::Batch) -> (r: Result<(), sled::Error>)
        ensures
            r is Ok ==> final(self)@ == apply_ops(old(self)@, batch_ops(batch)),
    {
        self.tree.apply_batch(batch)
    }

    /// Relies on sled::Tree::range: iterates the entries whose keys fall
    /// within the given bounds, in ascending byte order of keys.
    #[verifier::external_body]
    pub(crate) fn range_scan(&self, lo: &KeyBound, hi: &KeyBound) -> (r: Result<
        Vec<(Vec<u8>, Vec<u8>)>,
        sled::Error,
    >)
        ensures
            r matches Ok(v) ==> scan_entries_ok(self@, lo@, hi@, entry_views(v@)),
    {
        let conv = |b: &KeyBound| match b {
            KeyBound::Included(v) => std::ops::Bound::Included(v.clone()),
            KeyBound::Excluded(v) => std::ops::Bound::Excluded(v.clone()),
            KeyBound::Unbounded => std::ops::Bound::Unbounded,
        };
        let mut out: Vec<(Vec<u8>, Vec<u8>)> = Vec::new();
        for item in self.tree.range::<Vec<u8>, _>((conv(lo), conv(hi))) {
            let (k, v) = item?;
            out.push((k.to_vec(), v.to_vec()));
        }
        Ok(out)
    }

    /// Relies on sled::Tree::scan_prefix: iterates the entries whose keys
    /// start with the given prefix, in ascending byte order of keys.
    #[verifier::external_body]
    pub(crate) fn prefix_scan(&self, prefix: &Vec<u8>) -> (r: Result<Vec<(Vec<u8>, Vec<u8>)>, sled::Error>)
        ensures
            r matches Ok(v) ==> prefix_entries_ok(self@, prefix@, entry_views(v@)),
    {
        let mut out: Vec<(Vec<u8>, Vec<u8>)> = Vec::new();
        for item in self.tree.scan_prefix(prefix.as_slice()) {
            let (k, v) = item?;
            out.push((k.to_vec(), v.to_vec()));
        }
        Ok(out)
    }
}

/// The dual index store: the time-primary and the sensor-primary partition
/// of one embedded store.
pub struct DbState {
    pub(crate) ts_prefixed_tree: Partition,
    pub(crate) sensor_prefixed_tree: Partition,
}

impl DbState {
    /// The contents of the time-primary partition.
    pub closed spec fn ts_model(self) -> Map<Seq<u8>, Seq<u8>> {
        self.ts_prefixed_tree@
    }

    /// The contents of the sensor-primary partition.
    pub closed spec fn sensor_model(self) -> Map<Seq<u8>, Seq<u8>> {
        self.sensor_prefixed_tree@
    }

    /// The two models are the two partitions' contents.
    pub(crate) proof fn lemma_models(self)
        ensures
            self.ts_model() == self.ts_prefixed_tree@,
            self.sensor_model() == self.sensor_prefixed_tree@,
    {
    }

    /// Opens the two partitions. Nothing is promised of their contents: they
    /// hold whatever the store already persisted.
    pub fn new(db: &sled::Db) -> (r: Result<DbState, IoError>) {
        let ts_prefixed_tree = match Partition::open(db, "measurements-timestamp-prefixed") {
            Ok(p) => p,
            Err(e) => {
                return Err(IoError::Backend(e));
            },
        };
        let sensor_prefixed_tree = match Partition::open(db, "measurements-sensor-prefixed") {
            Ok(p) => p,
            Err(e) => {
                return Err(IoError::Backend(e));
            },
        };
        Ok(DbState { ts_prefixed_tree, sensor_prefixed_tree })
    }
}

/// The pending writes that inserting a batch of measurements makes against
/// one partition: one insert of the encoded key and payload for each
/// measurement with a nonzero timestamp, in batch order.
pub open spec fn insert_batch_ops(ms: Seq<MeasurementView>, time_side: bool) -> Map<
    Seq<u8>,
    Option<Seq<u8>>,
>
    decreases ms.len(),
{
    if ms.len() == 0 {
        Map::empty()
    } else {
        let pre = insert_batch_ops(ms.drop_last(), time_side);
        let m = ms.last();
        if m.timestamp_us == 0 {
            pre
        } else {
            pre.insert(
                if time_side {
                    time_key(m)
                } else {
                    sensor_key(m)
                },
                Some(payload_bytes(m.value_bits)),
            )
        }
    }
}

/// The measurement values of a vector of measurements.
pub open spec fn measurement_views(ms: Seq<Measurement>) -> Seq<MeasurementView> {
    ms.map_values(|m: Measurement| m@)
}

/// Persists a batch of measurements in both partitions, as two atomic batch
/// writes, one per partition. A measurement with a zero timestamp is
/// filtered out before either write. The two partition writes are not
/// transactional across partitions: if the second fails, the first may
/// already be applied, so nothing is promised of the partitions on failure.
pub fn insert_measurements(measurements: Vec<Measurement>, db: &mut DbState) -> (r: Result<
    (),
    IoError,
>)
    ensures
        r is Ok ==> final(db).ts_model() == apply_ops(
            old(db).ts_model(),
            insert_batch_ops(measurement_views(measurements@), true),
        ),
        r is Ok ==> final(db).sensor_model() == apply_ops(
            old(db).sensor_model(),
            insert_batch_ops(measurement_views(measurements@), false),
        ),
{
    let ghost views = measurement_views(measurements@);
    let mut ts_batch = batch_new();
    let mut sensor_batch = batch_new();
    let mut i: usize = 0;
    while i < measurements.len()
        invariant
            i <= measurements@.len(),
            views == measurement_views(measurements@),
            batch_ops(ts_batch) == insert_batch_ops(views.take(i as int), true),
            batch_ops(sensor_batch) == insert_batch_ops(views.take(i as int), false),
        decreases measurements@.len() - i,
    {
        let m = &measurements[i];
        proof {
            assert(views.take(i as int + 1).drop_last() =~= views.take(i as int));
            assert(views.take(i as int + 1).last() == views[i as int]);
        }
        if m.timestamp_us != 0 {
            let ts_key = get_ts_prefixed_key(m);
            let s_key = get_sensor_prefixed_key(m);
            let value = encode_payload(m.value_bits);
            let value_copy = encode_payload(m.value_bits);
            batch_insert(&mut ts_batch, ts_key, value);
            batch_insert(&mut sensor_batch, s_key, value_copy);
        }
        i = i + 1;
    }
    proof {
        assert(views.take(views.len() as int) =~= views);
    }
    match db.ts_prefixed_tree.apply_batch(ts_batch) {
        Ok(()) => {},
        Err(e) => {
            return Err(IoError::Backend(e));
        },
    }
    match db.sensor_prefixed_tree.apply_batch(sensor_batch) {
        Ok(()) => {},
        Err(e) => {
            return Err(IoError::Backend(e));
        },
    }
    Ok(())
}

/// A batch insert never creates a record keyed by a zero-timestamp
/// measurement: if neither partition held the measurement's keys before the
/// insert, neither holds them after it.
pub proof fn lemma_insert_filters_zero(
    ts_m: Map<Seq<u8>, Seq<u8>>,
    sensor_m: Map<Seq<u8>, Seq<u8>>,
    ms: Seq<MeasurementView>,
    m: MeasurementView,
)
    requires
        m.timestamp_us == 0,
        !ts_m.contains_key(time_key(m)),
        !sensor_m.contains_key(sensor_key(m)),
    ensures
        !apply_ops(ts_m, insert_batch_ops(ms, true)).contains_key(time_key(m)),
        !apply_ops(sensor_m, insert_batch_ops(ms, false)).contains_key(sensor_key(m)),
{
    lemma_zero_keys_absent_from_batch(ms, m, true);
    lemma_zero_keys_absent_from_batch(ms, m, false);
}

/// The pending writes of an insert batch never touch the keys of a
/// zero-timestamp measurement.
proof fn lemma_zero_keys_absent_from_batch(ms: Seq<MeasurementView>, m: MeasurementView, time_side: bool)
    requires
        m.timestamp_us == 0,
    ensures
        !insert_batch_ops(ms, time_side).contains_key(
            if time_side {
                time_key(m)
            } else {
                sensor_key(m)
            },
        ),
    decreases ms.len(),
{
    if ms.len() > 0 {
        lemma_zero_keys_absent_from_batch(ms.drop_last(), m, time_side);
        let last = ms.last();
        if last.timestamp_us != 0 {
            if time_side {
                if time_key(last) == time_key(m) {
                    assert(time_key(last).take(8) =~= u64_be_bytes(last.timestamp_us));
                    assert(time_key(m).take(8) =~= u64_be_bytes(m.timestamp_us));
                    crate::keys::lemma_u64_be_round_trip(last.timestamp_us);
                    crate::keys::lemma_u64_be_round_trip(m.timestamp_us);
                    assert(false);
                }
            } else {
                if sensor_key(last) == sensor_key(m) {
                    let nl = last.sensor.len() as int;
                    let nm = m.sensor.len() as int;
                    assert(sensor_key(last).len() == nl + 9);
                    assert(sensor_key(m).len() == nm + 9);
                    assert(nl == nm);
                    assert(sensor_key(last).subrange(nl + 1, nl + 9) =~= u64_be_bytes(
                        last.timestamp_us,
                    ));
                    assert(sensor_key(m).subrange(nm + 1, nm + 9) =~= u64_be_bytes(
                        m.timestamp_us,
                    ));
                    crate::keys::lemma_u64_be_round_trip(last.timestamp_us);
                    crate::keys::lemma_u64_be_round_trip(m.timestamp_us);
                    assert(false);
                }
            }
        }
    }
}

/// A bound on one end of a timestamp range.
pub enum TsBound {
    Included(u64),
    Excluded(u64),
    Unbounded,
}

/// The byte-key bound a timestamp bound translates to. An inclusive lower
/// bound maps to an inclusive key bound; an inclusive upper bound maps to an
/// exclusive key bound one timestamp later, so that the sensor-suffixed keys
/// at the bound itself stay in range, or to an unbounded bound when that
/// increment would overflow; an exclusive bound maps to an exclusive key
/// bound; an unbounded bound stays unbounded.
pub open spec fn ts_bound_key_spec(b: TsBound, end: bool) -> KeyBoundView {
    match b {
        TsBound::Included(v) => if end {
            if v == u64::MAX {
                KeyBoundView::Unbounded
            } else {
                KeyBoundView::Excluded(u64_be_bytes((v + 1) as u64))
            }
        } else {
            KeyBoundView::Included(u64_be_bytes(v))
        },
        TsBound::Excluded(v) => KeyBoundView::Excluded(u64_be_bytes(v)),
        TsBound::Unbounded => KeyBoundView::Unbounded,
    }
}

/// Translates a timestamp bound into a byte-key bound on the time-primary
/// partition.
pub fn ts_bound_to_key(bound: &TsBound, end: bool) -> (r: KeyBound)
    ensures
        r@ == ts_bound_key_spec(*bound, end),
{
    match bound {
        TsBound::Included(v) => {
            if end {
                if *v == u64::MAX {
                    KeyBound::Unbounded
                } else {
                    KeyBound::Excluded(crate::keys::u64_be_vec(*v + 1))
                }
            } else {
                KeyBound::Included(crate::keys::u64_be_vec(*v))
            }
        },
        TsBound::Excluded(v) => KeyBound::Excluded(crate::keys::u64_be_vec(*v)),
        TsBound::Unbounded => KeyBound::Unbounded,
    }
}

/// What one scanned key decodes to, under the codec of the scanned
/// partition.
pub open spec fn spec_decode_key(k: Seq<u8>, ts_prefixed: bool) -> Option<(u64, Seq<u8>)> {
    if ts_prefixed {
        spec_decode_time_key(k)
    } else {
        spec_decode_sensor_key(k)
    }
}

/// What a scan materializes from raw entries: each entry whose key decodes
/// contributes a measurement rebuilt from the key and the payload, an entry
/// whose key does not decode is skipped, a decodable entry whose payload is
/// malformed fails the whole scan, and the result is cut off at the hard
/// cap. `count` is the number of records already materialized.
pub open spec fn decode_entries_spec(
    es: Seq<(Seq<u8>, Seq<u8>)>,
    ts_prefixed: bool,
    count: nat,
) -> Option<Seq<MeasurementView>>
    decreases es.len(),
{
    if es.len() == 0 {
        Some(Seq::empty())
    } else {
        match spec_decode_key(es[0].0, ts_prefixed) {
            Option::None => decode_entries_spec(es.skip(1), ts_prefixed, count),
            Option::Some(d) => match spec_decode_payload(es[0].1) {
                Option::None => Option::None,
                Option::Some(bits) => {
                    let m = MeasurementView { sensor: d.1, timestamp_us: d.0, value_bits: bits };
                    if count + 1 >= MAX_POINTS_TO_PROCESS {
                        Some(seq![m])
                    } else {
                        match decode_entries_spec(es.skip(1), ts_prefixed, count + 1) {
                            Option::None => Option::None,
                            Option::Some(t) => Some(seq![m] + t),
                        }
                    }
                },
            },
        }
    }
}

/// Rebuilds measurements from raw scanned entries: the key is the sole
/// source of the sensor and timestamp, the payload carries the value bits.
/// An entry whose key does not decode is skipped; an entry whose payload is
/// malformed fails the scan; at most the hard cap of records is
/// materialized.
pub fn decode_entries(entries: &Vec<(Vec<u8>, Vec<u8>)>, ts_prefixed: bool) -> (r: Result<
    Vec<Measurement>,
    IoError,
>)
    ensures
        (r is Ok) == (decode_entries_spec(entry_views(entries@), ts_prefixed, 0) is Some),
        r matches Ok(v) ==> decode_entries_spec(entry_views(entries@), ts_prefixed, 0) == Some(
            measurement_views(v@),
        ),
        r matches Ok(v) ==> v@.len() <= MAX_POINTS_TO_PROCESS,
        r matches Err(e) ==> e is Payload,
{
    let ghost es = entry_views(entries@);
    let mut res: Vec<Measurement> = Vec::new();
    let mut i: usize = 0;
    proof {
        assert(es.skip(0) =~= es);
        assert(measurement_views(res@) =~= Seq::<MeasurementView>::empty());
        assert forall|t: Seq<MeasurementView>| Seq::<MeasurementView>::empty() + t == t by {
            assert(Seq::<MeasurementView>::empty() + t =~= t);
        }
    }
    while i < entries.len()
        invariant
            i <= entries@.len(),
            es == entry_views(entries@),
            res@.len() < MAX_POINTS_TO_PROCESS,
            ({
                let rest = decode_entries_spec(es.skip(i as int), ts_prefixed, res@.len() as nat);
                let whole = decode_entries_spec(es, ts_prefixed, 0);
                match rest {
                    Option::None => whole is None,
                    Option::Some(t) => whole == Some(measurement_views(res@) + t),
                }
            }),
        decreases entries@.len() - i,
    {
        proof {
            assert(es[i as int] == (entries@[i as int].0@, entries@[i as int].1@));
            assert(es.skip(i as int)[0] == es[i as int]);
            assert(es.skip(i as int).skip(1) =~= es.skip(i as int + 1));
        }
        let decoded = if ts_prefixed {
            decode_ts_prefixed_key(&entries[i].0)
        } else {
            decode_sensor_prefixed_key(&entries[i].0)
        };
        match decoded {
            Ok((ts, sensor)) => {
                match decode_payload(&entries[i].1) {
                    Some(bits) => {
                        let m = Measurement { sensor, timestamp_us: ts, value_bits: bits };
                        res.push(m);
                        proof {
                            assert(measurement_views(res@) =~= measurement_views(
                                res@.drop_last(),
                            ).push(m@));
                            assert(measurement_views(res@.drop_last()).push(m@) =~= measurement_views(
                                res@.drop_last(),
                            ) + seq![m@]);
                        }
                        if res.len() >= MAX_POINTS_TO_PROCESS {
                            return Ok(res);
                        }
                    },
                    None => {
                        return Err(IoError::Payload);
                    },
                }
            },
            Err(_) => {},
        }
        i = i + 1;
    }
    proof {
        assert(es.skip(es.len() as int) =~= Seq::<(Seq<u8>, Seq<u8>)>::empty());
        assert(measurement_views(res@) + Seq::<MeasurementView>::empty() =~= measurement_views(
            res@,
        ));
    }
    Ok(res)
}

/// Scans the time-primary partition over the given timestamp window and
/// rebuilds the measurements found there, in ascending key order.
pub fn fetch_measurements_by_ts(db: &DbState, from: &TsBound, to: &TsBound) -> (r: Result<
    Vec<Measurement>,
    IoError,
>)
    ensures
        r matches Ok(v) ==> exists|es: Seq<(Seq<u8>, Seq<u8>)>|
            #[trigger] scan_entries_ok(
                db.ts_model(),
                ts_bound_key_spec(*from, false),
                ts_bound_key_spec(*to, true),
                es,
            ) && decode_entries_spec(es, true, 0) == Some(measurement_views(v@)),
        r matches Ok(v) ==> v@.len() <= MAX_POINTS_TO_PROCESS,
{
    let lo = ts_bound_to_key(from, false);
    let hi = ts_bound_to_key(to, true);
    let entries = match db.ts_prefixed_tree.range_scan(&lo, &hi) {
        Ok(entries) => entries,
        Err(e) => {
            return Err(IoError::Backend(e));
        },
    };
    match decode_entries(&entries, true) {
        Ok(v) => {
            proof {
                let es = entry_views(entries@);
                assert(scan_entries_ok(
                    db.ts_model(),
                    ts_bound_key_spec(*from, false),
                    ts_bound_key_spec(*to, true),
                    es,
                ));
            }
            Ok(v)
        },
        Err(e) => Err(e),
    }
}

/// Scans the sensor-primary partition for all keys starting with the given
/// sensor prefix and rebuilds the measurements found there, grouped by
/// sensor and sub-sorted by timestamp.
pub fn fetch_measurements_by_sensor(db: &DbState, sensor_prefix: &Vec<u8>) -> (r: Result<
    Vec<Measurement>,
    IoError,
>)
    ensures
        r matches Ok(v) ==> exists|es: Seq<(Seq<u8>, Seq<u8>)>|
            #[trigger] prefix_entries_ok(db.sensor_model(), sensor_prefix@, es)
                && decode_entries_spec(es, false, 0) == Some(measurement_views(v@)),
        r matches Ok(v) ==> v@.len() <= MAX_POINTS_TO_PROCESS,
{
    let entries = match db.sensor_prefixed_tree.prefix_scan(sensor_prefix) {
        Ok(entries) => entries,
        Err(e) => {
            return Err(IoError::Backend(e));
        },
    };
    match decode_entries(&entries, false) {
        Ok(v) => {
            proof {
                let es = entry_views(entries@);
                assert(prefix_entries_ok(db.sensor_model(), sensor_prefix@, es));
            }
            Ok(v)
        },
        Err(e) => Err(e),
    }
}

/// Scans the whole time-primary partition and rebuilds every measurement in
/// it, in ascending key order.
pub fn fetch_all_measurements(db: &DbState) -> (r: Result<Vec<Measurement>, IoError>)
    ensures
        r matches Ok(v) ==> exists|es: Seq<(Seq<u8>, Seq<u8>)>|
            #[trigger] scan_entries_ok(
                db.ts_model(),
                KeyBoundView::Unbounded,
                KeyBoundView::Unbounded,
                es,
            ) && decode_entries_spec(es, true, 0) == Some(measurement_views(v@)),
        r matches Ok(v) ==> v@.len() <= MAX_POINTS_TO_PROCESS,
{
    let entries = match db.ts_prefixed_tree.range_scan(&KeyBound::Unbounded, &KeyBound::Unbounded) {
        Ok(entries) => entries,
        Err(e) => {
            return Err(IoError::Backend(e));
        },
    };
    match decode_entries(&entries, true) {
        Ok(v) => {
            proof {
                let es = entry_views(entries@);
                assert(scan_entries_ok(
                    db.ts_model(),
                    KeyBoundView::Unbounded,
                    KeyBoundView::Unbounded,
                    es,
                ));
            }
            Ok(v)
        },
        Err(e) => Err(e),
    }
}

} // verus!
