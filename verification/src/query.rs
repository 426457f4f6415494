//! Query engine: translates a query — an optional sensor prefix, optional
//! time bounds and an optional point-count ceiling — into one scan against
//! the right partition, with at most an in-memory prefix filter and the
//! downsampler applied afterwards.
//!
//! When a time bound is present the time-primary partition is scanned and a
//! sensor prefix, if also present, is applied in memory: no single ordered
//! index serves both constraints at once, and the time constraint is
//! usually the more selective one. A prefix-only query scans the
//! sensor-primary partition, and a query without constraints dumps the
//! whole time-primary partition.

use vstd::prelude::*;

use crate::downsample::downsample_spec;
use crate::downsample::prune_measurements;
use crate::keys::Measurement;
use crate::keys::MeasurementView;
use crate::store::decode_entries_spec;
use crate::store::fetch_all_measurements;
use crate::store::fetch_measurements_by_sensor;
use crate::store::fetch_measurements_by_ts;
use crate::store::is_key_prefix;
use crate::store::measurement_views;
use crate::store::prefix_entries_ok;
use crate::store::scan_entries_ok;
use crate::store::ts_bound_key_spec;
use crate::store::DbState;
use crate::store::IoError;
use crate::store::KeyBoundView;
use crate::store::TsBound;
use crate::store::MAX_POINTS_TO_PROCESS;

verus! {

/// A measurement query: an optional sensor-name prefix, an optional
/// inclusive time window, and an optional ceiling on the number of points
/// returned.
pub struct MeasurementQuery {
    pub sensor: Option<Vec<u8>>,
    pub from: Option<u64>,
    pub to: Option<u64>,
    pub max_num_points: Option<usize>,
}

/// The timestamp bound an optional query bound stands for: inclusive where
/// given, unbounded where absent.
pub open spec fn opt_ts_bound(o: Option<u64>) -> TsBound {
    match o {
        Option::Some(t) => TsBound::Included(t),
        Option::None => TsBound::Unbounded,
    }
}

/// The sub-sequence of `ms` whose sensor starts with `p`, in input order.
pub open spec fn filter_sensor_prefix(ms: Seq<MeasurementView>, p: Seq<u8>) -> Seq<MeasurementView>
    decreases ms.len(),
{
    if ms.len() == 0 {
        Seq::empty()
    } else {
        let pre = filter_sensor_prefix(ms.drop_last(), p);
        if is_key_prefix(p, ms.last().sensor) {
            pre.push(ms.last())
        } else {
            pre
        }
    }
}

/// The prefix filter never grows a batch.
proof fn lemma_filter_prefix_len(ms: Seq<MeasurementView>, p: Seq<u8>)
    ensures
        filter_sensor_prefix(ms, p).len() <= ms.len(),
    decreases ms.len(),
{
    if ms.len() > 0 {
        lemma_filter_prefix_len(ms.drop_last(), p);
    }
}

/// What the chosen index scan yields for the query, before the optional
/// downsampling: a time window (with the prefix filter applied in memory),
/// a sensor-prefix scan, or a full dump of the time-primary partition.
pub open spec fn query_scan_post(
    db: DbState,
    q: MeasurementQuery,
    pre: Seq<MeasurementView>,
) -> bool {
    if q.from is Some || q.to is Some {
        exists|es: Seq<(Seq<u8>, Seq<u8>)>, raw: Seq<MeasurementView>|
            #![auto]
            scan_entries_ok(
                db.ts_model(),
                ts_bound_key_spec(opt_ts_bound(q.from), false),
                ts_bound_key_spec(opt_ts_bound(q.to), true),
                es,
            ) && decode_entries_spec(es, true, 0) == Some(raw) && pre == (match q.sensor {
                Option::Some(p) => filter_sensor_prefix(raw, p@),
                Option::None => raw,
            })
    } else if q.sensor is Some {
        exists|es: Seq<(Seq<u8>, Seq<u8>)>|
            #![auto]
            prefix_entries_ok(
                db.sensor_model(),
                (match q.sensor {
                    Option::Some(p) => p@,
                    Option::None => Seq::empty(),
                }),
                es,
            ) && decode_entries_spec(es, false, 0) == Some(pre)
    } else {
        exists|es: Seq<(Seq<u8>, Seq<u8>)>|
            #![auto]
            scan_entries_ok(db.ts_model(), KeyBoundView::Unbounded, KeyBoundView::Unbounded, es)
                && decode_entries_spec(es, true, 0) == Some(pre)
    }
}

/// Whether `k` starts with the bytes of `p`.
fn bytes_starts_with(k: &Vec<u8>, p: &Vec<u8>) -> (r: bool)
    ensures
        r == is_key_prefix(p@, k@),
{
    if p.len() > k.len() {
        return false;
    }
    let mut i: usize = 0;
    while i < p.len()
        invariant
            i <= p@.len(),
            p@.len() <= k@.len(),
            forall|j: int| 0 <= j < i ==> k@[j] == p@[j],
        decreases p@.len() - i,
    {
        if k[i] != p[i] {
            return false;
        }
        i = i + 1;
    }
    proof {
        assert(k@.take(p@.len() as int) =~= p@);
    }
    true
}

/// Answers a measurement query: one scan against the right partition, the
/// in-memory prefix filter where a time window and a prefix are both given,
/// and the downsampler where a point ceiling is given.
pub fn fetch_measurements(db: &DbState, query: &MeasurementQuery) -> (r: Result<
    Vec<Measurement>,
    IoError,
>)
    requires
        query.max_num_points matches Some(l) ==> l >= 1,
    ensures
        r matches Ok(v) ==> exists|pre: Seq<MeasurementView>|
            #![auto]
            query_scan_post(*db, *query, pre) && measurement_views(v@) == (
            match query.max_num_points {
                Option::Some(l) => downsample_spec(pre, l as int),
                Option::None => pre,
            }),
{
    let base: Vec<Measurement> = if query.from.is_some() || query.to.is_some() {
        let from_b = match query.from {
            Some(t) => TsBound::Included(t),
            None => TsBound::Unbounded,
        };
        let to_b = match query.to {
            Some(t) => TsBound::Included(t),
            None => TsBound::Unbounded,
        };
        let ms = match fetch_measurements_by_ts(db, &from_b, &to_b) {
            Ok(v) => v,
            Err(e) => {
                return Err(e);
            },
        };
        match &query.sensor {
            Some(p) => {
                let ghost raw = measurement_views(ms@);
                let mut filtered: Vec<Measurement> = Vec::new();
                let mut i: usize = 0;
                while i < ms.len()
                    invariant
                        i <= ms@.len(),
                        raw == measurement_views(ms@),
                        measurement_views(filtered@) == filter_sensor_prefix(
                            raw.take(i as int),
                            p@,
                        ),
                    decreases ms@.len() - i,
                {
                    proof {
                        assert(raw.take(i as int + 1).drop_last() =~= raw.take(i as int));
                        assert(raw.take(i as int + 1).last() == raw[i as int]);
                    }
                    if bytes_starts_with(&ms[i].sensor, p) {
                        filtered.push(ms[i].duplicate());
                        proof {
                            assert(measurement_views(filtered@) =~= measurement_views(
                                filtered@.drop_last(),
                            ).push(filtered@.last()@));
                        }
                    }
                    i = i + 1;
                }
                proof {
                    assert(raw.take(ms@.len() as int) =~= raw);
                    lemma_filter_prefix_len(raw, p@);
                }
                filtered
            },
            None => ms,
        }
    } else if query.sensor.is_some() {
        let ms = match &query.sensor {
            Some(p) => match fetch_measurements_by_sensor(db, p) {
                Ok(v) => v,
                Err(e) => {
                    return Err(e);
                },
            },
            None => {
                return Err(IoError::Payload);
            },
        };
        ms
    } else {
        match fetch_all_measurements(db) {
            Ok(v) => v,
            Err(e) => {
                return Err(e);
            },
        }
    };
    proof {
        assert(query_scan_post(*db, *query, measurement_views(base@)));
        assert(base@.len() <= MAX_POINTS_TO_PROCESS);
    }
    match query.max_num_points {
        Some(limit) => {
            let pruned = prune_measurements(base, limit);
            Ok(pruned)
        },
        None => Ok(base),
    }
}

} // verus!
