//! Response-time downsampler: caps the number of points returned to a
//! caller-supplied limit while preserving even temporal coverage per sensor.
//!
//! The input is partitioned by sensor, keeping each sensor's original
//! relative order. One global stride is computed from the combined count:
//! within each sensor's sub-sequence a point at local index `i` is kept if
//! `i` is a multiple of the stride, or if `i` has the half-stride offset and
//! falls in a tail window whose length makes up for the primary sampling
//! under-shooting the limit. Groups are emitted in order of each sensor's
//! first appearance in the input.

use vstd::arithmetic::div_mod::lemma_div_is_ordered;
use vstd::arithmetic::div_mod::lemma_fundamental_div_mod;
use vstd::arithmetic::div_mod::lemma_fundamental_div_mod_converse;
use vstd::arithmetic::div_mod::lemma_mod_bound;
use vstd::prelude::*;

use crate::keys::Measurement;
use crate::keys::MeasurementView;
use crate::store::measurement_views;

verus! {

/// The sub-sequence of `ms` whose sensor is `s`, in input order.
pub open spec fn sensor_group(ms: Seq<MeasurementView>, s: Seq<u8>) -> Seq<MeasurementView>
    decreases ms.len(),
{
    if ms.len() == 0 {
        Seq::empty()
    } else {
        let pre = sensor_group(ms.drop_last(), s);
        if ms.last().sensor == s {
            pre.push(ms.last())
        } else {
            pre
        }
    }
}

/// The distinct sensors of `ms`, in order of first appearance.
pub open spec fn distinct_sensors(ms: Seq<MeasurementView>) -> Seq<Seq<u8>>
    decreases ms.len(),
{
    if ms.len() == 0 {
        Seq::empty()
    } else {
        let pre = distinct_sensors(ms.drop_last());
        if pre.contains(ms.last().sensor) {
            pre
        } else {
            pre.push(ms.last().sensor)
        }
    }
}

/// Whether the point at local index `i` of its sensor group is kept: kept at
/// every multiple of the stride, and at the half-stride offset inside the
/// tail window starting at `tail_start`.
pub open spec fn kept_index(i: int, skip: int, half: int, tail_start: int) -> bool {
    i % skip == 0 || (i % skip == half && i >= tail_start)
}

/// One sensor group after decimation: the points at kept local indices, in
/// order.
pub open spec fn decimate(
    g: Seq<MeasurementView>,
    skip: int,
    half: int,
    tail_start: int,
) -> Seq<MeasurementView>
    decreases g.len(),
{
    if g.len() == 0 {
        Seq::empty()
    } else {
        let pre = decimate(g.drop_last(), skip, half, tail_start);
        if kept_index(g.len() - 1, skip, half, tail_start) {
            pre.push(g.last())
        } else {
            pre
        }
    }
}

/// The decimated groups of the listed sensors, concatenated in sensor-list
/// order.
pub open spec fn downsample_groups(
    ms: Seq<MeasurementView>,
    sensors: Seq<Seq<u8>>,
    skip: int,
    half: int,
    tail_start: int,
) -> Seq<MeasurementView>
    decreases sensors.len(),
{
    if sensors.len() == 0 {
        Seq::empty()
    } else {
        downsample_groups(ms, sensors.drop_last(), skip, half, tail_start) + decimate(
            sensor_group(ms, sensors.last()),
            skip,
            half,
            tail_start,
        )
    }
}

/// What downsampling yields: the input unchanged when it already fits the
/// limit, else the per-sensor decimation with the stride `ceil(len/limit)`,
/// the half-stride offset `(stride+1)/2`, and the tail window covering the
/// final `stride * (limit - ceil(len/stride))` positions of the global
/// count.
pub open spec fn downsample_spec(ms: Seq<MeasurementView>, limit: int) -> Seq<MeasurementView> {
    let len = ms.len() as int;
    if len <= limit {
        ms
    } else {
        let skip = (len + limit - 1) / limit;
        let got = (len - 1) / skip + 1;
        let rest = limit - got;
        let half = (skip + 1) / 2;
        let tail_start = len - skip * rest;
        downsample_groups(ms, distinct_sensors(ms), skip, half, tail_start)
    }
}

/// For positive `m`, dividing by `d` gains one exactly when `m` is a
/// multiple of `d`.
proof fn lemma_div_step(m: int, d: int)
    requires
        m >= 1,
        d >= 1,
    ensures
        m / d == (m - 1) / d + if m % d == 0 {
            1int
        } else {
            0int
        },
{
    let a = (m - 1) / d;
    let r = (m - 1) % d;
    lemma_fundamental_div_mod(m - 1, d);
    lemma_mod_bound(m - 1, d);
    if r == d - 1 {
        assert((a + 1) * d == a * d + d) by (nonlinear_arith);
        lemma_fundamental_div_mod_converse(m, d, a + 1, 0);
    } else {
        assert(a * d + (r + 1) == d * a + r + 1) by (nonlinear_arith);
        lemma_fundamental_div_mod_converse(m, d, a, r + 1);
    }
}

/// The arithmetic facts the downsampler rests on: with `1 <= limit < len`,
/// the stride is at least 2 and at most `len`, the primary sample count is
/// between 1 and `limit`, and the tail window is shorter than `limit`.
proof fn lemma_downsample_params(len: int, limit: int)
    requires
        1 <= limit,
        limit < len,
    ensures
        2 <= (len + limit - 1) / limit,
        (len + limit - 1) / limit <= len,
        1 <= (len - 1) / ((len + limit - 1) / limit) + 1,
        (len - 1) / ((len + limit - 1) / limit) + 1 <= limit,
        ((len + limit - 1) / limit) * (limit - ((len - 1) / ((len + limit - 1) / limit) + 1))
            <= limit - 1,
        ((len + limit - 1) / limit) * (limit - ((len - 1) / ((len + limit - 1) / limit) + 1)) >= 0,
        ((len + limit - 1) / limit) * ((len - 1) / ((len + limit - 1) / limit) + 1) >= len,
{
    let skip = (len + limit - 1) / limit;
    let r1 = (len + limit - 1) % limit;
    lemma_fundamental_div_mod(len + limit - 1, limit);
    lemma_mod_bound(len + limit - 1, limit);
    assert(limit * skip >= len);
    assert(limit * skip <= len + limit - 1);
    assert(skip >= 2) by (nonlinear_arith)
        requires
            limit * skip >= len,
            len > limit,
            limit >= 1,
    ;
    assert(skip <= len) by (nonlinear_arith)
        requires
            limit * skip <= len + limit - 1,
            limit >= 1,
            len >= 1,
    ;
    let q = (len - 1) / skip;
    let r2 = (len - 1) % skip;
    lemma_fundamental_div_mod(len - 1, skip);
    lemma_mod_bound(len - 1, skip);
    assert(q >= 0) by (nonlinear_arith)
        requires
            skip * q + r2 == len - 1,
            0 <= r2 < skip,
            skip >= 1,
            len >= 1,
    ;
    assert(q < limit) by (nonlinear_arith)
        requires
            skip * q + r2 == len - 1,
            0 <= r2,
            limit * skip >= len,
            skip >= 1,
    ;
    assert(skip * (q + 1) >= len) by (nonlinear_arith)
        requires
            skip * q + r2 == len - 1,
            r2 <= skip - 1,
    ;
    assert(skip * (limit - (q + 1)) <= limit - 1) by (nonlinear_arith)
        requires
            limit * skip <= len + limit - 1,
            skip * (q + 1) >= len,
    ;
    assert(skip * (limit - (q + 1)) >= 0) by (nonlinear_arith)
        requires
            skip >= 1,
            q + 1 <= limit,
    ;
}

/// How many local indices in `[0, n)` are kept.
pub open spec fn count_kept(n: int, skip: int, half: int, tail_start: int) -> int
    decreases n,
{
    if n <= 0 {
        0
    } else {
        count_kept(n - 1, skip, half, tail_start) + if kept_index(n - 1, skip, half, tail_start) {
            1int
        } else {
            0int
        }
    }
}

/// How many indices in `[0, n)` are multiples of `skip`.
spec fn count_mult(n: int, skip: int) -> int
    decreases n,
{
    if n <= 0 {
        0
    } else {
        count_mult(n - 1, skip) + if (n - 1) % skip == 0 {
            1int
        } else {
            0int
        }
    }
}

/// How many indices in `[0, n)` have remainder `half` modulo `skip`.
spec fn count_halfs(n: int, skip: int, half: int) -> int
    decreases n,
{
    if n <= 0 {
        0
    } else {
        count_halfs(n - 1, skip, half) + if (n - 1) % skip == half {
            1int
        } else {
            0int
        }
    }
}

/// How many indices in `[tail_start, n)` have remainder `half` modulo
/// `skip`.
spec fn count_half_tail(n: int, skip: int, half: int, tail_start: int) -> int
    decreases n,
{
    if n <= 0 {
        0
    } else {
        count_half_tail(n - 1, skip, half, tail_start) + if (n - 1) % skip == half && n - 1
            >= tail_start {
            1int
        } else {
            0int
        }
    }
}

/// The kept indices split into the stride multiples and the tail-window
/// offset indices.
proof fn lemma_count_kept_split(n: int, skip: int, half: int, tail_start: int)
    requires
        skip >= 2,
        1 <= half < skip,
    ensures
        count_kept(n, skip, half, tail_start) == count_mult(n, skip) + count_half_tail(
            n,
            skip,
            half,
            tail_start,
        ),
    decreases n,
{
    if n > 0 {
        lemma_count_kept_split(n - 1, skip, half, tail_start);
    }
}

/// A count of decimated points equals the count of kept indices.
proof fn lemma_decimate_len(g: Seq<MeasurementView>, skip: int, half: int, tail_start: int)
    ensures
        decimate(g, skip, half, tail_start).len() == count_kept(
            g.len() as int,
            skip,
            half,
            tail_start,
        ),
    decreases g.len(),
{
    if g.len() > 0 {
        lemma_decimate_len(g.drop_last(), skip, half, tail_start);
    }
}

/// Exactly `(n-1)/skip + 1` indices in `[0, n)` are multiples of `skip`.
proof fn lemma_count_mult_exact(n: int, skip: int)
    requires
        n >= 1,
        skip >= 1,
    ensures
        count_mult(n, skip) == (n - 1) / skip + 1,
    decreases n,
{
    if n == 1 {
        assert(count_mult(0, skip) == 0);
        lemma_fundamental_div_mod_converse(0, skip, 0, 0);
    } else {
        lemma_count_mult_exact(n - 1, skip);
        lemma_div_step(n - 1, skip);
    }
}

/// The exact count of indices in `[0, n)` with remainder `half`: none until
/// `half` itself is reached, then one more every `skip`.
proof fn lemma_count_halfs_exact(n: int, skip: int, half: int)
    requires
        skip >= 1,
        0 <= half < skip,
    ensures
        count_halfs(n, skip, half) == if n > half {
            (n - 1 - half) / skip + 1
        } else {
            0int
        },
    decreases n,
{
    if n <= 0 {
    } else {
        assert(count_halfs(0, skip, half) == 0);
        lemma_count_halfs_exact(n - 1, skip, half);
        if n - 1 < half {
            lemma_fundamental_div_mod_converse(n - 1, skip, 0, n - 1);
        } else if n - 1 == half {
            lemma_fundamental_div_mod_converse(n - 1, skip, 0, half);
            lemma_fundamental_div_mod_converse(0, skip, 0, 0);
        } else {
            let m = n - 1 - half;
            lemma_div_step(m, skip);
            lemma_fundamental_div_mod(m, skip);
            lemma_mod_bound(m, skip);
            lemma_fundamental_div_mod(n - 1, skip);
            lemma_mod_bound(n - 1, skip);
            if m % skip == 0 {
                assert(n - 1 == (m / skip) * skip + half) by (nonlinear_arith)
                    requires
                        m == skip * (m / skip) + m % skip,
                        m % skip == 0,
                        m == n - 1 - half,
                ;
                lemma_fundamental_div_mod_converse(n - 1, skip, m / skip, half);
            }
            if (n - 1) % skip == half {
                assert(m == ((n - 1) / skip) * skip + 0) by (nonlinear_arith)
                    requires
                        n - 1 == skip * ((n - 1) / skip) + (n - 1) % skip,
                        (n - 1) % skip == half,
                        m == n - 1 - half,
                ;
                lemma_fundamental_div_mod_converse(m, skip, (n - 1) / skip, 0);
            }
        }
    }
}

/// The tail-window count is the difference of two whole-range counts.
proof fn lemma_count_half_tail_diff(n: int, skip: int, half: int, tail_start: int)
    requires
        tail_start >= 0,
    ensures
        count_half_tail(n, skip, half, tail_start) == count_halfs(n, skip, half) - count_halfs(
            if tail_start <= n {
                tail_start
            } else {
                n
            },
            skip,
            half,
        ),
    decreases n,
{
    if n > 0 {
        lemma_count_half_tail_diff(n - 1, skip, half, tail_start);
    }
}

/// The single-sensor case: every measurement of `ms` has the sensor of the
/// first one, so the distinct-sensor list is that one sensor.
proof fn lemma_single_sensor_list(ms: Seq<MeasurementView>)
    requires
        ms.len() >= 1,
        forall|i: int| 0 <= i < ms.len() ==> #[trigger] ms[i].sensor == ms[0].sensor,
    ensures
        distinct_sensors(ms) == seq![ms[0].sensor],
    decreases ms.len(),
{
    if ms.len() == 1 {
        assert(ms.drop_last().len() == 0);
        assert(distinct_sensors(ms.drop_last()) == Seq::<Seq<u8>>::empty());
        assert(distinct_sensors(ms) =~= seq![ms[0].sensor]);
    } else {
        lemma_single_sensor_list(ms.drop_last());
        assert(ms.drop_last()[0] == ms[0]);
        assert(distinct_sensors(ms.drop_last()).contains(ms.last().sensor)) by {
            assert(distinct_sensors(ms.drop_last())[0] == ms[0].sensor);
        }
    }
}

/// The single-sensor case: the group of the shared sensor is the whole
/// input.
proof fn lemma_single_sensor_group(ms: Seq<MeasurementView>, s: Seq<u8>)
    requires
        forall|i: int| 0 <= i < ms.len() ==> ms[i].sensor == s,
    ensures
        sensor_group(ms, s) == ms,
    decreases ms.len(),
{
    if ms.len() > 0 {
        lemma_single_sensor_group(ms.drop_last(), s);
        assert(sensor_group(ms, s) =~= ms);
    }
}

/// The sensor byte sequences of a vector of sensor names.
pub open spec fn sensor_views(s: Seq<Vec<u8>>) -> Seq<Seq<u8>> {
    s.map_values(|v: Vec<u8>| v@)
}

/// Whether two byte vectors hold the same bytes.
pub(crate) fn bytes_eq(a: &Vec<u8>, b: &Vec<u8>) -> (r: bool)
    ensures
        r == (a@ == b@),
{
    if a.len() != b.len() {
        return false;
    }
    let mut i: usize = 0;
    while i < a.len()
        invariant
            i <= a@.len(),
            a@.len() == b@.len(),
            forall|j: int| 0 <= j < i ==> a@[j] == b@[j],
        decreases a@.len() - i,
    {
        if a[i] != b[i] {
            return false;
        }
        i = i + 1;
    }
    proof {
        assert(a@ =~= b@);
    }
    true
}

/// Caps the batch to at most roughly `limit` points: a no-op when the batch
/// already fits, otherwise the per-sensor stride decimation of
/// `downsample_spec`, grouping by sensor in first-appearance order.
pub fn prune_measurements(measurements: Vec<Measurement>, limit: usize) -> (r: Vec<Measurement>)
    requires
        measurements@.len() > limit ==> limit >= 1 && measurements@.len() + limit <= usize::MAX,
    ensures
        measurement_views(r@) == downsample_spec(measurement_views(measurements@), limit as int),
        measurements@.len() <= limit ==> r@ == measurements@,
{
    let ghost views = measurement_views(measurements@);
    let len = measurements.len();
    if len <= limit {
        return measurements;
    }
    proof {
        lemma_downsample_params(len as int, limit as int);
    }
    let skip_div = (len + limit - 1) / limit;
    let got = (len - 1) / skip_div + 1;
    let rest = limit - got;
    let half = (skip_div + 1) / 2;
    let tail_start = len - skip_div * rest;
    let mut sensors: Vec<Vec<u8>> = Vec::new();
    let mut i: usize = 0;
    while i < measurements.len()
        invariant
            i <= measurements@.len(),
            views == measurement_views(measurements@),
            sensor_views(sensors@) == distinct_sensors(views.take(i as int)),
        decreases measurements@.len() - i,
    {
        let m = &measurements[i];
        let mut found = false;
        let mut j: usize = 0;
        while j < sensors.len()
            invariant
                j <= sensors@.len(),
                found == exists|jj: int| 0 <= jj < j && (#[trigger] sensors@[jj])@ == m.sensor@,
            decreases sensors@.len() - j,
        {
            if bytes_eq(&sensors[j], &m.sensor) {
                found = true;
            }
            j = j + 1;
        }
        proof {
            assert(views.take(i as int + 1).drop_last() =~= views.take(i as int));
            assert(views.take(i as int + 1).last() == views[i as int]);
            assert(found == distinct_sensors(views.take(i as int)).contains(views[i as int].sensor))
                by {
                if found {
                    let jj = choose|jj: int|
                        0 <= jj < sensors@.len() && (#[trigger] sensors@[jj])@ == m.sensor@;
                    assert(sensor_views(sensors@)[jj] == m.sensor@);
                }
                if distinct_sensors(views.take(i as int)).contains(views[i as int].sensor) {
                    let jj = choose|jj: int|
                        0 <= jj < distinct_sensors(views.take(i as int)).len() && distinct_sensors(
                            views.take(i as int),
                        )[jj] == views[i as int].sensor;
                    assert((sensors@[jj])@ == m.sensor@);
                }
            }
        }
        if !found {
            let d = m.duplicate();
            sensors.push(d.sensor);
            proof {
                assert(sensor_views(sensors@) =~= distinct_sensors(views.take(i as int + 1)));
            }
        }
        i = i + 1;
    }
    proof {
        assert(views.take(measurements@.len() as int) =~= views);
    }
    let ghost all_sensors = distinct_sensors(views);
    let mut res: Vec<Measurement> = Vec::new();
    let mut gi: usize = 0;
    while gi < sensors.len()
        invariant
            gi <= sensors@.len(),
            2 <= skip_div,
            views == measurement_views(measurements@),
            sensor_views(sensors@) == all_sensors,
            all_sensors == distinct_sensors(views),
            measurement_views(res@) == downsample_groups(
                views,
                all_sensors.take(gi as int),
                skip_div as int,
                half as int,
                tail_start as int,
            ),
        decreases sensors@.len() - gi,
    {
        let mut g: Vec<Measurement> = Vec::new();
        let mut i: usize = 0;
        while i < measurements.len()
            invariant
                i <= measurements@.len(),
                gi < sensors@.len(),
                views == measurement_views(measurements@),
                sensor_views(sensors@) == all_sensors,
                measurement_views(g@) == sensor_group(views.take(i as int), all_sensors[gi as int]),
            decreases measurements@.len() - i,
        {
            proof {
                assert(views.take(i as int + 1).drop_last() =~= views.take(i as int));
                assert(views.take(i as int + 1).last() == views[i as int]);
            }
            if bytes_eq(&measurements[i].sensor, &sensors[gi]) {
                g.push(measurements[i].duplicate());
                proof {
                    assert(measurement_views(g@) =~= measurement_views(g@.drop_last()).push(
                        g@.last()@,
                    ));
                }
            }
            i = i + 1;
        }
        proof {
            assert(views.take(measurements@.len() as int) =~= views);
        }
        let mut k: usize = 0;
        while k < g.len()
            invariant
                k <= g@.len(),
                gi < sensors@.len(),
                2 <= skip_div,
                views == measurement_views(measurements@),
                sensor_views(sensors@) == all_sensors,
                all_sensors == distinct_sensors(views),
                measurement_views(g@) == sensor_group(views, all_sensors[gi as int]),
                measurement_views(res@) == downsample_groups(
                    views,
                    all_sensors.take(gi as int),
                    skip_div as int,
                    half as int,
                    tail_start as int,
                ) + decimate(
                    measurement_views(g@).take(k as int),
                    skip_div as int,
                    half as int,
                    tail_start as int,
                ),
            decreases g@.len() - k,
        {
            proof {
                assert(measurement_views(g@).take(k as int + 1).drop_last()
                    =~= measurement_views(g@).take(k as int));
                assert(measurement_views(g@).take(k as int + 1).last() == measurement_views(g@)[
                    k as int
                ]);
            }
            if k % skip_div == 0 || (k % skip_div == half && k >= tail_start) {
                res.push(g[k].duplicate());
                proof {
                    assert(measurement_views(res@) =~= measurement_views(res@.drop_last()).push(
                        res@.last()@,
                    ));
                    let dg = downsample_groups(
                        views,
                        all_sensors.take(gi as int),
                        skip_div as int,
                        half as int,
                        tail_start as int,
                    );
                    let dc = decimate(
                        measurement_views(g@).take(k as int),
                        skip_div as int,
                        half as int,
                        tail_start as int,
                    );
                    assert(dg + dc.push(measurement_views(g@)[k as int]) =~= (dg + dc).push(
                        measurement_views(g@)[k as int],
                    ));
                }
            }
            k = k + 1;
        }
        proof {
            assert(measurement_views(g@).take(g@.len() as int) =~= measurement_views(g@));
            assert(all_sensors.take(gi as int + 1).drop_last() =~= all_sensors.take(gi as int));
            assert(all_sensors.take(gi as int + 1).last() == all_sensors[gi as int]);
        }
        gi = gi + 1;
    }
    proof {
        assert(all_sensors.take(all_sensors.len() as int) =~= all_sensors);
    }
    res
}

/// Downsampling a single-sensor input never yields more than `limit`
/// points: the primary stride keeps exactly the shortfall-adjusted count and
/// the tail window adds at most the shortfall.
pub proof fn lemma_downsample_bound(ms: Seq<MeasurementView>, limit: int)
    requires
        limit >= 1,
        forall|i: int| 0 <= i < ms.len() ==> #[trigger] ms[i].sensor == ms[0].sensor,
    ensures
        downsample_spec(ms, limit).len() <= limit,
{
    let len = ms.len() as int;
    if len <= limit {
    } else {
        lemma_downsample_params(len, limit);
        let skip = (len + limit - 1) / limit;
        let got = (len - 1) / skip + 1;
        let rest = limit - got;
        let half = (skip + 1) / 2;
        let tail_start = len - skip * rest;
        lemma_div_is_ordered(3, skip + 1, 2);
        lemma_fundamental_div_mod_converse(3, 2, 1, 1);
        assert(half >= 1);
        lemma_div_is_ordered(skip + 1, 2 * skip - 1, 2);
        lemma_fundamental_div_mod_converse(2 * skip - 1, 2, skip - 1, 1);
        assert(half <= skip - 1);
        lemma_single_sensor_list(ms);
        lemma_single_sensor_group(ms, ms[0].sensor);
        let sensors = seq![ms[0].sensor];
        assert(sensors.drop_last() =~= Seq::<Seq<u8>>::empty());
        assert(downsample_groups(ms, Seq::<Seq<u8>>::empty(), skip, half, tail_start)
            == Seq::<MeasurementView>::empty());
        assert(sensors.last() == ms[0].sensor);
        assert(downsample_groups(ms, sensors, skip, half, tail_start) =~= decimate(
            ms,
            skip,
            half,
            tail_start,
        ));
        lemma_decimate_len(ms, skip, half, tail_start);
        lemma_count_kept_split(len, skip, half, tail_start);
        lemma_count_mult_exact(len, skip);
        lemma_count_halfs_exact(len, skip, half);
        lemma_count_half_tail_diff(len, skip, half, tail_start);
        assert(tail_start >= 1);
        assert(tail_start <= len);
        if rest == 0 {
            assert(skip * rest == 0) by (nonlinear_arith)
                requires
                    rest == 0,
            ;
            assert(tail_start == len);
            assert(count_half_tail(len, skip, half, tail_start) == 0);
        } else {
            if len <= half {
                lemma_count_halfs_exact(tail_start, skip, half);
            } else if tail_start > half {
                lemma_count_halfs_exact(tail_start, skip, half);
                let x = tail_start - 1 - half;
                let xq = x / skip;
                let xr = x % skip;
                lemma_fundamental_div_mod(x, skip);
                lemma_mod_bound(x, skip);
                assert(len - 1 - half == (xq + rest) * skip + xr) by (nonlinear_arith)
                    requires
                        x == skip * xq + xr,
                        len - 1 - half == x + skip * rest,
                ;
                lemma_fundamental_div_mod_converse(len - 1 - half, skip, xq + rest, xr);
            } else {
                lemma_count_halfs_exact(tail_start, skip, half);
                assert(len - 1 - half <= skip * (rest - 1) + (skip - 1)) by (nonlinear_arith)
                    requires
                        len - tail_start == skip * rest,
                        tail_start <= half,
                        skip >= 1,
                        rest >= 1,
                ;
                lemma_div_is_ordered(len - 1 - half, skip * (rest - 1) + (skip - 1), skip);
                assert(skip * (rest - 1) + (skip - 1) == (rest - 1) * skip + (skip - 1))
                    by (nonlinear_arith);
                lemma_fundamental_div_mod_converse(
                    skip * (rest - 1) + (skip - 1),
                    skip,
                    rest - 1,
                    skip - 1,
                );
            }
        }
    }
}

} // verus!
