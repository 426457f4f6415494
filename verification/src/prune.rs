//! Retention pruner: deletes data older than a cutoff timestamp while
//! guaranteeing a minimum time gap between the surviving old points of each
//! sensor. Records at or after the cutoff are never touched, and deletions
//! are applied to both partitions, in batches of a caller-chosen size.
//!
//! Decimation strategy (a design choice, and part of the contract through
//! `prune_walk`): the pre-cutoff range of the time-primary partition is
//! walked in ascending key order, the first point seen for each sensor is
//! kept, and every later point of that sensor closer than the minimum gap to
//! the last kept one is deleted, from both partitions. Records whose key
//! does not decode are left alone. On success the partitions equal the old
//! contents minus exactly the marked keys and their sensor-key duals, so
//! the walk being deterministic makes a re-run with the same parameters a
//! fixed point: a kept point stays kept and everything marked is already
//! gone.

use vstd::prelude::*;

use crate::downsample::bytes_eq;
use crate::keys::lemma_lex_irrefl;
use crate::keys::lemma_sensor_key_round_trip;
use crate::keys::lemma_time_key_cutoff;
use crate::keys::lemma_time_key_ts_order;
use crate::keys::lex_lt;
use crate::keys::sensor_key;
use crate::keys::spec_decode_sensor_key;
use crate::keys::spec_decode_time_key;
use crate::keys::u64_be_bytes;
use crate::keys::u64_be_vec;
use crate::keys::Measurement;
use crate::keys::MeasurementView;
use crate::store::apply_ops;
use crate::store::batch_new;
use crate::store::batch_ops;
use crate::store::batch_remove;
use crate::store::entry_views;
use crate::store::scan_entries_ok;
use crate::store::DbState;
use crate::store::IoError;
use crate::store::KeyBound;
use crate::store::KeyBoundView;

verus! {

/// The key byte sequences of a vector of keys.
pub open spec fn key_views(s: Seq<Vec<u8>>) -> Seq<Seq<u8>> {
    s.map_values(|v: Vec<u8>| v@)
}

/// What a decodable time-primary key decodes to.
pub open spec fn tk(k: Seq<u8>) -> (u64, Seq<u8>)
    recommends
        spec_decode_time_key(k) is Some,
{
    spec_decode_time_key(k)->0
}

/// The pending writes that remove exactly the listed keys.
pub open spec fn remove_ops(ks: Seq<Seq<u8>>) -> Map<Seq<u8>, Option<Seq<u8>>> {
    Map::new(|k: Seq<u8>| ks.contains(k), |k: Seq<u8>| None)
}

/// The measurement value a deletion key pair is derived from.
pub open spec fn deleted_view(k: Seq<u8>) -> MeasurementView {
    MeasurementView { sensor: tk(k).1, timestamp_us: tk(k).0, value_bits: 0 }
}

/// The deletion key pair a marked time-primary key contributes to the
/// sensor-primary partition.
pub open spec fn sensor_dual(k: Seq<u8>) -> Seq<u8> {
    sensor_key(deleted_view(k))
}

/// The pruning walk over the first `n` scanned entries: per sensor the
/// timestamp of its last kept point, and the keys marked for deletion. An
/// entry whose key does not decode is left alone; the first point of a
/// sensor is kept; a later point is kept iff it lies at least `gap` after
/// the sensor's last kept point, and marked otherwise.
pub open spec fn prune_walk(es: Seq<(Seq<u8>, Seq<u8>)>, gap: u64, n: int) -> (
    Map<Seq<u8>, u64>,
    Seq<Seq<u8>>,
)
    decreases n,
{
    if n <= 0 {
        (Map::empty(), Seq::empty())
    } else {
        let (lk, marked) = prune_walk(es, gap, n - 1);
        match spec_decode_time_key(es[n - 1].0) {
            Option::None => (lk, marked),
            Option::Some(d) => if lk.contains_key(d.1) && d.0 - lk[d.1] < gap {
                (lk, marked.push(es[n - 1].0))
            } else {
                (lk.insert(d.1, d.0), marked)
            },
        }
    }
}

/// The keys the pruning walk over all scanned entries marks for deletion.
pub open spec fn prune_marks(es: Seq<(Seq<u8>, Seq<u8>)>, gap: u64) -> Seq<Seq<u8>> {
    prune_walk(es, gap, es.len() as int).1
}

/// The tracker map a tracker list stands for: each listed sensor maps to
/// its listed timestamp, later entries winning (the lists used here hold
/// each sensor once).
pub open spec fn assoc_to_map(lk: Seq<(Seq<u8>, u64)>) -> Map<Seq<u8>, u64>
    decreases lk.len(),
{
    if lk.len() == 0 {
        Map::empty()
    } else {
        assoc_to_map(lk.drop_last()).insert(lk.last().0, lk.last().1)
    }
}

/// A sensor listed nowhere in the tracker list is absent from its map.
proof fn lemma_assoc_absent(lk: Seq<(Seq<u8>, u64)>, s: Seq<u8>)
    requires
        forall|a: int| #![trigger lk[a]] 0 <= a < lk.len() ==> lk[a].0 != s,
    ensures
        !assoc_to_map(lk).contains_key(s),
    decreases lk.len(),
{
    if lk.len() > 0 {
        lemma_assoc_absent(lk.drop_last(), s);
    }
}

/// With each sensor listed once, every tracker entry is in the map with its
/// own timestamp.
proof fn lemma_assoc_present(lk: Seq<(Seq<u8>, u64)>, a: int)
    requires
        forall|x: int, y: int| #![trigger lk[x], lk[y]] 0 <= x < y < lk.len() ==> lk[x].0 != lk[y].0,
        0 <= a < lk.len(),
    ensures
        assoc_to_map(lk).contains_key(lk[a].0),
        assoc_to_map(lk)[lk[a].0] == lk[a].1,
    decreases lk.len(),
{
    if a < lk.len() - 1 {
        lemma_assoc_present(lk.drop_last(), a);
        assert(lk.last().0 != lk[a].0);
    }
}

/// With each sensor listed once, replacing one entry's timestamp is an
/// insert on the map.
proof fn lemma_assoc_update(lk: Seq<(Seq<u8>, u64)>, a: int, t: u64)
    requires
        forall|x: int, y: int| #![trigger lk[x], lk[y]] 0 <= x < y < lk.len() ==> lk[x].0 != lk[y].0,
        0 <= a < lk.len(),
    ensures
        assoc_to_map(lk.update(a, (lk[a].0, t))) == assoc_to_map(lk).insert(lk[a].0, t),
    decreases lk.len(),
{
    let lk2 = lk.update(a, (lk[a].0, t));
    if a == lk.len() - 1 {
        assert(lk2.drop_last() =~= lk.drop_last());
        assert(assoc_to_map(lk2) =~= assoc_to_map(lk).insert(lk[a].0, t));
    } else {
        assert(lk2.drop_last() =~= lk.drop_last().update(a, (lk[a].0, t)));
        lemma_assoc_update(lk.drop_last(), a, t);
        assert(lk.last().0 != lk[a].0);
        assert(assoc_to_map(lk2) =~= assoc_to_map(lk).insert(lk[a].0, t));
    }
}

/// Appending a tracker entry is an insert on the map.
proof fn lemma_assoc_push(lk: Seq<(Seq<u8>, u64)>, s: Seq<u8>, t: u64)
    ensures
        assoc_to_map(lk.push((s, t))) == assoc_to_map(lk).insert(s, t),
{
    assert(lk.push((s, t)).drop_last() =~= lk);
}

/// The tracker list of the walk state holds each sensor once.
proof fn lemma_inv_distinct(
    es: Seq<(Seq<u8>, Seq<u8>)>,
    i: int,
    lk: Seq<(Seq<u8>, u64)>,
    wit: Seq<int>,
    ka: Seq<int>,
    dl: Seq<Seq<u8>>,
    dwit: Seq<int>,
    gap: u64,
)
    requires
        selection_inv(es, i, lk, wit, ka, dl, dwit, gap),
    ensures
        forall|x: int, y: int| #![trigger lk[x], lk[y]] 0 <= x < y < lk.len() ==> lk[x].0 != lk[y].0,
{
    reveal(selection_inv);
}

/// The walk state after the first `i` scanned entries: the tracker `lk`
/// holds, per sensor seen and kept so far, the timestamp of its last kept
/// point; `dl` holds the keys marked for deletion. Kept pre-cutoff points of
/// one sensor are pairwise at least `gap` apart.
#[verifier::opaque]
pub open spec fn selection_inv(
    es: Seq<(Seq<u8>, Seq<u8>)>,
    i: int,
    lk: Seq<(Seq<u8>, u64)>,
    wit: Seq<int>,
    ka: Seq<int>,
    dl: Seq<Seq<u8>>,
    dwit: Seq<int>,
    gap: u64,
) -> bool {
    &&& wit.len() == lk.len()
    &&& ka.len() == i
    &&& dwit.len() == dl.len()
    &&& forall|a: int, b: int| #![trigger lk[a], lk[b]] 0 <= a < b < lk.len() ==> lk[a].0 != lk[b].0
    &&& forall|a: int| #![trigger lk[a]] #![trigger wit[a]]
        0 <= a < lk.len() ==> 0 <= wit[a] < i && wit[a] < es.len() && spec_decode_time_key(
            es[wit[a]].0,
        ) == Some((lk[a].1, lk[a].0)) && !dl.contains(es[wit[a]].0)
    &&& forall|j: int| #![trigger es[j]] #![trigger ka[j]]
        0 <= j < i && j < es.len() && spec_decode_time_key(es[j].0) is Some && !dl.contains(
            es[j].0,
        ) ==> 0 <= ka[j] < lk.len() && lk[ka[j]].0 == tk(es[j].0).1 && lk[ka[j]].1 >= tk(es[j].0).0
    &&& forall|j1: int, j2: int| #![trigger es[j1], es[j2]]
        0 <= j1 < i && 0 <= j2 < i && j1 < es.len() && j2 < es.len() && spec_decode_time_key(
            es[j1].0,
        ) is Some && spec_decode_time_key(es[j2].0) is Some && !dl.contains(es[j1].0)
            && !dl.contains(es[j2].0) && tk(es[j1].0).1 == tk(es[j2].0).1 && tk(es[j1].0).0 < tk(
            es[j2].0,
        ).0 ==> tk(es[j2].0).0 - tk(es[j1].0).0 >= gap
    &&& forall|x: int| #![trigger dl[x]] #![trigger dwit[x]]
        0 <= x < dl.len() ==> spec_decode_time_key(dl[x]) is Some && 0 <= dwit[x] < i && dwit[x]
            < es.len() && es[dwit[x]].0 == dl[x]
}

/// Facts about the entry a walk step looks at: its key differs from every
/// earlier key, and its timestamp is the latest so far.
proof fn lemma_entry_facts(
    es: Seq<(Seq<u8>, Seq<u8>)>,
    i: int,
    m: Map<Seq<u8>, Seq<u8>>,
    lo: KeyBoundView,
    hi: KeyBoundView,
)
    requires
        scan_entries_ok(m, lo, hi, es),
        0 <= i < es.len(),
        spec_decode_time_key(es[i].0) is Some,
    ensures
        forall|j: int| #![trigger es[j]] 0 <= j < i ==> es[j].0 != es[i].0,
        forall|j: int| #![trigger es[j]]
            0 <= j < i && spec_decode_time_key(es[j].0) is Some ==> tk(es[j].0).0 <= tk(es[i].0).0,
{
    assert forall|j: int| #![trigger es[j]] 0 <= j < i implies es[j].0 != es[i].0 by {
        assert(lex_lt(es[j].0, es[i].0));
        lemma_lex_irrefl(es[i].0);
    }
    assert forall|j: int| #![trigger es[j]]
        0 <= j < i && spec_decode_time_key(es[j].0) is Some implies tk(es[j].0).0 <= tk(
        es[i].0,
    ).0 by {
        assert(lex_lt(es[j].0, es[i].0));
        lemma_time_key_ts_order(es[j].0, es[i].0);
    }
}

/// Shared step fact: the entry at hand was never marked earlier, since all
/// marked keys belong to earlier entries and all earlier keys differ.
proof fn lemma_not_marked(
    es: Seq<(Seq<u8>, Seq<u8>)>,
    i: int,
    lk: Seq<(Seq<u8>, u64)>,
    wit: Seq<int>,
    ka: Seq<int>,
    dl: Seq<Seq<u8>>,
    dwit: Seq<int>,
    gap: u64,
)
    requires
        0 <= i < es.len(),
        selection_inv(es, i, lk, wit, ka, dl, dwit, gap),
        forall|j: int| #![trigger es[j]] 0 <= j < i ==> es[j].0 != es[i].0,
    ensures
        !dl.contains(es[i].0),
{
    reveal(selection_inv);
    if dl.contains(es[i].0) {
        let x = choose|x: int| 0 <= x < dl.len() && dl[x] == es[i].0;
        assert(es[dwit[x]].0 == dl[x]);
        assert(es[dwit[x]].0 != es[i].0);
    }
}

/// One walk step over an entry whose key does not decode: nothing changes.
proof fn lemma_step_skip(
    es: Seq<(Seq<u8>, Seq<u8>)>,
    i: int,
    lk: Seq<(Seq<u8>, u64)>,
    wit: Seq<int>,
    ka: Seq<int>,
    dl: Seq<Seq<u8>>,
    dwit: Seq<int>,
    gap: u64,
)
    requires
        0 <= i < es.len(),
        selection_inv(es, i, lk, wit, ka, dl, dwit, gap),
        spec_decode_time_key(es[i].0) is None,
    ensures
        selection_inv(es, i + 1, lk, wit, ka.push(0), dl, dwit, gap),
{
    reveal(selection_inv);
}

/// One walk step that keeps the first point of a sensor not seen before:
/// the tracker gains an entry for it.
#[verifier::rlimit(100)]
proof fn lemma_step_keep_push(
    es: Seq<(Seq<u8>, Seq<u8>)>,
    i: int,
    lk: Seq<(Seq<u8>, u64)>,
    wit: Seq<int>,
    ka: Seq<int>,
    dl: Seq<Seq<u8>>,
    dwit: Seq<int>,
    gap: u64,
)
    requires
        0 <= i < es.len(),
        selection_inv(es, i, lk, wit, ka, dl, dwit, gap),
        spec_decode_time_key(es[i].0) is Some,
        forall|j: int| #![trigger es[j]] 0 <= j < i ==> es[j].0 != es[i].0,
        forall|j: int| #![trigger es[j]]
            0 <= j < i && spec_decode_time_key(es[j].0) is Some ==> tk(es[j].0).0 <= tk(es[i].0).0,
        forall|a: int| #![trigger lk[a]] 0 <= a < lk.len() ==> lk[a].0 != tk(es[i].0).1,
    ensures
        selection_inv(
            es,
            i + 1,
            lk.push((tk(es[i].0).1, tk(es[i].0).0)),
            wit.push(i),
            ka.push(lk.len() as int),
            dl,
            dwit,
            gap,
        ),
{
    reveal(selection_inv);
    let ts = tk(es[i].0).0;
    let sensor = tk(es[i].0).1;
    let lk2 = lk.push((sensor, ts));
    let wit2 = wit.push(i);
    let ka2 = ka.push(lk.len() as int);
    lemma_not_marked(es, i, lk, wit, ka, dl, dwit, gap);
    // no earlier kept point shares this sensor
    assert forall|j: int| #![trigger es[j]]
        0 <= j < i && spec_decode_time_key(es[j].0) is Some && !dl.contains(es[j].0) implies tk(
        es[j].0,
    ).1 != sensor by {
        assert(lk[ka[j]].0 != sensor);
    }
    assert forall|a: int, b: int| #![trigger lk2[a], lk2[b]]
        0 <= a < b < lk2.len() implies lk2[a].0 != lk2[b].0 by {
        if b < lk.len() {
            assert(lk2[a] == lk[a] && lk2[b] == lk[b]);
        } else {
            assert(lk2[a] == lk[a] && lk2[b] == (sensor, ts));
        }
    }
    assert forall|a: int| #![trigger lk2[a]] 0 <= a < lk2.len() implies 0 <= wit2[a] < i + 1
        && wit2[a] < es.len() && spec_decode_time_key(es[wit2[a]].0) == Some(
        (lk2[a].1, lk2[a].0),
    ) && !dl.contains(es[wit2[a]].0) by {
        if a < lk.len() {
            assert(lk2[a] == lk[a] && wit2[a] == wit[a]);
        } else {
            assert(lk2[a] == (sensor, ts) && wit2[a] == i);
        }
    }
    assert forall|j: int| #![trigger es[j]]
        0 <= j < i + 1 && j < es.len() && spec_decode_time_key(es[j].0) is Some && !dl.contains(
            es[j].0,
        ) implies 0 <= ka2[j] < lk2.len() && lk2[ka2[j]].0 == tk(es[j].0).1 && lk2[ka2[j]].1 >= tk(
        es[j].0,
    ).0 by {
        if j < i {
            assert(ka2[j] == ka[j]);
            assert(lk2[ka[j]] == lk[ka[j]]);
        } else {
            assert(ka2[i] == lk.len() as int);
            assert(lk2[lk.len() as int] == (sensor, ts));
        }
    }
    assert forall|j1: int, j2: int| #![trigger es[j1], es[j2]]
        0 <= j1 < i + 1 && 0 <= j2 < i + 1 && j1 < es.len() && j2 < es.len()
            && spec_decode_time_key(es[j1].0) is Some && spec_decode_time_key(es[j2].0) is Some
            && !dl.contains(es[j1].0) && !dl.contains(es[j2].0) && tk(es[j1].0).1 == tk(es[j2].0).1
            && tk(es[j1].0).0 < tk(es[j2].0).0 implies tk(es[j2].0).0 - tk(es[j1].0).0 >= gap by {
        if j2 == i && j1 < i {
            assert(tk(es[j1].0).1 != sensor);
            assert(false);
        } else if j1 == i && j2 < i {
            assert(tk(es[j2].0).0 <= ts);
            assert(false);
        }
    }
}

/// One walk step that keeps a point far enough after its sensor's last kept
/// one: the tracker entry advances to it.
#[verifier::rlimit(100)]
proof fn lemma_step_keep_update(
    es: Seq<(Seq<u8>, Seq<u8>)>,
    i: int,
    lk: Seq<(Seq<u8>, u64)>,
    wit: Seq<int>,
    ka: Seq<int>,
    dl: Seq<Seq<u8>>,
    dwit: Seq<int>,
    gap: u64,
    a: int,
)
    requires
        0 <= i < es.len(),
        selection_inv(es, i, lk, wit, ka, dl, dwit, gap),
        spec_decode_time_key(es[i].0) is Some,
        forall|j: int| #![trigger es[j]] 0 <= j < i ==> es[j].0 != es[i].0,
        forall|j: int| #![trigger es[j]]
            0 <= j < i && spec_decode_time_key(es[j].0) is Some ==> tk(es[j].0).0 <= tk(es[i].0).0,
        0 <= a < lk.len(),
        lk[a].0 == tk(es[i].0).1,
        lk[a].1 < tk(es[i].0).0,
        tk(es[i].0).0 - lk[a].1 >= gap,
    ensures
        selection_inv(
            es,
            i + 1,
            lk.update(a, (tk(es[i].0).1, tk(es[i].0).0)),
            wit.update(a, i),
            ka.push(a),
            dl,
            dwit,
            gap,
        ),
{
    reveal(selection_inv);
    let ts = tk(es[i].0).0;
    let sensor = tk(es[i].0).1;
    let lk2 = lk.update(a, (sensor, ts));
    let wit2 = wit.update(a, i);
    let ka2 = ka.push(a);
    lemma_not_marked(es, i, lk, wit, ka, dl, dwit, gap);
    // every kept earlier point of this sensor is tracked at `a`, at or below
    // the tracker timestamp, hence at least `gap` below the new point
    assert forall|j: int| #![trigger es[j]]
        0 <= j < i && spec_decode_time_key(es[j].0) is Some && !dl.contains(es[j].0) && tk(
            es[j].0,
        ).1 == sensor implies ka[j] == a && ts - tk(es[j].0).0 >= gap && tk(es[j].0).0 < ts by {
        if ka[j] < a {
            assert(lk[ka[j]].0 != lk[a].0);
        } else if ka[j] > a {
            assert(lk[a].0 != lk[ka[j]].0);
        }
        assert(tk(es[j].0).0 <= lk[a].1);
    }
    assert forall|x: int| #![trigger lk2[x]] 0 <= x < lk.len() implies lk2[x].0 == lk[x].0 by {
        if x != a {
            assert(lk2[x] == lk[x]);
        }
    }
    assert forall|x: int, y: int| #![trigger lk2[x], lk2[y]]
        0 <= x < y < lk2.len() implies lk2[x].0 != lk2[y].0 by {
        assert(lk2[x].0 == lk[x].0 && lk2[y].0 == lk[y].0);
    }
    assert forall|b: int| #![trigger lk2[b]] 0 <= b < lk2.len() implies 0 <= wit2[b] < i + 1
        && wit2[b] < es.len() && spec_decode_time_key(es[wit2[b]].0) == Some(
        (lk2[b].1, lk2[b].0),
    ) && !dl.contains(es[wit2[b]].0) by {
        if b != a {
            assert(lk2[b] == lk[b] && wit2[b] == wit[b]);
        } else {
            assert(lk2[a] == (sensor, ts) && wit2[a] == i);
        }
    }
    assert forall|j: int| #![trigger es[j]]
        0 <= j < i + 1 && j < es.len() && spec_decode_time_key(es[j].0) is Some && !dl.contains(
            es[j].0,
        ) implies 0 <= ka2[j] < lk2.len() && lk2[ka2[j]].0 == tk(es[j].0).1 && lk2[ka2[j]].1 >= tk(
        es[j].0,
    ).0 by {
        if j < i {
            assert(ka2[j] == ka[j]);
            if tk(es[j].0).1 == sensor {
                assert(ka[j] == a);
                assert(lk2[a] == (sensor, ts));
                assert(tk(es[j].0).0 <= lk[a].1 <= ts);
            } else {
                if ka[j] == a {
                    assert(lk[a].0 == tk(es[j].0).1);
                    assert(false);
                }
                assert(lk2[ka[j]] == lk[ka[j]]);
            }
        } else {
            assert(ka2[i] == a);
            assert(lk2[a] == (sensor, ts));
        }
    }
    assert forall|j1: int, j2: int| #![trigger es[j1], es[j2]]
        0 <= j1 < i + 1 && 0 <= j2 < i + 1 && j1 < es.len() && j2 < es.len()
            && spec_decode_time_key(es[j1].0) is Some && spec_decode_time_key(es[j2].0) is Some
            && !dl.contains(es[j1].0) && !dl.contains(es[j2].0) && tk(es[j1].0).1 == tk(es[j2].0).1
            && tk(es[j1].0).0 < tk(es[j2].0).0 implies tk(es[j2].0).0 - tk(es[j1].0).0 >= gap by {
        if j2 == i && j1 < i {
            assert(ts - tk(es[j1].0).0 >= gap);
        } else if j1 == i && j2 < i {
            assert(tk(es[j2].0).0 <= ts);
            assert(false);
        }
    }
}

/// One walk step that marks the entry for deletion: it lies too close after
/// its sensor's last kept point.
#[verifier::rlimit(100)]
proof fn lemma_step_delete(
    es: Seq<(Seq<u8>, Seq<u8>)>,
    i: int,
    lk: Seq<(Seq<u8>, u64)>,
    wit: Seq<int>,
    ka: Seq<int>,
    dl: Seq<Seq<u8>>,
    dwit: Seq<int>,
    gap: u64,
)
    requires
        0 <= i < es.len(),
        selection_inv(es, i, lk, wit, ka, dl, dwit, gap),
        spec_decode_time_key(es[i].0) is Some,
        forall|j: int| #![trigger es[j]] 0 <= j < i ==> es[j].0 != es[i].0,
    ensures
        selection_inv(es, i + 1, lk, wit, ka.push(0), dl.push(es[i].0), dwit.push(i), gap),
{
    reveal(selection_inv);
    let dl2 = dl.push(es[i].0);
    lemma_contains_push(dl, es[i].0);
    assert forall|a: int| #![trigger lk[a]] 0 <= a < lk.len() implies 0 <= wit[a] < i + 1
        && wit[a] < es.len() && spec_decode_time_key(es[wit[a]].0) == Some(
        (lk[a].1, lk[a].0),
    ) && !dl2.contains(es[wit[a]].0) by {
        assert(es[wit[a]].0 != es[i].0);
    }
    assert(dl2.contains(es[i].0));
    assert forall|j: int| #![trigger es[j]]
        0 <= j < i + 1 && j < es.len() && spec_decode_time_key(es[j].0) is Some && !dl2.contains(
            es[j].0,
        ) implies 0 <= ka.push(0)[j] < lk.len() && lk[ka.push(0)[j]].0 == tk(es[j].0).1 && lk[
        ka.push(0)[j]].1 >= tk(es[j].0).0 by {
        assert(j != i);
        assert(!dl.contains(es[j].0));
        assert(ka.push(0)[j] == ka[j]);
    }
    assert forall|j1: int, j2: int| #![trigger es[j1], es[j2]]
        0 <= j1 < i + 1 && 0 <= j2 < i + 1 && j1 < es.len() && j2 < es.len()
            && spec_decode_time_key(es[j1].0) is Some && spec_decode_time_key(es[j2].0) is Some
            && !dl2.contains(es[j1].0) && !dl2.contains(es[j2].0) && tk(es[j1].0).1 == tk(
            es[j2].0,
        ).1 && tk(es[j1].0).0 < tk(es[j2].0).0 implies tk(es[j2].0).0 - tk(es[j1].0).0 >= gap by {
        assert(j1 != i && j2 != i);
        assert(!dl.contains(es[j1].0));
        assert(!dl.contains(es[j2].0));
    }
}

/// The walk state before the first entry satisfies the invariant.
proof fn lemma_selection_init(es: Seq<(Seq<u8>, Seq<u8>)>, gap: u64)
    ensures
        selection_inv(
            es,
            0,
            Seq::empty(),
            Seq::empty(),
            Seq::empty(),
            Seq::empty(),
            Seq::empty(),
            gap,
        ),
{
    reveal(selection_inv);
}

/// The tracker's entry for the sensor of the entry at hand lies strictly
/// below that entry's timestamp.
proof fn lemma_tracker_strict(
    es: Seq<(Seq<u8>, Seq<u8>)>,
    i: int,
    lk: Seq<(Seq<u8>, u64)>,
    wit: Seq<int>,
    ka: Seq<int>,
    dl: Seq<Seq<u8>>,
    dwit: Seq<int>,
    gap: u64,
    a: int,
)
    requires
        0 <= i < es.len(),
        selection_inv(es, i, lk, wit, ka, dl, dwit, gap),
        spec_decode_time_key(es[i].0) is Some,
        0 <= a < lk.len(),
        lk[a].0 == tk(es[i].0).1,
        forall|j: int| #![trigger es[j]] 0 <= j < i ==> es[j].0 != es[i].0,
        forall|j: int| #![trigger es[j]]
            0 <= j < i && spec_decode_time_key(es[j].0) is Some ==> tk(es[j].0).0 <= tk(es[i].0).0,
    ensures
        lk[a].1 < tk(es[i].0).0,
{
    reveal(selection_inv);
    let jw = wit[a];
    assert(tk(es[jw].0).0 == lk[a].1);
    assert(lk[a].1 <= tk(es[i].0).0);
    if lk[a].1 == tk(es[i].0).0 {
        crate::keys::lemma_time_key_decompose(es[jw].0);
        crate::keys::lemma_time_key_decompose(es[i].0);
        assert(es[jw].0 == es[i].0);
        assert(false);
    }
}

/// An exact copy of a byte vector.
fn copy_bytes(v: &Vec<u8>) -> (r: Vec<u8>)
    ensures
        r@ == v@,
{
    let mut out: Vec<u8> = Vec::new();
    let mut i: usize = 0;
    while i < v.len()
        invariant
            i <= v@.len(),
            out@ == v@.take(i as int),
        decreases v@.len() - i,
    {
        out.push(v[i]);
        assert(out@ =~= v@.take(i as int + 1));
        i = i + 1;
    }
    assert(out@ =~= v@);
    out
}

/// The index of the tracker entry for sensor `s`, if one exists.
fn tracker_find(lk: &Vec<(Vec<u8>, u64)>, s: &Vec<u8>) -> (r: Option<usize>)
    ensures
        r matches Some(a) ==> a < lk@.len() && lk@[a as int].0@ == s@,
        r is None ==> forall|a: int| #![auto] 0 <= a < lk@.len() ==> lk@[a].0@ != s@,
{
    let mut a: usize = 0;
    while a < lk.len()
        invariant
            a <= lk@.len(),
            forall|b: int| #![auto] 0 <= b < a ==> lk@[b].0@ != s@,
        decreases lk@.len() - a,
    {
        if bytes_eq(&lk[a].0, s) {
            return Some(a);
        }
        a = a + 1;
    }
    None
}

/// Deletes old measurements: walks the pre-cutoff range of the time-primary
/// partition in key order, keeps the first point of each sensor and every
/// later point at least `min_time_between_points_us` after the last kept
/// one, and removes the rest from both partitions in batches of
/// `batch_size`. On success: nothing was written, only removed; every record
/// at or after the cutoff survives untouched; and any two surviving
/// pre-cutoff records of one sensor lie at least the minimum gap apart.
#[verifier::rlimit(100)]
pub fn prune_measurements(
    db: &mut DbState,
    ts_to_end: u64,
    min_time_between_points_us: u64,
    batch_size: usize,
) -> (r: Result<(), IoError>)
    requires
        batch_size >= 1,
    ensures
        r is Ok ==> forall|k: Seq<u8>| #![auto]
            final(db).ts_model().contains_key(k) ==> old(db).ts_model().contains_key(k)
                && final(db).ts_model()[k] == old(db).ts_model()[k],
        r is Ok ==> forall|k: Seq<u8>| #![auto]
            final(db).sensor_model().contains_key(k) ==> old(db).sensor_model().contains_key(k)
                && final(db).sensor_model()[k] == old(db).sensor_model()[k],
        r is Ok ==> forall|k: Seq<u8>| #![auto]
            old(db).ts_model().contains_key(k) && spec_decode_time_key(k) is Some && tk(k).0
                >= ts_to_end ==> final(db).ts_model().contains_key(k),
        r is Ok ==> forall|k: Seq<u8>| #![auto]
            old(db).sensor_model().contains_key(k) && spec_decode_sensor_key(k) is Some
                && (spec_decode_sensor_key(k)->0).0 >= ts_to_end
                ==> final(db).sensor_model().contains_key(k),
        r is Ok ==> forall|k1: Seq<u8>, k2: Seq<u8>| #![auto]
            final(db).ts_model().contains_key(k1) && final(db).ts_model().contains_key(k2)
                && spec_decode_time_key(k1) is Some && spec_decode_time_key(k2) is Some && tk(
                k1,
            ).1 == tk(k2).1 && tk(k1).0 < tk(k2).0 && tk(k2).0 < ts_to_end ==> tk(k2).0 - tk(k1).0
                >= min_time_between_points_us,
        r is Ok ==> exists|es: Seq<(Seq<u8>, Seq<u8>)>|
            #![auto]
            scan_entries_ok(
                old(db).ts_model(),
                KeyBoundView::Unbounded,
                KeyBoundView::Excluded(u64_be_bytes(ts_to_end)),
                es,
            ) && final(db).ts_model() == old(db).ts_model().remove_keys(
                prune_marks(es, min_time_between_points_us).to_set(),
            ) && final(db).sensor_model() == old(db).sensor_model().remove_keys(
                prune_marks(es, min_time_between_points_us).map_values(
                    |k: Seq<u8>| sensor_dual(k),
                ).to_set(),
            ),
{
    proof {
        db.lemma_models();
    }
    let ghost old_ts = db.ts_prefixed_tree@;
    let ghost old_sensor = db.sensor_prefixed_tree@;
    let gap = min_time_between_points_us;
    let hi = KeyBound::Excluded(u64_be_vec(ts_to_end));
    let ghost hi_view = KeyBoundView::Excluded(u64_be_bytes(ts_to_end));
    let lo = KeyBound::Unbounded;
    let entries = match db.ts_prefixed_tree.range_scan(&lo, &hi) {
        Ok(entries) => entries,
        Err(e) => {
            return Err(IoError::Backend(e));
        },
    };
    let ghost es = entry_views(entries@);
    proof {
        assert(hi@ == hi_view);
        assert(lo@ == KeyBoundView::Unbounded);
        assert(scan_entries_ok(old_ts, KeyBoundView::Unbounded, hi_view, es));
    }
    let mut last_kept: Vec<(Vec<u8>, u64)> = Vec::new();
    let ghost mut wit: Seq<int> = Seq::empty();
    let ghost mut ka: Seq<int> = Seq::empty();
    let ghost mut dwit: Seq<int> = Seq::empty();
    let mut to_delete_ts: Vec<Vec<u8>> = Vec::new();
    let mut to_delete_sensor: Vec<Vec<u8>> = Vec::new();
    let mut i: usize = 0;
    proof {
        lemma_selection_init(es, gap);
        assert(assoc_views(last_kept@) =~= Seq::<(Seq<u8>, u64)>::empty());
        assert(key_views(to_delete_ts@) =~= Seq::<Seq<u8>>::empty());
    }
    while i < entries.len()
        invariant
            i <= entries@.len(),
            es == entry_views(entries@),
            db.ts_prefixed_tree@ == old_ts,
            db.sensor_prefixed_tree@ == old_sensor,
            scan_entries_ok(old_ts, KeyBoundView::Unbounded, hi_view, es),
            hi_view == KeyBoundView::Excluded(u64_be_bytes(ts_to_end)),
            selection_inv(
                es,
                i as int,
                assoc_views(last_kept@),
                wit,
                ka,
                key_views(to_delete_ts@),
                dwit,
                gap,
            ),
            assoc_to_map(assoc_views(last_kept@)) == prune_walk(es, gap, i as int).0,
            key_views(to_delete_ts@) == prune_walk(es, gap, i as int).1,
            to_delete_sensor@.len() == to_delete_ts@.len(),
            forall|x: int| #![trigger to_delete_ts@[x]]
                0 <= x < to_delete_ts@.len() ==> spec_decode_time_key(to_delete_ts@[x]@) is Some
                    && to_delete_sensor@[x]@ == sensor_key(deleted_view(to_delete_ts@[x]@)) && tk(
                    to_delete_ts@[x]@,
                ).0 < ts_to_end,
        decreases entries@.len() - i,
    {
        proof {
            assert(es[i as int] == (entries@[i as int].0@, entries@[i as int].1@));
        }
        let decoded = crate::keys::decode_ts_prefixed_key(&entries[i].0);
        match decoded {
            Ok((ts, sensor)) => {
                proof {
                    lemma_time_key_cutoff(es[i as int].0, ts_to_end);
                    assert(ts < ts_to_end);
                    lemma_entry_facts(es, i as int, old_ts, KeyBoundView::Unbounded, hi_view);
                }
                let found = tracker_find(&last_kept, &sensor);
                match found {
                    Some(a) => {
                        let last_ts = last_kept[a].1;
                        proof {
                            lemma_tracker_strict(
                                es,
                                i as int,
                                assoc_views(last_kept@),
                                wit,
                                ka,
                                key_views(to_delete_ts@),
                                dwit,
                                gap,
                                a as int,
                            );
                            assert(last_ts < ts);
                            lemma_inv_distinct(
                                es,
                                i as int,
                                assoc_views(last_kept@),
                                wit,
                                ka,
                                key_views(to_delete_ts@),
                                dwit,
                                gap,
                            );
                            lemma_assoc_present(assoc_views(last_kept@), a as int);
                            assert(prune_walk(es, gap, i as int).0.contains_key(sensor@));
                            assert(prune_walk(es, gap, i as int).0[sensor@] == last_ts);
                        }
                        if ts - last_ts < gap {
                            let ghost dl_before = key_views(to_delete_ts@);
                            let ghost tsl_before = to_delete_ts@;
                            let ghost snl_before = to_delete_sensor@;
                            let key_copy = copy_bytes(&entries[i].0);
                            let m = Measurement { sensor, timestamp_us: ts, value_bits: 0 };
                            let s_key = crate::keys::get_sensor_prefixed_key(&m);
                            proof {
                                assert(m@ == deleted_view(es[i as int].0));
                            }
                            to_delete_ts.push(key_copy);
                            to_delete_sensor.push(s_key);
                            proof {
                                assert(key_views(to_delete_ts@) =~= dl_before.push(
                                    es[i as int].0,
                                ));
                                assert(prune_walk(es, gap, i as int + 1).1 == prune_walk(
                                    es,
                                    gap,
                                    i as int,
                                ).1.push(es[i as int].0));
                                assert(prune_walk(es, gap, i as int + 1).0 == prune_walk(
                                    es,
                                    gap,
                                    i as int,
                                ).0);
                                lemma_step_delete(
                                    es,
                                    i as int,
                                    assoc_views(last_kept@),
                                    wit,
                                    ka,
                                    dl_before,
                                    dwit,
                                    gap,
                                );
                                ka = ka.push(0);
                                dwit = dwit.push(i as int);
                                assert forall|x: int| #![trigger to_delete_ts@[x]]
                                    0 <= x < to_delete_ts@.len() implies spec_decode_time_key(
                                    to_delete_ts@[x]@,
                                ) is Some && to_delete_sensor@[x]@ == sensor_key(
                                    deleted_view(to_delete_ts@[x]@),
                                ) && tk(to_delete_ts@[x]@).0 < ts_to_end by {
                                    if x < tsl_before.len() {
                                        assert(to_delete_ts@[x] == tsl_before[x]);
                                        assert(to_delete_sensor@[x] == snl_before[x]);
                                    } else {
                                        assert(to_delete_ts@[x] == key_copy);
                                        assert(to_delete_sensor@[x]@ == sensor_key(
                                            deleted_view(es[i as int].0),
                                        ));
                                    }
                                }
                            }
                        } else {
                            let ghost lk_before = assoc_views(last_kept@);
                            last_kept[a] = (sensor, ts);
                            proof {
                                assert(assoc_views(last_kept@) =~= lk_before.update(
                                    a as int,
                                    (tk(es[i as int].0).1, ts),
                                ));
                                assert(lk_before[a as int].0 == tk(es[i as int].0).1);
                                assert(lk_before[a as int].1 == last_ts);
                                lemma_step_keep_update(
                                    es,
                                    i as int,
                                    lk_before,
                                    wit,
                                    ka,
                                    key_views(to_delete_ts@),
                                    dwit,
                                    gap,
                                    a as int,
                                );
                                wit = wit.update(a as int, i as int);
                                ka = ka.push(a as int);
                                assert(!(ts - prune_walk(es, gap, i as int).0[sensor@] < gap));
                                assert(prune_walk(es, gap, i as int + 1).0 == prune_walk(
                                    es,
                                    gap,
                                    i as int,
                                ).0.insert(sensor@, ts));
                                assert(prune_walk(es, gap, i as int + 1).1 == prune_walk(
                                    es,
                                    gap,
                                    i as int,
                                ).1);
                                lemma_assoc_update(lk_before, a as int, ts);
                                assert(lk_before[a as int].0 == sensor@);
                                assert(assoc_to_map(assoc_views(last_kept@)) == assoc_to_map(
                                    lk_before,
                                ).insert(sensor@, ts));
                            }
                        }
                    },
                    None => {
                        let ghost lk_before = assoc_views(last_kept@);
                        last_kept.push((sensor, ts));
                        proof {
                            assert(assoc_views(last_kept@) =~= lk_before.push(
                                (tk(es[i as int].0).1, ts),
                            ));
                            assert forall|ax: int| #![trigger lk_before[ax]]
                                0 <= ax < lk_before.len() implies lk_before[ax].0 != tk(
                                es[i as int].0,
                            ).1 by {}
                            lemma_step_keep_push(
                                es,
                                i as int,
                                lk_before,
                                wit,
                                ka,
                                key_views(to_delete_ts@),
                                dwit,
                                gap,
                            );
                            let ghost nlen = lk_before.len() as int;
                            wit = wit.push(i as int);
                            ka = ka.push(nlen);
                            lemma_assoc_absent(lk_before, sensor@);
                            assert(!prune_walk(es, gap, i as int).0.contains_key(sensor@));
                            assert(prune_walk(es, gap, i as int + 1).0 == prune_walk(
                                es,
                                gap,
                                i as int,
                            ).0.insert(sensor@, ts));
                            assert(prune_walk(es, gap, i as int + 1).1 == prune_walk(
                                es,
                                gap,
                                i as int,
                            ).1);
                            lemma_assoc_push(lk_before, sensor@, ts);
                        }
                    },
                }
            },
            Err(_) => {
                proof {
                    lemma_step_skip(
                        es,
                        i as int,
                        assoc_views(last_kept@),
                        wit,
                        ka,
                        key_views(to_delete_ts@),
                        dwit,
                        gap,
                    );
                    ka = ka.push(0);
                    assert(prune_walk(es, gap, i as int + 1) == prune_walk(es, gap, i as int));
                }
            },
        }
        i = i + 1;
    }
    let ghost dl = key_views(to_delete_ts@);
    let ghost sl = key_views(to_delete_sensor@);
    let mut start: usize = 0;
    while start < to_delete_ts.len()
        invariant
            start <= to_delete_ts@.len(),
            dl == key_views(to_delete_ts@),
            sl == key_views(to_delete_sensor@),
            sl.len() == dl.len(),
            db.ts_prefixed_tree@ == old_ts.remove_keys(dl.take(start as int).to_set()),
            db.sensor_prefixed_tree@ == old_sensor.remove_keys(sl.take(start as int).to_set()),
            batch_size >= 1,
        decreases to_delete_ts@.len() - start,
    {
        let end = if to_delete_ts.len() - start > batch_size {
            start + batch_size
        } else {
            to_delete_ts.len()
        };
        let mut ts_batch = batch_new();
        let mut sensor_batch = batch_new();
        proof {
            assert(batch_ops(ts_batch) =~= remove_ops(dl.subrange(start as int, start as int)));
            assert(batch_ops(sensor_batch) =~= remove_ops(sl.subrange(start as int, start as int)));
        }
        let mut j: usize = start;
        while j < end
            invariant
                start <= j <= end <= to_delete_ts@.len(),
                dl == key_views(to_delete_ts@),
                sl == key_views(to_delete_sensor@),
                sl.len() == dl.len(),
                batch_ops(ts_batch) == remove_ops(dl.subrange(start as int, j as int)),
                batch_ops(sensor_batch) == remove_ops(sl.subrange(start as int, j as int)),
            decreases end - j,
        {
            let k1 = copy_bytes(&to_delete_ts[j]);
            let k2 = copy_bytes(&to_delete_sensor[j]);
            batch_remove(&mut ts_batch, k1);
            batch_remove(&mut sensor_batch, k2);
            proof {
                lemma_remove_ops_push(dl, start as int, j as int);
                lemma_remove_ops_push(sl, start as int, j as int);
            }
            j = j + 1;
        }
        match db.ts_prefixed_tree.apply_batch(ts_batch) {
            Ok(()) => {},
            Err(e) => {
                return Err(IoError::Backend(e));
            },
        }
        match db.sensor_prefixed_tree.apply_batch(sensor_batch) {
            Ok(()) => {},
            Err(e) => {
                return Err(IoError::Backend(e));
            },
        }
        proof {
            assert(db.ts_prefixed_tree@ == apply_ops(
                old_ts.remove_keys(dl.take(start as int).to_set()),
                remove_ops(dl.subrange(start as int, end as int)),
            ));
            assert(db.sensor_prefixed_tree@ == apply_ops(
                old_sensor.remove_keys(sl.take(start as int).to_set()),
                remove_ops(sl.subrange(start as int, end as int)),
            ));
            lemma_apply_remove(old_ts, dl, start as int, end as int);
            lemma_apply_remove(old_sensor, sl, start as int, end as int);
            assert(db.ts_prefixed_tree@ == old_ts.remove_keys(dl.take(end as int).to_set()));
            assert(db.sensor_prefixed_tree@ == old_sensor.remove_keys(sl.take(end as int).to_set()));
        }
        start = end;
    }
    proof {
        assert(dl.take(dl.len() as int) =~= dl);
        assert(sl.take(sl.len() as int) =~= sl);
        assert forall|x: int| #![trigger dl[x]]
            0 <= x < dl.len() implies spec_decode_time_key(dl[x]) is Some && sl[x] == sensor_key(
            deleted_view(dl[x]),
        ) && tk(dl[x]).0 < ts_to_end by {
            assert(dl[x] == to_delete_ts@[x]@);
            assert(sl[x] == to_delete_sensor@[x]@);
        }
        db.lemma_models();
        old(db).lemma_models();
        assert(es.len() == entries@.len());
        assert(dl == prune_marks(es, gap));
        assert(sl =~= dl.map_values(|k: Seq<u8>| sensor_dual(k)));
        assert(db.ts_prefixed_tree@ == old(db).ts_model().remove_keys(
            prune_marks(es, gap).to_set(),
        ));
        assert(db.sensor_prefixed_tree@ == old(db).sensor_model().remove_keys(
            prune_marks(es, gap).map_values(|k: Seq<u8>| sensor_dual(k)).to_set(),
        ));
        assert(scan_entries_ok(
            old(db).ts_model(),
            KeyBoundView::Unbounded,
            KeyBoundView::Excluded(u64_be_bytes(ts_to_end)),
            es,
        ));
        lemma_prune_post(
            es,
            old_ts,
            old_sensor,
            assoc_views(last_kept@),
            wit,
            ka,
            dl,
            dwit,
            sl,
            gap,
            ts_to_end,
        );
    }
    Ok(())
}

/// The tracker and deletion-list views.
pub open spec fn assoc_views(s: Seq<(Vec<u8>, u64)>) -> Seq<(Seq<u8>, u64)> {
    s.map_values(|e: (Vec<u8>, u64)| (e.0@, e.1))
}

/// Membership in a pushed sequence is membership in the original or
/// equality with the new element.
proof fn lemma_contains_push(s: Seq<Seq<u8>>, x: Seq<u8>)
    ensures
        forall|k: Seq<u8>| #![trigger s.push(x).contains(k)]
            s.push(x).contains(k) <==> s.contains(k) || k == x,
{
    assert forall|k: Seq<u8>| #![trigger s.push(x).contains(k)]
        s.push(x).contains(k) <==> s.contains(k) || k == x by {
        if s.contains(k) {
            let w = choose|w: int| 0 <= w < s.len() && s[w] == k;
            assert(s.push(x)[w] == k);
        }
        if k == x {
            assert(s.push(x)[s.len() as int] == k);
        }
        if s.push(x).contains(k) {
            let w = choose|w: int| 0 <= w < s.push(x).len() && s.push(x)[w] == k;
            if w < s.len() {
                assert(s[w] == k);
            }
        }
    }
}

/// Removing one more key grows the pending removals by exactly that key.
proof fn lemma_remove_ops_push(ks: Seq<Seq<u8>>, start: int, j: int)
    requires
        0 <= start <= j < ks.len(),
    ensures
        remove_ops(ks.subrange(start, j)).insert(ks[j], None) == remove_ops(
            ks.subrange(start, j + 1),
        ),
{
    let a = remove_ops(ks.subrange(start, j)).insert(ks[j], None);
    let b = remove_ops(ks.subrange(start, j + 1));
    lemma_contains_push(ks.subrange(start, j), ks[j]);
    assert(ks.subrange(start, j + 1) =~= ks.subrange(start, j).push(ks[j]));
    assert forall|k: Seq<u8>| #![auto] a.contains_key(k) <==> b.contains_key(k) by {
        assert(a.contains_key(k) <==> ks.subrange(start, j).contains(k) || k == ks[j]);
        assert(b.contains_key(k) <==> ks.subrange(start, j + 1).contains(k));
        assert(ks.subrange(start, j).push(ks[j]).contains(k) <==> ks.subrange(start, j).contains(k)
            || k == ks[j]);
    }
    assert forall|k: Seq<u8>| #![auto] a.contains_key(k) implies a[k] == b[k] by {
        assert(a[k] is None);
        assert(b[k] is None);
    }
    assert(a =~= b);
}

/// Applying a chunk of removals deletes exactly that chunk's keys.
proof fn lemma_apply_remove(m: Map<Seq<u8>, Seq<u8>>, ks: Seq<Seq<u8>>, start: int, end: int)
    requires
        0 <= start <= end <= ks.len(),
    ensures
        apply_ops(
            m.remove_keys(ks.take(start).to_set()),
            remove_ops(ks.subrange(start, end)),
        ) == m.remove_keys(ks.take(end).to_set()),
{
    let lhs = apply_ops(
        m.remove_keys(ks.take(start).to_set()),
        remove_ops(ks.subrange(start, end)),
    );
    let rhs = m.remove_keys(ks.take(end).to_set());
    assert forall|k: Seq<u8>| #![auto] lhs.contains_key(k) <==> rhs.contains_key(k) by {
        assert(ks.take(end).to_set().contains(k) <==> ks.take(end).contains(k));
        assert(ks.take(start).to_set().contains(k) <==> ks.take(start).contains(k));
        if ks.take(end).contains(k) {
            let w = choose|w: int| 0 <= w < end && ks.take(end)[w] == k;
            if w < start {
                assert(ks.take(start)[w] == k);
            } else {
                assert(ks.subrange(start, end)[w - start] == k);
            }
        }
        if ks.take(start).contains(k) {
            let w = choose|w: int| 0 <= w < start && ks.take(start)[w] == k;
            assert(ks.take(end)[w] == k);
        }
        if ks.subrange(start, end).contains(k) {
            let w = choose|w: int| 0 <= w < end - start && ks.subrange(start, end)[w] == k;
            assert(ks.take(end)[start + w] == k);
        }
    }
    assert forall|k: Seq<u8>| #![auto] lhs.contains_key(k) implies lhs[k] == rhs[k] by {}
    assert(lhs =~= rhs);
}

/// From the walk's final state to the pruner's contract: survivors are the
/// old contents minus the marked keys, recent records were never marked, and
/// the per-sensor gap guarantee carries over to the surviving keys.
proof fn lemma_prune_post(
    es: Seq<(Seq<u8>, Seq<u8>)>,
    old_ts: Map<Seq<u8>, Seq<u8>>,
    old_sensor: Map<Seq<u8>, Seq<u8>>,
    lk: Seq<(Seq<u8>, u64)>,
    wit: Seq<int>,
    ka: Seq<int>,
    dl: Seq<Seq<u8>>,
    dwit: Seq<int>,
    sl: Seq<Seq<u8>>,
    gap: u64,
    ts_to_end: u64,
)
    requires
        scan_entries_ok(
            old_ts,
            KeyBoundView::Unbounded,
            KeyBoundView::Excluded(u64_be_bytes(ts_to_end)),
            es,
        ),
        selection_inv(es, es.len() as int, lk, wit, ka, dl, dwit, gap),
        sl.len() == dl.len(),
        forall|x: int| #![trigger dl[x]]
            0 <= x < dl.len() ==> spec_decode_time_key(dl[x]) is Some && sl[x] == sensor_key(
                deleted_view(dl[x]),
            ) && tk(dl[x]).0 < ts_to_end,
    ensures
        forall|k: Seq<u8>| #![auto]
            old_ts.contains_key(k) && spec_decode_time_key(k) is Some && tk(k).0 >= ts_to_end
                ==> old_ts.remove_keys(dl.to_set()).contains_key(k),
        forall|k: Seq<u8>| #![auto]
            old_sensor.contains_key(k) && spec_decode_sensor_key(k) is Some
                && (spec_decode_sensor_key(k)->0).0 >= ts_to_end ==> old_sensor.remove_keys(
                sl.to_set(),
            ).contains_key(k),
        forall|k1: Seq<u8>, k2: Seq<u8>| #![auto]
            old_ts.remove_keys(dl.to_set()).contains_key(k1) && old_ts.remove_keys(
                dl.to_set(),
            ).contains_key(k2) && spec_decode_time_key(k1) is Some && spec_decode_time_key(
                k2,
            ) is Some && tk(k1).1 == tk(k2).1 && tk(k1).0 < tk(k2).0 && tk(k2).0 < ts_to_end
                ==> tk(k2).0 - tk(k1).0 >= gap,
{
    reveal(selection_inv);
    assert forall|k: Seq<u8>| #![auto]
        old_ts.contains_key(k) && spec_decode_time_key(k) is Some && tk(k).0
            >= ts_to_end implies old_ts.remove_keys(dl.to_set()).contains_key(k) by {
        if dl.to_set().contains(k) {
            assert(dl.contains(k));
            let x = choose|x: int| 0 <= x < dl.len() && dl[x] == k;
            assert(tk(dl[x]).0 < ts_to_end);
        }
    }
    assert forall|k: Seq<u8>| #![auto]
        old_sensor.contains_key(k) && spec_decode_sensor_key(k) is Some && (spec_decode_sensor_key(
            k,
        )->0).0 >= ts_to_end implies old_sensor.remove_keys(sl.to_set()).contains_key(k) by {
        if sl.to_set().contains(k) {
            assert(sl.contains(k));
            let x = choose|x: int| 0 <= x < sl.len() && sl[x] == k;
            assert(sl[x] == sensor_key(deleted_view(dl[x])));
            crate::keys::lemma_time_key_sensor_wf(dl[x]);
            lemma_sensor_key_round_trip(deleted_view(dl[x]));
            assert((spec_decode_sensor_key(k)->0).0 == tk(dl[x]).0);
            assert(tk(dl[x]).0 < ts_to_end);
        }
    }
    assert forall|k1: Seq<u8>, k2: Seq<u8>| #![auto]
        old_ts.remove_keys(dl.to_set()).contains_key(k1) && old_ts.remove_keys(
            dl.to_set(),
        ).contains_key(k2) && spec_decode_time_key(k1) is Some && spec_decode_time_key(
            k2,
        ) is Some && tk(k1).1 == tk(k2).1 && tk(k1).0 < tk(k2).0 && tk(k2).0
            < ts_to_end implies tk(k2).0 - tk(k1).0 >= gap by {
        lemma_time_key_cutoff(k1, ts_to_end);
        lemma_time_key_cutoff(k2, ts_to_end);
        assert(old_ts.contains_key(k1));
        assert(old_ts.contains_key(k2));
        let j1 = choose|j: int| 0 <= j < es.len() && (#[trigger] es[j]).0 == k1;
        let j2 = choose|j: int| 0 <= j < es.len() && (#[trigger] es[j]).0 == k2;
        assert(!dl.contains(k1));
        assert(!dl.contains(k2));
    }
}

} // verus!
