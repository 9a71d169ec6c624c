//! Registration of series and the write path of observations.
use vstd::prelude::*;
use vstd::string::StringSliceAdditionalSpecFns;

use crate::clock::{clock_position, second_of_minute};
use crate::codec::{
    DEL, SPACE, TAB, backend_prefix, bytes_equal, cluster_prefix, lacks, row_key, row_key_bytes,
    sentinel, subfield_prefix, valid_id,
};
use crate::drain::{
    LocalDrain, Series, TIME_FIELDS, copy_bytes, family_present, is_family_sentinel,
    lemma_series_prefix, time_field, time_field_bytes, valid_last_id, window_rows,
};
use crate::metric::{DrainError, MetricData, MetricKind, MetricMeta, kind_of, metric_kind};
use crate::process::{AggregatedMetric, ProcessMetric, created_view, same_kind, updated_view};
use crate::rollup::{latest, rolled_up};
use crate::store::{contents, tree_get, tree_insert, tree_remove};
use crate::timeseries::{
    TimeStats, is_stat_key, lemma_stat_key_injective, ordered, stat_key, stats_at,
    time_recorded,
};
use crate::value::{
    add_wrapping, bits_of, decode_i64, encode_i64, encode_u64, i64_of, le_bytes, wrapping_sum,
};

verus! {

/// `k` is the sentinel of one of the first `j` statistics of `p`.
pub open spec fn among_time_sentinels(p: Seq<u8>, j: int, k: Seq<u8>) -> bool {
    exists|jj: int| 0 <= jj < j && k == sentinel(subfield_prefix(p, #[trigger] time_field(jj)))
}

/// Value of every sentinel row.
pub open spec fn zeros() -> Seq<u8> {
    le_bytes(0)
}

/// `m` with the sentinels of a new series added.
pub open spec fn with_sentinels(m: Map<Seq<u8>, Seq<u8>>, p: Seq<u8>, kind: MetricKind) -> Map<
    Seq<u8>,
    Seq<u8>,
> {
    Map::new(
        |k: Seq<u8>| m.contains_key(k) || is_family_sentinel(p, kind, k),
        |k: Seq<u8>|
            if is_family_sentinel(p, kind, k) {
                zeros()
            } else {
                m[k]
            },
    )
}

/// The store once the gauge `p` is set to `v` at `now`, before any roll-up.
pub open spec fn gauge_set(m: Map<Seq<u8>, Seq<u8>>, p: Seq<u8>, v: u64, now: int) -> Map<
    Seq<u8>,
    Seq<u8>,
> {
    m.insert(row_key(p, now), le_bytes(v))
}

/// The counter row of `p` at `now` once `delta` is added to it.
pub open spec fn count_after(m: Map<Seq<u8>, Seq<u8>>, p: Seq<u8>, delta: i64, now: int) -> i64 {
    if m.contains_key(row_key(p, now)) {
        add_wrapping(i64_of(m[row_key(p, now)]), delta)
    } else {
        delta
    }
}

/// The gauge row of `p` at `now` once moved by `delta`, from the latest row of
/// the last minute (`rows`, the rows of `[now - 60, now]`).
pub open spec fn gauge_after(rows: Seq<(i64, Vec<u8>)>, delta: i64) -> i64 {
    if rows.len() == 0 {
        delta
    } else {
        add_wrapping(i64_of(latest(rows, rows.len() as int).1), delta)
    }
}

/// `m2` follows from `m1` by the roll-up that a write at `now` triggers: one at
/// the first second of a minute, none otherwise.
pub open spec fn then_rolled(
    m1: Map<Seq<u8>, Seq<u8>>,
    m2: Map<Seq<u8>, Seq<u8>>,
    p: Seq<u8>,
    kind: MetricKind,
    now: int,
) -> bool {
    if second_of_minute(now) == 0 {
        rolled_up(m1, m2, p, kind, now)
    } else {
        m2 == m1
    }
}

/// The prefix, and the namespace, of an observation's series.
pub open spec fn prefix_for(name: Seq<u8>, cluster: Seq<u8>, backend: Option<Seq<u8>>) -> Seq<u8> {
    match backend {
        None => cluster_prefix(name, cluster),
        Some(b) => backend_prefix(name, cluster, b),
    }
}

pub open spec fn meta_for(backend: Option<Seq<u8>>) -> MetricMeta {
    match backend {
        None => MetricMeta::Cluster,
        Some(_) => MetricMeta::ClusterBackend,
    }
}

pub open spec fn opt_view(b: Option<&[u8]>) -> Option<Seq<u8>> {
    match b {
        None => None,
        Some(x) => Some(x@),
    }
}

/// Ids that may stand in keys.
pub open spec fn valid_ids(name: Seq<u8>, cluster: Seq<u8>, backend: Option<Seq<u8>>) -> bool {
    &&& valid_id(name)
    &&& valid_last_id(cluster)
    &&& backend matches Some(b) ==> valid_last_id(b)
}

impl LocalDrain {
    /// `p` is registered with this namespace and kind.
    pub open spec fn registered_as(&self, p: Seq<u8>, meta: MetricMeta, kind: MetricKind) -> bool {
        exists|i: int|
            0 <= i < self.count() && #[trigger] self.metrics@[i].prefix@ == p && self.metrics@[i].meta
                == meta && self.metrics@[i].kind == kind
    }

    pub(crate) fn ns_insert(&mut self, meta: MetricMeta, k: &[u8], v: &[u8]) -> (r: Result<(), sled::Error>)
        ensures
            final(self).same_but(old(self), meta),
            r is Ok ==> final(self).store(meta) == old(self).store(meta).insert(k@, v@),
    {
        match meta {
            MetricMeta::Cluster => tree_insert(&mut self.cluster_tree, k, v),
            MetricMeta::ClusterBackend => tree_insert(&mut self.backend_tree, k, v),
        }
    }

    pub(crate) fn ns_remove(&mut self, meta: MetricMeta, k: &[u8]) -> (r: Result<(), sled::Error>)
        ensures
            final(self).same_but(old(self), meta),
            r is Ok ==> final(self).store(meta) == old(self).store(meta).remove(k@),
    {
        match meta {
            MetricMeta::Cluster => tree_remove(&mut self.cluster_tree, k),
            MetricMeta::ClusterBackend => tree_remove(&mut self.backend_tree, k),
        }
    }

    pub(crate) fn ns_get(&self, meta: MetricMeta, k: &[u8]) -> (r: Result<Option<Vec<u8>>, sled::Error>)
        ensures
            r matches Ok(Some(v)) ==> self.store(meta).contains_key(k@) && self.store(meta)[k@]
                == v@,
            r matches Ok(None) ==> !self.store(meta).contains_key(k@),
    {
        match meta {
            MetricMeta::Cluster => tree_get(&self.cluster_tree, k),
            MetricMeta::ClusterBackend => tree_get(&self.backend_tree, k),
        }
    }

    /// Index of the series registered under `p`.
    pub(crate) fn find_series(&self, p: &[u8]) -> (r: Option<usize>)
        ensures
            r matches Some(i) ==> i < self.count() && self.metrics@[i as int].prefix@ == p@,
            r is None ==> !self.registered(p@),
    {
        let mut i: usize = 0;
        while i < self.metrics.len()
            invariant
                0 <= i <= self.count(),
                forall|j: int| 0 <= j < i ==> self.metrics@[j].prefix@ != p@,
            decreases self.count() - i,
        {
            if bytes_equal(self.metrics[i].prefix.as_slice(), p) {
                return Some(i);
            }
            i = i + 1;
        }
        None
    }

    /// Registers the series of an observation on its first write: the sentinels
    /// first, then the registry entry.
    pub(crate) fn register(
        &mut self,
        name: &[u8],
        cluster: &[u8],
        backend: Option<&[u8]>,
        p: &[u8],
        kind: MetricKind,
    ) -> (r: Result<(), DrainError>)
        requires
            old(self).wf(),
            valid_ids(name@, cluster@, opt_view(backend)),
            p@ == prefix_for(name@, cluster@, opt_view(backend)),
        ensures
            final(self).prefix == old(self).prefix,
            final(self).data == old(self).data,
            r matches Err(DrainError::KindMismatch) <==> old(self).registered(p@) && !old(
                self,
            ).registered_as(p@, meta_for(opt_view(backend)), kind),
            !(r matches Err(DrainError::InvalidId)),
            !(r matches Err(DrainError::ClockOutOfRange)),
            (r matches Err(DrainError::KindMismatch)) ==> *final(self) == *old(self),
            r is Err ==> final(self).metrics == old(self).metrics,
            r is Ok ==> final(self).wf(),
            r is Ok ==> final(self).registered_as(p@, meta_for(opt_view(backend)), kind),
            r is Ok && old(self).registered(p@) ==> final(self).metrics == old(self).metrics
                && final(self).store(MetricMeta::Cluster) == old(self).store(MetricMeta::Cluster)
                && final(self).store(MetricMeta::ClusterBackend) == old(self).store(
                MetricMeta::ClusterBackend,
            ),
            r is Ok && !old(self).registered(p@) ==> {
                let meta = meta_for(opt_view(backend));
                &&& final(self).count() == old(self).count() + 1
                &&& forall|i: int|
                    0 <= i < old(self).count() ==> #[trigger] final(self).metrics@[i] == old(
                        self,
                    ).metrics@[i]
                &&& final(self).store(meta) == with_sentinels(old(self).store(meta), p@, kind)
                &&& meta == MetricMeta::Cluster ==> final(self).store(MetricMeta::ClusterBackend)
                    == old(self).store(MetricMeta::ClusterBackend)
                &&& meta == MetricMeta::ClusterBackend ==> final(self).store(MetricMeta::Cluster)
                    == old(self).store(MetricMeta::Cluster)
            },
    {
        let meta = match backend {
            None => MetricMeta::Cluster,
            Some(_) => MetricMeta::ClusterBackend,
        };
        match self.find_series(p) {
            Some(i) => {
                proof {
                    assert forall|j: int| 0 <= j < self.count() && j != i implies #[trigger] self.metrics@[j].prefix@ != p@ by {
                        if j < i {
                            assert(self.metrics@[j].prefix@ != self.metrics@[i as int].prefix@);
                        } else {
                            assert(self.metrics@[i as int].prefix@ != self.metrics@[j].prefix@);
                        }
                    }
                }
                if self.metrics[i].meta == meta && self.metrics[i].kind == kind {
                    return Ok(());
                } else {
                    return Err(DrainError::KindMismatch);
                }
            },
            None => {},
        }
        let ghost m0 = self.store(meta);
        let zero = encode_u64(0);
        if kind == MetricKind::Time {
            let mut j: usize = 0;
            while j < TIME_FIELDS
                invariant
                    self.same_but(old(self), meta),
                    m0 == old(self).store(meta),
                    zero@ == zeros(),
                    kind == MetricKind::Time,
                    !old(self).registered(p@),
                    0 <= j <= 10,
                    forall|k: Seq<u8>|
                        #[trigger] self.store(meta).contains_key(k) <==> (m0.contains_key(k)
                            || among_time_sentinels(p@, j as int, k)),
                    forall|k: Seq<u8>|
                        #[trigger] self.store(meta).contains_key(k) ==> self.store(meta)[k] == if among_time_sentinels(p@, j as int, k) {
                            zeros()
                        } else {
                            m0[k]
                        },
                decreases 10 - j,
            {
                let f = time_field_bytes(j);
                let sp = crate::codec::subfield_prefix_bytes(p, f.as_slice());
                let key = crate::codec::sentinel_bytes(sp.as_slice());
                match self.ns_insert(meta, key.as_slice(), zero.as_slice()) {
                    Ok(()) => {},
                    Err(e) => {
                        return Err(DrainError::Store(e));
                    },
                }
                proof {
                    assert forall|k: Seq<u8>|
                        #[trigger] among_time_sentinels(p@, j + 1, k) <==> (among_time_sentinels(p@, j as int, k) || k == key@) by {
                        if k == key@ {
                            assert(0 <= j < j + 1 && k == sentinel(subfield_prefix(p@, time_field(j as int))));
                        }
                    }
                }
                j = j + 1;
            }
            proof {
                assert forall|k: Seq<u8>| among_time_sentinels(p@, 10, k) <==> #[trigger] is_family_sentinel(p@, kind, k) by {}
                assert(self.store(meta) =~= with_sentinels(m0, p@, kind));
            }
        } else {
            let key = crate::codec::sentinel_bytes(p);
            match self.ns_insert(meta, key.as_slice(), zero.as_slice()) {
                Ok(()) => {},
                Err(e) => {
                    return Err(DrainError::Store(e));
                },
            }
            proof {
                assert(self.store(meta) =~= with_sentinels(m0, p@, kind));
            }
        }
        let ghost before = *self;
        let series = Series {
            name: copy_bytes(name),
            cluster: copy_bytes(cluster),
            backend: match backend {
                None => None,
                Some(b) => Some(copy_bytes(b)),
            },
            prefix: copy_bytes(p),
            meta,
            kind,
        };
        self.metrics.push(series);
        proof {
            let n = old(self).count();
            assert(self.metrics@[n] == series);
            assert(self.metrics@[n].prefix@ == p@);
            lemma_series_prefix(series);
            self.lemma_registered_new(old(self), meta, p@, kind);
        }
        Ok(())
    }

    /// Pushing a new series after adding its sentinels keeps the drain well formed.
    pub(crate) proof fn lemma_registered_new(&self, old: &LocalDrain, meta: MetricMeta, p: Seq<u8>, kind: MetricKind)
        requires
            self.data == old.data,
            old.wf(),
            !old.registered(p),
            self.count() == old.count() + 1,
            forall|i: int| 0 <= i < old.count() ==> #[trigger] self.metrics@[i] == old.metrics@[i],
            self.metrics@[old.count()].wf(),
            self.metrics@[old.count()].prefix@ == p,
            self.metrics@[old.count()].meta == meta,
            self.metrics@[old.count()].kind == kind,
            self.store(meta) == with_sentinels(old.store(meta), p, kind),
            meta == MetricMeta::Cluster ==> self.store(MetricMeta::ClusterBackend) == old.store(
                MetricMeta::ClusterBackend,
            ),
            meta == MetricMeta::ClusterBackend ==> self.store(MetricMeta::Cluster) == old.store(
                MetricMeta::Cluster,
            ),
        ensures
            self.wf(),
            self.registered_as(p, meta, kind),
    {
        let n = old.count();
        assert forall|i: int| 0 <= i < self.count() implies (#[trigger] self.metrics@[i]).wf() by {
            if i < n {
                assert(old.metrics@[i].wf());
            }
        }
        assert forall|i: int, j: int|
            0 <= i < j < self.count() implies (#[trigger] self.metrics@[i]).prefix@
                != (#[trigger] self.metrics@[j]).prefix@ by {
            if j < n {
                assert(old.metrics@[i].prefix@ != old.metrics@[j].prefix@);
            } else {
                assert(self.metrics@[i] == old.metrics@[i]);
            }
        }
        assert forall|i: int|
            0 <= i < self.count() implies family_present(
            self.store((#[trigger] self.metrics@[i]).meta),
            self.metrics@[i].prefix@,
            self.metrics@[i].kind,
        ) by {
            if i < n {
                let s = old.metrics@[i];
                assert(family_present(old.store(s.meta), s.prefix@, s.kind));
                if s.kind == MetricKind::Time {
                    assert forall|j: int| 0 <= j < 10 implies #[trigger] self.store(
                        s.meta,
                    ).contains_key(sentinel(subfield_prefix(s.prefix@, time_field(j)))) by {
                        assert(old.store(s.meta).contains_key(
                            sentinel(subfield_prefix(s.prefix@, time_field(j))),
                        ));
                    }
                } else {
                    assert(old.store(s.meta).contains_key(sentinel(s.prefix@)));
                }
            } else {
                if kind == MetricKind::Time {
                    assert forall|j: int| 0 <= j < 10 implies #[trigger] self.store(meta).contains_key(
                        sentinel(subfield_prefix(p, time_field(j))),
                    ) by {
                        assert(is_family_sentinel(p, kind, sentinel(subfield_prefix(p, time_field(j)))));
                    }
                }
            }
        }
        assert forall|m: MetricMeta, k: Seq<u8>|
            #[trigger] self.store(m).contains_key(k) && !lacks(k, DEL) implies self.sentinel_owned(
            m,
            k,
        ) by {
            if m == meta && is_family_sentinel(p, kind, k) {
                assert(self.metrics@[n].meta == m);
            } else {
                assert(old.store(m).contains_key(k));
                assert(old.sentinel_owned(m, k));
                let i = choose|i: int|
                    0 <= i < old.count() && #[trigger] old.metrics@[i].meta == m && is_family_sentinel(
                        old.metrics@[i].prefix@,
                        old.metrics@[i].kind,
                        k,
                    );
                assert(self.metrics@[i] == old.metrics@[i]);
            }
        }
        assert forall|m: MetricMeta, k: Seq<u8>| #[trigger]
            self.store(m).contains_key(k) implies self.store(m)[k].len() == 8 by {
            crate::value::lemma_le_round_trip(0);
            if !(m == meta && is_family_sentinel(p, kind, k)) {
                assert(old.store(m).contains_key(k));
            }
        }
        assert(self.metrics@[n].prefix@ == p);
    }
}


impl LocalDrain {
    /// Rolls `p` up when `now` starts a minute.
    pub(crate) fn roll_if_minute_starts(&mut self, meta: MetricMeta, p: &[u8], kind: MetricKind, now: i64) -> (r:
        Result<(), sled::Error>)
        requires
            old(self).wf(),
            lacks(p@, DEL),
            now >= i64::MIN + 86400,
        ensures
            final(self).same_but(old(self), meta),
            r is Ok ==> final(self).wf(),
            r is Ok ==> then_rolled(old(self).store(meta), final(self).store(meta), p@, kind, now as int),
    {
        let (second, _) = clock_position(now);
        if second == 0 {
            self.aggregate(meta, p, kind, now)
        } else {
            Ok(())
        }
    }

    /// Sets the gauge `p` to `v` at `now`.
    pub(crate) fn store_gauge(&mut self, meta: MetricMeta, p: &[u8], v: u64, now: i64) -> (r: Result<(), sled::Error>)
        requires
            old(self).wf(),
            lacks(p@, DEL),
            now >= i64::MIN + 86400,
        ensures
            final(self).same_but(old(self), meta),
            r is Ok ==> final(self).wf(),
            r is Ok ==> then_rolled(
                gauge_set(old(self).store(meta), p@, v, now as int),
                final(self).store(meta),
                p@,
                MetricKind::Gauge,
                now as int,
            ),
    {
        let bytes = encode_u64(v);
        match self.put_row(meta, p, now, bytes.as_slice()) {
            Ok(()) => {},
            Err(e) => {
                return Err(e);
            },
        }
        self.roll_if_minute_starts(meta, p, MetricKind::Gauge, now)
    }

    /// Moves the gauge `p` by `delta` at `now`, from its latest row of the last minute.
    pub(crate) fn add_gauge(&mut self, meta: MetricMeta, p: &[u8], delta: i64, now: i64) -> (r: Result<(), sled::Error>)
        requires
            old(self).wf(),
            lacks(p@, DEL),
            now >= i64::MIN + 86400,
        ensures
            final(self).same_but(old(self), meta),
            r is Ok ==> final(self).wf(),
            r is Ok ==> exists|rows: Seq<(i64, Vec<u8>)>|
                #![trigger gauge_after(rows, delta)]
                window_rows(old(self).store(meta), p@, now - 60, now + 1, rows) && then_rolled(
                    old(self).store(meta).insert(
                        row_key(p@, now as int),
                        le_bytes(bits_of(gauge_after(rows, delta))),
                    ),
                    final(self).store(meta),
                    p@,
                    MetricKind::Gauge,
                    now as int,
                ),
    {
        let ghost m0 = self.store(meta);
        let rows = match self.ns_rows(meta, p, now as i128 - 60, now as i128 + 1) {
            Ok(rows) => rows,
            Err(e) => {
                return Err(e);
            },
        };
        let mut value: i64 = delta;
        if rows.len() > 0 {
            let mut best_ts: i64 = rows[0].0;
            let mut best: usize = 0;
            let mut i: usize = 1;
            while i < rows.len()
                invariant
                    1 <= i <= rows@.len(),
                    best < i,
                    best_ts == rows@[best as int].0,
                    (best_ts, rows@[best as int].1@) == latest(rows@, i as int),
                decreases rows@.len() - i,
            {
                if rows[i].0 > best_ts {
                    best_ts = rows[i].0;
                    best = i;
                }
                i = i + 1;
            }
            proof {
                let k = row_key(p@, best_ts as int);
                assert(m0.contains_key(k));
            }
            let current = decode_i64(rows[best].1.as_slice());
            value = wrapping_sum(current, delta);
        }
        let bytes = encode_i64(value);
        match self.put_row(meta, p, now, bytes.as_slice()) {
            Ok(()) => {},
            Err(e) => {
                return Err(e);
            },
        }
        let r = self.roll_if_minute_starts(meta, p, MetricKind::Gauge, now);
        proof {
            assert(gauge_after(rows@, delta) == value);
        }
        r
    }

    /// Adds `delta` to the counter row of `p` at `now`.
    pub(crate) fn store_count(&mut self, meta: MetricMeta, p: &[u8], delta: i64, now: i64) -> (r: Result<(), sled::Error>)
        requires
            old(self).wf(),
            lacks(p@, DEL),
            now >= i64::MIN + 86400,
        ensures
            final(self).same_but(old(self), meta),
            r is Ok ==> final(self).wf(),
            r is Ok ==> then_rolled(
                old(self).store(meta).insert(
                    row_key(p@, now as int),
                    le_bytes(bits_of(count_after(old(self).store(meta), p@, delta, now as int))),
                ),
                final(self).store(meta),
                p@,
                MetricKind::Count,
                now as int,
            ),
    {
        let key = row_key_bytes(p, now);
        let value = match self.ns_get(meta, key.as_slice()) {
            Ok(Some(v)) => {
                proof {
                    assert(self.store(meta).contains_key(key@));
                }
                let current = decode_i64(v.as_slice());
                wrapping_sum(current, delta)
            },
            Ok(None) => delta,
            Err(e) => {
                return Err(e);
            },
        };
        let bytes = encode_i64(value);
        match self.put_row(meta, p, now, bytes.as_slice()) {
            Ok(()) => {},
            Err(e) => {
                return Err(e);
            },
        }
        self.roll_if_minute_starts(meta, p, MetricKind::Count, now)
    }
}



/// The namespace `meta` once the series `p` of kind `kind` is registered.
pub open spec fn registered_store(d: LocalDrain, p: Seq<u8>, meta: MetricMeta, kind: MetricKind) -> Map<
    Seq<u8>,
    Seq<u8>,
> {
    if d.registered(p) {
        d.store(meta)
    } else {
        with_sentinels(d.store(meta), p, kind)
    }
}

/// `m1` is `m0` once a gauge or counter observation is written to the series
/// `p` at `now`.
pub open spec fn plain_applied(
    m0: Map<Seq<u8>, Seq<u8>>,
    m1: Map<Seq<u8>, Seq<u8>>,
    p: Seq<u8>,
    metric: MetricData,
    now: int,
) -> bool {
    match metric {
        MetricData::Gauge(v) => then_rolled(gauge_set(m0, p, v as u64, now), m1, p, MetricKind::Gauge, now),
        MetricData::GaugeAdd(d) => exists|rows: Seq<(i64, Vec<u8>)>|
            #![trigger gauge_after(rows, d)]
            window_rows(m0, p, now - 60, now + 1, rows) && then_rolled(
                m0.insert(row_key(p, now), le_bytes(bits_of(gauge_after(rows, d)))),
                m1,
                p,
                MetricKind::Gauge,
                now,
            ),
        MetricData::Count(d) => then_rolled(
            m0.insert(row_key(p, now), le_bytes(bits_of(count_after(m0, p, d, now)))),
            m1,
            p,
            MetricKind::Count,
            now,
        ),
        MetricData::Time(_) => false,
    }
}

/// `m1` is `m0` once the latency sample `t` is written to the time series `p`
/// at `now`: at that second and, within a minute, at the minute's first second.
pub open spec fn time_applied<F: Fn(Option<TimeStats>, u64) -> TimeStats>(
    m0: Map<Seq<u8>, Seq<u8>>,
    m1: Map<Seq<u8>, Seq<u8>>,
    p: Seq<u8>,
    t: u64,
    now: int,
    step: F,
) -> bool {
    exists|mid: Map<Seq<u8>, Seq<u8>>|
        #![trigger time_recorded(m0, mid, p, now, t, step)]
        time_recorded(m0, mid, p, now, t, step) && if second_of_minute(now) == 0 {
            m1 == mid
        } else {
            time_recorded(mid, m1, p, now - second_of_minute(now), t, step)
        }
}

/// Every estimator call is allowed.
pub open spec fn total_step<F: Fn(Option<TimeStats>, u64) -> TimeStats>(step: F) -> bool {
    forall|o: Option<TimeStats>, x: u64| step.requires((o, x))
}

/// A process-level observation agrees with the kind already stored under its name.
pub open spec fn process_accepts(data: Seq<ProcessMetric>, name: Seq<u8>, metric: MetricData) -> bool {
    forall|i: int| 0 <= i < data.len() && (#[trigger] data[i]).name@ == name ==> same_kind(data[i].value.view(), metric)
}

impl LocalDrain {
    /// An empty drain over a fresh temporary store.
    pub fn new(prefix: String) -> (r: Result<LocalDrain, DrainError>)
        ensures
            r matches Ok(d) ==> {
                &&& d.wf()
                &&& d.prefix == prefix
                &&& d.count() == 0
                &&& d.data@.len() == 0
                &&& d.store(MetricMeta::Cluster).is_empty()
                &&& d.store(MetricMeta::ClusterBackend).is_empty()
            },
    {
        match crate::store::open_temporary() {
            Ok(stores) => {
                let d = LocalDrain {
                    prefix,
                    db: stores.db,
                    cluster_tree: stores.cluster,
                    backend_tree: stores.backend,
                    metrics: Vec::new(),
                    data: Vec::new(),
                };
                proof {
                    assert(d.store(MetricMeta::Cluster) =~= Map::empty());
                    assert(d.store(MetricMeta::ClusterBackend) =~= Map::empty());
                }
                Ok(d)
            },
            Err(e) => Err(DrainError::Store(e)),
        }
    }

    /// Writes a gauge or counter observation to one series, registering it first.
    pub(crate) fn store_metric(
        &mut self,
        name: &[u8],
        cluster: &[u8],
        backend: Option<&[u8]>,
        metric: &MetricData,
        now: i64,
    ) -> (r: Result<(), DrainError>)
        requires
            old(self).wf(),
            valid_ids(name@, cluster@, opt_view(backend)),
            kind_of(*metric) != MetricKind::Time,
            now >= i64::MIN + 86400,
        ensures
            ({
                let p = prefix_for(name@, cluster@, opt_view(backend));
                let meta = meta_for(opt_view(backend));
                &&& final(self).prefix == old(self).prefix
                &&& final(self).data == old(self).data
                &&& (r matches Err(DrainError::KindMismatch)) <==> (old(self).registered(p) && !old(
                    self,
                ).registered_as(p, meta, kind_of(*metric)))
                &&& r is Ok ==> final(self).wf()
                &&& r is Ok ==> final(self).registered_as(p, meta, kind_of(*metric))
                &&& r is Ok ==> plain_applied(
                    registered_store(*old(self), p, meta, kind_of(*metric)),
                    final(self).store(meta),
                    p,
                    *metric,
                    now as int,
                )
                &&& r is Ok ==> final(self).store(other_meta(meta)) == old(self).store(other_meta(meta))
                &&& r is Ok ==> forall|q: Seq<u8>| q != p ==> (final(self).registered(q) == old(self).registered(q))
                &&& !(r matches Err(DrainError::InvalidId))
                &&& !(r matches Err(DrainError::ClockOutOfRange))
                &&& r is Ok ==> old(self).count() <= final(self).count()
                &&& r is Ok ==> forall|i: int| 0 <= i < old(self).count() ==> #[trigger] final(self).metrics@[i] == old(self).metrics@[i]
                &&& (r matches Err(DrainError::KindMismatch)) ==> *final(self) == *old(self)
                &&& final(self).metrics == old(self).metrics || (!old(self).registered(p)
                    && final(self).registered_as(p, meta, kind_of(*metric)) && final(self).count() == old(self).count() + 1
                    && forall|i: int| 0 <= i < old(self).count() ==> #[trigger] final(self).metrics@[i] == old(self).metrics@[i])
                &&& r is Ok && old(self).registered(p) ==> final(self).metrics == old(self).metrics
            }),
    {
        let p = match backend {
            None => crate::codec::cluster_prefix_bytes(name, cluster),
            Some(b) => crate::codec::backend_prefix_bytes(name, cluster, b),
        };
        let meta = match backend {
            None => MetricMeta::Cluster,
            Some(_) => MetricMeta::ClusterBackend,
        };
        let kind = metric_kind(metric);
        let ghost before = *self;
        match self.register(name, cluster, backend, p.as_slice(), kind) {
            Ok(()) => {},
            Err(e) => {
                return Err(e);
            },
        }
        proof {
            self.lemma_registered_prefix(&before, p@, meta, kind);
        }
        let ghost mid = *self;
        let r = match metric {
            MetricData::Gauge(v) => self.store_gauge(meta, p.as_slice(), *v as u64, now),
            MetricData::GaugeAdd(d) => self.add_gauge(meta, p.as_slice(), *d, now),
            MetricData::Count(d) => self.store_count(meta, p.as_slice(), *d, now),
            MetricData::Time(_) => Ok(()),
        };
        match r {
            Ok(()) => {
                proof {
                    assert(forall|q: Seq<u8>| #[trigger] self.registered(q) == mid.registered(q));
                }
                Ok(())
            },
            Err(e) => Err(DrainError::Store(e)),
        }
    }

    /// After a successful registration of `p`, its prefix holds no upper-bound
    /// byte, and the registry differs from the old one by `p` alone.
    pub(crate) proof fn lemma_registered_prefix(&self, before: &LocalDrain, p: Seq<u8>, meta: MetricMeta, kind: MetricKind)
        requires
            self.wf(),
            self.registered_as(p, meta, kind),
            before.wf(),
            before.registered(p) ==> self.metrics == before.metrics,
            !before.registered(p) ==> self.count() == before.count() + 1 && forall|i: int|
                0 <= i < before.count() ==> #[trigger] self.metrics@[i] == before.metrics@[i],
        ensures
            lacks(p, DEL),
            forall|q: Seq<u8>| q != p ==> (self.registered(q) == before.registered(q)),
    {
        let i = choose|i: int|
            0 <= i < self.count() && #[trigger] self.metrics@[i].prefix@ == p && self.metrics@[i].meta
                == meta && self.metrics@[i].kind == kind;
        lemma_series_prefix(self.metrics@[i]);
        assert forall|q: Seq<u8>| q != p implies (self.registered(q) == before.registered(q)) by {
            if self.registered(q) {
                let j = choose|j: int| 0 <= j < self.count() && #[trigger] self.metrics@[j].prefix@ == q;
                if !before.registered(p) && j == before.count() {
                    assert(self.metrics@[i].prefix@ == p);
                    if i < before.count() {
                        assert(before.metrics@[i].prefix@ == p);
                    }
                } else {
                    assert(before.metrics@[j].prefix@ == q);
                }
            }
            if before.registered(q) {
                let j = choose|j: int| 0 <= j < before.count() && #[trigger] before.metrics@[j].prefix@ == q;
                assert(self.metrics@[j].prefix@ == q);
            }
        }
    }
}

/// The other namespace.
pub open spec fn other_meta(meta: MetricMeta) -> MetricMeta {
    match meta {
        MetricMeta::Cluster => MetricMeta::ClusterBackend,
        MetricMeta::ClusterBackend => MetricMeta::Cluster,
    }
}


impl LocalDrain {
    /// Writes a latency sample to one time series at second `ts`. On the first
    /// write the series is registered, its ten sentinels first; then the sample
    /// is folded into the statistics at `ts`.
    pub(crate) fn store_time_metric_at<F: Fn(Option<TimeStats>, u64) -> TimeStats>(
        &mut self,
        name: &[u8],
        cluster: &[u8],
        backend: Option<&[u8]>,
        ts: i64,
        t: u64,
        step: &F,
    ) -> (r: Result<(), DrainError>)
        requires
            old(self).wf(),
            valid_ids(name@, cluster@, opt_view(backend)),
            total_step(*step),
        ensures
            ({
                let p = prefix_for(name@, cluster@, opt_view(backend));
                let meta = meta_for(opt_view(backend));
                &&& final(self).prefix == old(self).prefix
                &&& final(self).data == old(self).data
                &&& (r matches Err(DrainError::KindMismatch)) <==> (old(self).registered(p) && !old(
                    self,
                ).registered_as(p, meta, MetricKind::Time))
                &&& (r matches Err(DrainError::KindMismatch)) ==> *final(self) == *old(self)
                &&& !(r matches Err(DrainError::InvalidId))
                &&& !(r matches Err(DrainError::ClockOutOfRange))
                &&& r is Ok ==> final(self).wf()
                &&& r is Ok ==> final(self).registered_as(p, meta, MetricKind::Time)
                &&& r is Ok ==> final(self).store(other_meta(meta)) == old(self).store(other_meta(meta))
                &&& r is Ok ==> forall|q: Seq<u8>| q != p ==> (final(self).registered(q) == old(self).registered(q))
                &&& r is Ok ==> old(self).count() <= final(self).count()
                &&& r is Ok ==> forall|i: int| 0 <= i < old(self).count() ==> #[trigger] final(self).metrics@[i] == old(self).metrics@[i]
                &&& final(self).metrics == old(self).metrics || (!old(self).registered(p)
                    && final(self).registered_as(p, meta, MetricKind::Time) && final(self).count() == old(self).count() + 1
                    && forall|i: int| 0 <= i < old(self).count() ==> #[trigger] final(self).metrics@[i] == old(self).metrics@[i])
                &&& r is Ok && old(self).registered(p) ==> final(self).metrics == old(self).metrics
                &&& !old(self).registered(p) && r is Ok ==> forall|j: int| 0 <= j < 10 ==> #[trigger] final(self).store(meta).contains_key(
                    sentinel(subfield_prefix(p, time_field(j))),
                ) && final(self).store(meta)[sentinel(subfield_prefix(p, time_field(j)))] == zeros()
                &&& r is Ok ==> time_recorded(
                    registered_store(*old(self), p, meta, MetricKind::Time),
                    final(self).store(meta),
                    p,
                    ts as int,
                    t,
                    *step,
                )
                &&& r is Ok ==> (stats_at(final(self).store(meta), p, ts as int) matches Some(s) && ordered(s))
            }),
    {
        let p = match backend {
            None => crate::codec::cluster_prefix_bytes(name, cluster),
            Some(b) => crate::codec::backend_prefix_bytes(name, cluster, b),
        };
        let meta = match backend {
            None => MetricMeta::Cluster,
            Some(_) => MetricMeta::ClusterBackend,
        };
        let ghost before = *self;
        match self.register(name, cluster, backend, p.as_slice(), MetricKind::Time) {
            Ok(()) => {},
            Err(e) => {
                return Err(e);
            },
        }
        proof {
            self.lemma_registered_prefix(&before, p@, meta, MetricKind::Time);
        }
        let ghost mid0 = *self;
        match self.record_time_sample(meta, p.as_slice(), ts, t, step) {
            Ok(()) => {},
            Err(e) => {
                return Err(DrainError::Store(e));
            },
        }
        proof {
            assert(forall|q: Seq<u8>| #[trigger] self.registered(q) == mid0.registered(q));
            if !before.registered(p@) {
                let m0 = mid0.store(meta);
                let m1 = self.store(meta);
                assert forall|j: int| 0 <= j < 10 implies #[trigger] m1.contains_key(
                    sentinel(subfield_prefix(p@, time_field(j))),
                ) && m1[sentinel(subfield_prefix(p@, time_field(j)))] == zeros() by {
                    let k = sentinel(subfield_prefix(p@, time_field(j)));
                    assert(is_family_sentinel(p@, MetricKind::Time, k));
                    assert(m0.contains_key(k) && m0[k] == zeros());
                    crate::codec::lemma_sentinel_marked(subfield_prefix(p@, time_field(j)));
                    if is_stat_key(p@, ts as int, k) {
                        let a = choose|a: int| 0 <= a < 10 && k == #[trigger] stat_key(p@, a, ts as int);
                        lemma_series_prefix_plain_stat(p@, a, ts as int);
                    }
                }
            }
        }
        Ok(())
    }

    /// Writes a latency sample to one time series, registering it first: at
    /// the sample's second and, when that is not the first second of a minute,
    /// again at the minute's first second.
    pub(crate) fn store_time_metric<F: Fn(Option<TimeStats>, u64) -> TimeStats>(
        &mut self,
        name: &[u8],
        cluster: &[u8],
        backend: Option<&[u8]>,
        t: usize,
        now: i64,
        step: &F,
    ) -> (r: Result<(), DrainError>)
        requires
            old(self).wf(),
            valid_ids(name@, cluster@, opt_view(backend)),
            total_step(*step),
            now >= i64::MIN + 86400,
        ensures
            ({
                let p = prefix_for(name@, cluster@, opt_view(backend));
                let meta = meta_for(opt_view(backend));
                &&& final(self).prefix == old(self).prefix
                &&& final(self).data == old(self).data
                &&& (r matches Err(DrainError::KindMismatch)) <==> (old(self).registered(p) && !old(
                    self,
                ).registered_as(p, meta, MetricKind::Time))
                &&& (r matches Err(DrainError::KindMismatch)) ==> *final(self) == *old(self)
                &&& !(r matches Err(DrainError::InvalidId))
                &&& !(r matches Err(DrainError::ClockOutOfRange))
                &&& r is Ok ==> final(self).wf()
                &&& r is Ok ==> final(self).registered_as(p, meta, MetricKind::Time)
                &&& r is Ok ==> final(self).store(other_meta(meta)) == old(self).store(other_meta(meta))
                &&& r is Ok ==> forall|q: Seq<u8>| q != p ==> (final(self).registered(q) == old(self).registered(q))
                &&& r is Ok ==> old(self).count() <= final(self).count()
                &&& r is Ok ==> forall|i: int| 0 <= i < old(self).count() ==> #[trigger] final(self).metrics@[i] == old(self).metrics@[i]
                &&& final(self).metrics == old(self).metrics || (!old(self).registered(p)
                    && final(self).registered_as(p, meta, MetricKind::Time) && final(self).count() == old(self).count() + 1
                    && forall|i: int| 0 <= i < old(self).count() ==> #[trigger] final(self).metrics@[i] == old(self).metrics@[i])
                &&& r is Ok && old(self).registered(p) ==> final(self).metrics == old(self).metrics
                &&& r is Ok ==> time_applied(
                    registered_store(*old(self), p, meta, MetricKind::Time),
                    final(self).store(meta),
                    p,
                    t as u64,
                    now as int,
                    *step,
                )
                &&& r is Ok ==> (stats_at(final(self).store(meta), p, now as int) matches Some(s) && ordered(s))
            }),
    {
        let ghost p = prefix_for(name@, cluster@, opt_view(backend));
        let ghost meta = meta_for(opt_view(backend));
        let ghost before = *self;
        match self.store_time_metric_at(name, cluster, backend, now, t as u64, step) {
            Ok(()) => {},
            Err(e) => {
                return Err(e);
            },
        }
        let ghost mid0 = *self;
        let ghost m0 = registered_store(before, p, meta, MetricKind::Time);
        let ghost mid = self.store(meta);
        let (second, _) = clock_position(now);
        if second != 0 {
            let start = now - second as i64;
            proof {
                assert(mid0.registered(p)) by {
                    let i = choose|i: int| 0 <= i < mid0.count() && #[trigger] mid0.metrics@[i].prefix@ == p
                        && mid0.metrics@[i].meta == meta && mid0.metrics@[i].kind == MetricKind::Time;
                }
            }
            match self.store_time_metric_at(name, cluster, backend, start, t as u64, step) {
                Ok(()) => {},
                Err(e) => {
                    return Err(e);
                },
            }
            proof {
                assert(registered_store(mid0, p, meta, MetricKind::Time) == mid);
                assert forall|j: int| 0 <= j < 10 implies !is_stat_key(p, start as int, #[trigger] stat_key(p, j, now as int)) by {
                    if is_stat_key(p, start as int, stat_key(p, j, now as int)) {
                        let a = choose|a: int| 0 <= a < 10 && stat_key(p, j, now as int) == #[trigger] stat_key(p, a, start as int);
                        lemma_stat_key_injective(p, j, a, now as int, start as int);
                    }
                }
                let m1 = self.store(meta);
                assert(forall|j: int| 0 <= j < 10 ==> #[trigger] mid.contains_key(stat_key(p, j, now as int)));
                assert forall|j: int| #![trigger stat_key(p, j, now as int)] 0 <= j < 10 implies m1.contains_key(stat_key(p, j, now as int)) && m1[stat_key(p, j, now as int)] == mid[stat_key(p, j, now as int)] by {
                    let k = stat_key(p, j, now as int);
                    assert(!is_stat_key(p, start as int, k));
                    assert(mid.contains_key(k));
                    assert(m1.contains_key(k) == mid.contains_key(k));
                }
                assert(forall|j: int| 0 <= j < 10 ==> #[trigger] m1.contains_key(stat_key(p, j, now as int)));
                assert(stats_at(m1, p, now as int) == stats_at(mid, p, now as int));
                assert(second_of_minute(now as int) == second as int);
                assert(forall|q: Seq<u8>| #[trigger] self.registered(q) == mid0.registered(q));
            }
        }
        proof {
            assert(time_recorded(m0, mid, p, now as int, t as u64, *step));
        }
        Ok(())
    }

    /// Routes an observation tagged with a cluster: a latency sample goes to
    /// its time series, anything else to its gauge or counter series; each to
    /// the cluster's series and, when a backend is named, to the backend's too.
    pub fn receive_cluster_metric<F: Fn(Option<TimeStats>, u64) -> TimeStats>(
        &mut self,
        key: &str,
        cluster_id: &str,
        backend_id: Option<&str>,
        metric: MetricData,
        now: i64,
        step: &F,
    ) -> (r: Result<(), DrainError>)
        requires
            old(self).wf(),
            total_step(*step),
            now >= i64::MIN + 86400,
        ensures
            cluster_received(*old(self), *final(self), key, cluster_id, backend_id, metric, now as int, *step, r),
    {
        let name = key.as_bytes();
        let cluster = cluster_id.as_bytes();
        let backend: Option<&[u8]> = match backend_id {
            None => None,
            Some(b) => Some(b.as_bytes()),
        };
        let name_ok = crate::codec::lacks_byte(name, TAB) && crate::codec::lacks_byte(name, DEL);
        let cluster_ok = valid_last_id_exec(cluster);
        let backend_ok = match backend {
            None => true,
            Some(b) => valid_last_id_exec(b),
        };
        if !(name_ok && cluster_ok && backend_ok) {
            return Err(DrainError::InvalidId);
        }
        let ghost start = *self;
        match metric {
            MetricData::Time(t) => {
                match self.store_time_metric(name, cluster, None, t, now, step) {
                    Ok(()) => {},
                    Err(e) => {
                        return Err(e);
                    },
                }
                let ghost mid = *self;
                match backend {
                    None => {},
                    Some(b) => {
                        proof {
                            assert(backend_prefix(name@, cluster@, b@).len() > cluster_prefix(name@, cluster@).len());
                        }
                        proof {
                            lemma_registry_extension(mid, start, cluster_prefix(name@, cluster@));
                        }
                        match self.store_time_metric(name, cluster, backend, t, now, step) {
                            Ok(()) => {},
                            Err(e) => {
                                return Err(e);
                            },
                        }
                        proof {
                            assert(mid.registered(backend_prefix(name@, cluster@, b@)) == start.registered(backend_prefix(name@, cluster@, b@)));
                            assert(mid.store(MetricMeta::ClusterBackend) == start.store(MetricMeta::ClusterBackend));
                            self.lemma_keeps_registration(&mid, cluster_prefix(name@, cluster@), MetricMeta::Cluster, kind_of(metric));
                        }
                    },
                }
            },
            _ => {
                match self.store_metric(name, cluster, None, &metric, now) {
                    Ok(()) => {},
                    Err(e) => {
                        return Err(e);
                    },
                }
                let ghost mid = *self;
                match backend {
                    None => {},
                    Some(b) => {
                        proof {
                            assert(backend_prefix(name@, cluster@, b@).len() > cluster_prefix(name@, cluster@).len());
                        }
                        proof {
                            lemma_registry_extension(mid, start, cluster_prefix(name@, cluster@));
                        }
                        match self.store_metric(name, cluster, backend, &metric, now) {
                            Ok(()) => {},
                            Err(e) => {
                                return Err(e);
                            },
                        }
                        proof {
                            assert(mid.registered(backend_prefix(name@, cluster@, b@)) == start.registered(backend_prefix(name@, cluster@, b@)));
                            assert(mid.store(MetricMeta::ClusterBackend) == start.store(MetricMeta::ClusterBackend));
                            self.lemma_keeps_registration(&mid, cluster_prefix(name@, cluster@), MetricMeta::Cluster, kind_of(metric));
                        }
                    },
                }
            },
        }
        Ok(())
    }

    /// A registration survives a write that only adds to the registry.
    pub(crate) proof fn lemma_keeps_registration(&self, before: &LocalDrain, p: Seq<u8>, meta: MetricMeta, kind: MetricKind)
        requires
            before.registered_as(p, meta, kind),
            self.wf(),
            before.wf(),
            before.metrics@.len() <= self.metrics@.len(),
            forall|i: int| 0 <= i < before.count() ==> #[trigger] self.metrics@[i] == before.metrics@[i],
        ensures
            self.registered_as(p, meta, kind),
    {
        let i = choose|i: int|
            0 <= i < before.count() && #[trigger] before.metrics@[i].prefix@ == p && before.metrics@[i].meta
                == meta && before.metrics@[i].kind == kind;
        assert(self.metrics@[i] == before.metrics@[i]);
    }
}


/// What routing an observation tagged with a cluster did, or why it did nothing.
pub open spec fn cluster_received<F: Fn(Option<TimeStats>, u64) -> TimeStats>(
    old: LocalDrain,
    new: LocalDrain,
    key: &str,
    cluster_id: &str,
    backend_id: Option<&str>,
    metric: MetricData,
    now: int,
    step: F,
    r: Result<(), DrainError>,
) -> bool {
    let name = key.spec_bytes();
    let cluster = cluster_id.spec_bytes();
    let backend = match backend_id {
        None => None,
        Some(b) => Some(b.spec_bytes()),
    };
    let pc = cluster_prefix(name, cluster);
    let kind = kind_of(metric);
    &&& new.prefix == old.prefix
    &&& new.data == old.data
    &&& (r matches Err(DrainError::InvalidId)) <==> !valid_ids(name, cluster, backend)
    &&& !(r matches Err(DrainError::ClockOutOfRange))
    &&& (r matches Err(DrainError::InvalidId)) ==> new == old
    &&& valid_ids(name, cluster, backend) && old.registered(pc) && !old.registered_as(
        pc,
        MetricMeta::Cluster,
        kind,
    ) ==> (r matches Err(DrainError::KindMismatch)) && new == old
    &&& (r matches Err(DrainError::KindMismatch)) ==> (old.registered(pc) && !old.registered_as(
        pc,
        MetricMeta::Cluster,
        kind,
    )) || (backend matches Some(b) && old.registered(backend_prefix(name, cluster, b))
        && !old.registered_as(backend_prefix(name, cluster, b), MetricMeta::ClusterBackend, kind))
    &&& !(r matches Err(DrainError::Store(_))) ==> new.wf()
    &&& r is Ok ==> new.registered_as(pc, MetricMeta::Cluster, kind)
    &&& r is Ok ==> (backend matches Some(b) ==> new.registered_as(
        backend_prefix(name, cluster, b),
        MetricMeta::ClusterBackend,
        kind,
    ))
    &&& r is Ok && kind != MetricKind::Time ==> plain_applied(
        registered_store(old, pc, MetricMeta::Cluster, kind),
        new.store(MetricMeta::Cluster),
        pc,
        metric,
        now,
    )
    &&& r is Ok && kind == MetricKind::Time ==> time_applied(
        registered_store(old, pc, MetricMeta::Cluster, kind),
        new.store(MetricMeta::Cluster),
        pc,
        (metric->Time_0) as u64,
        now,
        step,
    )
    &&& r is Ok ==> match backend {
        None => new.store(MetricMeta::ClusterBackend) == old.store(
            MetricMeta::ClusterBackend,
        ),
        Some(b) => {
            let pb = backend_prefix(name, cluster, b);
            &&& kind != MetricKind::Time ==> plain_applied(
                registered_store(old, pb, MetricMeta::ClusterBackend, kind),
                new.store(MetricMeta::ClusterBackend),
                pb,
                metric,
                now,
            )
            &&& kind == MetricKind::Time ==> time_applied(
                registered_store(old, pb, MetricMeta::ClusterBackend, kind),
                new.store(MetricMeta::ClusterBackend),
                pb,
                (metric->Time_0) as u64,
                now,
                step,
            )
        },
    }
}

/// The row keys of a statistic never hold the upper-bound byte, so they are
/// no sentinel.
pub proof fn lemma_series_prefix_plain_stat(p: Seq<u8>, a: int, t: int)
    requires
        0 <= a < 10,
        lacks(p, DEL),
        i64::MIN <= t <= i64::MAX,
    ensures
        lacks(stat_key(p, a, t), DEL),
{
    crate::codec::lemma_lacks_concat(p, seq![crate::codec::DOT], DEL);
    crate::drain::lemma_time_field_plain(a);
    crate::codec::lemma_lacks_concat(p + seq![crate::codec::DOT], time_field(a), DEL);
    crate::codec::lemma_lacks_concat(p + seq![crate::codec::DOT] + time_field(a), seq![SPACE], DEL);
    crate::codec::lemma_row_key_plain(subfield_prefix(p, time_field(a)), t);
}

/// A registry that is unchanged, or extended by the series `p` alone, says
/// the same of every other prefix.
pub proof fn lemma_registry_extension(new: LocalDrain, old: LocalDrain, p: Seq<u8>)
    requires
        new.metrics == old.metrics || (!old.registered(p) && new.registered(p) && new.count()
            == old.count() + 1 && forall|i: int|
            0 <= i < old.count() ==> #[trigger] new.metrics@[i] == old.metrics@[i]),
    ensures
        forall|q: Seq<u8>, m: MetricMeta, k: MetricKind|
            q != p ==> (#[trigger] new.registered_as(q, m, k) == old.registered_as(q, m, k)),
        forall|q: Seq<u8>| q != p ==> (#[trigger] new.registered(q) == old.registered(q)),
{
    if new.metrics != old.metrics {
        let n = old.count();
        let w = choose|i: int| 0 <= i < new.count() && #[trigger] new.metrics@[i].prefix@ == p;
        if w < n {
            assert(old.metrics@[w].prefix@ == p);
        }
        assert forall|q: Seq<u8>, m: MetricMeta, k: MetricKind|
            q != p implies (#[trigger] new.registered_as(q, m, k) == old.registered_as(q, m, k)) by {
            if new.registered_as(q, m, k) {
                let j = choose|j: int| 0 <= j < new.count() && #[trigger] new.metrics@[j].prefix@ == q
                    && new.metrics@[j].meta == m && new.metrics@[j].kind == k;
                assert(j != n);
                assert(old.metrics@[j] == new.metrics@[j]);
            }
            if old.registered_as(q, m, k) {
                let j = choose|j: int| 0 <= j < old.count() && #[trigger] old.metrics@[j].prefix@ == q
                    && old.metrics@[j].meta == m && old.metrics@[j].kind == k;
                assert(old.metrics@[j] == new.metrics@[j]);
            }
        }
        assert forall|q: Seq<u8>| q != p implies (#[trigger] new.registered(q) == old.registered(q)) by {
            if new.registered(q) {
                let j = choose|j: int| 0 <= j < new.count() && #[trigger] new.metrics@[j].prefix@ == q;
                assert(j != n);
                assert(old.metrics@[j] == new.metrics@[j]);
            }
            if old.registered(q) {
                let j = choose|j: int| 0 <= j < old.count() && #[trigger] old.metrics@[j].prefix@ == q;
                assert(old.metrics@[j] == new.metrics@[j]);
            }
        }
    }
}

/// Whether `s` may stand last in a prefix.
pub fn valid_last_id_exec(s: &[u8]) -> (r: bool)
    ensures
        r == valid_last_id(s@),
{
    let plain = crate::codec::lacks_byte(s, TAB) && crate::codec::lacks_byte(s, DEL);
    if !plain {
        return false;
    }
    if s.len() == 0 {
        return true;
    }
    s[s.len() - 1] != SPACE
}


impl LocalDrain {
    /// Receives one observation at `now`. Untagged observations update the
    /// process-level metrics in place; tagged ones go to the ordered store.
    pub fn receive_metric_at<F: Fn(Option<TimeStats>, u64) -> TimeStats>(
        &mut self,
        key: &str,
        cluster_id: Option<&str>,
        backend_id: Option<&str>,
        metric: MetricData,
        now: i64,
        step: &F,
    ) -> (r: Result<(), DrainError>)
        requires
            old(self).wf(),
            total_step(*step),
            now >= i64::MIN + 86400,
            cluster_id is None ==> process_accepts(old(self).data@, key.spec_bytes(), metric),
        ensures
            received_at(*old(self), *final(self), key, cluster_id, backend_id, metric, now as int, *step, r),
    {
        match cluster_id {
            Some(c) => self.receive_cluster_metric(key, c, backend_id, metric, now, step),
            None => {
                self.receive_process_metric(key.as_bytes(), metric);
                Ok(())
            },
        }
    }

    /// Receives one observation, stamped with the current time.
    pub fn receive_metric<F: Fn(Option<TimeStats>, u64) -> TimeStats>(
        &mut self,
        key: &str,
        cluster_id: Option<&str>,
        backend_id: Option<&str>,
        metric: MetricData,
        step: &F,
    ) -> (r: Result<(), DrainError>)
        requires
            old(self).wf(),
            total_step(*step),
            cluster_id is None ==> process_accepts(old(self).data@, key.spec_bytes(), metric),
        ensures
            (r matches Err(DrainError::ClockOutOfRange)) ==> *final(self) == *old(self),
            !(r matches Err(DrainError::ClockOutOfRange)) ==> exists|now: int|
                i64::MIN + 86400 <= now <= i64::MAX && #[trigger] received_at(
                    *old(self),
                    *final(self),
                    key,
                    cluster_id,
                    backend_id,
                    metric,
                    now,
                    *step,
                    r,
                ),
    {
        let now = crate::clock::unix_now();
        if now < i64::MIN + 86400 {
            return Err(DrainError::ClockOutOfRange);
        }
        self.receive_metric_at(key, cluster_id, backend_id, metric, now, step)
    }

    /// Updates the process-level metric `name`, creating it on first sight.
    pub(crate) fn receive_process_metric(&mut self, name: &[u8], metric: MetricData)
        requires
            old(self).wf(),
            process_accepts(old(self).data@, name@, metric),
        ensures
            final(self).wf(),
            final(self).metrics == old(self).metrics,
            final(self).prefix == old(self).prefix,
            final(self).store(MetricMeta::Cluster) == old(self).store(MetricMeta::Cluster),
            final(self).store(MetricMeta::ClusterBackend) == old(self).store(MetricMeta::ClusterBackend),
            process_received(old(self).data@, final(self).data@, name@, metric),
    {
        let mut i: usize = 0;
        while i < self.data.len()
            invariant
                self == old(self),
                old(self).wf(),
                process_accepts(old(self).data@, name@, metric),
                0 <= i <= self.data@.len(),
                forall|j: int| 0 <= j < i ==> (#[trigger] self.data@[j]).name@ != name@,
            decreases self.data@.len() - i,
        {
            if bytes_equal(self.data[i].name.as_slice(), name) {
                let mut entry = self.data.remove(i);
                proof {
                    assert(entry == old(self).data@[i as int]);
                    assert(same_kind(old(self).data@[i as int].value.view(), metric));
                }
                let ghost before_entry = entry;
                entry.value.update(metric);
                self.data.insert(i, entry);
                proof {
                    assert(self.data@ =~= old(self).data@.update(i as int, entry));
                    self.lemma_wf_frame(old(self));
                    let od = old(self).data@;
                    let nd = self.data@;
                    assert(0 <= i < od.len() && od[i as int].name@ == name@ && (forall|j: int|
                        0 <= j < i ==> od[j].name@ != name@) && nd.len() == od.len() && nd[i as int].name
                        == od[i as int].name && updated_view(od[i as int].value.view(), metric, nd[i as int].value.view())
                        && forall|j: int| 0 <= j < od.len() && j != i ==> nd[j] == od[j]);
                }
                return;
            }
            i = i + 1;
        }
        let value = AggregatedMetric::new(metric);
        let n = copy_bytes(name);
        self.data.push(ProcessMetric { name: n, value });
        proof {
            assert(self.data@.drop_last() =~= old(self).data@);
        }
        proof {
            self.lemma_wf_frame(old(self));
            assert(!exists|i: int| 0 <= i < old(self).data@.len() && (#[trigger] old(self).data@[i]).name@ == name@);
        }
    }

    /// Well-formedness depends on the registry and the namespaces alone.
    pub(crate) proof fn lemma_wf_frame(&self, old: &LocalDrain)
        requires
            old.wf(),
            self.names_unique(),
            self.metrics == old.metrics,
            contents(self.cluster_tree) == contents(old.cluster_tree),
            contents(self.backend_tree) == contents(old.backend_tree),
        ensures
            self.wf(),
    {
        assert(forall|m: MetricMeta| #[trigger] self.store(m) == old.store(m));
        assert(forall|m: MetricMeta, k: Seq<u8>| #[trigger] self.sentinel_owned(m, k) == old.sentinel_owned(m, k));
    }
}

/// What receiving an observation at `now` did.
pub open spec fn received_at<F: Fn(Option<TimeStats>, u64) -> TimeStats>(
    old: LocalDrain,
    new: LocalDrain,
    key: &str,
    cluster_id: Option<&str>,
    backend_id: Option<&str>,
    metric: MetricData,
    now: int,
    step: F,
    r: Result<(), DrainError>,
) -> bool {
    match cluster_id {
        Some(c) => cluster_received(old, new, key, c, backend_id, metric, now, step, r),
        None => {
            &&& r is Ok
            &&& new.wf()
            &&& new.metrics == old.metrics
            &&& new.prefix == old.prefix
            &&& new.store(MetricMeta::Cluster) == old.store(MetricMeta::Cluster)
            &&& new.store(MetricMeta::ClusterBackend) == old.store(MetricMeta::ClusterBackend)
            &&& process_received(old.data@, new.data@, key.spec_bytes(), metric)
        },
    }
}

/// `new` is `old` once the process-level observation is folded in under
/// `name`: into the first metric of that name, or into a new one.
pub open spec fn process_received(
    old: Seq<ProcessMetric>,
    new: Seq<ProcessMetric>,
    name: Seq<u8>,
    metric: MetricData,
) -> bool {
    if exists|i: int| 0 <= i < old.len() && (#[trigger] old[i]).name@ == name {
        exists|i: int|
            0 <= i < old.len() && (#[trigger] old[i]).name@ == name && (forall|j: int|
                0 <= j < i ==> old[j].name@ != name) && new.len() == old.len() && new[i].name
                == old[i].name && updated_view(old[i].value.view(), metric, new[i].value.view())
                && forall|j: int| 0 <= j < old.len() && j != i ==> new[j] == old[j]
    } else {
        new.len() == old.len() + 1 && new.drop_last() == old && new.last().name@ == name
            && created_view(metric, new.last().value)
    }
}

} // verus!
