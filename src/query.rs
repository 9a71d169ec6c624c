//! Read paths: the freshest value of named series, and the dump of newest rows.
use vstd::prelude::*;
use vstd::string::StringExecFns;

use crate::codec::{
    backend_prefix, cluster_prefix, lex_lt, row_key, row_key_bytes, sentinel, starts_with,
    subfield_prefix,
};
use crate::drain::{LocalDrain, TIME_FIELDS, copy_bytes, time_field, time_field_bytes};
use crate::metric::{
    BackendAnswer, ClusterAnswer, DumpEntry, FilteredData, MetricKind, MetricMeta, Percentiles,
    PrefixValue, QueryAnswerMetrics, QueryMetricsType,
};
use crate::value::{decode_i64, i64_of};

verus! {

/// `k` is the largest key of `m` below `bound`.
pub open spec fn greatest_below(m: Map<Seq<u8>, Seq<u8>>, bound: Seq<u8>, k: Seq<u8>) -> bool {
    &&& m.contains_key(k)
    &&& lex_lt(k, bound)
    &&& forall|k3: Seq<u8>| #[trigger] m.contains_key(k3) && lex_lt(k3, bound) ==> crate::codec::lex_le(k3, k)
}

/// The value under the largest key below `end`, when that key starts with `start`.
pub open spec fn last_before(m: Map<Seq<u8>, Seq<u8>>, start: Seq<u8>, end: Seq<u8>) -> Option<Seq<u8>> {
    if exists|k: Seq<u8>| greatest_below(m, end, k) {
        let k = choose|k: Seq<u8>| greatest_below(m, end, k);
        if starts_with(k, start) {
            Some(m[k])
        } else {
            None
        }
    } else {
        None
    }
}

/// The freshest value of the series `p`: the one just below its sentinel.
pub open spec fn latest_of(m: Map<Seq<u8>, Seq<u8>>, p: Seq<u8>) -> Option<Seq<u8>> {
    last_before(m, p, sentinel(p))
}

/// The freshest value of statistic `j` of the time series `p`, zero if none.
pub open spec fn stat_latest(m: Map<Seq<u8>, Seq<u8>>, p: Seq<u8>, j: int) -> u64 {
    match latest_of(m, subfield_prefix(p, time_field(j))) {
        Some(v) => crate::value::u64_of(v),
        None => 0,
    }
}

/// What a query reports for the series `p` of kind `kind`; time series only
/// when `with_time`.
pub open spec fn series_value(m: Map<Seq<u8>, Seq<u8>>, p: Seq<u8>, kind: MetricKind, with_time: bool) -> Option<
    FilteredData,
> {
    match kind {
        MetricKind::Gauge => match latest_of(m, p) {
            Some(v) => Some(FilteredData::Gauge(#[verifier::truncate] (crate::value::u64_of(v) as usize))),
            None => None,
        },
        MetricKind::Count => match latest_of(m, p) {
            Some(v) => Some(FilteredData::Count(i64_of(v))),
            None => None,
        },
        MetricKind::Time => if with_time {
            Some(
                FilteredData::Percentiles(
                    Percentiles {
                        samples: stat_latest(m, p, 0),
                        p_50: stat_latest(m, p, 3),
                        p_90: stat_latest(m, p, 4),
                        p_99: stat_latest(m, p, 5),
                        p_99_9: stat_latest(m, p, 6),
                        p_99_99: stat_latest(m, p, 7),
                        p_99_999: stat_latest(m, p, 8),
                        p_100: stat_latest(m, p, 9),
                    },
                ),
            )
        } else {
            None
        },
    }
}

pub open spec fn pv_view(s: Seq<PrefixValue>) -> Seq<(Seq<u8>, FilteredData)> {
    s.map_values(|x: PrefixValue| (x.prefix@, x.value))
}

pub open spec fn meta_of(is_backend: bool) -> MetricMeta {
    if is_backend {
        MetricMeta::ClusterBackend
    } else {
        MetricMeta::Cluster
    }
}

pub proof fn lemma_lex_asymmetric(a: Seq<u8>, b: Seq<u8>)
    ensures
        !(lex_lt(a, b) && lex_lt(b, a)),
    decreases a.len(),
{
    if a.len() > 0 && b.len() > 0 && a[0] == b[0] {
        lemma_lex_asymmetric(a.drop_first(), b.drop_first());
    }
}

impl LocalDrain {
    /// The kind `p` is registered with.
    pub open spec fn kind_of_prefix(&self, p: Seq<u8>) -> Option<MetricKind> {
        if self.registered(p) {
            Some(self.metrics@[choose|i: int| 0 <= i < self.count() && #[trigger] self.metrics@[i].prefix@ == p].kind)
        } else {
            None
        }
    }

    /// What a query over the first `n` prefixes reports, in order.
    pub open spec fn answer_values(&self, meta: MetricMeta, prefixes: Seq<Seq<u8>>, n: int, with_time: bool) -> Seq<
        (Seq<u8>, FilteredData),
    >
        decreases n,
    {
        if n <= 0 {
            seq![]
        } else {
            let prev = self.answer_values(meta, prefixes, n - 1, with_time);
            let p = prefixes[n - 1];
            match self.kind_of_prefix(p) {
                Some(kind) => match series_value(self.store(meta), p, kind, with_time) {
                    Some(v) => prev.push((p, v)),
                    None => prev,
                },
                None => prev,
            }
        }
    }

    /// The value under the largest key below `end`, when that key starts with `start`.
    pub fn get_last_before(&self, start: &[u8], end: &[u8], is_backend: bool) -> (r: Result<Option<Vec<u8>>, sled::Error>)
        requires
            self.wf(),
        ensures
            r matches Ok(v) ==> opt_vec_view(v) == last_before(self.store(meta_of(is_backend)), start@, end@),
            r matches Ok(Some(v)) ==> v@.len() == 8,
    {
        let ghost m = self.store(meta_of(is_backend));
        let found = if is_backend {
            crate::store::tree_get_lt(&self.backend_tree, end)
        } else {
            crate::store::tree_get_lt(&self.cluster_tree, end)
        };
        match found {
            Ok(Some((k, v))) => {
                proof {
                    assert(greatest_below(m, end@, k@));
                    let c = choose|c: Seq<u8>| greatest_below(m, end@, c);
                    assert(crate::codec::lex_le(c, k@));
                    assert(crate::codec::lex_le(k@, c));
                    lemma_lex_asymmetric(c, k@);
                }
                if crate::codec::has_prefix(k.as_slice(), start) {
                    Ok(Some(v))
                } else {
                    Ok(None)
                }
            },
            Ok(None) => {
                proof {
                    assert(!exists|c: Seq<u8>| greatest_below(m, end@, c));
                }
                Ok(None)
            },
            Err(e) => Err(e),
        }
    }

    /// What a query reports for one registered series.
    pub(crate) fn series_value_exec(&self, meta: MetricMeta, p: &[u8], kind: MetricKind, with_time: bool) -> (r: Result<Option<FilteredData>, sled::Error>)
        requires
            self.wf(),
        ensures
            r matches Ok(v) ==> v == series_value(self.store(meta), p@, kind, with_time),
    {
        let is_backend = match meta {
            MetricMeta::Cluster => false,
            MetricMeta::ClusterBackend => true,
        };
        match kind {
            MetricKind::Gauge | MetricKind::Count => {
                let end = crate::codec::sentinel_bytes(p);
                match self.get_last_before(p, end.as_slice(), is_backend) {
                    Ok(Some(v)) => {
                        if kind == MetricKind::Gauge {
                            let x = crate::value::decode_u64(v.as_slice());
                            Ok(Some(FilteredData::Gauge(#[verifier::truncate] (x as usize))))
                        } else {
                            Ok(Some(FilteredData::Count(decode_i64(v.as_slice()))))
                        }
                    },
                    Ok(None) => Ok(None),
                    Err(e) => Err(e),
                }
            },
            MetricKind::Time => {
                if !with_time {
                    return Ok(None);
                }
                let mut vals: Vec<u64> = Vec::new();
                let mut j: usize = 0;
                while j < TIME_FIELDS
                    invariant
                        self.wf(),
                        0 <= j <= 10,
                        vals@.len() == j,
                        is_backend == (meta == MetricMeta::ClusterBackend),
                        forall|a: int| 0 <= a < j ==> #[trigger] vals@[a] == stat_latest(self.store(meta), p@, a),
                    decreases 10 - j,
                {
                    let f = time_field_bytes(j);
                    let sp = crate::codec::subfield_prefix_bytes(p, f.as_slice());
                    let end = crate::codec::sentinel_bytes(sp.as_slice());
                    let x = match self.get_last_before(sp.as_slice(), end.as_slice(), is_backend) {
                        Ok(Some(v)) => crate::value::decode_u64(v.as_slice()),
                        Ok(None) => 0,
                        Err(e) => {
                            return Err(e);
                        },
                    };
                    vals.push(x);
                    j = j + 1;
                }
                Ok(
                    Some(
                        FilteredData::Percentiles(
                            Percentiles {
                                samples: vals[0],
                                p_50: vals[3],
                                p_90: vals[4],
                                p_99: vals[5],
                                p_99_9: vals[6],
                                p_99_99: vals[7],
                                p_99_999: vals[8],
                                p_100: vals[9],
                            },
                        ),
                    ),
                )
            },
        }
    }

    /// What a query over `prefixes` reports, in order: registered series only.
    pub(crate) fn values_for(&self, meta: MetricMeta, prefixes: &Vec<Vec<u8>>, with_time: bool) -> (r: Result<Vec<PrefixValue>, sled::Error>)
        requires
            self.wf(),
        ensures
            r matches Ok(vs) ==> pv_view(vs@) == self.answer_values(
                meta,
                prefixes@.map_values(|x: Vec<u8>| x@),
                prefixes@.len() as int,
                with_time,
            ),
            (forall|j: int| 0 <= j < prefixes@.len() ==> !self.registered(#[trigger] prefixes@[j]@))
                ==> r is Ok,
    {
        let ghost ps = prefixes@.map_values(|x: Vec<u8>| x@);
        let mut out: Vec<PrefixValue> = Vec::new();
        let mut i: usize = 0;
        while i < prefixes.len()
            invariant
                self.wf(),
                0 <= i <= prefixes@.len(),
                ps == prefixes@.map_values(|x: Vec<u8>| x@),
                pv_view(out@) == self.answer_values(meta, ps, i as int, with_time),
            decreases prefixes@.len() - i,
        {
            let p = prefixes[i].as_slice();
            match self.find_series(p) {
                Some(idx) => {
                    proof {
                        let c = choose|c: int| 0 <= c < self.count() && #[trigger] self.metrics@[c].prefix@ == p@;
                        if c != idx {
                            if c < idx {
                                assert(self.metrics@[c].prefix@ != self.metrics@[idx as int].prefix@);
                            } else {
                                assert(self.metrics@[idx as int].prefix@ != self.metrics@[c].prefix@);
                            }
                        }
                        assert(self.kind_of_prefix(p@) == Some(self.metrics@[idx as int].kind));
                    }
                    let kind = self.metrics[idx].kind;
                    match self.series_value_exec(meta, p, kind, with_time) {
                        Ok(Some(v)) => {
                            let ghost before = out@;
                            out.push(PrefixValue { prefix: copy_bytes(p), value: v });
                            proof {
                                assert(pv_view(out@) =~= pv_view(before).push((p@, v)));
                            }
                        },
                        Ok(None) => {},
                        Err(e) => {
                            proof {
                                assert(self.registered(prefixes@[i as int]@));
                            }
                            return Err(e);
                        },
                    }
                },
                None => {},
            }
            i = i + 1;
        }
        Ok(out)
    }
}

pub open spec fn opt_vec_view(v: Option<Vec<u8>>) -> Option<Seq<u8>> {
    match v {
        None => None,
        Some(x) => Some(x@),
    }
}


/// The UTF-8 bytes of a string.
pub open spec fn str_bytes(s: String) -> Seq<u8> {
    vstd::utf8::encode_utf8(s@)
}

/// Prefixes of the named metrics for one cluster.
pub open spec fn cluster_prefixes(metrics: Seq<String>, cluster: Seq<u8>) -> Seq<Seq<u8>> {
    metrics.map_values(|m: String| cluster_prefix(str_bytes(m), cluster))
}

/// Prefixes of the named metrics for one backend.
pub open spec fn backend_prefixes(metrics: Seq<String>, cluster: Seq<u8>, backend: Seq<u8>) -> Seq<Seq<u8>> {
    metrics.map_values(|m: String| backend_prefix(str_bytes(m), cluster, backend))
}

pub(crate) fn string_bytes(s: &String) -> (r: Vec<u8>)
    ensures
        r@ == str_bytes(*s),
{
    copy_bytes(s.as_str().as_bytes())
}

/// The prefixes of the named metrics under a cluster, or under a backend.
pub(crate) fn prefixes_for(metrics: &Vec<String>, cluster: &[u8], backend: Option<&[u8]>) -> (r: Vec<Vec<u8>>)
    ensures
        r@.map_values(|x: Vec<u8>| x@) == match backend {
            None => cluster_prefixes(metrics@, cluster@),
            Some(b) => backend_prefixes(metrics@, cluster@, b@),
        },
{
    let ghost target = match backend {
        None => cluster_prefixes(metrics@, cluster@),
        Some(b) => backend_prefixes(metrics@, cluster@, b@),
    };
    let mut out: Vec<Vec<u8>> = Vec::new();
    let mut i: usize = 0;
    while i < metrics.len()
        invariant
            0 <= i <= metrics@.len(),
            target.len() == metrics@.len(),
            target == match backend {
                None => cluster_prefixes(metrics@, cluster@),
                Some(b) => backend_prefixes(metrics@, cluster@, b@),
            },
            out@.len() == i,
            forall|j: int| 0 <= j < i ==> #[trigger] out@[j]@ == target[j],
        decreases metrics@.len() - i,
    {
        let name = string_bytes(&metrics[i]);
        let p = match backend {
            None => crate::codec::cluster_prefix_bytes(name.as_slice(), cluster),
            Some(b) => crate::codec::backend_prefix_bytes(name.as_slice(), cluster, b),
        };
        out.push(p);
        i = i + 1;
    }
    assert(out@.map_values(|x: Vec<u8>| x@) =~= target);
    out
}

impl LocalDrain {
    /// The freshest value of each named metric of each cluster.
    pub fn query_cluster(&self, metrics: &Vec<String>, clusters: &Vec<String>) -> (r: Result<Vec<ClusterAnswer>, sled::Error>)
        requires
            self.wf(),
        ensures
            r matches Ok(a) ==> a@.len() == clusters@.len() && forall|i: int|
                0 <= i < clusters@.len() ==> (#[trigger] a@[i]).cluster_id@ == str_bytes(clusters@[i])
                    && pv_view(a@[i].values@) == self.answer_values(
                    MetricMeta::Cluster,
                    cluster_prefixes(metrics@, str_bytes(clusters@[i])),
                    metrics@.len() as int,
                    true,
                ),
            (forall|i: int, j: int|
                0 <= i < clusters@.len() && 0 <= j < metrics@.len() ==> !self.registered(
                    #[trigger] cluster_prefix(str_bytes(metrics@[j]), str_bytes(clusters@[i])),
                )) ==> r is Ok,
    {
        let mut out: Vec<ClusterAnswer> = Vec::new();
        let mut i: usize = 0;
        while i < clusters.len()
            invariant
                self.wf(),
                0 <= i <= clusters@.len(),
                out@.len() == i,
                forall|j: int|
                    0 <= j < i ==> (#[trigger] out@[j]).cluster_id@ == str_bytes(clusters@[j])
                        && pv_view(out@[j].values@) == self.answer_values(
                        MetricMeta::Cluster,
                        cluster_prefixes(metrics@, str_bytes(clusters@[j])),
                        metrics@.len() as int,
                        true,
                    ),
            decreases clusters@.len() - i,
        {
            let c = string_bytes(&clusters[i]);
            let prefixes = prefixes_for(metrics, c.as_slice(), None);
            let values = match self.values_for(MetricMeta::Cluster, &prefixes, true) {
                Ok(v) => v,
                Err(e) => {
                    proof {
                        let ps = prefixes@;
                        let vs = ps.map_values(|x: Vec<u8>| x@);
                        assert(vs.len() == ps.len());
                        assert forall|j: int| 0 <= j < ps.len() implies #[trigger] ps[j]@ == cluster_prefix(str_bytes(metrics@[j]), str_bytes(clusters@[i as int])) by {
                            assert(vs[j] == ps[j]@);
                            assert(cluster_prefixes(metrics@, c@)[j] == cluster_prefix(str_bytes(metrics@[j]), c@));
                        }
                    }
                    return Err(e);
                },
            };
            proof {
                assert(prefixes@.map_values(|x: Vec<u8>| x@).len() == prefixes@.len());
                assert(prefixes@.len() == metrics@.len());
            }
            let ghost before = out@;
            out.push(ClusterAnswer { cluster_id: c, values });
            proof {
                assert(forall|j: int| 0 <= j < i ==> out@[j] == before[j]);
            }
            i = i + 1;
        }
        Ok(out)
    }

    /// The freshest value of each named metric of each (cluster, backend) pair.
    /// Time series are not reported at this level.
    pub fn query_backend(&self, metrics: &Vec<String>, backends: &Vec<(String, String)>) -> (r: Result<
        Vec<BackendAnswer>,
        sled::Error,
    >)
        requires
            self.wf(),
        ensures
            r matches Ok(a) ==> a@.len() == backends@.len() && forall|i: int|
                0 <= i < backends@.len() ==> (#[trigger] a@[i]).cluster_id@ == str_bytes(backends@[i].0)
                    && a@[i].backend_id@ == str_bytes(backends@[i].1) && pv_view(a@[i].values@)
                    == self.answer_values(
                    MetricMeta::ClusterBackend,
                    backend_prefixes(metrics@, str_bytes(backends@[i].0), str_bytes(backends@[i].1)),
                    metrics@.len() as int,
                    false,
                ),
            (forall|i: int, j: int|
                0 <= i < backends@.len() && 0 <= j < metrics@.len() ==> !self.registered(
                    #[trigger] backend_prefix(str_bytes(metrics@[j]), str_bytes(backends@[i].0), str_bytes(backends@[i].1)),
                )) ==> r is Ok,
    {
        let mut out: Vec<BackendAnswer> = Vec::new();
        let mut i: usize = 0;
        while i < backends.len()
            invariant
                self.wf(),
                0 <= i <= backends@.len(),
                out@.len() == i,
                forall|j: int|
                    0 <= j < i ==> (#[trigger] out@[j]).cluster_id@ == str_bytes(backends@[j].0)
                        && out@[j].backend_id@ == str_bytes(backends@[j].1) && pv_view(out@[j].values@)
                        == self.answer_values(
                        MetricMeta::ClusterBackend,
                        backend_prefixes(metrics@, str_bytes(backends@[j].0), str_bytes(backends@[j].1)),
                        metrics@.len() as int,
                        false,
                    ),
            decreases backends@.len() - i,
        {
            let c = string_bytes(&backends[i].0);
            let b = string_bytes(&backends[i].1);
            let prefixes = prefixes_for(metrics, c.as_slice(), Some(b.as_slice()));
            let values = match self.values_for(MetricMeta::ClusterBackend, &prefixes, false) {
                Ok(v) => v,
                Err(e) => {
                    proof {
                        let ps = prefixes@;
                        let vs = ps.map_values(|x: Vec<u8>| x@);
                        assert(vs.len() == ps.len());
                        assert forall|j: int| 0 <= j < ps.len() implies #[trigger] ps[j]@ == backend_prefix(str_bytes(metrics@[j]), str_bytes(backends@[i as int].0), str_bytes(backends@[i as int].1)) by {
                            assert(vs[j] == ps[j]@);
                            assert(backend_prefixes(metrics@, c@, b@)[j] == backend_prefix(str_bytes(metrics@[j]), c@, b@));
                        }
                    }
                    return Err(e);
                },
            };
            proof {
                assert(prefixes@.map_values(|x: Vec<u8>| x@).len() == prefixes@.len());
                assert(prefixes@.len() == metrics@.len());
            }
            let ghost before = out@;
            out.push(BackendAnswer { cluster_id: c, backend_id: b, values });
            proof {
                assert(forall|j: int| 0 <= j < i ==> out@[j] == before[j]);
            }
            i = i + 1;
        }
        Ok(out)
    }

    /// Every registered prefix, in registration order.
    pub fn list_prefixes(&self) -> (r: Vec<Vec<u8>>)
        ensures
            r@.len() == self.count(),
            forall|i: int| 0 <= i < self.count() ==> (#[trigger] r@[i])@ == self.metrics@[i].prefix@,
    {
        let mut out: Vec<Vec<u8>> = Vec::new();
        let mut i: usize = 0;
        while i < self.metrics.len()
            invariant
                0 <= i <= self.count(),
                out@.len() == i,
                forall|j: int| 0 <= j < i ==> (#[trigger] out@[j])@ == self.metrics@[j].prefix@,
            decreases self.count() - i,
        {
            out.push(copy_bytes(self.metrics[i].prefix.as_slice()));
            i = i + 1;
        }
        out
    }

    /// Answers a read request; a store failure becomes a message.
    pub fn query(&self, q: &QueryMetricsType) -> (r: Result<QueryAnswerMetrics, String>)
        requires
            self.wf(),
        ensures
            match q {
                QueryMetricsType::List => r matches Ok(QueryAnswerMetrics::List(ps)) && ps@.len()
                    == self.count() && forall|i: int|
                    0 <= i < self.count() ==> (#[trigger] ps@[i])@ == self.metrics@[i].prefix@,
                QueryMetricsType::Cluster { metrics, clusters } => ((forall|i: int, j: int|
                    0 <= i < clusters@.len() && 0 <= j < metrics@.len() ==> !self.registered(
                        #[trigger] cluster_prefix(str_bytes(metrics@[j]), str_bytes(clusters@[i])),
                    )) ==> r is Ok) && (r is Ok ==> (r matches Ok(
                    QueryAnswerMetrics::Cluster(a),
                ) && a@.len() == clusters@.len() && forall|i: int|
                    0 <= i < clusters@.len() ==> (#[trigger] a@[i]).cluster_id@ == str_bytes(clusters@[i])
                        && pv_view(a@[i].values@) == self.answer_values(
                        MetricMeta::Cluster,
                        cluster_prefixes(metrics@, str_bytes(clusters@[i])),
                        metrics@.len() as int,
                        true,
                    ))),
                QueryMetricsType::Backend { metrics, backends } => ((forall|i: int, j: int|
                    0 <= i < backends@.len() && 0 <= j < metrics@.len() ==> !self.registered(
                        #[trigger] backend_prefix(str_bytes(metrics@[j]), str_bytes(backends@[i].0), str_bytes(backends@[i].1)),
                    )) ==> r is Ok) && (r is Ok ==> (r matches Ok(
                    QueryAnswerMetrics::Backend(a),
                ) && a@.len() == backends@.len() && forall|i: int|
                    0 <= i < backends@.len() ==> (#[trigger] a@[i]).cluster_id@ == str_bytes(backends@[i].0)
                        && a@[i].backend_id@ == str_bytes(backends@[i].1) && pv_view(a@[i].values@)
                        == self.answer_values(
                        MetricMeta::ClusterBackend,
                        backend_prefixes(metrics@, str_bytes(backends@[i].0), str_bytes(backends@[i].1)),
                        metrics@.len() as int,
                        false,
                    ))),
            },
    {
        match q {
            QueryMetricsType::List => Ok(QueryAnswerMetrics::List(self.list_prefixes())),
            QueryMetricsType::Cluster { metrics, clusters } => match self.query_cluster(metrics, clusters) {
                Ok(a) => Ok(QueryAnswerMetrics::Cluster(a)),
                Err(e) => Err(store_error_message(&e)),
            },
            QueryMetricsType::Backend { metrics, backends } => match self.query_backend(metrics, backends) {
                Ok(a) => Ok(QueryAnswerMetrics::Backend(a)),
                Err(e) => Err(store_error_message(&e)),
            },
        }
    }
}

// ----- dump -----

/// `t` is the newest second with a row of `p`.
pub open spec fn is_newest(m: Map<Seq<u8>, Seq<u8>>, p: Seq<u8>, t: i64) -> bool {
    &&& m.contains_key(row_key(p, t as int))
    &&& forall|t2: i64| #[trigger] m.contains_key(row_key(p, t2 as int)) ==> t2 <= t
}

/// The value of the newest row of `p`, if it has rows.
pub open spec fn newest_value(m: Map<Seq<u8>, Seq<u8>>, p: Seq<u8>) -> Option<Seq<u8>> {
    if exists|t: i64| is_newest(m, p, t) {
        Some(m[row_key(p, (choose|t: i64| is_newest(m, p, t)) as int)])
    } else {
        None
    }
}

/// The dumped value of a series' newest row.
pub open spec fn dumped(kind: MetricKind, v: Seq<u8>) -> FilteredData {
    if kind == MetricKind::Gauge {
        FilteredData::Gauge(#[verifier::truncate] (crate::value::u64_of(v) as usize))
    } else {
        FilteredData::Count(i64_of(v))
    }
}

pub open spec fn dump_view(e: DumpEntry) -> (Seq<u8>, Option<Seq<u8>>, Seq<u8>, FilteredData) {
    (e.cluster_id@, opt_vec_view(e.backend_id), e.name@, e.value)
}

impl LocalDrain {
    /// What a dump of the first `n` series holds, in registry order: each gauge
    /// or counter series that has rows, with its newest value.
    pub open spec fn dump_entries(&self, n: int) -> Seq<(Seq<u8>, Option<Seq<u8>>, Seq<u8>, FilteredData)>
        decreases n,
    {
        if n <= 0 {
            seq![]
        } else {
            let prev = self.dump_entries(n - 1);
            let s = self.metrics@[n - 1];
            if s.kind == MetricKind::Time {
                prev
            } else {
                match newest_value(self.store(s.meta), s.prefix@) {
                    Some(v) => prev.push((s.cluster@, opt_vec_view(s.backend), s.name@, dumped(s.kind, v))),
                    None => prev,
                }
            }
        }
    }

    /// The value of the newest row of `p`.
    pub(crate) fn newest_row(&self, meta: MetricMeta, p: &[u8]) -> (r: Result<Option<Vec<u8>>, sled::Error>)
        requires
            self.wf(),
        ensures
            r matches Ok(v) ==> opt_vec_view(v) == newest_value(self.store(meta), p@),
            r matches Ok(Some(v)) ==> v@.len() == 8,
    {
        let ghost m = self.store(meta);
        let rows = match self.ns_rows(meta, p, i64::MIN as i128, i64::MAX as i128 + 1) {
            Ok(rows) => rows,
            Err(e) => {
                return Err(e);
            },
        };
        if rows.len() == 0 {
            proof {
                assert forall|t: i64| !is_newest(m, p@, t) by {
                    if m.contains_key(row_key(p@, t as int)) {
                        let i = choose|i: int| 0 <= i < rows@.len() && #[trigger] rows@[i].0 == t;
                    }
                }
            }
            return Ok(None);
        }
        let mut best: usize = 0;
        let mut i: usize = 1;
        while i < rows.len()
            invariant
                1 <= i <= rows@.len(),
                best < i,
                forall|j: int| 0 <= j < i ==> #[trigger] rows@[j].0 <= rows@[best as int].0,
            decreases rows@.len() - i,
        {
            if rows[i].0 > rows[best].0 {
                best = i;
            }
            i = i + 1;
        }
        let t = rows[best].0;
        proof {
            assert(is_newest(m, p@, t)) by {
                assert forall|t2: i64| #[trigger] m.contains_key(row_key(p@, t2 as int)) implies t2 <= t by {
                    let j = choose|j: int| 0 <= j < rows@.len() && #[trigger] rows@[j].0 == t2;
                }
            }
            let c = choose|c: i64| is_newest(m, p@, c);
            assert(c <= t && t <= c);
            assert(m.contains_key(row_key(p@, t as int)));
        }
        Ok(Some(copy_bytes(rows[best].1.as_slice())))
    }

    /// The newest value of every gauge and counter series, in registry order.
    pub fn dump_cluster_data(&self) -> (r: Result<Vec<DumpEntry>, sled::Error>)
        requires
            self.wf(),
        ensures
            r matches Ok(es) ==> es@.map_values(|e: DumpEntry| dump_view(e)) == self.dump_entries(self.count()),
            (forall|i: int| 0 <= i < self.count() ==> (#[trigger] self.metrics@[i]).kind == MetricKind::Time)
                ==> r is Ok,
    {
        let mut out: Vec<DumpEntry> = Vec::new();
        let mut i: usize = 0;
        while i < self.metrics.len()
            invariant
                self.wf(),
                0 <= i <= self.count(),
                out@.map_values(|e: DumpEntry| dump_view(e)) == self.dump_entries(i as int),
            decreases self.count() - i,
        {
            let s = &self.metrics[i];
            if s.kind != MetricKind::Time {
                match self.newest_row(s.meta, s.prefix.as_slice()) {
                    Ok(Some(v)) => {
                        let value = if s.kind == MetricKind::Gauge {
                            let x = crate::value::decode_u64(v.as_slice());
                            FilteredData::Gauge(#[verifier::truncate] (x as usize))
                        } else {
                            FilteredData::Count(decode_i64(v.as_slice()))
                        };
                        let backend_id = match &s.backend {
                            None => None,
                            Some(b) => Some(copy_bytes(b.as_slice())),
                        };
                        let e = DumpEntry {
                            cluster_id: copy_bytes(s.cluster.as_slice()),
                            backend_id,
                            name: copy_bytes(s.name.as_slice()),
                            value,
                        };
                        let ghost before = out@;
                        out.push(e);
                        proof {
                            assert(out@.map_values(|e: DumpEntry| dump_view(e)) =~= before.map_values(
                                |e: DumpEntry| dump_view(e),
                            ).push(dump_view(e)));
                        }
                    },
                    Ok(None) => {},
                    Err(e) => {
                        return Err(e);
                    },
                }
            }
            i = i + 1;
        }
        Ok(out)
    }

    /// The row of `prefix` at second `t`, in the backend namespace or the cluster one.
    pub fn row_at(&self, is_backend: bool, prefix: &[u8], t: i64) -> (r: Result<Option<Vec<u8>>, sled::Error>)
        ensures
            r matches Ok(v) ==> opt_vec_view(v) == if self.store(meta_of(is_backend)).contains_key(
                row_key(prefix@, t as int),
            ) {
                Some(self.store(meta_of(is_backend))[row_key(prefix@, t as int)])
            } else {
                None
            },
    {
        let k = row_key_bytes(prefix, t);
        let meta = if is_backend {
            MetricMeta::ClusterBackend
        } else {
            MetricMeta::Cluster
        };
        self.ns_get(meta, k.as_slice())
    }
}


/// The message a query returns for a failure of the store.
fn store_error_message(e: &sled::Error) -> (r: String)
    ensures
        r@.len() >= 24,
        r@.subrange(0, 24) == "metrics database error: "@,
{
    let mut m = String::from_str("metrics database error: ");
    proof {
        reveal_strlit("metrics database error: ");
    }
    let detail = crate::store::debug_text(e);
    m.append(detail.as_str());
    assert(m@.subrange(0, 24) =~= "metrics database error: "@);
    m
}

} // verus!
