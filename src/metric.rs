//! Observations, series descriptions and query shapes.
use vstd::prelude::*;

verus! {

/// One observation pushed by the proxy.
#[derive(Clone, Copy, Debug)]
pub enum MetricData {
    /// Sets a gauge.
    Gauge(usize),
    /// Moves a gauge by a signed amount.
    GaugeAdd(i64),
    /// Adds to a counter.
    Count(i64),
    /// One latency sample.
    Time(usize),
}

/// How a series accumulates its observations.
#[derive(Clone, Copy, Debug, PartialEq, Eq, Structural)]
pub enum MetricKind {
    Gauge,
    Count,
    Time,
}

/// Which namespace a series lives in.
#[derive(Clone, Copy, Debug, PartialEq, Eq, Structural)]
pub enum MetricMeta {
    Cluster,
    ClusterBackend,
}

pub open spec fn kind_of(m: MetricData) -> MetricKind {
    match m {
        MetricData::Gauge(_) => MetricKind::Gauge,
        MetricData::GaugeAdd(_) => MetricKind::Gauge,
        MetricData::Count(_) => MetricKind::Count,
        MetricData::Time(_) => MetricKind::Time,
    }
}

pub fn metric_kind(m: &MetricData) -> (r: MetricKind)
    ensures
        r == kind_of(*m),
{
    match m {
        MetricData::Gauge(_) => MetricKind::Gauge,
        MetricData::GaugeAdd(_) => MetricKind::Gauge,
        MetricData::Count(_) => MetricKind::Count,
        MetricData::Time(_) => MetricKind::Time,
    }
}

/// Estimated distribution of a latency series.
#[derive(Clone, Copy, Debug, PartialEq, Eq, Structural)]
pub struct Percentiles {
    pub samples: u64,
    pub p_50: u64,
    pub p_90: u64,
    pub p_99: u64,
    pub p_99_9: u64,
    pub p_99_99: u64,
    pub p_99_999: u64,
    pub p_100: u64,
}

/// A value as handed to administrative readers.
#[derive(Clone, Copy, Debug, PartialEq, Eq, Structural)]
pub enum FilteredData {
    Gauge(usize),
    Count(i64),
    Percentiles(Percentiles),
}

/// A read request.
#[derive(Clone, Debug)]
pub enum QueryMetricsType {
    /// Every registered prefix.
    List,
    /// The latest value of each named metric for each cluster.
    Cluster { metrics: Vec<String>, clusters: Vec<String> },
    /// The latest value of each named metric for each (cluster, backend) pair.
    Backend { metrics: Vec<String>, backends: Vec<(String, String)> },
}

/// The values found for one metric prefix.
#[derive(Clone, Debug)]
pub struct PrefixValue {
    pub prefix: Vec<u8>,
    pub value: FilteredData,
}

/// What a cluster query found for one cluster.
#[derive(Clone, Debug)]
pub struct ClusterAnswer {
    pub cluster_id: Vec<u8>,
    pub values: Vec<PrefixValue>,
}

/// What a backend query found for one (cluster, backend) pair.
#[derive(Clone, Debug)]
pub struct BackendAnswer {
    pub cluster_id: Vec<u8>,
    pub backend_id: Vec<u8>,
    pub values: Vec<PrefixValue>,
}

/// The answer to a read request.
#[derive(Clone, Debug)]
pub enum QueryAnswerMetrics {
    List(Vec<Vec<u8>>),
    Cluster(Vec<ClusterAnswer>),
    Backend(Vec<BackendAnswer>),
}

/// The newest value of one gauge or counter series, with the ids it is kept under.
#[derive(Clone, Debug)]
pub struct DumpEntry {
    pub cluster_id: Vec<u8>,
    pub backend_id: Option<Vec<u8>>,
    pub name: Vec<u8>,
    pub value: FilteredData,
}

/// Why an observation was not stored.
#[derive(Debug)]
pub enum DrainError {
    /// The ordered store failed.
    Store(sled::Error),
    /// A name or an id holds a byte reserved by the key grammar.
    InvalidId,
    /// The series is registered with another kind or namespace.
    KindMismatch,
    /// The clock reads a time too early for the store's windows.
    ClockOutOfRange,
}

} // verus!
