//! A local time-series drain for proxy metrics: observations are written under
//! structured byte keys into an ordered store, rolled up from seconds to minutes
//! to hours, and read back by administrative queries.
pub mod codec;
pub mod store;
pub mod clock;
pub mod metric;
pub mod value;
pub mod process;
pub mod drain;
pub mod rollup;
pub mod ingest;
pub mod sweep;
pub mod timeseries;
pub mod query;
pub mod laws;

pub use crate::drain::LocalDrain;
pub use crate::timeseries::TimeStats;
pub use crate::metric::{
    BackendAnswer, ClusterAnswer, DrainError, DumpEntry, FilteredData, MetricData, MetricKind,
    MetricMeta, Percentiles, PrefixValue, QueryAnswerMetrics, QueryMetricsType,
};
pub use crate::process::{AggregatedMetric, AppMetrics, BackendMetrics, Histogram32, ProcessMetric};
