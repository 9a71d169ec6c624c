//! Metrics of the process itself, kept in memory and updated in place.
use vstd::prelude::*;

use crate::metric::{MetricData, MetricKind, kind_of};
use crate::value::add_wrapping;

verus! {

/// A latency histogram with 32-bit counters. Verus refuses a declaration of the
/// outside type itself (its parameter is bound by an outside trait), so it is
/// held here, opaque.
#[verifier::external_body]
pub struct Histogram32 {
    pub inner: hdrhistogram::Histogram<u32>,
}

/// Number of samples a histogram has recorded.
pub uninterp spec fn recorded(h: Histogram32) -> int;

/// The histogram grows to hold any value recorded into it.
pub uninterp spec fn auto_resizing(h: Histogram32) -> bool;

/// Relies on hdrhistogram::Histogram::new: an auto-resizing histogram with
/// three significant digits and no sample yet. With three digits the bounds
/// (1, 2) pass every check of new_with_bounds, so creation cannot fail; `new`
/// turns auto-resizing on.
#[verifier::external_body]
fn new_histogram() -> (r: Histogram32)
    ensures
        recorded(r) == 0,
        auto_resizing(r),
{
    Histogram32 { inner: hdrhistogram::Histogram::new(3).unwrap() }
}

/// Relies on hdrhistogram::Histogram::record: one more sample is counted (the
/// count saturates). An auto-resizing histogram fails only when a bucket count
/// held in a `u32` does not fit a `usize`, which cannot happen; the setting is
/// left as it was.
#[verifier::external_body]
fn record_sample(h: &mut Histogram32, v: u64) -> (r: bool)
    requires
        auto_resizing(*old(h)),
    ensures
        r,
        auto_resizing(*final(h)),
        recorded(*final(h)) == if recorded(*old(h)) < u64::MAX {
            recorded(*old(h)) + 1
        } else {
            recorded(*old(h))
        },
{
    h.inner.record(v).is_ok()
}

/// Relies on hdrhistogram::Histogram::len: the number of samples recorded.
#[verifier::external_body]
pub(crate) fn sample_count(h: &Histogram32) -> (r: u64)
    ensures
        r == recorded(*h),
{
    h.inner.len()
}

/// The accumulated value of a process-level metric.
pub enum AggregatedMetric {
    Gauge(usize),
    Count(i64),
    Time(Histogram32),
}

/// What the contracts say of an accumulated value: a histogram by its sample count.
pub enum AggregatedView {
    Gauge(usize),
    Count(i64),
    Time(int),
}

/// A gauge moved by a signed amount, in two's complement.
pub open spec fn gauge_moved(v: usize, delta: i64) -> usize {
    #[verifier::truncate]
    (add_wrapping(#[verifier::truncate] (v as i64), delta) as usize)
}

pub open spec fn same_kind(a: AggregatedView, m: MetricData) -> bool {
    match a {
        AggregatedView::Gauge(_) => kind_of(m) == MetricKind::Gauge,
        AggregatedView::Count(_) => kind_of(m) == MetricKind::Count,
        AggregatedView::Time(_) => kind_of(m) == MetricKind::Time,
    }
}

/// `b` is `a` once the observation `m` is folded in.
pub open spec fn updated_view(a: AggregatedView, m: MetricData, b: AggregatedView) -> bool {
    match (a, m) {
        (AggregatedView::Gauge(_), MetricData::Gauge(v)) => b == AggregatedView::Gauge(v),
        (AggregatedView::Gauge(x), MetricData::GaugeAdd(d)) => b == AggregatedView::Gauge(
            gauge_moved(x, d),
        ),
        (AggregatedView::Count(x), MetricData::Count(d)) => b == AggregatedView::Count(
            add_wrapping(x, d),
        ),
        (AggregatedView::Time(n), MetricData::Time(_)) => b == AggregatedView::Time(
            if n < u64::MAX { n + 1 } else { n },
        ),
        _ => false,
    }
}

/// `r` is the first value of a metric made from the observation `m`: a time
/// sample starts a histogram that holds it.
pub open spec fn created_view(m: MetricData, r: AggregatedMetric) -> bool {
    match m {
        MetricData::Gauge(v) => r == AggregatedMetric::Gauge(v),
        MetricData::GaugeAdd(v) => r == AggregatedMetric::Gauge(#[verifier::truncate] (v as usize)),
        MetricData::Count(v) => r == AggregatedMetric::Count(v),
        MetricData::Time(_) => r.view() == AggregatedView::Time(1) && r.healthy(),
    }
}

impl AggregatedMetric {
    /// A latency histogram keeps growing to hold every sample.
    pub open spec fn healthy(&self) -> bool {
        match self {
            AggregatedMetric::Time(h) => auto_resizing(*h),
            _ => true,
        }
    }

    pub open spec fn view(&self) -> AggregatedView {
        match self {
            AggregatedMetric::Gauge(v) => AggregatedView::Gauge(*v),
            AggregatedMetric::Count(v) => AggregatedView::Count(*v),
            AggregatedMetric::Time(h) => AggregatedView::Time(recorded(*h)),
        }
    }

    /// The first value of a metric. A time sample starts a histogram holding it.
    pub fn new(metric: MetricData) -> (r: AggregatedMetric)
        ensures
            created_view(metric, r),
    {
        match metric {
            MetricData::Gauge(v) => AggregatedMetric::Gauge(v),
            MetricData::GaugeAdd(v) => AggregatedMetric::Gauge(#[verifier::truncate] (v as usize)),
            MetricData::Count(v) => AggregatedMetric::Count(v),
            MetricData::Time(v) => {
                let mut h = new_histogram();
                let _recorded = record_sample(&mut h, v as u64);
                AggregatedMetric::Time(h)
            },
        }
    }

    /// Number of latency samples held, for a time metric.
    pub fn samples(&self) -> (r: Option<u64>)
        ensures
            match self.view() {
                AggregatedView::Time(n) => r == Some(n as u64),
                _ => r is None,
            },
    {
        match self {
            AggregatedMetric::Time(h) => Some(sample_count(h)),
            _ => None,
        }
    }

    /// Folds one more observation of the same kind into the value.
    pub fn update(&mut self, m: MetricData)
        requires
            same_kind(old(self).view(), m),
            old(self).healthy(),
        ensures
            updated_view(old(self).view(), m, final(self).view()),
            final(self).healthy(),
    {
        match self {
            AggregatedMetric::Gauge(v1) => match m {
                MetricData::Gauge(v2) => {
                    *v1 = v2;
                },
                MetricData::GaugeAdd(v2) => {
                    let signed: i64 = #[verifier::truncate] (*v1 as i64);
                    let moved = crate::value::wrapping_sum(signed, v2);
                    *v1 = #[verifier::truncate] (moved as usize);
                },
                _ => {},
            },
            AggregatedMetric::Count(v1) => match m {
                MetricData::Count(v2) => {
                    *v1 = crate::value::wrapping_sum(*v1, v2);
                },
                _ => {},
            },
            AggregatedMetric::Time(h) => match m {
                MetricData::Time(v2) => {
                    let _recorded = record_sample(h, v2 as u64);
                },
                _ => {},
            },
        }
    }
}

/// A process-level metric under its name.
pub struct ProcessMetric {
    pub name: Vec<u8>,
    pub value: AggregatedMetric,
}

/// Process-level metrics, with their backend breakdown, for one cluster.
pub struct AppMetrics {
    pub data: Vec<ProcessMetric>,
    pub backend_data: Vec<(Vec<u8>, Vec<ProcessMetric>)>,
}

/// Process-level metrics of one backend.
pub struct BackendMetrics {
    pub cluster_id: Vec<u8>,
    pub data: Vec<ProcessMetric>,
}

} // verus!
