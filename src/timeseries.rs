//! Latency series: ten statistics per second, updated per sample.
use vstd::prelude::*;

use crate::codec::{DEL, SPACE, TAB, dec, lacks, row_key, row_key_bytes, subfield_prefix};
use crate::drain::{LocalDrain, TIME_FIELDS, lemma_time_field_plain, time_field, time_field_bytes};
use crate::metric::MetricMeta;
use crate::value::{encode_u64, le_bytes};

verus! {

/// The ten statistics of a time series at one second, in storage order. Mean
/// and variance are the bit patterns of `f64` values.
#[derive(Clone, Copy, Debug, PartialEq, Eq, Structural)]
pub struct TimeStats {
    pub count: u64,
    pub mean: u64,
    pub var: u64,
    pub p50: u64,
    pub p90: u64,
    pub p99: u64,
    pub p99_9: u64,
    pub p99_99: u64,
    pub p99_999: u64,
    pub p100: u64,
}

/// Statistic `j` of `s`, in storage order.
pub open spec fn stat(s: TimeStats, j: int) -> u64 {
    if j == 0 {
        s.count
    } else if j == 1 {
        s.mean
    } else if j == 2 {
        s.var
    } else if j == 3 {
        s.p50
    } else if j == 4 {
        s.p90
    } else if j == 5 {
        s.p99
    } else if j == 6 {
        s.p99_9
    } else if j == 7 {
        s.p99_99
    } else if j == 8 {
        s.p99_999
    } else {
        s.p100
    }
}

pub fn stat_of(s: &TimeStats, j: usize) -> (r: u64)
    ensures
        r == stat(*s, j as int),
{
    if j == 0 {
        s.count
    } else if j == 1 {
        s.mean
    } else if j == 2 {
        s.var
    } else if j == 3 {
        s.p50
    } else if j == 4 {
        s.p90
    } else if j == 5 {
        s.p99
    } else if j == 6 {
        s.p99_9
    } else if j == 7 {
        s.p99_99
    } else if j == 8 {
        s.p99_999
    } else {
        s.p100
    }
}

/// Key of statistic `j` of the time series `p` at second `t`.
pub open spec fn stat_key(p: Seq<u8>, j: int, t: int) -> Seq<u8> {
    row_key(subfield_prefix(p, time_field(j)), t)
}

/// The statistics of `p` at `t`, when all ten rows are there.
pub open spec fn stats_at(m: Map<Seq<u8>, Seq<u8>>, p: Seq<u8>, t: int) -> Option<TimeStats> {
    if forall|j: int| 0 <= j < 10 ==> #[trigger] m.contains_key(stat_key(p, j, t)) {
        Some(
            TimeStats {
                count: crate::value::u64_of(m[stat_key(p, 0, t)]),
                mean: crate::value::u64_of(m[stat_key(p, 1, t)]),
                var: crate::value::u64_of(m[stat_key(p, 2, t)]),
                p50: crate::value::u64_of(m[stat_key(p, 3, t)]),
                p90: crate::value::u64_of(m[stat_key(p, 4, t)]),
                p99: crate::value::u64_of(m[stat_key(p, 5, t)]),
                p99_9: crate::value::u64_of(m[stat_key(p, 6, t)]),
                p99_99: crate::value::u64_of(m[stat_key(p, 7, t)]),
                p99_999: crate::value::u64_of(m[stat_key(p, 8, t)]),
                p100: crate::value::u64_of(m[stat_key(p, 9, t)]),
            },
        )
    } else {
        None
    }
}

pub open spec fn max_u64(a: u64, b: u64) -> u64 {
    if a > b {
        a
    } else {
        b
    }
}

pub open spec fn min_u64(a: u64, b: u64) -> u64 {
    if a < b {
        a
    } else {
        b
    }
}

/// A proposed percentile held between the one below it and the maximum.
pub open spec fn clamp(x: u64, below: u64, top: u64) -> u64 {
    min_u64(max_u64(x, below), top)
}

/// The statistics once the sample `t` is folded in. The caller's estimator
/// proposes mean, variance and percentiles; the count and the maximum are kept
/// here, and the percentiles are held in order below the maximum.
pub open spec fn next_stats(old: Option<TimeStats>, t: u64, proposal: TimeStats) -> TimeStats {
    match old {
        None => TimeStats {
            count: 1,
            mean: proposal.mean,
            var: 0,
            p50: t,
            p90: t,
            p99: t,
            p99_9: t,
            p99_99: t,
            p99_999: t,
            p100: t,
        },
        Some(o) => {
            let top = max_u64(o.p100, t);
            let c50 = min_u64(proposal.p50, top);
            let c90 = clamp(proposal.p90, c50, top);
            let c99 = clamp(proposal.p99, c90, top);
            let c99_9 = clamp(proposal.p99_9, c99, top);
            let c99_99 = clamp(proposal.p99_99, c99_9, top);
            let c99_999 = clamp(proposal.p99_999, c99_99, top);
            TimeStats {
                count: if o.count < u64::MAX {
                    (o.count + 1) as u64
                } else {
                    o.count
                },
                mean: proposal.mean,
                var: proposal.var,
                p50: c50,
                p90: c90,
                p99: c99,
                p99_9: c99_9,
                p99_99: c99_99,
                p99_999: c99_999,
                p100: top,
            }
        },
    }
}

/// The percentiles are in order.
pub open spec fn ordered(s: TimeStats) -> bool {
    s.p50 <= s.p90 <= s.p99 <= s.p99_9 <= s.p99_99 <= s.p99_999 <= s.p100
}

/// `k` is one of the ten rows of the time series `p` at `t`.
pub open spec fn is_stat_key(p: Seq<u8>, t: int, k: Seq<u8>) -> bool {
    exists|j: int| 0 <= j < 10 && k == #[trigger] stat_key(p, j, t)
}

/// `m1` agrees with `m0` everywhere but on the statistics of `p` at `ts`.
pub open spec fn same_outside_stats(
    m0: Map<Seq<u8>, Seq<u8>>,
    m1: Map<Seq<u8>, Seq<u8>>,
    p: Seq<u8>,
    ts: int,
) -> bool {
    forall|k: Seq<u8>|
        !is_stat_key(p, ts, k) ==> (#[trigger] m1.contains_key(k) == m0.contains_key(k) && (
        m0.contains_key(k) ==> m1[k] == m0[k]))
}

/// `m1` is `m0` with the sample `t` folded into the statistics of `p` at `ts`,
/// the estimator `step` proposing the floating-point part.
pub open spec fn time_recorded<F: Fn(Option<TimeStats>, u64) -> TimeStats>(
    m0: Map<Seq<u8>, Seq<u8>>,
    m1: Map<Seq<u8>, Seq<u8>>,
    p: Seq<u8>,
    ts: int,
    t: u64,
    step: F,
) -> bool {
    exists|proposal: TimeStats|
        #![trigger next_stats(stats_at(m0, p, ts), t, proposal)]
        step.ensures((stats_at(m0, p, ts), t), proposal) && stats_at(m1, p, ts) == Some(
            next_stats(stats_at(m0, p, ts), t, proposal),
        ) && same_outside_stats(m0, m1, p, ts)
}

pub fn next_stats_exec(old: Option<TimeStats>, t: u64, proposal: TimeStats) -> (r: TimeStats)
    ensures
        r == next_stats(old, t, proposal),
        ordered(r),
{
    match old {
        None => TimeStats {
            count: 1,
            mean: proposal.mean,
            var: 0,
            p50: t,
            p90: t,
            p99: t,
            p99_9: t,
            p99_99: t,
            p99_999: t,
            p100: t,
        },
        Some(o) => {
            let top = if o.p100 > t {
                o.p100
            } else {
                t
            };
            let c50 = if proposal.p50 < top {
                proposal.p50
            } else {
                top
            };
            let c90 = clamp_exec(proposal.p90, c50, top);
            let c99 = clamp_exec(proposal.p99, c90, top);
            let c99_9 = clamp_exec(proposal.p99_9, c99, top);
            let c99_99 = clamp_exec(proposal.p99_99, c99_9, top);
            let c99_999 = clamp_exec(proposal.p99_999, c99_99, top);
            TimeStats {
                count: if o.count < u64::MAX {
                    o.count + 1
                } else {
                    o.count
                },
                mean: proposal.mean,
                var: proposal.var,
                p50: c50,
                p90: c90,
                p99: c99,
                p99_9: c99_9,
                p99_99: c99_99,
                p99_999: c99_999,
                p100: top,
            }
        },
    }
}

pub(crate) fn clamp_exec(x: u64, below: u64, top: u64) -> (r: u64)
    requires
        below <= top,
    ensures
        r == clamp(x, below, top),
        below <= r <= top,
{
    let raised = if x > below {
        x
    } else {
        below
    };
    if raised < top {
        raised
    } else {
        top
    }
}

/// The rows of distinct statistics of one series at one second are distinct.
pub proof fn lemma_stat_keys_distinct(p: Seq<u8>, t: int, a: int, b: int)
    requires
        0 <= a < 10,
        0 <= b < 10,
        a != b,
    ensures
        stat_key(p, a, t) != stat_key(p, b, t),
{
    let fa = time_field(a);
    let fb = time_field(b);
    let ra = seq![SPACE] + seq![TAB] + dec(t);
    let rb = seq![SPACE] + seq![TAB] + dec(t);
    if stat_key(p, a, t) == stat_key(p, b, t) {
        let n = p.len() + 1int;
        assert(stat_key(p, a, t).subrange(n, stat_key(p, a, t).len() as int) =~= fa + ra);
        assert(stat_key(p, b, t).subrange(n, stat_key(p, b, t).len() as int) =~= fb + rb);
        assert(fa + ra == fb + rb);
        lemma_sep_split(fa, dec(t), fb, dec(t));
    }
}

/// A statistic's row key names its statistic and its second.
pub proof fn lemma_stat_key_injective(p: Seq<u8>, a: int, b: int, t1: int, t2: int)
    requires
        0 <= a < 10,
        0 <= b < 10,
        stat_key(p, a, t1) == stat_key(p, b, t2),
    ensures
        a == b,
        t1 == t2,
{
    let fa = time_field(a);
    let fb = time_field(b);
    let ra = seq![SPACE] + seq![TAB] + dec(t1);
    let rb = seq![SPACE] + seq![TAB] + dec(t2);
    let n = p.len() + 1int;
    assert(stat_key(p, a, t1).subrange(n, stat_key(p, a, t1).len() as int) =~= fa + ra);
    assert(stat_key(p, b, t2).subrange(n, stat_key(p, b, t2).len() as int) =~= fb + rb);
    lemma_sep_split(fa, dec(t1), fb, dec(t2));
    if a != b {
        lemma_stat_keys_distinct(p, t1, a, b);
        assert(false);
    }
    crate::codec::lemma_row_key_injective(subfield_prefix(p, fa), t1, t2);
}

/// Splitting at the first space followed by the separator is unique for words
/// without a space.
pub proof fn lemma_sep_split(a: Seq<u8>, b: Seq<u8>, c: Seq<u8>, d: Seq<u8>)
    requires
        lacks(a, SPACE),
        lacks(c, SPACE),
        a + (seq![SPACE] + seq![TAB] + b) == c + (seq![SPACE] + seq![TAB] + d),
    ensures
        a == c,
{
    let x = a + (seq![SPACE] + seq![TAB] + b);
    let y = c + (seq![SPACE] + seq![TAB] + d);
    if a.len() < c.len() {
        assert(x[a.len() as int] == SPACE);
        assert(y[a.len() as int] == c[a.len() as int]);
    } else if c.len() < a.len() {
        assert(y[c.len() as int] == SPACE);
        assert(x[c.len() as int] == a[c.len() as int]);
    } else {
        assert(a =~= x.subrange(0, a.len() as int));
        assert(c =~= y.subrange(0, c.len() as int));
    }
}

impl LocalDrain {
    /// Folds the sample `t` into the statistics of the time series `p` at `ts`.
    pub(crate) fn record_time_sample<F: Fn(Option<TimeStats>, u64) -> TimeStats>(
        &mut self,
        meta: MetricMeta,
        p: &[u8],
        ts: i64,
        t: u64,
        step: &F,
    ) -> (r: Result<(), sled::Error>)
        requires
            old(self).wf(),
            lacks(p@, DEL),
            forall|o: Option<TimeStats>, x: u64| step.requires((o, x)),
        ensures
            final(self).same_but(old(self), meta),
            r is Ok ==> final(self).wf(),
            r is Ok ==> time_recorded(old(self).store(meta), final(self).store(meta), p@, ts as int, t, *step),
            r is Ok ==> (stats_at(final(self).store(meta), p@, ts as int) matches Some(s) && ordered(s)),
            r is Ok ==> same_outside_stats(old(self).store(meta), final(self).store(meta), p@, ts as int),
    {
        let ghost m0 = self.store(meta);
        let mut prefixes: Vec<Vec<u8>> = Vec::new();
        let mut values: Vec<u64> = Vec::new();
        let mut complete = true;
        let mut j: usize = 0;
        while j < TIME_FIELDS
            invariant
                0 <= j <= 10,
                m0 == self.store(meta),
                old(self).wf(),
                m0 == old(self).store(meta),
                lacks(p@, DEL),
                prefixes@.len() == j,
                complete ==> values@.len() == j,
                forall|a: int| 0 <= a < j ==> #[trigger] prefixes@[a]@ == subfield_prefix(p@, time_field(a)),
                complete ==> forall|a: int| 0 <= a < j ==> #[trigger] m0.contains_key(stat_key(p@, a, ts as int)),
                complete ==> forall|a: int| 0 <= a < j ==> #[trigger] values@[a] == crate::value::u64_of(m0[stat_key(p@, a, ts as int)]),
                !complete ==> exists|a: int| 0 <= a < 10 && !#[trigger] m0.contains_key(stat_key(p@, a, ts as int)),
            decreases 10 - j,
        {
            let f = time_field_bytes(j);
            let sp = crate::codec::subfield_prefix_bytes(p, f.as_slice());
            let key = row_key_bytes(sp.as_slice(), ts);
            assert(key@ == stat_key(p@, j as int, ts as int));
            if complete {
                match self.ns_get(meta, key.as_slice()) {
                    Ok(Some(v)) => {
                        proof {
                            assert(m0.contains_key(key@));
                        }
                        let ghost before = values@;
                        let val = crate::value::decode_u64(v.as_slice());
                        assert(val == crate::value::u64_of(m0[stat_key(p@, j as int, ts as int)]));
                        values.push(val);
                        assert(values@[j as int] == val);
                        assert(forall|a: int| 0 <= a < j ==> values@[a] == before[a]);
                        assert(m0.contains_key(stat_key(p@, j as int, ts as int)));
                    },
                    Ok(None) => {
                        complete = false;
                        assert(!m0.contains_key(stat_key(p@, j as int, ts as int)));
                    },
                    Err(e) => {
                        return Err(e);
                    },
                }
            }
            prefixes.push(sp);
            j = j + 1;
        }
        let ghost old_stats = stats_at(m0, p@, ts as int);
        let old_stats_exec: Option<TimeStats> = if complete {
            Some(
                TimeStats {
                    count: values[0],
                    mean: values[1],
                    var: values[2],
                    p50: values[3],
                    p90: values[4],
                    p99: values[5],
                    p99_9: values[6],
                    p99_99: values[7],
                    p99_999: values[8],
                    p100: values[9],
                },
            )
        } else {
            None
        };
        proof {
            if complete {
                assert(forall|a: int| 0 <= a < 10 ==> #[trigger] m0.contains_key(stat_key(p@, a, ts as int)));
                assert(values@[0] == crate::value::u64_of(m0[stat_key(p@, 0, ts as int)]));
                assert(values@[9] == crate::value::u64_of(m0[stat_key(p@, 9, ts as int)]));
            }
        }
        assert(old_stats_exec == old_stats);
        let proposal = step(old_stats_exec, t);
        let new_stats = next_stats_exec(old_stats_exec, t, proposal);
        let mut j: usize = 0;
        while j < TIME_FIELDS
            invariant
                0 <= j <= 10,
                self.wf(),
                self.same_but(old(self), meta),
                m0 == old(self).store(meta),
                lacks(p@, DEL),
                prefixes@.len() == 10,
                forall|a: int| 0 <= a < 10 ==> #[trigger] prefixes@[a]@ == subfield_prefix(p@, time_field(a)),
                forall|a: int| 0 <= a < j ==> #[trigger] self.store(meta).contains_key(stat_key(p@, a, ts as int)),
                forall|a: int| 0 <= a < j ==> #[trigger] self.store(meta)[stat_key(p@, a, ts as int)] == le_bytes(stat(new_stats, a)),
                forall|k: Seq<u8>|
                    !is_stat_key(p@, ts as int, k) ==> (#[trigger] self.store(meta).contains_key(k)
                        == m0.contains_key(k) && (m0.contains_key(k) ==> self.store(meta)[k] == m0[k])),
            decreases 10 - j,
        {
            let bytes = encode_u64(stat_of(&new_stats, j));
            proof {
                crate::codec::lemma_lacks_concat(p@, seq![crate::codec::DOT], DEL);
                lemma_time_field_plain(j as int);
                crate::codec::lemma_lacks_concat(p@ + seq![crate::codec::DOT], time_field(j as int), DEL);
                crate::codec::lemma_lacks_concat(p@ + seq![crate::codec::DOT] + time_field(j as int), seq![SPACE], DEL);
            }
            let ghost before = self.store(meta);
            assert(row_key(prefixes@[j as int]@, ts as int) == stat_key(p@, j as int, ts as int));
            assert(bytes@ == le_bytes(stat(new_stats, j as int)));
            match self.put_row(meta, prefixes[j].as_slice(), ts, bytes.as_slice()) {
                Ok(()) => {},
                Err(e) => {
                    return Err(e);
                },
            }
            proof {
                assert(self.store(meta).contains_key(stat_key(p@, j as int, ts as int)));
                assert forall|a: int| 0 <= a < j + 1 implies #[trigger] self.store(meta).contains_key(stat_key(p@, a, ts as int))
                    && self.store(meta)[stat_key(p@, a, ts as int)] == le_bytes(stat(new_stats, a)) by {
                    if a < j {
                        lemma_stat_keys_distinct(p@, ts as int, a, j as int);
                        assert(before.contains_key(stat_key(p@, a, ts as int)));
                        assert(before[stat_key(p@, a, ts as int)] == le_bytes(stat(new_stats, a)));
                    }
                }
                assert forall|k: Seq<u8>|
                    !is_stat_key(p@, ts as int, k) implies (#[trigger] self.store(meta).contains_key(k)
                        == m0.contains_key(k) && (m0.contains_key(k) ==> self.store(meta)[k] == m0[k])) by {
                    if k == stat_key(p@, j as int, ts as int) {
                        assert(is_stat_key(p@, ts as int, k));
                    } else {
                        assert(before.contains_key(k) == m0.contains_key(k));
                    }
                }
            }
            j = j + 1;
        }
        proof {
            let m1 = self.store(meta);
            assert forall|a: int| 0 <= a < 10 implies crate::value::u64_of(#[trigger] m1[stat_key(p@, a, ts as int)]) == stat(new_stats, a) by {
                assert(m1[stat_key(p@, a, ts as int)] == le_bytes(stat(new_stats, a)));
                crate::value::lemma_le_round_trip(stat(new_stats, a));
            }
            assert(crate::value::u64_of(m1[stat_key(p@, 0, ts as int)]) == new_stats.count);
            assert(crate::value::u64_of(m1[stat_key(p@, 9, ts as int)]) == new_stats.p100);
            assert(forall|a: int| 0 <= a < 10 ==> #[trigger] m1.contains_key(stat_key(p@, a, ts as int)));
            assert(stats_at(m1, p@, ts as int) == Some(new_stats));
            assert(time_recorded(m0, m1, p@, ts as int, t, *step));
            assert(same_outside_stats(m0, m1, p@, ts as int));
        }
        Ok(())
    }
}

} // verus!
