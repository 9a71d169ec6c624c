//! The time-driven sweep: roll-up of every series and eviction of empty ones.
use vstd::prelude::*;

use crate::clock::minute_of_hour;
use crate::codec::{
    DEL, SPACE, TAB, bytes_equal, dec, lacks, lex_lt, row_key, sentinel, subfield_prefix,
};
use crate::drain::{
    LocalDrain, Series, copy_bytes, family_present, is_family_sentinel, lemma_series_prefix,
    time_field, window_rows,
};
use crate::metric::{DrainError, MetricKind, MetricMeta};
use crate::rollup::{
    rows_of, rows_rolled_up, lemma_rows_kept,
    collapse_with, collapsed, eight_byte_values, expired, is_old_row, is_row_of,
    lemma_rolled_up_effect, rolled_up, settled,
};
use crate::store::contents;

verus! {

/// Splitting at the first separator is unique.
pub proof fn lemma_tab_split(a: Seq<u8>, b: Seq<u8>, c: Seq<u8>, d: Seq<u8>)
    requires
        lacks(a, TAB),
        lacks(c, TAB),
        a + seq![TAB] + b == c + seq![TAB] + d,
    ensures
        a == c,
        b == d,
{
    let x = a + seq![TAB] + b;
    let y = c + seq![TAB] + d;
    if a.len() < c.len() {
        assert(x[a.len() as int] == TAB);
        assert(y[a.len() as int] == c[a.len() as int]);
    } else if c.len() < a.len() {
        assert(y[c.len() as int] == TAB);
        assert(x[c.len() as int] == a[c.len() as int]);
    } else {
        assert(a =~= x.subrange(0, a.len() as int));
        assert(c =~= y.subrange(0, c.len() as int));
        assert(b =~= x.subrange(a.len() + 1int, x.len() as int));
        assert(d =~= y.subrange(c.len() + 1int, y.len() as int));
    }
}

/// Two series of one namespace share a row key only if they share the prefix.
#[verifier::rlimit(30)]
pub proof fn lemma_row_keys_apart(s1: Series, s2: Series, t1: int, t2: int)
    requires
        s1.wf(),
        s2.wf(),
        s1.meta == s2.meta,
        i64::MIN <= t1 <= i64::MAX,
        i64::MIN <= t2 <= i64::MAX,
        row_key(s1.prefix@, t1) == row_key(s2.prefix@, t2),
    ensures
        s1.prefix@ == s2.prefix@,
{
    crate::codec::lemma_dec_facts(t1);
    crate::codec::lemma_dec_facts(t2);
    let d1 = dec(t1);
    let d2 = dec(t2);
    match s1.backend {
        None => {
            let r1 = s1.cluster@ + seq![TAB] + d1;
            let r2 = s2.cluster@ + seq![TAB] + d2;
            assert(row_key(s1.prefix@, t1) =~= s1.name@ + seq![TAB] + r1);
            assert(row_key(s2.prefix@, t2) =~= s2.name@ + seq![TAB] + r2);
            lemma_tab_split(s1.name@, r1, s2.name@, r2);
            lemma_tab_split(s1.cluster@, d1, s2.cluster@, d2);
        },
        Some(b1) => {
            let b2 = s2.backend->Some_0;
            let q1 = b1@ + seq![TAB] + d1;
            let q2 = b2@ + seq![TAB] + d2;
            let r1 = s1.cluster@ + seq![TAB] + q1;
            let r2 = s2.cluster@ + seq![TAB] + q2;
            assert(row_key(s1.prefix@, t1) =~= s1.name@ + seq![TAB] + r1);
            assert(row_key(s2.prefix@, t2) =~= s2.name@ + seq![TAB] + r2);
            lemma_tab_split(s1.name@, r1, s2.name@, r2);
            lemma_tab_split(s1.cluster@, q1, s2.cluster@, q2);
            lemma_tab_split(b1@, d1, b2@, d2);
        },
    }
}

/// No row of one series is a row of another series of its namespace.
pub proof fn lemma_rows_apart(sj: Series, si: Series)
    requires
        sj.wf(),
        si.wf(),
        sj.meta == si.meta,
        sj.prefix@ != si.prefix@,
    ensures
        forall|t: i64| !is_row_of(si.prefix@, #[trigger] row_key(sj.prefix@, t as int)),
{
    assert forall|t: i64| !is_row_of(si.prefix@, #[trigger] row_key(sj.prefix@, t as int)) by {
        if is_row_of(si.prefix@, row_key(sj.prefix@, t as int)) {
            let u = choose|u: i64| row_key(sj.prefix@, t as int) == #[trigger] row_key(si.prefix@, u as int);
            lemma_row_keys_apart(sj, si, t as int, u as int);
        }
    }
}

/// A roll-up adds no key but the rows at the first second of the minute and of
/// the hour.
pub proof fn lemma_rolled_up_keys(
    m0: Map<Seq<u8>, Seq<u8>>,
    m2: Map<Seq<u8>, Seq<u8>>,
    p: Seq<u8>,
    kind: MetricKind,
    now: int,
)
    requires
        rolled_up(m0, m2, p, kind, now),
    ensures
        forall|k: Seq<u8>|
            #[trigger] m2.contains_key(k) ==> m0.contains_key(k) || k == row_key(p, now - 60) || k
                == row_key(p, now - 3600),
{
    if minute_of_hour(now) == 0 {
        let (m1, m15) = choose|m1: Map<Seq<u8>, Seq<u8>>, m15: Map<Seq<u8>, Seq<u8>>|
            #![trigger collapsed(m0, m1, p, kind, now - 60, now), collapsed(m1, m15, p, kind, now - 3600, now - 60)]
            collapsed(m0, m1, p, kind, now - 60, now) && collapsed(
                m1,
                m15,
                p,
                kind,
                now - 3600,
                now - 60,
            ) && m2 == expired(m15, p, now - 86400);
        let rows1 = choose|rows: Seq<(i64, Vec<u8>)>|
            window_rows(m0, p, now - 60, now, rows) && m1 == #[trigger] collapse_with(m0, p, kind, now - 60, rows);
        let rows2 = choose|rows: Seq<(i64, Vec<u8>)>|
            window_rows(m1, p, now - 3600, now - 60, rows) && m15 == #[trigger] collapse_with(m1, p, kind, now - 3600, rows);
    } else {
        let rows1 = choose|rows: Seq<(i64, Vec<u8>)>|
            window_rows(m0, p, now - 60, now, rows) && m2 == #[trigger] collapse_with(m0, p, kind, now - 60, rows);
    }
}

/// A sweep at `now` has nothing left to do: every gauge and counter series is
/// rolled up, holds no row older than a day at the start of an hour, and still
/// holds a row.
pub open spec fn at_rest(d: LocalDrain, now: int) -> bool {
    forall|i: int|
        0 <= i < d.count() && (#[trigger] d.metrics@[i]).kind != MetricKind::Time ==> {
            &&& swept(d.store(d.metrics@[i].meta), d.metrics@[i].prefix@, now)
            &&& minute_of_hour(now) == 0 ==> forall|t: i64|
                t < now - 86400 ==> !#[trigger] d.store(d.metrics@[i].meta).contains_key(
                    row_key(d.metrics@[i].prefix@, t as int),
                )
            &&& has_rows(d.store(d.metrics@[i].meta), d.metrics@[i].prefix@)
        }
}

/// `k` is a row or the sentinel of a gauge or counter series of `d` in the
/// namespace `m`: the only keys a sweep may touch.
pub open spec fn sweepable(d: LocalDrain, m: MetricMeta, k: Seq<u8>) -> bool {
    exists|i: int|
        0 <= i < d.count() && (#[trigger] d.metrics@[i]).kind != MetricKind::Time && d.metrics@[i].meta
            == m && (is_row_of(d.metrics@[i].prefix@, k) || k == sentinel(d.metrics@[i].prefix@))
}

/// Some row of `p` is stored.
pub open spec fn has_rows(m: Map<Seq<u8>, Seq<u8>>, p: Seq<u8>) -> bool {
    exists|t: i64| #[trigger] m.contains_key(row_key(p, t as int))
}

/// The rows of `p` are rolled up at `now`: none inside the last minute but at
/// its first second and, at the start of an hour, none inside the rest of the
/// last hour but at its first second.
pub open spec fn swept(m: Map<Seq<u8>, Seq<u8>>, p: Seq<u8>, now: int) -> bool {
    &&& settled(m, p, now - 60, now)
    &&& minute_of_hour(now) == 0 ==> settled(m, p, now - 3600, now - 60)
}

impl LocalDrain {
    /// Rolls up every gauge and counter series at `now`, then evicts each series
    /// of which only the sentinel is left. Time series are kept as they are.
    #[verifier::rlimit(40)]
    pub fn clear(&mut self, now: i64) -> (r: Result<(), DrainError>)
        requires
            old(self).wf(),
            now >= i64::MIN + 86400,
        ensures
            final(self).prefix == old(self).prefix,
            final(self).data == old(self).data,
            r is Err ==> (r matches Err(DrainError::Store(_))),
            (forall|i: int| 0 <= i < old(self).count() ==> (#[trigger] old(self).metrics@[i]).kind
                == MetricKind::Time) ==> r is Ok,
            r is Ok ==> final(self).wf(),
            r is Ok ==> at_rest(*final(self), now as int),
            r is Ok ==> forall|m: MetricMeta, k: Seq<u8>|
                !sweepable(*old(self), m, k) ==> (#[trigger] final(self).store(m).contains_key(k)
                    == old(self).store(m).contains_key(k) && (old(self).store(m).contains_key(k)
                    ==> final(self).store(m)[k] == old(self).store(m)[k])),
            r is Ok ==> forall|i: int|
                0 <= i < old(self).count() && (#[trigger] old(self).metrics@[i]).kind
                    != MetricKind::Time ==> rows_rolled_up(
                    old(self).store(old(self).metrics@[i].meta),
                    final(self).store(old(self).metrics@[i].meta),
                    old(self).metrics@[i].prefix@,
                    old(self).metrics@[i].kind,
                    now as int,
                ),
            r is Ok && minute_of_hour(now as int) == 0 ==> forall|i: int, t: i64|
                0 <= i < old(self).count() && old(self).metrics@[i].kind != MetricKind::Time && t
                    < now - 86400 ==> !#[trigger] final(self).store(old(self).metrics@[i].meta).contains_key(
                    row_key(old(self).metrics@[i].prefix@, t as int),
                ),
            r is Ok ==> forall|j: int|
                0 <= j < final(self).count() ==> old(self).has_series(#[trigger] final(self).metrics@[j]),
            r is Ok ==> forall|i: int|
                0 <= i < old(self).count() && (#[trigger] old(self).metrics@[i]).kind
                    == MetricKind::Time ==> final(self).registered(old(self).metrics@[i].prefix@),
            r is Ok && at_rest(*old(self), now as int) ==> final(self).metrics == old(self).metrics
                && final(self).store(MetricMeta::Cluster) == old(self).store(MetricMeta::Cluster)
                && final(self).store(MetricMeta::ClusterBackend) == old(self).store(
                MetricMeta::ClusterBackend,
            ),
            r is Ok ==> forall|i: int|
                0 <= i < old(self).count() && (#[trigger] old(self).metrics@[i]).kind
                    != MetricKind::Time ==> (final(self).registered(old(self).metrics@[i].prefix@)
                    <==> has_rows(final(self).store(old(self).metrics@[i].meta), old(self).metrics@[i].prefix@))
                    && (!final(self).registered(old(self).metrics@[i].prefix@) ==> !final(self).store(
                    old(self).metrics@[i].meta,
                ).contains_key(sentinel(old(self).metrics@[i].prefix@))),
            r is Ok ==> forall|i: int|
                0 <= i < old(self).count() && (#[trigger] old(self).metrics@[i]).kind
                    != MetricKind::Time ==> swept(
                    final(self).store(old(self).metrics@[i].meta),
                    old(self).metrics@[i].prefix@,
                    now as int,
                ),
    {
        let ghost cutoff = now - 86400;
        let ghost hourly = minute_of_hour(now as int) == 0;
        let mut i: usize = 0;
        while i < self.metrics.len()
            invariant
                self.wf(),
                self.metrics == old(self).metrics,
                self.prefix == old(self).prefix,
                self.data == old(self).data,
                now >= i64::MIN + 86400,
                cutoff == now - 86400,
                hourly == (minute_of_hour(now as int) == 0),
                0 <= i <= self.count(),
                hourly ==> forall|j: int, t: i64|
                    0 <= j < i && self.metrics@[j].kind != MetricKind::Time && t < cutoff
                        ==> !#[trigger] self.store(self.metrics@[j].meta).contains_key(
                        row_key(self.metrics@[j].prefix@, t as int),
                    ),
                forall|j: int|
                    0 <= j < i && (#[trigger] self.metrics@[j]).kind != MetricKind::Time
                        ==> swept(self.store(self.metrics@[j].meta), self.metrics@[j].prefix@, now as int),
                at_rest(*old(self), now as int) ==> self.store(MetricMeta::Cluster) == old(self).store(
                    MetricMeta::Cluster,
                ) && self.store(MetricMeta::ClusterBackend) == old(self).store(MetricMeta::ClusterBackend),
                forall|j: int|
                    0 <= j < i && (#[trigger] self.metrics@[j]).kind != MetricKind::Time
                        ==> rows_rolled_up(
                        old(self).store(self.metrics@[j].meta),
                        self.store(self.metrics@[j].meta),
                        self.metrics@[j].prefix@,
                        self.metrics@[j].kind,
                        now as int,
                    ),
                forall|j: int|
                    i <= j < self.count() && (#[trigger] self.metrics@[j]).kind != MetricKind::Time
                        ==> rows_of(self.store(self.metrics@[j].meta), self.metrics@[j].prefix@)
                        == rows_of(old(self).store(self.metrics@[j].meta), self.metrics@[j].prefix@),
                forall|m: MetricMeta, k: Seq<u8>|
                    !sweepable(*old(self), m, k) ==> (#[trigger] self.store(m).contains_key(k) == old(self).store(m).contains_key(k)
                        && (old(self).store(m).contains_key(k) ==> self.store(m)[k] == old(self).store(m)[k])),
            decreases self.count() - i,
        {
            let kind = self.metrics[i].kind;
            let meta = self.metrics[i].meta;
            if kind != MetricKind::Time {
                proof {
                    lemma_series_prefix(self.metrics@[i as int]);
                }
                let p = copy_bytes(self.metrics[i].prefix.as_slice());
                let ghost before = *self;
                match self.aggregate(meta, p.as_slice(), kind, now) {
                    Ok(()) => {},
                    Err(e) => {
                        return Err(DrainError::Store(e));
                    },
                }
                proof {
                    let m0 = before.store(meta);
                    let m2 = self.store(meta);
                    lemma_rolled_up_keys(m0, m2, p@, kind, now as int);
                    assert(eight_byte_values(m0)) by {
                        assert(before.wf());
                    }
                    lemma_rolled_up_effect(m0, m2, p@, kind, now as int);
                    assert forall|m: MetricMeta, k: Seq<u8>|
                        !sweepable(*old(self), m, k) implies (#[trigger] self.store(m).contains_key(k) == before.store(m).contains_key(k)
                            && (before.store(m).contains_key(k) ==> self.store(m)[k] == before.store(m)[k])) by {
                        if m == meta {
                            if is_row_of(p@, k) {
                                assert(old(self).metrics@[i as int] == self.metrics@[i as int]);
                                assert(sweepable(*old(self), m, k));
                            }
                        } else {
                            assert(before.store(m) == self.store(m));
                        }
                    }
                    assert forall|j: int|
                        0 <= j < self.count() && j != i && (#[trigger] self.metrics@[j]).kind != MetricKind::Time
                            implies rows_of(self.store(self.metrics@[j].meta), self.metrics@[j].prefix@)
                            == rows_of(before.store(self.metrics@[j].meta), self.metrics@[j].prefix@) by {
                        let sj = self.metrics@[j];
                        if sj.meta == meta {
                            let si = self.metrics@[i as int];
                            assert(self.wf());
                            assert(sj.prefix@ != si.prefix@) by {
                                if j < i {
                                    assert(self.metrics@[j].prefix@ != self.metrics@[i as int].prefix@);
                                } else {
                                    assert(self.metrics@[i as int].prefix@ != self.metrics@[j].prefix@);
                                }
                            }
                            lemma_rows_apart(sj, si);
                            lemma_rows_kept(m0, m2, p@, sj.prefix@);
                        } else {
                            assert(before.store(sj.meta) == self.store(sj.meta));
                        }
                    }
                    assert(rows_of(m0, p@) == rows_of(old(self).store(meta), p@));
                    assert(rows_rolled_up(old(self).store(meta), m2, p@, kind, now as int));
                    if at_rest(*old(self), now as int) {
                        assert(old(self).metrics@[i as int] == self.metrics@[i as int]);
                        assert(m0 == old(self).store(meta));
                        crate::laws::lemma_rolled_up_when_swept(m0, m2, p@, kind, now as int);
                    }
                    assert forall|j: int|
                        0 <= j < i + 1 && (#[trigger] self.metrics@[j]).kind != MetricKind::Time
                            implies swept(self.store(self.metrics@[j].meta), self.metrics@[j].prefix@, now as int) by {
                        let sj = self.metrics@[j];
                        if j < i && sj.meta == meta {
                            let si = self.metrics@[i as int];
                            assert(self.wf());
                            assert(sj.prefix@ != si.prefix@) by {
                                assert(self.metrics@[j].prefix@ != self.metrics@[i as int].prefix@);
                            }
                            assert forall|t: i64| #![trigger row_key(sj.prefix@, t as int)] !is_row_of(p@, row_key(sj.prefix@, t as int)) by {
                                if is_row_of(p@, row_key(sj.prefix@, t as int)) {
                                    let u = choose|u: i64| row_key(sj.prefix@, t as int) == #[trigger] row_key(p@, u as int);
                                    lemma_row_keys_apart(sj, si, t as int, u as int);
                                }
                            }
                            assert(swept(m0, sj.prefix@, now as int));
                            assert forall|t: i64| now - 60 < t < now implies !#[trigger] m2.contains_key(row_key(sj.prefix@, t as int)) by {
                                assert(!is_row_of(p@, row_key(sj.prefix@, t as int)));
                                assert(!m0.contains_key(row_key(sj.prefix@, t as int)));
                            }
                            if hourly {
                                assert forall|t: i64| now - 3600 < t < now - 60 implies !#[trigger] m2.contains_key(row_key(sj.prefix@, t as int)) by {
                                    assert(!is_row_of(p@, row_key(sj.prefix@, t as int)));
                                    assert(!m0.contains_key(row_key(sj.prefix@, t as int)));
                                }
                            }
                        } else if j < i {
                            assert(before.store(sj.meta) == self.store(sj.meta));
                        }
                    }
                    if hourly {
                        assert forall|j: int, t: i64|
                            0 <= j < i + 1 && self.metrics@[j].kind != MetricKind::Time && t < cutoff
                                implies !#[trigger] self.store(self.metrics@[j].meta).contains_key(
                            row_key(self.metrics@[j].prefix@, t as int),
                        ) by {
                            let sj = self.metrics@[j];
                            let k = row_key(sj.prefix@, t as int);
                            if j == i {
                                let (m1, m15) = choose|m1: Map<Seq<u8>, Seq<u8>>, m15: Map<Seq<u8>, Seq<u8>>|
                                    #![trigger collapsed(m0, m1, p@, kind, now - 60, now as int), collapsed(m1, m15, p@, kind, now - 3600, now - 60)]
                                    collapsed(m0, m1, p@, kind, now - 60, now as int) && collapsed(
                                        m1,
                                        m15,
                                        p@,
                                        kind,
                                        now - 3600,
                                        now - 60,
                                    ) && m2 == expired(m15, p@, now - 86400);
                                assert(is_old_row(p@, cutoff, k));
                            } else if sj.meta == meta {
                                assert(before.store(sj.meta).contains_key(k) == false);
                                if m2.contains_key(k) {
                                    let si = self.metrics@[i as int];
                                    assert(self.wf());
                                    if k == row_key(p@, now - 60) {
                                        lemma_row_keys_apart(sj, si, t as int, now - 60);
                                    } else {
                                        lemma_row_keys_apart(sj, si, t as int, now - 3600);
                                    }
                                    if j < i {
                                        assert(self.metrics@[j].prefix@ != self.metrics@[i as int].prefix@);
                                    } else {
                                        assert(self.metrics@[i as int].prefix@ != self.metrics@[j].prefix@);
                                    }
                                }
                            } else {
                                assert(before.store(sj.meta) == self.store(sj.meta));
                            }
                        }
                    }
                }
            }
            i = i + 1;
        }
        let ghost rolled = *self;
        let mut i: usize = self.metrics.len();
        while i > 0
            invariant
                self.wf(),
                self.prefix == old(self).prefix,
                self.data == old(self).data,
                rolled.metrics == old(self).metrics,
                rolled.wf(),
                0 <= i <= self.count(),
                self.count() <= rolled.count(),
                forall|j: int| 0 <= j < i ==> #[trigger] self.metrics@[j] == rolled.metrics@[j],
                forall|j: int| 0 <= j < self.count() ==> rolled.has_series(#[trigger] self.metrics@[j]),
                forall|a: int|
                    i <= a < rolled.count() && (#[trigger] rolled.metrics@[a]).kind
                        == MetricKind::Time ==> self.registered(rolled.metrics@[a].prefix@),
                forall|m: MetricMeta, k: Seq<u8>|
                    #[trigger] self.store(m).contains_key(k) ==> rolled.store(m).contains_key(k),
                forall|m: MetricMeta, k: Seq<u8>|
                    !sweepable(*old(self), m, k) ==> (#[trigger] self.store(m).contains_key(k) == rolled.store(m).contains_key(k)
                        && (rolled.store(m).contains_key(k) ==> self.store(m)[k] == rolled.store(m)[k])),
                forall|m: MetricMeta, k: Seq<u8>|
                    !sweepable(*old(self), m, k) ==> (#[trigger] rolled.store(m).contains_key(k) == old(self).store(m).contains_key(k)
                        && (old(self).store(m).contains_key(k) ==> rolled.store(m)[k] == old(self).store(m)[k])),
                forall|m: MetricMeta, k: Seq<u8>|
                    lacks(k, DEL) ==> (#[trigger] self.store(m).contains_key(k) == rolled.store(m).contains_key(k)
                        && (rolled.store(m).contains_key(k) ==> self.store(m)[k] == rolled.store(m)[k])),
                forall|a: int|
                    0 <= a < rolled.count() && (#[trigger] rolled.metrics@[a]).kind != MetricKind::Time
                        ==> swept(rolled.store(rolled.metrics@[a].meta), rolled.metrics@[a].prefix@, now as int),
                forall|a: int|
                    i <= a < rolled.count() && (#[trigger] rolled.metrics@[a]).kind != MetricKind::Time
                        ==> (self.registered(rolled.metrics@[a].prefix@) <==> has_rows(
                        rolled.store(rolled.metrics@[a].meta),
                        rolled.metrics@[a].prefix@,
                    )) && (!self.registered(rolled.metrics@[a].prefix@) ==> !self.store(
                        rolled.metrics@[a].meta,
                    ).contains_key(sentinel(rolled.metrics@[a].prefix@))),
                at_rest(*old(self), now as int) ==> self.metrics == old(self).metrics && self.store(
                    MetricMeta::Cluster,
                ) == old(self).store(MetricMeta::Cluster) && self.store(MetricMeta::ClusterBackend)
                    == old(self).store(MetricMeta::ClusterBackend),
                (forall|j: int| 0 <= j < old(self).count() ==> (#[trigger] old(self).metrics@[j]).kind == MetricKind::Time)
                    ==> self.metrics == old(self).metrics,
            decreases i,
        {
            i = i - 1;
            let kind = self.metrics[i].kind;
            if kind != MetricKind::Time {
                let meta = self.metrics[i].meta;
                let p = copy_bytes(self.metrics[i].prefix.as_slice());
                let end = crate::codec::sentinel_bytes(p.as_slice());
                proof {
                    assert(self.metrics@[i as int] == rolled.metrics@[i as int]);
                    lemma_series_prefix(self.metrics@[i as int]);
                }
                let rows = match self.ns_rows(meta, p.as_slice(), i64::MIN as i128, i64::MAX as i128 + 1) {
                    Ok(rows) => rows,
                    Err(e) => {
                        return Err(DrainError::Store(e));
                    },
                };
                let evict = rows.len() == 0;
                proof {
                    assert(has_rows(rolled.store(meta), p@) == !evict) by {
                        if has_rows(rolled.store(meta), p@) {
                            let t = choose|t: i64| #[trigger] rolled.store(meta).contains_key(row_key(p@, t as int));
                            crate::codec::lemma_row_key_plain(p@, t as int);
                            assert(self.store(meta).contains_key(row_key(p@, t as int)));
                        }
                        if !evict {
                            let t = rows@[0].0;
                            crate::codec::lemma_row_key_plain(p@, t as int);
                            assert(self.store(meta).contains_key(row_key(p@, t as int)));
                            assert(rolled.store(meta).contains_key(row_key(p@, t as int)));
                        }
                    }
                    if at_rest(*old(self), now as int) {
                        assert(old(self).metrics@[i as int] == self.metrics@[i as int]);
                        assert(has_rows(old(self).store(meta), p@));
                    }
                }
                if evict {
                    let ghost before = *self;
                    match self.ns_remove(meta, end.as_slice()) {
                        Ok(()) => {},
                        Err(e) => {
                            return Err(DrainError::Store(e));
                        },
                    }
                    let gone = self.metrics.remove(i);
                    proof {
                        self.lemma_evicted(&before, i as int);
                        crate::codec::lemma_sentinel_marked(p@);
                        assert forall|m: MetricMeta, k: Seq<u8>|
                            !sweepable(*old(self), m, k) implies (#[trigger] self.store(m).contains_key(k) == rolled.store(m).contains_key(k)
                                && (rolled.store(m).contains_key(k) ==> self.store(m)[k] == rolled.store(m)[k])) by {
                            if m == meta && k == sentinel(p@) {
                                assert(old(self).metrics@[i as int] == rolled.metrics@[i as int]);
                                assert(sweepable(*old(self), m, k));
                            }
                            assert(before.store(m).contains_key(k) == rolled.store(m).contains_key(k));
                            if rolled.store(m).contains_key(k) {
                                assert(before.store(m)[k] == rolled.store(m)[k]);
                            }
                            if m == meta {
                                assert(self.store(m) == before.store(m).remove(sentinel(p@)));
                            } else {
                                assert(self.store(m) == before.store(m));
                            }
                        }
                        assert forall|m: MetricMeta, k: Seq<u8>|
                            lacks(k, DEL) implies (#[trigger] self.store(m).contains_key(k) == rolled.store(m).contains_key(k)
                                && (rolled.store(m).contains_key(k) ==> self.store(m)[k] == rolled.store(m)[k])) by {
                            assert(k != sentinel(p@));
                            assert(before.store(m).contains_key(k) == rolled.store(m).contains_key(k));
                            if m == meta {
                                assert(self.store(m) == before.store(m).remove(sentinel(p@)));
                            } else {
                                assert(self.store(m) == before.store(m));
                            }
                            if rolled.store(m).contains_key(k) {
                                assert(before.store(m)[k] == rolled.store(m)[k]);
                            }
                        }
                        assert forall|j: int| 0 <= j < i implies #[trigger] self.metrics@[j]
                            == rolled.metrics@[j] by {
                            assert(self.metrics@[j] == before.metrics@[j]);
                        }
                        assert forall|j: int|
                            0 <= j < self.count() implies rolled.has_series(#[trigger] self.metrics@[j]) by {
                            if j < i {
                                assert(self.metrics@[j] == before.metrics@[j]);
                                assert(rolled.has_series(before.metrics@[j]));
                            } else {
                                assert(self.metrics@[j] == before.metrics@[j + 1]);
                                assert(rolled.has_series(before.metrics@[j + 1]));
                            }
                        }
                        assert forall|a: int| i < a < rolled.count() implies
                            (#[trigger] self.registered(rolled.metrics@[a].prefix@)) == before.registered(rolled.metrics@[a].prefix@) by {
                            let q = rolled.metrics@[a].prefix@;
                            assert(q != p@) by {
                                assert(rolled.metrics@[i as int].prefix@ != rolled.metrics@[a].prefix@);
                            }
                            if before.registered(q) {
                                let j = choose|j: int| 0 <= j < before.count() && #[trigger] before.metrics@[j].prefix@ == q;
                                if j < i {
                                    assert(self.metrics@[j] == before.metrics@[j]);
                                } else {
                                    assert(j != i);
                                    assert(self.metrics@[j - 1] == before.metrics@[j]);
                                }
                            }
                            if self.registered(q) {
                                let j = choose|j: int| 0 <= j < self.count() && #[trigger] self.metrics@[j].prefix@ == q;
                                if j < i {
                                    assert(self.metrics@[j] == before.metrics@[j]);
                                } else {
                                    assert(self.metrics@[j] == before.metrics@[j + 1]);
                                }
                            }
                        }
                        assert(!self.registered(p@)) by {
                            if self.registered(p@) {
                                let j = choose|j: int| 0 <= j < self.count() && #[trigger] self.metrics@[j].prefix@ == p@;
                                if j < i {
                                    assert(self.metrics@[j] == before.metrics@[j]);
                                    assert(before.metrics@[j].prefix@ != before.metrics@[i as int].prefix@);
                                } else {
                                    assert(self.metrics@[j] == before.metrics@[j + 1]);
                                    assert(before.metrics@[i as int].prefix@ != before.metrics@[j + 1].prefix@);
                                }
                            }
                        }
                        assert forall|a: int|
                            i <= a < rolled.count() && (#[trigger] rolled.metrics@[a]).kind
                                == MetricKind::Time implies self.registered(rolled.metrics@[a].prefix@) by {
                            if a == i {
                                assert(rolled.metrics@[a] == before.metrics@[i as int]);
                            }
                        }
                        assert forall|a: int|
                            i <= a < rolled.count() && (#[trigger] rolled.metrics@[a]).kind != MetricKind::Time
                                implies (self.registered(rolled.metrics@[a].prefix@) <==> has_rows(
                                rolled.store(rolled.metrics@[a].meta),
                                rolled.metrics@[a].prefix@,
                            )) && (!self.registered(rolled.metrics@[a].prefix@) ==> !self.store(
                                rolled.metrics@[a].meta,
                            ).contains_key(sentinel(rolled.metrics@[a].prefix@))) by {
                            let sa = rolled.metrics@[a];
                            if a == i {
                                assert(sa == before.metrics@[i as int]);
                            } else {
                                if !self.registered(sa.prefix@) {
                                    assert(!before.store(sa.meta).contains_key(sentinel(sa.prefix@)));
                                }
                            }
                        }
                    }
                } else {
                    proof {
                        assert(self.registered(p@)) by {
                            assert(self.metrics@[i as int].prefix@ == p@);
                        }
                    }
                }
            }
            proof {
                assert forall|a: int|
                    i <= a < rolled.count() && (#[trigger] rolled.metrics@[a]).kind
                        == MetricKind::Time implies self.registered(rolled.metrics@[a].prefix@) by {
                    if a == i {
                        assert(self.metrics@[i as int] == rolled.metrics@[a]);
                    }
                }
            }
        }
        proof {
            assert forall|a: int|
                0 <= a < rolled.count() && (#[trigger] rolled.metrics@[a]).kind != MetricKind::Time
                    implies has_rows(self.store(rolled.metrics@[a].meta), rolled.metrics@[a].prefix@)
                    == has_rows(rolled.store(rolled.metrics@[a].meta), rolled.metrics@[a].prefix@) by {
                let sa = rolled.metrics@[a];
                lemma_series_prefix(sa);
                if has_rows(rolled.store(sa.meta), sa.prefix@) {
                    let t = choose|t: i64| #[trigger] rolled.store(sa.meta).contains_key(row_key(sa.prefix@, t as int));
                    crate::codec::lemma_row_key_plain(sa.prefix@, t as int);
                    assert(self.store(sa.meta).contains_key(row_key(sa.prefix@, t as int)));
                }
                if has_rows(self.store(sa.meta), sa.prefix@) {
                    let t = choose|t: i64| #[trigger] self.store(sa.meta).contains_key(row_key(sa.prefix@, t as int));
                    assert(rolled.store(sa.meta).contains_key(row_key(sa.prefix@, t as int)));
                }
            }
            assert forall|a: int|
                0 <= a < rolled.count() && (#[trigger] rolled.metrics@[a]).kind != MetricKind::Time
                    implies swept(self.store(rolled.metrics@[a].meta), rolled.metrics@[a].prefix@, now as int) by {
                let sa = rolled.metrics@[a];
                assert(swept(rolled.store(sa.meta), sa.prefix@, now as int));
                assert forall|t: i64| now - 60 < t < now implies !#[trigger] self.store(sa.meta).contains_key(row_key(sa.prefix@, t as int)) by {
                    assert(!rolled.store(sa.meta).contains_key(row_key(sa.prefix@, t as int)));
                }
                if minute_of_hour(now as int) == 0 {
                    assert forall|t: i64| now - 3600 < t < now - 60 implies !#[trigger] self.store(sa.meta).contains_key(row_key(sa.prefix@, t as int)) by {
                        assert(!rolled.store(sa.meta).contains_key(row_key(sa.prefix@, t as int)));
                    }
                }
            }
        }
        proof {
            assert forall|a: int|
                0 <= a < rolled.count() && (#[trigger] rolled.metrics@[a]).kind != MetricKind::Time
                    implies rows_rolled_up(
                    old(self).store(rolled.metrics@[a].meta),
                    self.store(rolled.metrics@[a].meta),
                    rolled.metrics@[a].prefix@,
                    rolled.metrics@[a].kind,
                    now as int,
                ) by {
                let sa = rolled.metrics@[a];
                lemma_series_prefix(sa);
                assert forall|t: int| i64::MIN <= t <= i64::MAX implies lacks(#[trigger] row_key(sa.prefix@, t), DEL) by {
                    crate::codec::lemma_row_key_plain(sa.prefix@, t);
                }
                assert(rows_of(self.store(sa.meta), sa.prefix@) =~= rows_of(rolled.store(sa.meta), sa.prefix@));
                assert(rows_rolled_up(old(self).store(sa.meta), rolled.store(sa.meta), sa.prefix@, sa.kind, now as int));
            }
            assert forall|j: int|
                0 <= j < self.count() && (#[trigger] self.metrics@[j]).kind != MetricKind::Time implies {
                    &&& swept(self.store(self.metrics@[j].meta), self.metrics@[j].prefix@, now as int)
                    &&& minute_of_hour(now as int) == 0 ==> forall|t: i64|
                        t < now - 86400 ==> !#[trigger] self.store(self.metrics@[j].meta).contains_key(
                            row_key(self.metrics@[j].prefix@, t as int),
                        )
                    &&& has_rows(self.store(self.metrics@[j].meta), self.metrics@[j].prefix@)
                } by {
                let sj = self.metrics@[j];
                assert(rolled.has_series(sj));
                let a = choose|a: int| 0 <= a < rolled.count() && #[trigger] rolled.metrics@[a] == sj;
                assert(self.registered(sj.prefix@)) by {
                    assert(self.metrics@[j].prefix@ == sj.prefix@);
                }
                assert(old(self).metrics@[a] == sj);
            }
            assert(at_rest(*self, now as int));
        }
        Ok(())
    }

    /// Removing a gauge or counter series together with its sentinel keeps the
    /// drain well formed.
    pub(crate) proof fn lemma_evicted(&self, before: &LocalDrain, i: int)
        requires
            before.wf(),
            0 <= i < before.count(),
            before.metrics@[i].kind != MetricKind::Time,
            self.metrics@ == before.metrics@.remove(i),
            self.same_but_registry(before, before.metrics@[i].meta),
            self.store(before.metrics@[i].meta) == before.store(before.metrics@[i].meta).remove(
                sentinel(before.metrics@[i].prefix@),
            ),
        ensures
            self.wf(),
            forall|m: MetricMeta, k: Seq<u8>|
                #[trigger] self.store(m).contains_key(k) ==> before.store(m).contains_key(k),
    {
        let gone = before.metrics@[i];
        let meta = gone.meta;
        let p = gone.prefix@;
        lemma_series_prefix(gone);
        assert forall|j: int| 0 <= j < self.count() implies (#[trigger] self.metrics@[j]).wf() by {
            if j < i {
                assert(self.metrics@[j] == before.metrics@[j]);
            } else {
                assert(self.metrics@[j] == before.metrics@[j + 1]);
            }
        }
        assert forall|a: int, b: int|
            0 <= a < b < self.count() implies (#[trigger] self.metrics@[a]).prefix@
                != (#[trigger] self.metrics@[b]).prefix@ by {
            let a2 = if a < i { a } else { a + 1 };
            let b2 = if b < i { b } else { b + 1 };
            assert(self.metrics@[a] == before.metrics@[a2]);
            assert(self.metrics@[b] == before.metrics@[b2]);
            assert(before.metrics@[a2].prefix@ != before.metrics@[b2].prefix@);
        }
        assert forall|j: int|
            0 <= j < self.count() implies family_present(
            self.store((#[trigger] self.metrics@[j]).meta),
            self.metrics@[j].prefix@,
            self.metrics@[j].kind,
        ) by {
            let j2 = if j < i { j } else { j + 1 };
            let s = before.metrics@[j2];
            assert(self.metrics@[j] == s);
            assert(family_present(before.store(s.meta), s.prefix@, s.kind));
            assert(s.prefix@ != p) by {
                if j2 < i {
                    assert(before.metrics@[j2].prefix@ != before.metrics@[i].prefix@);
                } else {
                    assert(before.metrics@[i].prefix@ != before.metrics@[j2].prefix@);
                }
            }
            if s.kind == MetricKind::Time {
                assert forall|f: int| 0 <= f < 10 implies #[trigger] self.store(s.meta).contains_key(
                    sentinel(subfield_prefix(s.prefix@, time_field(f))),
                ) by {
                    let sp = subfield_prefix(s.prefix@, time_field(f));
                    assert(before.store(s.meta).contains_key(sentinel(sp)));
                    if sentinel(sp) == sentinel(p) {
                        assert(sp =~= sentinel(sp).drop_last());
                        assert(p =~= sentinel(p).drop_last());
                        assert(sp.last() == SPACE);
                    }
                }
            } else {
                assert(before.store(s.meta).contains_key(sentinel(s.prefix@)));
                if sentinel(s.prefix@) == sentinel(p) {
                    assert(s.prefix@ =~= sentinel(s.prefix@).drop_last());
                    assert(p =~= sentinel(p).drop_last());
                }
            }
        }
        assert forall|m: MetricMeta, k: Seq<u8>|
            #[trigger] self.store(m).contains_key(k) && !lacks(k, DEL) implies self.sentinel_owned(
            m,
            k,
        ) by {
            assert(before.store(m).contains_key(k));
            assert(before.sentinel_owned(m, k));
            let a = choose|a: int|
                0 <= a < before.count() && #[trigger] before.metrics@[a].meta == m && is_family_sentinel(
                    before.metrics@[a].prefix@,
                    before.metrics@[a].kind,
                    k,
                );
            if a < i {
                assert(self.metrics@[a] == before.metrics@[a]);
            } else if a > i {
                assert(self.metrics@[a - 1] == before.metrics@[a]);
            } else {
                assert(k == sentinel(p));
                assert(false);
            }
        }
        assert forall|m: MetricMeta, k: Seq<u8>| #[trigger]
            self.store(m).contains_key(k) implies self.store(m)[k].len() == 8 by {
            assert(before.store(m).contains_key(k));
        }
    }

    /// `s` is one of the registered series.
    pub open spec fn has_series(&self, s: Series) -> bool {
        exists|a: int| 0 <= a < self.count() && #[trigger] self.metrics@[a] == s
    }

    /// Everything but the registry and the namespace `meta` is as in `old`.
    pub open spec fn same_but_registry(&self, old: &LocalDrain, meta: MetricMeta) -> bool {
        &&& self.prefix == old.prefix
        &&& self.data == old.data
        &&& meta == MetricMeta::Cluster ==> contents(self.backend_tree) == contents(old.backend_tree)
        &&& meta == MetricMeta::ClusterBackend ==> contents(self.cluster_tree) == contents(
            old.cluster_tree,
        )
    }
}

} // verus!
