//! Properties of the drain that relate several operations or hold of every state.
use vstd::prelude::*;

use crate::clock::minute_of_hour;
use crate::codec::{
    DEL, in_prefix_range, lex_le, lex_lt, row_key, row_second, sentinel, starts_with,
};
use crate::drain::{LocalDrain, family_present, is_family_sentinel, window_rows};
use crate::ingest::gauge_set;
use crate::metric::{FilteredData, MetricKind};
use crate::query::{greatest_below, latest_of, series_value};
use crate::rollup::{
    collapse_with, collapsed, combined, eight_byte_values, expired, is_old_row, latest,
    lemma_collapse_effect, rolled_up, row_keys, settled, wsum,
};
use crate::timeseries::{TimeStats, next_stats, ordered};
use crate::value::{bits_of, i64_of, le_bytes, u64_of};

verus! {

/// Two registered prefixes, neither of which extends the other, own disjoint
/// key ranges: no key lies between both prefixes and their sentinels.
pub proof fn lemma_disjoint_ranges(d: LocalDrain, a: Seq<u8>, b: Seq<u8>)
    requires
        d.wf(),
        d.registered(a),
        d.registered(b),
        a != b,
        !starts_with(a, b),
        !starts_with(b, a),
    ensures
        forall|k: Seq<u8>| !(#[trigger] in_prefix_range(k, a) && in_prefix_range(k, b)),
{
    assert forall|k: Seq<u8>| !(#[trigger] in_prefix_range(k, a) && in_prefix_range(k, b)) by {
        if in_prefix_range(k, a) && in_prefix_range(k, b) {
            crate::codec::lemma_in_range_starts_with(k, a);
            crate::codec::lemma_in_range_starts_with(k, b);
            if a.len() <= b.len() {
                assert(b.subrange(0, a.len() as int) =~= k.subrange(0, a.len() as int));
            } else {
                assert(a.subrange(0, b.len() as int) =~= k.subrange(0, b.len() as int));
            }
        }
    }
}

/// Within a series, at most one stored key decodes to any given second.
pub proof fn lemma_one_row_per_second(m: Map<Seq<u8>, Seq<u8>>, p: Seq<u8>, t: int)
    ensures
        forall|k1: Seq<u8>, k2: Seq<u8>|
            m.contains_key(k1) && m.contains_key(k2) && #[trigger] row_second(p, k1) == Some(t)
                && #[trigger] row_second(p, k2) == Some(t) ==> k1 == k2,
{
    assert forall|k1: Seq<u8>, k2: Seq<u8>|
        m.contains_key(k1) && m.contains_key(k2) && #[trigger] row_second(p, k1) == Some(t)
            && #[trigger] row_second(p, k2) == Some(t) implies k1 == k2 by {
        let u1 = choose|u: int| i64::MIN <= u <= i64::MAX && k1 == row_key(p, u);
        let u2 = choose|u: int| i64::MIN <= u <= i64::MAX && k2 == row_key(p, u);
    }
}

/// Two seconds never share a row key within one series.
pub proof fn lemma_row_key_per_second(p: Seq<u8>, t1: int, t2: int)
    requires
        t1 != t2,
    ensures
        row_key(p, t1) != row_key(p, t2),
{
    if row_key(p, t1) == row_key(p, t2) {
        crate::codec::lemma_row_key_injective(p, t1, t2);
    }
}

pub proof fn lemma_lex_total(a: Seq<u8>, b: Seq<u8>)
    ensures
        a == b || lex_lt(a, b) || lex_lt(b, a),
    decreases a.len(),
{
    if a.len() > 0 && b.len() > 0 && a[0] == b[0] {
        lemma_lex_total(a.drop_first(), b.drop_first());
        if a.drop_first() == b.drop_first() {
            assert(a =~= seq![a[0]] + a.drop_first());
            assert(b =~= seq![b[0]] + b.drop_first());
        }
    } else if a.len() == 0 && b.len() == 0 {
        assert(a =~= b);
    }
}

/// A gauge set at `now` is what a query of the series reads back, when no other
/// key of the namespace lies between the new row and the series' sentinel (a
/// row of a later second with a longer decimal, or a series whose id extends
/// this one, would).
pub proof fn lemma_gauge_latest_wins(m: Map<Seq<u8>, Seq<u8>>, p: Seq<u8>, v: u64, now: int)
    requires
        m.contains_key(sentinel(p)),
        forall|k: Seq<u8>|
            #[trigger] m.contains_key(k) && k != row_key(p, now) ==> !(lex_lt(row_key(p, now), k)
                && lex_lt(k, sentinel(p))),
    ensures
        latest_of(gauge_set(m, p, v, now), p) == Some(le_bytes(v)),
        series_value(gauge_set(m, p, v, now), p, MetricKind::Gauge, true) == Some(
            FilteredData::Gauge(#[verifier::truncate] (v as usize)),
        ),
{
    let m1 = gauge_set(m, p, v, now);
    let r = row_key(p, now);
    crate::codec::lemma_row_in_range(p, now);
    assert forall|k3: Seq<u8>| #[trigger] m1.contains_key(k3) && lex_lt(k3, sentinel(p)) implies lex_le(
        k3,
        r,
    ) by {
        lemma_lex_total(k3, r);
    }
    assert(greatest_below(m1, sentinel(p), r));
    let c = choose|c: Seq<u8>| greatest_below(m1, sentinel(p), c);
    assert(lex_le(c, r) && lex_le(r, c));
    crate::query::lemma_lex_asymmetric(c, r);
    assert(c == r);
    assert(r.subrange(0, p.len() as int) =~= p);
    crate::value::lemma_le_round_trip(v);
}

/// Every stored latency row keeps its percentiles in order, whatever the
/// estimator proposes.
pub proof fn lemma_percentiles_ordered(old: Option<TimeStats>, t: u64, proposal: TimeStats)
    ensures
        ordered(next_stats(old, t, proposal)),
{
}

/// Collapsing a window twice is collapsing it once.
pub proof fn lemma_collapse_idempotent(
    m0: Map<Seq<u8>, Seq<u8>>,
    m1: Map<Seq<u8>, Seq<u8>>,
    m2: Map<Seq<u8>, Seq<u8>>,
    p: Seq<u8>,
    kind: MetricKind,
    lo: int,
    hi: int,
)
    requires
        i64::MIN <= lo < hi,
        lo <= i64::MAX,
        kind != MetricKind::Time,
        forall|k: Seq<u8>| #[trigger] m0.contains_key(k) ==> m0[k].len() == 8,
        collapsed(m0, m1, p, kind, lo, hi),
        collapsed(m1, m2, p, kind, lo, hi),
    ensures
        m2 == m1,
{
    let rows0 = choose|rows: Seq<(i64, Vec<u8>)>|
        window_rows(m0, p, lo, hi, rows) && m1 == #[trigger] collapse_with(m0, p, kind, lo, rows);
    let rows1 = choose|rows: Seq<(i64, Vec<u8>)>|
        window_rows(m1, p, lo, hi, rows) && m2 == #[trigger] collapse_with(m1, p, kind, lo, rows);
    let rlo = row_key(p, lo);
    if rows0.len() == 0 {
        assert(m1 == m0);
        if rows1.len() > 0 {
            let t = rows1[0].0;
            assert(m1.contains_key(row_key(p, t as int)));
            let i = choose|i: int| 0 <= i < rows0.len() && #[trigger] rows0[i].0 == t;
        }
    } else {
        let n0 = rows0.len() as int;
        let lo64 = lo as i64;
        assert(m1.contains_key(rlo));
        assert(m1.contains_key(row_key(p, lo64 as int)));
        let j = choose|j: int| 0 <= j < rows1.len() && #[trigger] rows1[j].0 == lo64;
        assert forall|i: int| 0 <= i < rows1.len() implies #[trigger] rows1[i].0 == lo64 by {
            let t = rows1[i].0;
            if t != lo64 {
                let k = row_key(p, t as int);
                assert(m1.contains_key(k));
                lemma_row_key_per_second(p, t as int, lo);
                assert(m0.contains_key(k));
                let a = choose|a: int| 0 <= a < rows0.len() && #[trigger] rows0[a].0 == t;
                assert(row_keys(p, rows0, n0).contains(k));
            }
        }
        if rows1.len() > 1 {
            let other = if j == 0 { 1int } else { 0int };
            assert(rows1[other].0 == rows1[j].0);
        }
        assert(rows1.len() == 1);
        assert(rows1[0].1@ == m1[rlo]);
        let c0 = combined(kind, rows0);
        assert(m1[rlo] == c0);
        assert(row_keys(p, rows1, 1) =~= set![rlo]) by {
            assert forall|x: Seq<u8>| row_keys(p, rows1, 1).contains(x) implies x == rlo by {}
            assert(row_keys(p, rows1, 1).contains(rlo)) by {
                assert(0 <= 0 < 1 && rlo == row_key(p, rows1[0].0 as int));
            }
        }
        if kind == MetricKind::Count {
            let s = wsum(rows0, n0);
            crate::value::lemma_i64_round_trip(s);
            assert(c0 == le_bytes(bits_of(s)));
            assert(i64_of(rows1[0].1@) == s);
            assert(wsum(rows1, 0) == 0);
            assert(crate::value::add_wrapping(0, s) == s);
            assert(wsum(rows1, 1) == s);
        } else {
            assert(latest(rows1, 1) == latest(rows1, 0));
        }
        assert(combined(kind, rows1) == c0);
        assert(m2 =~= m1);
    }
}


/// Collapsing a settled window changes nothing.
pub proof fn lemma_collapse_settled(
    m: Map<Seq<u8>, Seq<u8>>,
    m1: Map<Seq<u8>, Seq<u8>>,
    p: Seq<u8>,
    kind: MetricKind,
    lo: int,
    hi: int,
)
    requires
        i64::MIN <= lo < hi,
        lo <= i64::MAX,
        kind != MetricKind::Time,
        eight_byte_values(m),
        settled(m, p, lo, hi),
        collapsed(m, m1, p, kind, lo, hi),
    ensures
        m1 == m,
{
    let rows = choose|rows: Seq<(i64, Vec<u8>)>|
        window_rows(m, p, lo, hi, rows) && m1 == #[trigger] collapse_with(m, p, kind, lo, rows);
    let rlo = row_key(p, lo);
    if rows.len() > 0 {
        let lo64 = lo as i64;
        assert forall|i: int| 0 <= i < rows.len() implies #[trigger] rows[i].0 == lo64 by {
            assert(m.contains_key(row_key(p, rows[i].0 as int)));
        }
        if rows.len() > 1 {
            assert(rows[0].0 == rows[1].0);
        }
        assert(rows.len() == 1);
        let v = m[rlo];
        assert(rows[0].1@ == v);
        assert(row_keys(p, rows, 1) =~= set![rlo]) by {
            assert forall|x: Seq<u8>| row_keys(p, rows, 1).contains(x) implies x == rlo by {}
            assert(row_keys(p, rows, 1).contains(rlo)) by {
                assert(0 <= 0 < 1 && rlo == row_key(p, rows[0].0 as int));
            }
        }
        if kind == MetricKind::Count {
            assert(wsum(rows, 0) == 0);
            assert(wsum(rows, 1) == i64_of(v));
            assert(v.len() == 8);
            lemma_le_of_i64_of(v);
        } else {
            assert(latest(rows, 1) == latest(rows, 0));
        }
        assert(combined(kind, rows) == v);
        assert(m1 =~= m);
    }
}

/// Eight bytes read as a signed number and written back are the same bytes.
pub proof fn lemma_le_of_i64_of(v: Seq<u8>)
    requires
        v.len() == 8,
    ensures
        le_bytes(bits_of(i64_of(v))) == v,
{
    vstd::bytes::lemma_auto_spec_u64_to_from_le_bytes();
    let u = u64_of(v);
    assert(bits_of(#[verifier::truncate] (u as i64)) == u) by (bit_vector);
}

/// Rolling a series up twice at the same time is rolling it up once.
pub proof fn lemma_rolled_up_idempotent(
    m0: Map<Seq<u8>, Seq<u8>>,
    m1: Map<Seq<u8>, Seq<u8>>,
    m2: Map<Seq<u8>, Seq<u8>>,
    p: Seq<u8>,
    kind: MetricKind,
    now: int,
)
    requires
        i64::MIN + 86400 <= now <= i64::MAX,
        kind != MetricKind::Time,
        eight_byte_values(m0),
        rolled_up(m0, m1, p, kind, now),
        rolled_up(m1, m2, p, kind, now),
    ensures
        m2 == m1,
{
    if minute_of_hour(now) == 0 {
        let (a, b) = choose|a: Map<Seq<u8>, Seq<u8>>, b: Map<Seq<u8>, Seq<u8>>|
            #![trigger collapsed(m0, a, p, kind, now - 60, now), collapsed(a, b, p, kind, now - 3600, now - 60)]
            collapsed(m0, a, p, kind, now - 60, now) && collapsed(a, b, p, kind, now - 3600, now - 60)
                && m1 == expired(b, p, now - 86400);
        lemma_collapse_effect(m0, a, p, kind, now - 60, now);
        lemma_collapse_effect(a, b, p, kind, now - 3600, now - 60);
        let cutoff = now - 86400;
        assert forall|t: i64| #[trigger] m1.contains_key(row_key(p, t as int)) <==> (b.contains_key(
            row_key(p, t as int),
        ) && t >= cutoff) by {
            let k = row_key(p, t as int);
            if is_old_row(p, cutoff, k) {
                let u = choose|u: i64| u < cutoff && k == #[trigger] row_key(p, u as int);
                crate::codec::lemma_row_key_injective(p, t as int, u as int);
            }
            if t < cutoff {
                assert(is_old_row(p, cutoff, k));
            }
        }
        assert(eight_byte_values(m1));
        assert(settled(m1, p, now - 60, now));
        assert(settled(m1, p, now - 3600, now - 60));
        let (c, d) = choose|c: Map<Seq<u8>, Seq<u8>>, d: Map<Seq<u8>, Seq<u8>>|
            #![trigger collapsed(m1, c, p, kind, now - 60, now), collapsed(c, d, p, kind, now - 3600, now - 60)]
            collapsed(m1, c, p, kind, now - 60, now) && collapsed(c, d, p, kind, now - 3600, now - 60)
                && m2 == expired(d, p, now - 86400);
        lemma_collapse_settled(m1, c, p, kind, now - 60, now);
        lemma_collapse_settled(c, d, p, kind, now - 3600, now - 60);
        assert forall|k: Seq<u8>| m1.contains_key(k) implies !is_old_row(p, cutoff, k) by {
            if is_old_row(p, cutoff, k) {
                let u = choose|u: i64| u < cutoff && k == #[trigger] row_key(p, u as int);
                assert(m1.contains_key(row_key(p, u as int)));
            }
        }
        assert(m2 =~= m1);
    } else {
        lemma_collapse_idempotent(m0, m1, m2, p, kind, now - 60, now);
    }
}


/// A counter roll-up keeps the total of a window: the one row left at `lo`
/// holds the wrapping sum of the rows it replaced, and an empty window is left
/// as it is.
pub proof fn lemma_counter_collapse_keeps_sum(
    m0: Map<Seq<u8>, Seq<u8>>,
    m1: Map<Seq<u8>, Seq<u8>>,
    p: Seq<u8>,
    lo: int,
    hi: int,
)
    requires
        collapsed(m0, m1, p, MetricKind::Count, lo, hi),
    ensures
        exists|rows: Seq<(i64, Vec<u8>)>|
            #![trigger window_rows(m0, p, lo, hi, rows)]
            window_rows(m0, p, lo, hi, rows) && if rows.len() == 0 {
                m1 == m0
            } else {
                m1.contains_key(row_key(p, lo)) && i64_of(m1[row_key(p, lo)]) == wsum(
                    rows,
                    rows.len() as int,
                )
            },
{
    let rows = choose|rows: Seq<(i64, Vec<u8>)>|
        window_rows(m0, p, lo, hi, rows) && m1 == #[trigger] collapse_with(
            m0,
            p,
            MetricKind::Count,
            lo,
            rows,
        );
    if rows.len() > 0 {
        crate::value::lemma_i64_round_trip(wsum(rows, rows.len() as int));
    }
}


/// Registry and store agree in every reachable state: each registered series
/// has its sentinels in its own namespace, and each key holding the upper-bound
/// byte is a sentinel of a registered series of that namespace.
pub proof fn lemma_sentinels_match_registry(d: LocalDrain)
    requires
        d.wf(),
    ensures
        forall|i: int|
            0 <= i < d.count() ==> family_present(
                d.store((#[trigger] d.metrics@[i]).meta),
                d.metrics@[i].prefix@,
                d.metrics@[i].kind,
            ),
        forall|meta: crate::metric::MetricMeta, k: Seq<u8>|
            #[trigger] d.store(meta).contains_key(k) && !crate::codec::lacks(k, DEL) ==> exists|i: int|
                0 <= i < d.count() && d.metrics@[i].meta == meta && #[trigger] is_family_sentinel(
                    d.metrics@[i].prefix@,
                    d.metrics@[i].kind,
                    k,
                ),
{
    assert forall|meta: crate::metric::MetricMeta, k: Seq<u8>|
        #[trigger] d.store(meta).contains_key(k) && !crate::codec::lacks(k, DEL) implies exists|i: int|
            0 <= i < d.count() && d.metrics@[i].meta == meta && #[trigger] is_family_sentinel(
                d.metrics@[i].prefix@,
                d.metrics@[i].kind,
                k,
            ) by {
        assert(d.sentinel_owned(meta, k));
    }
}


/// Rolling up a series that a sweep at `now` already left rolled up, with no
/// row older than a day at the start of an hour, changes nothing: the roll-up
/// half of a second `clear(now)` is a no-op.
pub proof fn lemma_rolled_up_when_swept(
    m: Map<Seq<u8>, Seq<u8>>,
    m2: Map<Seq<u8>, Seq<u8>>,
    p: Seq<u8>,
    kind: MetricKind,
    now: int,
)
    requires
        i64::MIN + 86400 <= now <= i64::MAX,
        kind != MetricKind::Time,
        eight_byte_values(m),
        crate::sweep::swept(m, p, now),
        minute_of_hour(now) == 0 ==> forall|t: i64|
            t < now - 86400 ==> !#[trigger] m.contains_key(row_key(p, t as int)),
        rolled_up(m, m2, p, kind, now),
    ensures
        m2 == m,
{
    if minute_of_hour(now) == 0 {
        let (c, d) = choose|c: Map<Seq<u8>, Seq<u8>>, d: Map<Seq<u8>, Seq<u8>>|
            #![trigger collapsed(m, c, p, kind, now - 60, now), collapsed(c, d, p, kind, now - 3600, now - 60)]
            collapsed(m, c, p, kind, now - 60, now) && collapsed(c, d, p, kind, now - 3600, now - 60)
                && m2 == expired(d, p, now - 86400);
        lemma_collapse_settled(m, c, p, kind, now - 60, now);
        lemma_collapse_settled(c, d, p, kind, now - 3600, now - 60);
        assert forall|k: Seq<u8>| m.contains_key(k) implies !is_old_row(p, now - 86400, k) by {
            if is_old_row(p, now - 86400, k) {
                let u = choose|u: i64| u < now - 86400 && k == #[trigger] row_key(p, u as int);
            }
        }
        assert(m2 =~= m);
    } else {
        lemma_collapse_settled(m, m2, p, kind, now - 60, now);
    }
}

} // verus!
