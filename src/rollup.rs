//! Roll-up of one series: the last minute into its first second, the last
//! hour into its first second, and retention of one day.
use vstd::prelude::*;

use crate::clock::{clock_position, minute_of_hour};
use crate::codec::{DEL, lacks, row_key};
use crate::drain::{LocalDrain, copy_bytes, rows_in_window, window_rows};
use crate::metric::{MetricKind, MetricMeta};
use crate::value::{add_wrapping, bits_of, decode_i64, encode_i64, i64_of, wrapping_sum};

verus! {

/// Wrapping sum of the first `n` row values.
pub open spec fn wsum(rows: Seq<(i64, Vec<u8>)>, n: int) -> i64
    decreases n,
{
    if n <= 0 {
        0
    } else {
        add_wrapping(wsum(rows, n - 1), i64_of(rows[n - 1].1@))
    }
}

/// The row with the largest second among the first `n` (the first of them
/// when `n` is zero).
pub open spec fn latest(rows: Seq<(i64, Vec<u8>)>, n: int) -> (i64, Seq<u8>)
    decreases n,
{
    if n <= 1 {
        (rows[0].0, rows[0].1@)
    } else {
        let prev = latest(rows, n - 1);
        if rows[n - 1].0 > prev.0 {
            (rows[n - 1].0, rows[n - 1].1@)
        } else {
            prev
        }
    }
}

/// The one value that replaces the rows of a window: the latest for a gauge,
/// the sum for a counter.
pub open spec fn combined(kind: MetricKind, rows: Seq<(i64, Vec<u8>)>) -> Seq<u8> {
    if kind == MetricKind::Count {
        crate::value::le_bytes(bits_of(wsum(rows, rows.len() as int)))
    } else {
        latest(rows, rows.len() as int).1
    }
}

/// Keys of the first `n` rows.
pub open spec fn row_keys(p: Seq<u8>, rows: Seq<(i64, Vec<u8>)>, n: int) -> Set<Seq<u8>> {
    Set::new(|k: Seq<u8>| exists|j: int| 0 <= j < n && k == row_key(p, rows[j].0 as int))
}

/// The store once the rows of a window are replaced by one row at `lo`.
pub open spec fn collapse_with(
    m: Map<Seq<u8>, Seq<u8>>,
    p: Seq<u8>,
    kind: MetricKind,
    lo: int,
    rows: Seq<(i64, Vec<u8>)>,
) -> Map<Seq<u8>, Seq<u8>> {
    if rows.len() == 0 {
        m
    } else {
        m.remove_keys(row_keys(p, rows, rows.len() as int)).insert(
            row_key(p, lo),
            combined(kind, rows),
        )
    }
}

/// `m1` is `m0` with the rows of `p` in `[lo, hi)` collapsed into one row at `lo`.
pub open spec fn collapsed(
    m0: Map<Seq<u8>, Seq<u8>>,
    m1: Map<Seq<u8>, Seq<u8>>,
    p: Seq<u8>,
    kind: MetricKind,
    lo: int,
    hi: int,
) -> bool {
    exists|rows: Seq<(i64, Vec<u8>)>|
        window_rows(m0, p, lo, hi, rows) && m1 == #[trigger] collapse_with(m0, p, kind, lo, rows)
}

/// `k` is a row of `p` older than `cutoff`.
pub open spec fn is_old_row(p: Seq<u8>, cutoff: int, k: Seq<u8>) -> bool {
    exists|t: i64| t < cutoff && k == #[trigger] row_key(p, t as int)
}

/// The store without the rows of `p` older than `cutoff`.
pub open spec fn expired(m: Map<Seq<u8>, Seq<u8>>, p: Seq<u8>, cutoff: int) -> Map<
    Seq<u8>,
    Seq<u8>,
> {
    Map::new(|k: Seq<u8>| m.contains_key(k) && !is_old_row(p, cutoff, k), |k: Seq<u8>| m[k])
}

/// The roll-up of one series at `now`: the last minute collapses into its first
/// second; at the start of an hour the rest of the last hour collapses into its
/// first second and the rows older than a day go.
pub open spec fn rolled_up(
    m0: Map<Seq<u8>, Seq<u8>>,
    m2: Map<Seq<u8>, Seq<u8>>,
    p: Seq<u8>,
    kind: MetricKind,
    now: int,
) -> bool {
    if minute_of_hour(now) == 0 {
        exists|m1: Map<Seq<u8>, Seq<u8>>, m15: Map<Seq<u8>, Seq<u8>>|
            #![trigger collapsed(m0, m1, p, kind, now - 60, now), collapsed(m1, m15, p, kind, now - 3600, now - 60)]
            collapsed(m0, m1, p, kind, now - 60, now) && collapsed(
                m1,
                m15,
                p,
                kind,
                now - 3600,
                now - 60,
            ) && m2 == expired(m15, p, now - 86400)
    } else {
        collapsed(m0, m2, p, kind, now - 60, now)
    }
}

impl LocalDrain {
    /// The rows of `p` in the namespace `meta` whose second lies in `[lo, hi)`.
    pub(crate) fn ns_rows(&self, meta: MetricMeta, p: &[u8], lo: i128, hi: i128) -> (r: Result<
        Vec<(i64, Vec<u8>)>,
        sled::Error,
    >)
        ensures
            r matches Ok(rows) ==> window_rows(self.store(meta), p@, lo as int, hi as int, rows@),
    {
        match meta {
            MetricMeta::Cluster => rows_in_window(&self.cluster_tree, p, lo, hi),
            MetricMeta::ClusterBackend => rows_in_window(&self.backend_tree, p, lo, hi),
        }
    }

    /// Replaces the rows of `p` in `[lo, hi)` by one row at `lo`.
    pub(crate) fn collapse(&mut self, meta: MetricMeta, p: &[u8], kind: MetricKind, lo: i64, hi: i64) -> (r:
        Result<(), sled::Error>)
        requires
            old(self).wf(),
            lacks(p@, DEL),
        ensures
            final(self).same_but(old(self), meta),
            r is Ok ==> final(self).wf(),
            r is Ok ==> collapsed(
                old(self).store(meta),
                final(self).store(meta),
                p@,
                kind,
                lo as int,
                hi as int,
            ),
    {
        let ghost m0 = self.store(meta);
        let rows = match self.ns_rows(meta, p, lo as i128, hi as i128) {
            Ok(rows) => rows,
            Err(e) => {
                return Err(e);
            },
        };
        if rows.len() == 0 {
            assert(collapse_with(m0, p@, kind, lo as int, rows@) == m0);
            return Ok(());
        }
        let mut sum: i64 = 0;
        let mut best_ts: i64 = rows[0].0;
        let mut best_val: Vec<u8> = copy_bytes(rows[0].1.as_slice());
        let mut i: usize = 0;
        while i < rows.len()
            invariant
                self.wf(),
                self.same_but(old(self), meta),
                m0 == old(self).store(meta),
                old(self).wf(),
                lacks(p@, DEL),
                0 <= i <= rows@.len(),
                rows@.len() > 0,
                window_rows(m0, p@, lo as int, hi as int, rows@),
                self.store(meta) == m0.remove_keys(row_keys(p@, rows@, i as int)),
                sum == wsum(rows@, i as int),
                best_val@.len() == 8,
                i > 0 ==> (best_ts, best_val@) == latest(rows@, i as int),
                i == 0 ==> (best_ts, best_val@) == latest(rows@, 0),
            decreases rows@.len() - i,
        {
            let t = rows[i].0;
            let ghost k = row_key(p@, t as int);
            proof {
                assert(m0.contains_key(k));
                assert(old(self).store(meta).contains_key(k));
            }
            let v = decode_i64(rows[i].1.as_slice());
            sum = wrapping_sum(sum, v);
            if i > 0 && t > best_ts {
                best_ts = t;
                best_val = copy_bytes(rows[i].1.as_slice());
            }
            match self.drop_row(meta, p, t) {
                Ok(()) => {},
                Err(e) => {
                    return Err(e);
                },
            }
            proof {
                let s1 = row_keys(p@, rows@, i as int);
                let s2 = row_keys(p@, rows@, i + 1);
                assert(s2 =~= s1.insert(k)) by {
                    assert forall|x: Seq<u8>| s2.contains(x) implies s1.insert(k).contains(x) by {
                        let j = choose|j: int| 0 <= j < i + 1 && x == row_key(p@, rows@[j].0 as int);
                        if j < i {
                            assert(s1.contains(x));
                        }
                    }
                    assert forall|x: Seq<u8>| s1.insert(k).contains(x) implies s2.contains(x) by {
                        if x == k {
                            assert(0 <= i < i + 1 && x == row_key(p@, rows@[i as int].0 as int));
                        } else {
                            let j = choose|j: int| 0 <= j < i && x == row_key(p@, rows@[j].0 as int);
                            assert(0 <= j < i + 1 && x == row_key(p@, rows@[j].0 as int));
                        }
                    }
                }
                assert(self.store(meta) =~= m0.remove_keys(s2));
            }
            i = i + 1;
        }
        let val = if kind == MetricKind::Count {
            encode_i64(sum)
        } else {
            best_val
        };
        proof {
            if kind != MetricKind::Count {
                if rows@.len() == 1 {
                    assert(latest(rows@, 1) == latest(rows@, 0));
                }
            }
        }
        match self.put_row(meta, p, lo, val.as_slice()) {
            Ok(()) => {},
            Err(e) => {
                return Err(e);
            },
        }
        proof {
            assert(self.store(meta) == collapse_with(m0, p@, kind, lo as int, rows@));
        }
        Ok(())
    }

    /// Removes the rows of `p` older than `cutoff`.
    pub(crate) fn expire(&mut self, meta: MetricMeta, p: &[u8], cutoff: i64) -> (r: Result<(), sled::Error>)
        requires
            old(self).wf(),
            lacks(p@, DEL),
        ensures
            final(self).same_but(old(self), meta),
            r is Ok ==> final(self).wf(),
            r is Ok ==> final(self).store(meta) == expired(old(self).store(meta), p@, cutoff as int),
    {
        let ghost m0 = self.store(meta);
        let rows = match self.ns_rows(meta, p, i64::MIN as i128, cutoff as i128) {
            Ok(rows) => rows,
            Err(e) => {
                return Err(e);
            },
        };
        let mut i: usize = 0;
        while i < rows.len()
            invariant
                self.wf(),
                self.same_but(old(self), meta),
                m0 == old(self).store(meta),
                lacks(p@, DEL),
                0 <= i <= rows@.len(),
                window_rows(m0, p@, i64::MIN as int, cutoff as int, rows@),
                self.store(meta) == m0.remove_keys(row_keys(p@, rows@, i as int)),
            decreases rows@.len() - i,
        {
            let t = rows[i].0;
            let ghost k = row_key(p@, t as int);
            match self.drop_row(meta, p, t) {
                Ok(()) => {},
                Err(e) => {
                    return Err(e);
                },
            }
            proof {
                let s1 = row_keys(p@, rows@, i as int);
                let s2 = row_keys(p@, rows@, i + 1);
                assert(s2 =~= s1.insert(k)) by {
                    assert forall|x: Seq<u8>| s2.contains(x) implies s1.insert(k).contains(x) by {
                        let j = choose|j: int| 0 <= j < i + 1 && x == row_key(p@, rows@[j].0 as int);
                        if j < i {
                            assert(s1.contains(x));
                        }
                    }
                    assert forall|x: Seq<u8>| s1.insert(k).contains(x) implies s2.contains(x) by {
                        if x == k {
                            assert(0 <= i < i + 1 && x == row_key(p@, rows@[i as int].0 as int));
                        } else {
                            let j = choose|j: int| 0 <= j < i && x == row_key(p@, rows@[j].0 as int);
                            assert(0 <= j < i + 1 && x == row_key(p@, rows@[j].0 as int));
                        }
                    }
                }
                assert(self.store(meta) =~= m0.remove_keys(s2));
            }
            i = i + 1;
        }
        proof {
            let n = rows@.len() as int;
            assert forall|k: Seq<u8>| m0.contains_key(k) implies (row_keys(p@, rows@, n).contains(k)
                <==> is_old_row(p@, cutoff as int, k)) by {
                if row_keys(p@, rows@, n).contains(k) {
                    let j = choose|j: int| 0 <= j < n && k == row_key(p@, rows@[j].0 as int);
                    assert(rows@[j].0 < cutoff);
                    assert(is_old_row(p@, cutoff as int, k));
                }
                if is_old_row(p@, cutoff as int, k) {
                    let t = choose|t: i64| t < cutoff && k == #[trigger] row_key(p@, t as int);
                    assert(m0.contains_key(row_key(p@, t as int)));
                    let j = choose|j: int| 0 <= j < n && #[trigger] rows@[j].0 == t;
                    assert(row_keys(p@, rows@, n).contains(k));
                }
            }
            assert(self.store(meta) =~= expired(m0, p@, cutoff as int));
        }
        Ok(())
    }

    /// Rolls up the series `p` at `now`.
    pub(crate) fn aggregate(&mut self, meta: MetricMeta, p: &[u8], kind: MetricKind, now: i64) -> (r: Result<
        (),
        sled::Error,
    >)
        requires
            old(self).wf(),
            lacks(p@, DEL),
            now >= i64::MIN + 86400,
        ensures
            final(self).same_but(old(self), meta),
            r is Ok ==> final(self).wf(),
            r is Ok ==> rolled_up(old(self).store(meta), final(self).store(meta), p@, kind, now as int),
    {
        let ghost m0 = self.store(meta);
        match self.collapse(meta, p, kind, now - 60, now) {
            Ok(()) => {},
            Err(e) => {
                return Err(e);
            },
        }
        let ghost m1 = self.store(meta);
        let (_, minute) = clock_position(now);
        if minute == 0 {
            match self.collapse(meta, p, kind, now - 3600, now - 60) {
                Ok(()) => {},
                Err(e) => {
                    return Err(e);
                },
            }
            let ghost m15 = self.store(meta);
            match self.expire(meta, p, now - 86400) {
                Ok(()) => {},
                Err(e) => {
                    return Err(e);
                },
            }
            assert(collapsed(m0, m1, p@, kind, now - 60, now as int) && collapsed(
                m1,
                m15,
                p@,
                kind,
                now - 3600,
                now - 60,
            ));
        }
        Ok(())
    }
}

/// Every value of `m` is eight bytes.
pub open spec fn eight_byte_values(m: Map<Seq<u8>, Seq<u8>>) -> bool {
    forall|k: Seq<u8>| #[trigger] m.contains_key(k) ==> m[k].len() == 8
}

/// The rows of `p` in `[lo, hi)` are at most one, at `lo`.
pub open spec fn settled(m: Map<Seq<u8>, Seq<u8>>, p: Seq<u8>, lo: int, hi: int) -> bool {
    forall|t: i64| lo < t < hi ==> !#[trigger] m.contains_key(row_key(p, t as int))
}

/// What a collapse leaves: the window settled, rows elsewhere as they were,
/// and eight-byte values.
pub proof fn lemma_collapse_effect(
    m0: Map<Seq<u8>, Seq<u8>>,
    m1: Map<Seq<u8>, Seq<u8>>,
    p: Seq<u8>,
    kind: MetricKind,
    lo: int,
    hi: int,
)
    requires
        i64::MIN <= lo < hi,
        lo <= i64::MAX,
        kind != MetricKind::Time,
        eight_byte_values(m0),
        collapsed(m0, m1, p, kind, lo, hi),
    ensures
        settled(m1, p, lo, hi),
        eight_byte_values(m1),
        forall|t: i64|
            (t < lo || hi <= t) ==> (#[trigger] m1.contains_key(row_key(p, t as int))
                == m0.contains_key(row_key(p, t as int))),
{
    let rows = choose|rows: Seq<(i64, Vec<u8>)>|
        window_rows(m0, p, lo, hi, rows) && m1 == #[trigger] collapse_with(m0, p, kind, lo, rows);
    let n = rows.len() as int;
    if n > 0 {
        assert forall|t: i64| lo < t < hi implies !#[trigger] m1.contains_key(row_key(p, t as int)) by {
            let k = row_key(p, t as int);
            if row_key(p, t as int) == row_key(p, lo) {
                crate::codec::lemma_row_key_injective(p, t as int, lo);
            }
            if m0.contains_key(k) {
                let i = choose|i: int| 0 <= i < n && #[trigger] rows[i].0 == t;
                assert(row_keys(p, rows, n).contains(k));
            }
        }
        assert forall|t: i64| (t < lo || hi <= t) implies (#[trigger] m1.contains_key(row_key(p, t as int))
            == m0.contains_key(row_key(p, t as int))) by {
            let k = row_key(p, t as int);
            if row_key(p, t as int) == row_key(p, lo) {
                crate::codec::lemma_row_key_injective(p, t as int, lo);
            }
            if row_keys(p, rows, n).contains(k) {
                let j = choose|j: int| 0 <= j < n && k == row_key(p, rows[j].0 as int);
                crate::codec::lemma_row_key_injective(p, t as int, rows[j].0 as int);
            }
        }
        assert forall|k: Seq<u8>| #[trigger] m1.contains_key(k) implies m1[k].len() == 8 by {
            if k == row_key(p, lo) {
                if kind == MetricKind::Count {
                    crate::value::lemma_le_round_trip(bits_of(wsum(rows, n)));
                } else {
                    lemma_latest_is_a_row(rows, n);
                    let i = choose|i: int| 0 <= i < n && latest(rows, n) == (rows[i].0, rows[i].1@);
                    assert(m0.contains_key(row_key(p, rows[i].0 as int)));
                }
            }
        }
    }
}

pub proof fn lemma_latest_is_a_row(rows: Seq<(i64, Vec<u8>)>, n: int)
    requires
        1 <= n <= rows.len(),
    ensures
        exists|i: int| 0 <= i < n && latest(rows, n) == (rows[i].0, rows[i].1@),
    decreases n,
{
    if n > 1 {
        lemma_latest_is_a_row(rows, n - 1);
    } else {
        assert(latest(rows, 1) == (rows[0].0, rows[0].1@));
    }
}


/// `k` is a row of `q`.
pub open spec fn is_row_of(q: Seq<u8>, k: Seq<u8>) -> bool {
    exists|t: i64| k == #[trigger] row_key(q, t as int)
}

/// A roll-up of `q` settles its last minute and, at the start of an hour, the
/// rest of its last hour; it touches no key but the rows of `q`.
pub proof fn lemma_rolled_up_effect(
    m0: Map<Seq<u8>, Seq<u8>>,
    m2: Map<Seq<u8>, Seq<u8>>,
    q: Seq<u8>,
    kind: MetricKind,
    now: int,
)
    requires
        i64::MIN + 86400 <= now <= i64::MAX,
        kind != MetricKind::Time,
        eight_byte_values(m0),
        rolled_up(m0, m2, q, kind, now),
    ensures
        settled(m2, q, now - 60, now),
        minute_of_hour(now) == 0 ==> settled(m2, q, now - 3600, now - 60),
        forall|k: Seq<u8>| !is_row_of(q, k) ==> (#[trigger] m2.contains_key(k) == m0.contains_key(k)),
        forall|k: Seq<u8>| !is_row_of(q, k) && m0.contains_key(k) ==> #[trigger] m2[k] == m0[k],
{
    if minute_of_hour(now) == 0 {
        let (a, b) = choose|a: Map<Seq<u8>, Seq<u8>>, b: Map<Seq<u8>, Seq<u8>>|
            #![trigger collapsed(m0, a, q, kind, now - 60, now), collapsed(a, b, q, kind, now - 3600, now - 60)]
            collapsed(m0, a, q, kind, now - 60, now) && collapsed(a, b, q, kind, now - 3600, now - 60)
                && m2 == expired(b, q, now - 86400);
        lemma_collapse_effect(m0, a, q, kind, now - 60, now);
        lemma_collapse_effect(a, b, q, kind, now - 3600, now - 60);
        lemma_collapse_frame(m0, a, q, kind, now - 60, now);
        lemma_collapse_frame(a, b, q, kind, now - 3600, now - 60);
        assert forall|t: i64| now - 60 < t < now implies !#[trigger] m2.contains_key(row_key(q, t as int)) by {
            assert(!b.contains_key(row_key(q, t as int)));
        }
        assert forall|t: i64| now - 3600 < t < now - 60 implies !#[trigger] m2.contains_key(row_key(q, t as int)) by {
            assert(!b.contains_key(row_key(q, t as int)));
        }
        assert forall|k: Seq<u8>| !is_row_of(q, k) implies (#[trigger] m2.contains_key(k) == m0.contains_key(k)
            && (m0.contains_key(k) ==> m2[k] == m0[k])) by {
            assert(!is_old_row(q, now - 86400, k));
            assert(b.contains_key(k) == a.contains_key(k));
            if m0.contains_key(k) {
                assert(a[k] == m0[k]);
                assert(b[k] == a[k]);
            }
        }
    } else {
        lemma_collapse_effect(m0, m2, q, kind, now - 60, now);
        lemma_collapse_frame(m0, m2, q, kind, now - 60, now);
    }
}

/// A collapse of `q` touches no key but the rows of `q`.
pub proof fn lemma_collapse_frame(
    m0: Map<Seq<u8>, Seq<u8>>,
    m1: Map<Seq<u8>, Seq<u8>>,
    q: Seq<u8>,
    kind: MetricKind,
    lo: int,
    hi: int,
)
    requires
        i64::MIN <= lo <= i64::MAX,
        collapsed(m0, m1, q, kind, lo, hi),
    ensures
        forall|k: Seq<u8>| !is_row_of(q, k) ==> (#[trigger] m1.contains_key(k) == m0.contains_key(k)),
        forall|k: Seq<u8>| !is_row_of(q, k) && m0.contains_key(k) ==> #[trigger] m1[k] == m0[k],
{
    let rows = choose|rows: Seq<(i64, Vec<u8>)>|
        window_rows(m0, q, lo, hi, rows) && m1 == #[trigger] collapse_with(m0, q, kind, lo, rows);
    let n = rows.len() as int;
    assert forall|k: Seq<u8>| !is_row_of(q, k) implies (#[trigger] m1.contains_key(k) == m0.contains_key(k)
        && (m0.contains_key(k) ==> m1[k] == m0[k])) by {
        if n > 0 {
            if row_keys(q, rows, n).contains(k) {
                let j = choose|j: int| 0 <= j < n && k == row_key(q, rows[j].0 as int);
                assert(k == row_key(q, rows[j].0 as int));
            }
            let lo64 = lo as i64;
            assert(row_key(q, lo) == row_key(q, lo64 as int));
        }
    }
}


/// The rows of `p`: each second with its value.
pub open spec fn rows_of(m: Map<Seq<u8>, Seq<u8>>, p: Seq<u8>) -> Map<int, Seq<u8>> {
    Map::new(
        |t: int| i64::MIN <= t <= i64::MAX && m.contains_key(row_key(p, t)),
        |t: int| m[row_key(p, t)],
    )
}

/// The rows of `p` in `m1` are those of `m0` rolled up at `now`.
pub open spec fn rows_rolled_up(
    m0: Map<Seq<u8>, Seq<u8>>,
    m1: Map<Seq<u8>, Seq<u8>>,
    p: Seq<u8>,
    kind: MetricKind,
    now: int,
) -> bool {
    exists|a: Map<Seq<u8>, Seq<u8>>, b: Map<Seq<u8>, Seq<u8>>|
        #![trigger rolled_up(a, b, p, kind, now)]
        rolled_up(a, b, p, kind, now) && rows_of(a, p) == rows_of(m0, p) && rows_of(b, p) == rows_of(
            m1,
            p,
        )
}

/// A change that touches no row of `q` leaves the rows of `p` as they were,
/// when no row of `p` is a row of `q`.
pub proof fn lemma_rows_kept(
    s: Map<Seq<u8>, Seq<u8>>,
    s2: Map<Seq<u8>, Seq<u8>>,
    q: Seq<u8>,
    p: Seq<u8>,
)
    requires
        forall|k: Seq<u8>| !is_row_of(q, k) ==> (#[trigger] s2.contains_key(k) == s.contains_key(k)),
        forall|k: Seq<u8>| !is_row_of(q, k) && s.contains_key(k) ==> #[trigger] s2[k] == s[k],
        forall|t: i64| !is_row_of(q, #[trigger] row_key(p, t as int)),
    ensures
        rows_of(s2, p) == rows_of(s, p),
{
    assert forall|t: int| i64::MIN <= t <= i64::MAX implies !is_row_of(q, #[trigger] row_key(p, t)) by {
        let t64 = t as i64;
        assert(row_key(p, t64 as int) == row_key(p, t));
    }
    assert(rows_of(s2, p) =~= rows_of(s, p));
}

} // verus!
