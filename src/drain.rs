//! The drain: a registry of series over two ordered namespaces, and the
//! invariant that ties them together.
use vstd::prelude::*;

use crate::codec::{
    DEL, SPACE, TAB, backend_prefix, cluster_prefix, dec, decode_ts, lacks, lex_lt, push_all,
    row_key, row_key_bytes, sentinel, starts_with, subfield_prefix, valid_id,
};
use crate::metric::{MetricKind, MetricMeta};
use crate::store::{contents, tree_insert, tree_remove};

verus! {

/// An id may stand last in a prefix: besides the reserved bytes it must not end
/// in a space, which closes the prefixes of a time series' statistics.
pub open spec fn valid_last_id(s: Seq<u8>) -> bool {
    valid_id(s) && (s.len() == 0 || s.last() != SPACE)
}

/// Names of the statistics kept for a time series, in storage order.
pub open spec fn time_field(j: int) -> Seq<u8> {
    if j == 0 {
        seq![99u8, 111, 117, 110, 116]
    } else if j == 1 {
        seq![109u8, 101, 97, 110]
    } else if j == 2 {
        seq![118u8, 97, 114]
    } else if j == 3 {
        seq![112u8, 53, 48]
    } else if j == 4 {
        seq![112u8, 57, 48]
    } else if j == 5 {
        seq![112u8, 57, 57]
    } else if j == 6 {
        seq![112u8, 57, 57, 46, 57]
    } else if j == 7 {
        seq![112u8, 57, 57, 46, 57, 57]
    } else if j == 8 {
        seq![112u8, 57, 57, 46, 57, 57, 57]
    } else {
        seq![112u8, 49, 48, 48]
    }
}

/// Number of statistics kept for a time series.
pub const TIME_FIELDS: usize = 10;

/// The statistic names in bytes.
pub fn time_field_bytes(j: usize) -> (r: Vec<u8>)
    requires
        j < TIME_FIELDS,
    ensures
        r@ == time_field(j as int),
{
    let r = if j == 0 {
        vec![99u8, 111, 117, 110, 116]
    } else if j == 1 {
        vec![109u8, 101, 97, 110]
    } else if j == 2 {
        vec![118u8, 97, 114]
    } else if j == 3 {
        vec![112u8, 53, 48]
    } else if j == 4 {
        vec![112u8, 57, 48]
    } else if j == 5 {
        vec![112u8, 57, 57]
    } else if j == 6 {
        vec![112u8, 57, 57, 46, 57]
    } else if j == 7 {
        vec![112u8, 57, 57, 46, 57, 57]
    } else if j == 8 {
        vec![112u8, 57, 57, 46, 57, 57, 57]
    } else {
        vec![112u8, 49, 48, 48]
    };
    assert(r@ =~= time_field(j as int));
    r
}

pub proof fn lemma_time_field_plain(j: int)
    requires
        0 <= j < 10,
    ensures
        lacks(time_field(j), TAB),
        lacks(time_field(j), DEL),
{
}

/// Every sentinel of a series is in the store.
pub open spec fn family_present(m: Map<Seq<u8>, Seq<u8>>, p: Seq<u8>, kind: MetricKind) -> bool {
    if kind == MetricKind::Time {
        forall|j: int| 0 <= j < 10 ==> #[trigger] m.contains_key(sentinel(subfield_prefix(p, time_field(j))))
    } else {
        m.contains_key(sentinel(p))
    }
}

/// `k` is one of the sentinels of a series.
pub open spec fn is_family_sentinel(p: Seq<u8>, kind: MetricKind, k: Seq<u8>) -> bool {
    if kind == MetricKind::Time {
        exists|j: int| 0 <= j < 10 && k == sentinel(subfield_prefix(p, #[trigger] time_field(j)))
    } else {
        k == sentinel(p)
    }
}

/// The rows of `p` whose second lies in `[lo, hi)`, each with its value, each
/// second once.
pub open spec fn window_rows(
    m: Map<Seq<u8>, Seq<u8>>,
    p: Seq<u8>,
    lo: int,
    hi: int,
    rows: Seq<(i64, Vec<u8>)>,
) -> bool {
    &&& forall|i: int|
        #![trigger rows[i]]
        0 <= i < rows.len() ==> lo <= rows[i].0 < hi && m.contains_key(row_key(p, rows[i].0 as int))
            && m[row_key(p, rows[i].0 as int)] == rows[i].1@
    &&& forall|i: int, j: int|
        #![trigger rows[i], rows[j]]
        0 <= i < j < rows.len() ==> rows[i].0 != rows[j].0
    &&& forall|t: i64|
        #![trigger m.contains_key(row_key(p, t as int))]
        lo <= t < hi && m.contains_key(row_key(p, t as int)) ==> exists|i: int|
            0 <= i < rows.len() && #[trigger] rows[i].0 == t
}

/// A copy of `s`.
pub fn copy_bytes(s: &[u8]) -> (r: Vec<u8>)
    ensures
        r@ == s@,
{
    let mut r: Vec<u8> = Vec::new();
    push_all(&mut r, s);
    assert(r@ =~= s@);
    r
}

/// The bytes of `s` from index `n` on.
pub fn tail_bytes(s: &[u8], n: usize) -> (r: Vec<u8>)
    requires
        n <= s@.len(),
    ensures
        r@ == s@.subrange(n as int, s@.len() as int),
{
    let mut r: Vec<u8> = Vec::new();
    let mut i: usize = n;
    while i < s.len()
        invariant
            n <= i <= s@.len(),
            r@ == s@.subrange(n as int, i as int),
        decreases s@.len() - i,
    {
        r.push(s[i]);
        i = i + 1;
        assert(r@ =~= s@.subrange(n as int, i as int));
    }
    r
}

pub proof fn lemma_lex_lt_irreflexive(a: Seq<u8>)
    ensures
        !lex_lt(a, a),
    decreases a.len(),
{
    if a.len() > 0 {
        lemma_lex_lt_irreflexive(a.drop_first());
    }
}

/// A row key splits into its prefix, the separator and the decimal second.
pub proof fn lemma_row_key_split(p: Seq<u8>, k: Seq<u8>, t: int)
    requires
        starts_with(k, p.push(TAB)),
        k.subrange(p.len() + 1int, k.len() as int) == dec(t),
    ensures
        k == row_key(p, t),
{
    assert(k =~= k.subrange(0, p.len() + 1int) + k.subrange(p.len() + 1int, k.len() as int));
    assert(p.push(TAB) =~= p + seq![TAB]);
}

/// Among the first `i` scanned entries is the row of `p` at second `u`.
pub open spec fn scanned_row(
    scanned: Seq<(Vec<u8>, Vec<u8>)>,
    i: int,
    p: Seq<u8>,
    u: int,
) -> bool {
    exists|a: int| 0 <= a < i && #[trigger] scanned[a].0@ == row_key(p, u)
}

/// The rows of `p` in the tree whose second lies in `[lo, hi)`.
pub fn rows_in_window(t: &sled::Tree, p: &[u8], lo: i128, hi: i128) -> (r: Result<
    Vec<(i64, Vec<u8>)>,
    sled::Error,
>)
    ensures
        r matches Ok(rows) ==> window_rows(contents(*t), p@, lo as int, hi as int, rows@),
{
    let ghost m = contents(*t);
    let mut pt = copy_bytes(p);
    pt.push(TAB);
    let scanned = match crate::store::tree_scan_prefix(t, pt.as_slice()) {
        Ok(s) => s,
        Err(e) => {
            return Err(e);
        },
    };
    let n = pt.len();
    let mut out: Vec<(i64, Vec<u8>)> = Vec::new();
    let mut i: usize = 0;
    while i < scanned.len()
        invariant
            m == contents(*t),
            pt@ == p@.push(TAB),
            n == pt@.len(),
            0 <= i <= scanned@.len(),
            forall|a: int|
                #![trigger scanned@[a]]
                0 <= a < scanned@.len() ==> starts_with(scanned@[a].0@, pt@) && m.contains_key(
                    scanned@[a].0@,
                ) && m[scanned@[a].0@] == scanned@[a].1@,
            forall|a: int, b: int|
                #![trigger scanned@[a], scanned@[b]]
                0 <= a < b < scanned@.len() ==> lex_lt(scanned@[a].0@, scanned@[b].0@),
            forall|j: int|
                #![trigger out@[j]]
                0 <= j < out@.len() ==> lo <= out@[j].0 < hi && m.contains_key(
                    row_key(p@, out@[j].0 as int),
                ) && m[row_key(p@, out@[j].0 as int)] == out@[j].1@ && exists|a: int|
                    0 <= a < i && #[trigger] scanned@[a].0@ == row_key(p@, out@[j].0 as int),
            forall|j1: int, j2: int|
                #![trigger out@[j1], out@[j2]]
                0 <= j1 < j2 < out@.len() ==> out@[j1].0 != out@[j2].0,
            forall|u: i64|
                lo <= u < hi && #[trigger] scanned_row(scanned@, i as int, p@, u as int) ==> exists|
                    j: int,
                | 0 <= j < out@.len() && #[trigger] out@[j].0 == u,
        decreases scanned@.len() - i,
    {
        let entry = &scanned[i];
        let suffix = tail_bytes(entry.0.as_slice(), n);
        let decoded = decode_ts(suffix.as_slice());
        let ghost old_out = out@;
        match decoded {
            Some(ts) => {
                if lo <= ts as i128 && (ts as i128) < hi {
                    proof {
                        lemma_row_key_split(p@, entry.0@, ts as int);
                        assert forall|j: int| 0 <= j < old_out.len() implies old_out[j].0 != ts by {
                            if old_out[j].0 == ts {
                                let a = choose|a: int|
                                    0 <= a < i && #[trigger] scanned@[a].0@ == row_key(
                                        p@,
                                        old_out[j].0 as int,
                                    );
                                assert(lex_lt(scanned@[a].0@, scanned@[i as int].0@));
                                lemma_lex_lt_irreflexive(scanned@[a].0@);
                            }
                        }
                    }
                    let v = copy_bytes(entry.1.as_slice());
                    out.push((ts, v));
                    proof {
                        assert(out@[old_out.len() as int].0 == ts);
                        assert(scanned@[i as int].0@ == row_key(p@, ts as int));
                    }
                }
            },
            None => {},
        }
        proof {
            assert forall|u: i64|
                lo <= u < hi && #[trigger] scanned_row(
                    scanned@,
                    i + 1,
                    p@,
                    u as int,
                ) implies exists|j: int| 0 <= j < out@.len() && #[trigger] out@[j].0 == u by {
                let a = choose|a: int|
                    0 <= a < i + 1 && #[trigger] scanned@[a].0@ == row_key(p@, u as int);
                if a == i {
                    let k = scanned@[a].0@;
                    assert(k == p@ + seq![TAB] + dec(u as int));
                    assert(suffix@ =~= dec(u as int));
                    match decoded {
                        Some(ts) => {
                            crate::codec::lemma_dec_injective(ts as int, u as int);
                            assert(out@[old_out.len() as int].0 == u);
                        },
                        None => {
                            assert(false);
                        },
                    }
                } else {
                    assert(scanned_row(scanned@, i as int, p@, u as int));
                    let j = choose|j: int| 0 <= j < old_out.len() && #[trigger] old_out[j].0 == u;
                    assert(out@[j].0 == u);
                }
            }
        }
        i = i + 1;
    }
    proof {
        assert forall|u: i64|
            #![trigger m.contains_key(row_key(p@, u as int))]
            lo <= u < hi && m.contains_key(row_key(p@, u as int)) implies exists|j: int|
                0 <= j < out@.len() && #[trigger] out@[j].0 == u by {
            let k = row_key(p@, u as int);
            assert(k.subrange(0, pt@.len() as int) =~= pt@);
            assert(starts_with(k, pt@));
            let a = choose|a: int| 0 <= a < scanned@.len() && #[trigger] scanned@[a].0@ == k;
            assert(scanned@[a].0@ == row_key(p@, u as int));
            assert(scanned_row(scanned@, scanned@.len() as int, p@, u as int));
        }
    }
    Ok(out)
}


/// A registered series: its ids, its prefix, its namespace and its kind.
pub struct Series {
    pub name: Vec<u8>,
    pub cluster: Vec<u8>,
    pub backend: Option<Vec<u8>>,
    pub prefix: Vec<u8>,
    pub meta: MetricMeta,
    pub kind: MetricKind,
}

impl Series {
    /// The prefix is built from valid ids, and the namespace matches the scope.
    pub open spec fn wf(&self) -> bool {
        &&& valid_id(self.name@)
        &&& valid_last_id(self.cluster@)
        &&& match self.backend {
            None => self.meta == MetricMeta::Cluster && self.prefix@ == cluster_prefix(
                self.name@,
                self.cluster@,
            ),
            Some(b) => self.meta == MetricMeta::ClusterBackend && valid_last_id(b@) && self.prefix@
                == backend_prefix(self.name@, self.cluster@, b@),
        }
    }
}

/// The prefix of a well-formed series holds no upper-bound byte and does not
/// end in a space.
pub proof fn lemma_series_prefix(s: Series)
    requires
        s.wf(),
    ensures
        lacks(s.prefix@, DEL),
        s.prefix@.len() > 0,
        s.prefix@.last() != SPACE,
{
    crate::codec::lemma_lacks_concat(s.name@, seq![TAB], DEL);
    crate::codec::lemma_lacks_concat(s.name@ + seq![TAB], s.cluster@, DEL);
    match s.backend {
        None => {
            if s.cluster@.len() > 0 {
                assert(s.prefix@.last() == s.cluster@.last());
            }
        },
        Some(b) => {
            let c = s.name@ + seq![TAB] + s.cluster@;
            crate::codec::lemma_lacks_concat(c, seq![TAB], DEL);
            crate::codec::lemma_lacks_concat(c + seq![TAB], b@, DEL);
            if b@.len() > 0 {
                assert(s.prefix@.last() == b@.last());
            }
        },
    }
}

/// The local metrics drain.
pub struct LocalDrain {
    /// Prefix of the proxy's metric names.
    pub prefix: String,
    pub db: sled::Db,
    /// Namespace of the cluster-level series.
    pub cluster_tree: sled::Tree,
    /// Namespace of the backend-level series.
    pub backend_tree: sled::Tree,
    /// Registry of the series written to the store.
    pub metrics: Vec<Series>,
    /// Metrics of the process itself, by name.
    pub data: Vec<crate::process::ProcessMetric>,
}

impl LocalDrain {
    /// The namespace of the given scope.
    pub open spec fn store(&self, meta: MetricMeta) -> Map<Seq<u8>, Seq<u8>> {
        match meta {
            MetricMeta::Cluster => contents(self.cluster_tree),
            MetricMeta::ClusterBackend => contents(self.backend_tree),
        }
    }

    pub open spec fn count(&self) -> int {
        self.metrics@.len() as int
    }

    /// Some series is registered under `p`.
    pub open spec fn registered(&self, p: Seq<u8>) -> bool {
        exists|i: int| 0 <= i < self.count() && #[trigger] self.metrics@[i].prefix@ == p
    }

    /// `k` is a sentinel of some series of the namespace `meta`.
    pub open spec fn sentinel_owned(&self, meta: MetricMeta, k: Seq<u8>) -> bool {
        exists|i: int|
            0 <= i < self.count() && #[trigger] self.metrics@[i].meta == meta && is_family_sentinel(
                self.metrics@[i].prefix@,
                self.metrics@[i].kind,
                k,
            )
    }

    /// The registry and the store agree: each series has its sentinels in its
    /// namespace, each key holding the upper-bound byte is such a sentinel,
    /// prefixes are unique and every value is eight bytes.
    pub open spec fn wf(&self) -> bool {
        &&& self.names_unique()
        &&& forall|i: int| 0 <= i < self.count() ==> (#[trigger] self.metrics@[i]).wf()
        &&& forall|i: int, j: int|
            0 <= i < j < self.count() ==> (#[trigger] self.metrics@[i]).prefix@
                != (#[trigger] self.metrics@[j]).prefix@
        &&& forall|i: int|
            0 <= i < self.count() ==> family_present(
                self.store((#[trigger] self.metrics@[i]).meta),
                self.metrics@[i].prefix@,
                self.metrics@[i].kind,
            )
        &&& forall|meta: MetricMeta, k: Seq<u8>|
            #[trigger] self.store(meta).contains_key(k) && !lacks(k, DEL) ==> self.sentinel_owned(
                meta,
                k,
            )
        &&& forall|meta: MetricMeta, k: Seq<u8>|
            #[trigger] self.store(meta).contains_key(k) ==> self.store(meta)[k].len() == 8
    }

    /// No two process-level metrics share a name, and every latency histogram
    /// among them grows as needed.
    pub open spec fn names_unique(&self) -> bool {
        &&& forall|i: int, j: int|
            0 <= i < j < self.data@.len() ==> (#[trigger] self.data@[i]).name@ != (
            #[trigger] self.data@[j]).name@
        &&& forall|i: int| 0 <= i < self.data@.len() ==> (#[trigger] self.data@[i]).value.healthy()
    }

    /// Everything but the namespace `meta` is as in `old`.
    pub open spec fn same_but(&self, old: &LocalDrain, meta: MetricMeta) -> bool {
        &&& self.metrics == old.metrics
        &&& self.data == old.data
        &&& self.prefix == old.prefix
        &&& meta == MetricMeta::Cluster ==> contents(self.backend_tree) == contents(old.backend_tree)
        &&& meta == MetricMeta::ClusterBackend ==> contents(self.cluster_tree) == contents(
            old.cluster_tree,
        )
    }

    /// Writes a data row.
    pub(crate) fn put_row(&mut self, meta: MetricMeta, p: &[u8], t: i64, v: &[u8]) -> (r: Result<(), sled::Error>)
        requires
            old(self).wf(),
            lacks(p@, DEL),
            v@.len() == 8,
        ensures
            final(self).same_but(old(self), meta),
            r is Ok ==> final(self).wf(),
            r is Ok ==> final(self).store(meta) == old(self).store(meta).insert(
                row_key(p@, t as int),
                v@,
            ),
    {
        let k = row_key_bytes(p, t);
        proof {
            crate::codec::lemma_row_key_plain(p@, t as int);
        }
        let r = match meta {
            MetricMeta::Cluster => tree_insert(&mut self.cluster_tree, k.as_slice(), v),
            MetricMeta::ClusterBackend => tree_insert(&mut self.backend_tree, k.as_slice(), v),
        };
        proof {
            if r is Ok {
                assert forall|k2: Seq<u8>| #[trigger]
                    self.store(meta).contains_key(k2) implies self.store(meta)[k2].len() == 8 by {
                    if k2 != k@ {
                        assert(old(self).store(meta).contains_key(k2));
                    }
                }
                self.lemma_keep_sentinels(old(self), meta);
            }
        }
        r
    }

    /// Removes a data row.
    pub(crate) fn drop_row(&mut self, meta: MetricMeta, p: &[u8], t: i64) -> (r: Result<(), sled::Error>)
        requires
            old(self).wf(),
            lacks(p@, DEL),
        ensures
            final(self).same_but(old(self), meta),
            r is Ok ==> final(self).wf(),
            r is Ok ==> final(self).store(meta) == old(self).store(meta).remove(row_key(p@, t as int)),
    {
        let k = row_key_bytes(p, t);
        proof {
            crate::codec::lemma_row_key_plain(p@, t as int);
        }
        let r = match meta {
            MetricMeta::Cluster => tree_remove(&mut self.cluster_tree, k.as_slice()),
            MetricMeta::ClusterBackend => tree_remove(&mut self.backend_tree, k.as_slice()),
        };
        proof {
            if r is Ok {
                assert forall|k2: Seq<u8>| #[trigger]
                    self.store(meta).contains_key(k2) implies self.store(meta)[k2].len() == 8 by {
                    if k2 != k@ {
                        assert(old(self).store(meta).contains_key(k2));
                    }
                }
                self.lemma_keep_sentinels(old(self), meta);
            }
        }
        r
    }

    /// A change of one namespace that keeps every key holding the upper-bound
    /// byte, adds no such key, and writes only eight-byte values keeps the drain
    /// well formed.
    pub(crate) proof fn lemma_keep_sentinels(&self, old: &LocalDrain, meta: MetricMeta)
        requires
            old.wf(),
            self.same_but(old, meta),
            forall|k: Seq<u8>|
                !lacks(k, DEL) ==> (#[trigger] self.store(meta).contains_key(k)
                    <==> old.store(meta).contains_key(k)),
            forall|k: Seq<u8>|
                #[trigger] self.store(meta).contains_key(k) ==> self.store(meta)[k].len() == 8,
        ensures
            self.wf(),
    {
        assert forall|i: int| 0 <= i < self.count() implies family_present(
            self.store((#[trigger] self.metrics@[i]).meta),
            self.metrics@[i].prefix@,
            self.metrics@[i].kind,
        ) by {
            let s = self.metrics@[i];
            assert(family_present(old.store(s.meta), s.prefix@, s.kind));
            if s.kind == MetricKind::Time {
                assert forall|j: int| 0 <= j < 10 implies #[trigger] self.store(s.meta).contains_key(
                    sentinel(subfield_prefix(s.prefix@, time_field(j))),
                ) by {
                    crate::codec::lemma_sentinel_marked(subfield_prefix(s.prefix@, time_field(j)));
                }
            } else {
                crate::codec::lemma_sentinel_marked(s.prefix@);
            }
        }
        assert forall|m: MetricMeta, k: Seq<u8>|
            #[trigger] self.store(m).contains_key(k) && !lacks(k, DEL) implies self.sentinel_owned(
            m,
            k,
        ) by {
            assert(old.store(m).contains_key(k));
            assert(old.sentinel_owned(m, k));
        }
        assert forall|m: MetricMeta, k: Seq<u8>| #[trigger]
            self.store(m).contains_key(k) implies self.store(m)[k].len() == 8 by {
            if m != meta {
                assert(old.store(m).contains_key(k));
            }
        }
    }
}

} // verus!
