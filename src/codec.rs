//! Byte-level key grammar of the ordered store.
//!
//! Every series lives under a prefix (`name TAB cluster [TAB backend]`), its rows
//! under `prefix TAB decimal-seconds`, and its upper bound under `prefix DEL`.
use vstd::prelude::*;

verus! {

/// Field separator.
pub const TAB: u8 = 9;

/// Separator between a time prefix and the name of one of its statistics.
pub const DOT: u8 = 46;

/// Terminator of a statistic's prefix.
pub const SPACE: u8 = 32;

/// Upper-bound byte closing every prefix.
pub const DEL: u8 = 127;

/// Sign of a negative timestamp.
pub const MINUS: u8 = 45;

/// Decimal digits of `n`, most significant first, without leading zeros.
pub open spec fn dec_nat(n: nat) -> Seq<u8>
    decreases n,
{
    if n < 10 {
        seq![(48 + n) as u8]
    } else {
        dec_nat(n / 10).push((48 + n % 10) as u8)
    }
}

/// Decimal ASCII of a signed number of seconds.
pub open spec fn dec(t: int) -> Seq<u8> {
    if t < 0 {
        seq![MINUS] + dec_nat((-t) as nat)
    } else {
        dec_nat(t as nat)
    }
}

pub open spec fn is_digit(b: u8) -> bool {
    48 <= b <= 57
}

/// Value of a string of decimal digits.
pub open spec fn digits_value(s: Seq<u8>) -> nat
    decreases s.len(),
{
    if s.len() == 0 {
        0
    } else {
        digits_value(s.drop_last()) * 10 + (s.last() - 48) as nat
    }
}

pub open spec fn pow10(k: nat) -> nat
    decreases k,
{
    if k == 0 {
        1
    } else {
        10 * pow10((k - 1) as nat)
    }
}

/// `b` does not occur in `s`.
pub open spec fn lacks(s: Seq<u8>, b: u8) -> bool {
    forall|i: int| 0 <= i < s.len() ==> s[i] != b
}

/// A name or an id that may stand in a key: no separator, no upper-bound byte.
pub open spec fn valid_id(s: Seq<u8>) -> bool {
    lacks(s, TAB) && lacks(s, DEL)
}

pub open spec fn cluster_prefix(name: Seq<u8>, cluster: Seq<u8>) -> Seq<u8> {
    name + seq![TAB] + cluster
}

pub open spec fn backend_prefix(name: Seq<u8>, cluster: Seq<u8>, backend: Seq<u8>) -> Seq<u8> {
    name + seq![TAB] + cluster + seq![TAB] + backend
}

/// Prefix of one statistic of a time series.
pub open spec fn subfield_prefix(prefix: Seq<u8>, field: Seq<u8>) -> Seq<u8> {
    prefix + seq![DOT] + field + seq![SPACE]
}

/// Key of the row of `prefix` at second `t`.
pub open spec fn row_key(prefix: Seq<u8>, t: int) -> Seq<u8> {
    prefix + seq![TAB] + dec(t)
}

/// Upper bound of the rows of `prefix`.
pub open spec fn sentinel(prefix: Seq<u8>) -> Seq<u8> {
    prefix.push(DEL)
}

/// `a` is a prefix of `b`.
pub open spec fn starts_with(b: Seq<u8>, a: Seq<u8>) -> bool {
    a.len() <= b.len() && b.subrange(0, a.len() as int) == a
}

/// Byte-wise lexicographic order, the order of the store's keys.
pub open spec fn lex_lt(a: Seq<u8>, b: Seq<u8>) -> bool
    decreases a.len(),
{
    if a.len() == 0 {
        b.len() > 0
    } else if b.len() == 0 {
        false
    } else if a[0] != b[0] {
        a[0] < b[0]
    } else {
        lex_lt(a.drop_first(), b.drop_first())
    }
}

pub open spec fn lex_le(a: Seq<u8>, b: Seq<u8>) -> bool {
    a == b || lex_lt(a, b)
}

/// `k` lies in the half-open range from `prefix` to its sentinel.
pub open spec fn in_prefix_range(k: Seq<u8>, prefix: Seq<u8>) -> bool {
    lex_le(prefix, k) && lex_lt(k, sentinel(prefix))
}

/// The second encoded by the row key `k` of `prefix`, if it is one.
pub open spec fn row_second(prefix: Seq<u8>, k: Seq<u8>) -> Option<int> {
    if exists|t: int| i64::MIN <= t <= i64::MAX && k == row_key(prefix, t) {
        Some(choose|t: int| i64::MIN <= t <= i64::MAX && k == row_key(prefix, t))
    } else {
        None
    }
}

pub proof fn lemma_dec_nat_digits(n: nat)
    ensures
        dec_nat(n).len() >= 1,
        forall|i: int| 0 <= i < dec_nat(n).len() ==> is_digit(#[trigger] dec_nat(n)[i]),
        digits_value(dec_nat(n)) == n,
    decreases n,
{
    let s = dec_nat(n);
    if n >= 10 {
        lemma_dec_nat_digits(n / 10);
        assert(s.drop_last() == dec_nat(n / 10));
        assert(s.last() - 48 == n % 10);
        let q = digits_value(s.drop_last());
        assert(q == n / 10);
        assert(digits_value(s) == q * 10 + n % 10);
        assert(q * 10 + n % 10 == n) by (nonlinear_arith)
            requires
                q == n / 10,
        ;
    } else {
        assert(s.drop_last() =~= Seq::<u8>::empty());
        assert(s.last() - 48 == n);
        assert(digits_value(s.drop_last()) == 0);
        assert(digits_value(s) == n);
    }
}

pub proof fn lemma_dec_nat_len(n: nat, k: nat)
    requires
        k >= 1,
        n < pow10(k),
    ensures
        dec_nat(n).len() <= k,
    decreases n,
{
    if n >= 10 {
        assert(k >= 2) by {
            if k == 1 {
                assert(pow10(1) == 10 * pow10(0));
            }
        }
        assert(pow10(k) == 10 * pow10((k - 1) as nat));
        assert(n / 10 < pow10((k - 1) as nat)) by (nonlinear_arith)
            requires
                n < 10 * pow10((k - 1) as nat),
        ;
        lemma_dec_nat_len(n / 10, (k - 1) as nat);
    }
}

pub proof fn lemma_pow10_20()
    ensures
        pow10(19) == 10000000000000000000nat,
        pow10(20) == 100000000000000000000nat,
{
    reveal_with_fuel(pow10, 21);
}

pub proof fn lemma_dec_facts(t: int)
    requires
        i64::MIN <= t <= i64::MAX,
    ensures
        dec(t).len() >= 1,
        dec(t).len() <= 20,
        dec(t)[0] == MINUS <==> t < 0,
        forall|i: int| 0 <= i < dec(t).len() ==> #[trigger] dec(t)[i] != TAB && dec(t)[i] != DEL,
{
    lemma_pow10_20();
    if t < 0 {
        lemma_dec_nat_digits((-t) as nat);
        lemma_dec_nat_len((-t) as nat, 19);
        assert(dec(t)[0] == MINUS);
        assert forall|i: int| 0 <= i < dec(t).len() implies #[trigger] dec(t)[i] != TAB && dec(t)[i]
            != DEL by {
            if i > 0 {
                assert(dec(t)[i] == dec_nat((-t) as nat)[i - 1]);
            }
        }
    } else {
        lemma_dec_nat_digits(t as nat);
        lemma_dec_nat_len(t as nat, 19);
        assert(is_digit(dec(t)[0]));
    }
}

/// Two seconds with the same decimal text are the same second.
pub proof fn lemma_dec_injective(a: int, b: int)
    requires
        dec(a) == dec(b),
    ensures
        a == b,
{
    if a < 0 {
        lemma_dec_nat_digits((-a) as nat);
        assert(dec(a)[0] == MINUS);
    } else {
        lemma_dec_nat_digits(a as nat);
        assert(is_digit(dec(a)[0]));
    }
    if b < 0 {
        lemma_dec_nat_digits((-b) as nat);
        assert(dec(b)[0] == MINUS);
    } else {
        lemma_dec_nat_digits(b as nat);
        assert(is_digit(dec(b)[0]));
    }
    if a < 0 && b < 0 {
        assert(dec_nat((-a) as nat) == dec(a).drop_first());
        assert(dec_nat((-b) as nat) == dec(b).drop_first());
    }
}

pub proof fn lemma_row_key_injective(p: Seq<u8>, a: int, b: int)
    requires
        row_key(p, a) == row_key(p, b),
    ensures
        a == b,
{
    let n = p.len() + 1int;
    assert(dec(a) == row_key(p, a).subrange(n, row_key(p, a).len() as int));
    assert(dec(b) == row_key(p, b).subrange(n, row_key(p, b).len() as int));
    lemma_dec_injective(a, b);
}

/// Every key between a prefix and its sentinel starts with that prefix.
pub proof fn lemma_in_range_starts_with(k: Seq<u8>, prefix: Seq<u8>)
    requires
        in_prefix_range(k, prefix),
    ensures
        starts_with(k, prefix),
    decreases prefix.len(),
{
    if prefix.len() == 0 {
        assert(k.subrange(0, 0) =~= prefix);
    } else {
        if k == prefix {
            assert(k.subrange(0, prefix.len() as int) =~= prefix);
        } else {
            assert(k.len() > 0);
            let s = sentinel(prefix);
            assert(s[0] == prefix[0]);
            assert(k[0] == prefix[0]);
            assert(s.drop_first() == sentinel(prefix.drop_first()));
            lemma_in_range_starts_with(k.drop_first(), prefix.drop_first());
            assert forall|j: int| 0 <= j < prefix.len() implies k[j] == prefix[j] by {
                if j > 0 {
                    assert(k[j] == k.drop_first().subrange(0, prefix.len() - 1)[j - 1]);
                }
            }
            assert(k.subrange(0, prefix.len() as int) =~= prefix);
        }
    }
}

/// A prefix followed by any byte below DEL lies before the prefix's sentinel.
pub proof fn lemma_extension_below_sentinel(prefix: Seq<u8>, rest: Seq<u8>)
    requires
        rest.len() > 0,
        rest[0] < DEL,
    ensures
        lex_lt(prefix, prefix + rest),
        lex_lt(prefix + rest, sentinel(prefix)),
    decreases prefix.len(),
{
    if prefix.len() > 0 {
        assert((prefix + rest).drop_first() == prefix.drop_first() + rest);
        assert(sentinel(prefix).drop_first() == sentinel(prefix.drop_first()));
        lemma_extension_below_sentinel(prefix.drop_first(), rest);
    } else {
        assert(prefix + rest == rest);
        assert(sentinel(prefix) == seq![DEL]);
    }
}

pub proof fn lemma_row_in_range(prefix: Seq<u8>, t: int)
    ensures
        lex_lt(prefix, row_key(prefix, t)),
        lex_lt(row_key(prefix, t), sentinel(prefix)),
{
    assert(row_key(prefix, t) == prefix + (seq![TAB] + dec(t)));
    lemma_extension_below_sentinel(prefix, seq![TAB] + dec(t));
}

// ----- executable encoders -----

/// Appends `src` to `dst`.
pub fn push_all(dst: &mut Vec<u8>, src: &[u8])
    ensures
        final(dst)@ == old(dst)@ + src@,
{
    let mut i: usize = 0;
    while i < src.len()
        invariant
            0 <= i <= src@.len(),
            dst@ == old(dst)@ + src@.subrange(0, i as int),
        decreases src@.len() - i,
    {
        dst.push(src[i]);
        i = i + 1;
        assert(src@.subrange(0, i as int) == src@.subrange(0, i - 1).push(src@[i - 1]));
    }
    assert(src@.subrange(0, src@.len() as int) == src@);
}

/// Byte-wise equality of two keys.
pub fn bytes_equal(a: &[u8], b: &[u8]) -> (r: bool)
    ensures
        r == (a@ == b@),
{
    if a.len() != b.len() {
        return false;
    }
    let mut i: usize = 0;
    while i < a.len()
        invariant
            a@.len() == b@.len(),
            0 <= i <= a@.len(),
            forall|j: int| 0 <= j < i ==> a@[j] == b@[j],
        decreases a@.len() - i,
    {
        if a[i] != b[i] {
            return false;
        }
        i = i + 1;
    }
    assert(a@ == b@);
    true
}

/// `b` occurs nowhere in `s`.
pub fn lacks_byte(s: &[u8], b: u8) -> (r: bool)
    ensures
        r == lacks(s@, b),
{
    let mut i: usize = 0;
    while i < s.len()
        invariant
            0 <= i <= s@.len(),
            forall|j: int| 0 <= j < i ==> s@[j] != b,
        decreases s@.len() - i,
    {
        if s[i] == b {
            return false;
        }
        i = i + 1;
    }
    true
}

/// Whether `a` is a prefix of `b`.
pub fn has_prefix(b: &[u8], a: &[u8]) -> (r: bool)
    ensures
        r == starts_with(b@, a@),
{
    if a.len() > b.len() {
        return false;
    }
    let mut i: usize = 0;
    while i < a.len()
        invariant
            a@.len() <= b@.len(),
            0 <= i <= a@.len(),
            forall|j: int| 0 <= j < i ==> a@[j] == b@[j],
        decreases a@.len() - i,
    {
        if a[i] != b[i] {
            assert(b@.subrange(0, a@.len() as int)[i as int] != a@[i as int]);
            return false;
        }
        i = i + 1;
    }
    assert(b@.subrange(0, a@.len() as int) == a@);
    true
}

fn dec_nat_bytes(n: u64) -> (r: Vec<u8>)
    ensures
        r@ == dec_nat(n as nat),
    decreases n,
{
    if n < 10 {
        let mut v: Vec<u8> = Vec::new();
        v.push((48 + n) as u8);
        v
    } else {
        let mut v = dec_nat_bytes(n / 10);
        v.push((48 + n % 10) as u8);
        v
    }
}

/// Decimal ASCII of a timestamp.
pub fn encode_ts(t: i64) -> (r: Vec<u8>)
    ensures
        r@ == dec(t as int),
{
    if t < 0 {
        let mag: u64 = (0i128 - t as i128) as u64;
        let mut v: Vec<u8> = Vec::new();
        v.push(MINUS);
        let d = dec_nat_bytes(mag);
        push_all(&mut v, d.as_slice());
        v
    } else {
        dec_nat_bytes(t as u64)
    }
}

/// Reads back a timestamp written by `encode_ts`.
pub fn decode_ts(s: &[u8]) -> (r: Option<i64>)
    ensures
        r matches Some(t) ==> dec(t as int) == s@,
        r is None ==> forall|t: i64| dec(t as int) != s@,
{
    proof {
        lemma_pow10_20();
    }
    if s.len() == 0 || s.len() > 20 {
        proof {
            assert forall|t: i64| dec(t as int) != s@ by {
                lemma_dec_facts(t as int);
            }
        }
        return None;
    }
    let negative = s[0] == MINUS;
    let start: usize = if negative {
        1
    } else {
        0
    };
    if start >= s.len() {
        proof {
            assert forall|t: i64| dec(t as int) != s@ by {
                if dec(t as int) == s@ {
                    lemma_dec_nat_digits((-t) as nat);
                }
            }
        }
        return None;
    }
    let mut acc: u128 = 0;
    let mut i: usize = start;
    while i < s.len()
        invariant
            start <= i <= s@.len() <= 20,
            start as int == if negative { 1int } else { 0int },
            s@.len() >= 1,
            negative == (s@[0] == MINUS),
            acc as nat == digits_value(s@.subrange(start as int, i as int)),
            acc < pow10((i - start) as nat),
            pow10(20) == 100000000000000000000nat,
            forall|j: int| start <= j < i ==> is_digit(s@[j]),
        decreases s@.len() - i,
    {
        let b = s[i];
        if b < 48 || b > 57 {
            proof {
                assert forall|t: i64| dec(t as int) != s@ by {
                    if dec(t as int) == s@ {
                        lemma_dec_facts(t as int);
                        if t < 0 {
                            lemma_dec_nat_digits((-t) as nat);
                            assert(s@[i as int] == dec_nat((-t) as nat)[i - 1]);
                        } else {
                            lemma_dec_nat_digits(t as nat);
                            assert(s@[i as int] == dec_nat(t as nat)[i as int]);
                        }
                    }
                }
            }
            return None;
        }
        let ghost old_acc = acc;
        proof {
            let k = (i - start) as nat;
            assert(pow10((k + 1) as nat) == 10 * pow10(k));
            assert(k + 1 <= 20);
            lemma_pow10_monotone((k + 1) as nat, 20);
            assert(old_acc * 10 + (b - 48) < 10 * pow10(k)) by (nonlinear_arith)
                requires
                    old_acc < pow10(k),
                    b - 48 <= 9,
            ;
        }
        acc = acc * 10 + (b - 48) as u128;
        i = i + 1;
        proof {
            let sub = s@.subrange(start as int, i as int);
            assert(sub.drop_last() == s@.subrange(start as int, i - 1));
        }
    }
    let max_mag: u128 = if negative {
        9223372036854775808
    } else {
        9223372036854775807
    };
    let ghost digits = s@.subrange(start as int, s@.len() as int);
    if acc > max_mag {
        proof {
            assert forall|t: i64| dec(t as int) != s@ by {
                if dec(t as int) == s@ {
                    if t < 0 {
                        lemma_dec_nat_digits((-t) as nat);
                        assert(digits == dec_nat((-t) as nat));
                    } else {
                        lemma_dec_nat_digits(t as nat);
                        assert(digits == dec_nat(t as nat));
                    }
                }
            }
        }
        return None;
    }
    let t: i64 = if negative {
        (0i128 - acc as i128) as i64
    } else {
        acc as i64
    };
    let e = encode_ts(t);
    if bytes_equal(e.as_slice(), s) {
        Some(t)
    } else {
        proof {
            assert forall|u: i64| dec(u as int) != s@ by {
                if dec(u as int) == s@ {
                    lemma_dec_facts(u as int);
                    if u < 0 {
                        lemma_dec_nat_digits((-u) as nat);
                        assert(digits == dec_nat((-u) as nat));
                    } else {
                        lemma_dec_nat_digits(u as nat);
                        assert(digits == dec_nat(u as nat));
                    }
                    assert(u == t);
                }
            }
        }
        None
    }
}

pub proof fn lemma_pow10_monotone(a: nat, b: nat)
    requires
        a <= b,
    ensures
        pow10(a) <= pow10(b),
    decreases b,
{
    if a < b {
        lemma_pow10_monotone(a, (b - 1) as nat);
        assert(pow10(b) == 10 * pow10((b - 1) as nat));
    }
}

/// Key of the row of `prefix` at second `t`.
pub fn row_key_bytes(prefix: &[u8], t: i64) -> (r: Vec<u8>)
    ensures
        r@ == row_key(prefix@, t as int),
{
    let mut r: Vec<u8> = Vec::new();
    push_all(&mut r, prefix);
    r.push(TAB);
    let d = encode_ts(t);
    push_all(&mut r, d.as_slice());
    assert(r@ =~= row_key(prefix@, t as int));
    r
}

/// Upper bound of the rows of `prefix`.
pub fn sentinel_bytes(prefix: &[u8]) -> (r: Vec<u8>)
    ensures
        r@ == sentinel(prefix@),
{
    let mut r: Vec<u8> = Vec::new();
    push_all(&mut r, prefix);
    r.push(DEL);
    assert(r@ =~= sentinel(prefix@));
    r
}

/// Prefix of the statistic `field` of the time series `prefix`.
pub fn subfield_prefix_bytes(prefix: &[u8], field: &[u8]) -> (r: Vec<u8>)
    ensures
        r@ == subfield_prefix(prefix@, field@),
{
    let mut r: Vec<u8> = Vec::new();
    push_all(&mut r, prefix);
    r.push(DOT);
    push_all(&mut r, field);
    r.push(SPACE);
    assert(r@ =~= subfield_prefix(prefix@, field@));
    r
}

/// Prefix of a cluster-level series.
pub fn cluster_prefix_bytes(name: &[u8], cluster: &[u8]) -> (r: Vec<u8>)
    ensures
        r@ == cluster_prefix(name@, cluster@),
{
    let mut r: Vec<u8> = Vec::new();
    push_all(&mut r, name);
    r.push(TAB);
    push_all(&mut r, cluster);
    assert(r@ =~= cluster_prefix(name@, cluster@));
    r
}

/// Prefix of a backend-level series.
pub fn backend_prefix_bytes(name: &[u8], cluster: &[u8], backend: &[u8]) -> (r: Vec<u8>)
    ensures
        r@ == backend_prefix(name@, cluster@, backend@),
{
    let mut r: Vec<u8> = Vec::new();
    push_all(&mut r, name);
    r.push(TAB);
    push_all(&mut r, cluster);
    r.push(TAB);
    push_all(&mut r, backend);
    assert(r@ =~= backend_prefix(name@, cluster@, backend@));
    r
}

pub proof fn lemma_lacks_concat(a: Seq<u8>, b: Seq<u8>, x: u8)
    requires
        lacks(a, x),
        lacks(b, x),
    ensures
        lacks(a + b, x),
{
    assert forall|i: int| 0 <= i < (a + b).len() implies (a + b)[i] != x by {
        if i >= a.len() {
            assert((a + b)[i] == b[i - a.len()]);
        }
    }
}

/// Row keys hold no upper-bound byte when their prefix holds none.
pub proof fn lemma_row_key_plain(p: Seq<u8>, t: int)
    requires
        lacks(p, DEL),
        i64::MIN <= t <= i64::MAX,
    ensures
        lacks(row_key(p, t), DEL),
{
    lemma_dec_facts(t);
    lemma_lacks_concat(p, seq![TAB], DEL);
    lemma_lacks_concat(p + seq![TAB], dec(t), DEL);
}

/// Sentinels end in the upper-bound byte.
pub proof fn lemma_sentinel_marked(p: Seq<u8>)
    ensures
        !lacks(sentinel(p), DEL),
{
    assert(sentinel(p)[p.len() as int] == DEL);
}

} // verus!
