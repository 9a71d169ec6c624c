//! Wall-clock time, in unix seconds, and its position within the minute and the hour.
use vstd::prelude::*;

verus! {

/// Relies on time::OffsetDateTime::now_utc and unix_timestamp: the current UTC
/// time in whole seconds. Nothing is promised of its value.
#[verifier::external_body]
pub(crate) fn unix_now() -> (r: i64) {
    time::OffsetDateTime::now_utc().unix_timestamp()
}

/// Seconds elapsed since the start of the minute holding `ts`.
pub open spec fn second_of_minute(ts: int) -> int {
    ts % 60
}

/// Minutes elapsed since the start of the hour holding `ts`.
pub open spec fn minute_of_hour(ts: int) -> int {
    (ts % 3600) / 60
}

/// Position of `ts` within its hour: (second of the minute, minute of the hour).
pub fn clock_position(ts: i64) -> (r: (u64, u64))
    ensures
        r.0 == second_of_minute(ts as int),
        r.1 == minute_of_hour(ts as int),
        r.0 < 60,
        r.1 < 60,
{
    let within_hour: u64 = if ts >= 0 {
        (ts as u64) % 3600
    } else {
        let mag: u64 = (0i128 - ts as i128) as u64;
        let r = mag % 3600;
        proof {
            let q = mag as int / 3600;
            assert(mag as int == q * 3600 + r as int) by {
                vstd::arithmetic::div_mod::lemma_fundamental_div_mod(mag as int, 3600);
            }
            if r == 0 {
                vstd::arithmetic::div_mod::lemma_fundamental_div_mod_converse(
                    ts as int,
                    3600,
                    -q,
                    0,
                );
            } else {
                vstd::arithmetic::div_mod::lemma_fundamental_div_mod_converse(
                    ts as int,
                    3600,
                    -q - 1,
                    3600 - r as int,
                );
            }
        }
        if r == 0 {
            0
        } else {
            3600 - r
        }
    };
    proof {
        let e = within_hour as int;
        assert(e == (ts as int) % 3600);
        let h = (ts as int) / 3600;
        vstd::arithmetic::div_mod::lemma_fundamental_div_mod(ts as int, 3600);
        vstd::arithmetic::div_mod::lemma_fundamental_div_mod(e, 60);
        let m = e / 60;
        let s = e % 60;
        assert(ts as int == (h * 60 + m) * 60 + s) by (nonlinear_arith)
            requires
                ts as int == h * 3600 + e,
                e == m * 60 + s,
        ;
        vstd::arithmetic::div_mod::lemma_fundamental_div_mod_converse(ts as int, 60, h * 60 + m, s);
    }
    (within_hour % 60, within_hour / 60)
}

} // verus!
