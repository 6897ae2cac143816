//! Data-stewardship helpers: the backup-nudge states and human-readable byte
//! sizes for the storage readout.
use vstd::prelude::*;
use crate::text::{decimal, digit_char, push_char, push_decimal, push_str};

verus! {

/// Only nudge once the event log exceeds this many events.
pub const NUDGE_EVENT_THRESHOLD: u64 = 5_000;

/// A backup goes stale after 60 days (epoch milliseconds).
pub const BACKUP_STALE_MS: i64 = 5_184_000_000;

/// "Snooze" hides the nudge for 30 days (epoch milliseconds).
pub const SNOOZE_MS: i64 = 2_592_000_000;

/// What the dashboard should do with the backup nudge.
#[derive(Clone, Copy, Debug, PartialEq, Eq, Structural)]
pub enum Nudge {
    /// Surface the "time to back up" chip.
    Show,
    /// Eligible, but snoozed by the user.
    Snoozed,
    /// Nothing to nudge: too little data, or a recent-enough backup.
    Hidden,
}

pub open spec fn pow1024(u: nat) -> nat
    decreases u,
{
    if u == 0 {
        1
    } else {
        1024 * pow1024((u - 1) as nat)
    }
}

/// The scale step for `bytes` (at least 1024): the largest `u` in 1..=4
/// with `1024^u <= bytes`.
pub open spec fn byte_unit(bytes: nat) -> nat {
    if bytes >= pow1024(4) {
        4
    } else if bytes >= pow1024(3) {
        3
    } else if bytes >= pow1024(2) {
        2
    } else {
        1
    }
}

pub open spec fn unit_name(u: nat) -> Seq<char> {
    if u == 1 {
        "KB"@
    } else if u == 2 {
        "MB"@
    } else if u == 3 {
        "GB"@
    } else {
        "TB"@
    }
}

/// `num / den` rounded to the nearest integer, ties to even.
pub open spec fn round_half_even(num: nat, den: nat) -> nat {
    let q = num / den;
    let r = num % den;
    if 2 * r > den || (2 * r == den && q % 2 == 1) {
        q + 1
    } else {
        q
    }
}

/// `2^k`.
pub open spec fn two_to(k: nat) -> nat
    decreases k,
{
    if k == 0 {
        1
    } else {
        2 * two_to((k - 1) as nat)
    }
}

proof fn lemma_two_to_mono(a: nat, b: nat)
    requires
        a <= b,
    ensures
        two_to(a) <= two_to(b),
        two_to(a) >= 1,
    decreases b,
{
    if b > a {
        lemma_two_to_mono(a, (b - 1) as nat);
    } else if a > 0 {
        lemma_two_to_mono((a - 1) as nat, (a - 1) as nat);
    }
}

/// `b` has `53 + k` bits, `k >= 1`.
pub open spec fn bits_over(b: nat, k: nat) -> bool {
    k >= 1 && two_to(52 + k) <= b && b < two_to(53 + k)
}

/// How many low bits of `b` lie below its 53 most significant ones.
pub open spec fn extra_bits(b: nat) -> nat {
    if b < two_to(53) {
        0
    } else {
        choose|k: nat| #[trigger] bits_over(b, k)
    }
}

/// The `f64` nearest to `b` (ties to even): `b` itself up to 2^53, above
/// that `b` rounded to its 53 most significant bits.
pub open spec fn as_double(b: nat) -> nat {
    round_half_even(b, two_to(extra_bits(b))) * two_to(extra_bits(b))
}

pub open spec fn spec_human_bytes(bytes: nat) -> Seq<char> {
    if bytes < 1024 {
        decimal(bytes) + " B"@
    } else {
        let v = as_double(bytes);
        let u = byte_unit(v);
        let t = round_half_even(10 * v, pow1024(u));
        decimal(t / 10) + seq!['.', digit_char(t % 10), ' '] + unit_name(u)
    }
}

proof fn lemma_rounded_fits(b: int, p: int, q: int, m: int)
    requires
        1 <= p <= 2048,
        0 <= b < 9007199254740992 * p,
        q == b / p,
        0 <= m <= q + 1,
    ensures
        m * p <= 18446744073709551616,
{
    assert(q * p <= b) by (nonlinear_arith)
        requires
            q == b / p,
            p >= 1,
            b >= 0,
    ;
    assert(q < 9007199254740992) by (nonlinear_arith)
        requires
            q * p <= b,
            b < 9007199254740992 * p,
            p >= 1,
    ;
    assert(m * p <= 9007199254740992 * p) by (nonlinear_arith)
        requires
            m <= 9007199254740992,
            p >= 1,
    ;
}

/// The `f64` value of a byte count, as an integer (see [`as_double`]).
fn double_value(bytes: u64) -> (v: u128)
    ensures
        v == as_double(bytes as nat),
        v <= 18446744073709551616,
{
    let b = bytes as u128;
    let mut k: u32 = 0;
    let mut lim: u128 = 9007199254740992;
    let mut p: u128 = 1;
    assert(two_to(53) == 9007199254740992 && two_to(64) == 18446744073709551616 && two_to(11) == 2048) by {
        reveal_with_fuel(two_to, 65);
    }
    while b >= lim
        invariant
            two_to(64) == 18446744073709551616,
            two_to(11) == 2048,
            k <= 11,
            lim == two_to((53 + k) as nat),
            p == two_to(k as nat),
            lim == 9007199254740992 * p,
            1 <= p <= 2048,
            b < 18446744073709551616,
            b == bytes,
            k >= 1 ==> two_to((52 + k) as nat) <= b,
        decreases 11 - k,
    {
        if k == 11 {
            assert(lim == 18446744073709551616);
            assert(false);
        }
        k += 1;
        lim = 2 * lim;
        p = 2 * p;
        proof {
            lemma_two_to_mono(k as nat, 11);
        }
    }
    proof {
        if k >= 1 {
            let kk = k as nat;
            assert(bits_over(b as nat, kk));
            lemma_two_to_mono(53, 52 + kk);
            let c = extra_bits(b as nat);
            assert(bits_over(b as nat, c));
            if c < kk {
                lemma_two_to_mono(53 + c, 52 + kk);
            } else if c > kk {
                lemma_two_to_mono(53 + kk, 52 + c);
            }
            assert(c == kk);
        } else {
            assert(extra_bits(b as nat) == 0);
        }
    }
    let q = b / p;
    let rem = b % p;
    let m: u128 = if 2 * rem > p || (2 * rem == p && q % 2 == 1) {
        q + 1
    } else {
        q
    };
    proof {
        lemma_rounded_fits(b as int, p as int, q as int, m as int);
    }
    m * p
}

/// Format a byte count compactly (`"512 B"`, `"1.0 KB"`, `"48.2 MB"`),
/// binary scaled, one decimal rounded to nearest (ties to even), as `f64`
/// formatting does with the count's `f64` value.
pub fn human_bytes(bytes: u64) -> (r: String)
    ensures
        r@ == spec_human_bytes(bytes as nat),
{
    let mut s = String::new();
    if bytes < 1024 {
        push_decimal(&mut s, bytes);
        push_str(&mut s, " B");
        assert(s@ =~= spec_human_bytes(bytes as nat));
        return s;
    }
    let v = double_value(bytes);
    assert(pow1024(0) == 1);
    assert(pow1024(1) == 1024);
    assert(pow1024(2) == 1048576);
    assert(pow1024(3) == 1073741824);
    assert(pow1024(4) == 1099511627776);
    let (p, unit): (u128, u64) = if v >= 1099511627776 {
        (1099511627776, 4)
    } else if v >= 1073741824 {
        (1073741824, 3)
    } else if v >= 1048576 {
        (1048576, 2)
    } else {
        (1024, 1)
    };
    let num: u128 = 10 * v;
    let q = num / p;
    let rem = num % p;
    let t: u128 = if 2 * rem > p || (2 * rem == p && q % 2 == 1) {
        q + 1
    } else {
        q
    };
    assert(t <= 200_000_000_000_000_000_000) by (nonlinear_arith)
        requires
            q == num / p,
            p >= 1024,
            num <= 200_000_000_000_000_000_000,
            t <= q + 1,
    ;
    push_decimal(&mut s, (t / 10) as u64);
    push_char(&mut s, '.');
    let d = (t % 10) as u8;
    push_char(&mut s, (d + 48) as char);
    push_char(&mut s, ' ');
    let name = if unit == 1 {
        "KB"
    } else if unit == 2 {
        "MB"
    } else if unit == 3 {
        "GB"
    } else {
        "TB"
    };
    push_str(&mut s, name);
    assert(s@ =~= spec_human_bytes(bytes as nat));
    s
}

/// The backup-nudge decision: hidden with too little data (at most
/// `NUDGE_EVENT_THRESHOLD` events) or a backup younger than
/// `BACKUP_STALE_MS`; snoozed while `now` has not passed the snooze; shown
/// otherwise. Timestamps are epoch milliseconds; `None` means never written.
pub open spec fn spec_nudge_state(events: u64, last_export_ts: Option<i64>, snoozed_until: Option<i64>, now: i64) -> Nudge {
    if events <= NUDGE_EVENT_THRESHOLD {
        Nudge::Hidden
    } else if last_export_ts matches Some(ts) && now - ts < BACKUP_STALE_MS {
        Nudge::Hidden
    } else if snoozed_until matches Some(until) && now <= until {
        Nudge::Snoozed
    } else {
        Nudge::Show
    }
}

/// Decide whether to show the backup nudge.
pub fn nudge_state(events: u64, last_export_ts: Option<i64>, snoozed_until: Option<i64>, now: i64) -> (r: Nudge)
    ensures
        r == spec_nudge_state(events, last_export_ts, snoozed_until, now),
{
    if events <= NUDGE_EVENT_THRESHOLD {
        return Nudge::Hidden;
    }
    if let Some(ts) = last_export_ts {
        if (now as i128) - (ts as i128) < BACKUP_STALE_MS as i128 {
            return Nudge::Hidden;
        }
    }
    if let Some(until) = snoozed_until {
        if now <= until {
            return Nudge::Snoozed;
        }
    }
    Nudge::Show
}

} // verus!
