//! The timer side: parsing compact duration text such as `1h30m15s` into a
//! number of seconds, and rendering the running timer line.

use vstd::prelude::*;
use crate::ClockError;
use crate::text::{
    digit_of, digit_val, is_digit_char, lemma_mul10_overflow, push_dec, spec_dec, str_chars,
    string_from_chars,
};

verus! {

/// One step of the duration scan. `pending`/`has_pending` hold the digit run
/// read so far, `total` the seconds already banked, `valid` whether a unit
/// suffix has appeared yet. A digit grows the pending number (rejected once
/// it no longer fits in a `u64`, where unchecked arithmetic would fail); `s`,
/// `m` and `h` bank the pending number at their scale, rejected when no
/// digits precede them or when the running total leaves `u64`; any other
/// character is rejected. A trailing digit run with no suffix is discarded.
pub open spec fn duration_step(
    s: Seq<char>,
    pending: nat,
    has_pending: bool,
    total: nat,
    valid: bool,
) -> Option<u64>
    decreases s.len(),
{
    if s.len() == 0 {
        if valid {
            Option::Some(total as u64)
        } else {
            Option::None
        }
    } else {
        let c = s[0];
        let rest = s.subrange(1, s.len() as int);
        if is_digit_char(c) {
            let p2 = pending * 10 + digit_val(c);
            if p2 > u64::MAX {
                Option::None
            } else {
                duration_step(rest, p2, true, total, valid)
            }
        } else if c == 's' || c == 'm' || c == 'h' {
            let scale: nat = if c == 's' {
                1
            } else if c == 'm' {
                60
            } else {
                3600
            };
            let t2 = total + pending * scale;
            if !has_pending || t2 > u64::MAX {
                Option::None
            } else {
                duration_step(rest, 0, false, t2, true)
            }
        } else {
            Option::None
        }
    }
}

/// What the duration text denotes in seconds, when it is well formed.
pub open spec fn spec_parse_duration(s: Seq<char>) -> Option<u64> {
    duration_step(s, 0, false, 0, false)
}

/// Parse a compact duration such as `1h30m15s` into whole seconds.
pub fn parse_duration(input: &str) -> (r: Result<u64, ClockError>)
    ensures
        match r {
            Result::Ok(n) => spec_parse_duration(input@) == Option::Some(n),
            Result::Err(e) => spec_parse_duration(input@) is None && e
                == ClockError::InvalidDurationFormat,
        },
{
    let cs = str_chars(input);
    let mut i: usize = 0;
    let mut pending: u64 = 0;
    let mut has_pending: bool = false;
    let mut total: u128 = 0;
    let mut valid: bool = false;
    proof {
        assert(cs@.subrange(0, cs@.len() as int) =~= cs@);
        assert(cs@ == input@);
    }
    while i < cs.len()
        invariant
            cs@ == input@,
            i <= cs@.len(),
            total <= u64::MAX as u128,
            spec_parse_duration(input@) == duration_step(
                cs@.subrange(i as int, cs@.len() as int),
                pending as nat,
                has_pending,
                total as nat,
                valid,
            ),
        decreases cs@.len() - i,
    {
        let ghost suf = cs@.subrange(i as int, cs@.len() as int);
        let c: char = cs[i];
        proof {
            assert(suf[0] == c);
            assert(suf.subrange(1, suf.len() as int) =~= cs@.subrange(i + 1, cs@.len() as int));
        }
        match digit_of(c) {
            Option::Some(d) => {
                proof {
                    lemma_mul10_overflow(pending as nat, d as nat, u64::MAX as nat);
                }
                if pending > (u64::MAX - d as u64) / 10 {
                    return Result::Err(ClockError::InvalidDurationFormat);
                }
                pending = pending * 10 + d as u64;
                has_pending = true;
            },
            Option::None => {
                if c == 's' || c == 'm' || c == 'h' {
                    let scale: u128 = if c == 's' {
                        1
                    } else if c == 'm' {
                        60
                    } else {
                        3600
                    };
                    let t2: u128 = total + pending as u128 * scale;
                    if !has_pending || t2 > u64::MAX as u128 {
                        return Result::Err(ClockError::InvalidDurationFormat);
                    }
                    total = t2;
                    pending = 0;
                    has_pending = false;
                    valid = true;
                } else {
                    return Result::Err(ClockError::InvalidDurationFormat);
                }
            },
        }
        i = i + 1;
    }
    proof {
        assert(cs@.subrange(i as int, cs@.len() as int) =~= Seq::<char>::empty());
    }
    if valid {
        Result::Ok(total as u64)
    } else {
        Result::Err(ClockError::InvalidDurationFormat)
    }
}

/// A count padded on the left with `0` to at least two digits.
pub open spec fn pad2(n: nat) -> Seq<char> {
    if n < 10 {
        seq!['0'] + spec_dec(n)
    } else {
        spec_dec(n)
    }
}

/// The timer display for a remaining (or elapsed) time of `ms` milliseconds:
/// hours, minutes, seconds and leftover milliseconds, each zero-padded to
/// two places and joined with `:`.
pub open spec fn spec_timer_line(ms: u64) -> Seq<char> {
    let s = ms / 1000;
    pad2((s / 3600) as nat) + seq![':'] + pad2(((s % 3600) / 60) as nat) + seq![':'] + pad2(
        (s % 60) as nat,
    ) + seq![':'] + pad2((ms % 1000) as nat)
}

fn push_pad2(v: &mut Vec<char>, n: u64)
    ensures
        final(v)@ == old(v)@ + pad2(n as nat),
{
    if n < 10 {
        v.push('0');
        push_dec(v, n as u128);
        proof {
            assert(v@ =~= old(v)@ + pad2(n as nat));
        }
    } else {
        push_dec(v, n as u128);
    }
}

/// Render the timer line for `ms` milliseconds.
pub fn timer_line(ms: u64) -> (r: String)
    ensures
        r@ == spec_timer_line(ms),
{
    let s: u64 = ms / 1000;
    let mut v: Vec<char> = Vec::new();
    push_pad2(&mut v, s / 3600);
    v.push(':');
    let ghost v1 = v@;
    push_pad2(&mut v, (s % 3600) / 60);
    v.push(':');
    let ghost v2 = v@;
    push_pad2(&mut v, s % 60);
    v.push(':');
    let ghost v3 = v@;
    push_pad2(&mut v, ms % 1000);
    proof {
        assert(v@ =~= spec_timer_line(ms));
    }
    string_from_chars(&v)
}

/// One countdown tick: the timer is finished once no whole second remains;
/// otherwise fifty milliseconds elapse.
pub fn countdown_step(ms: u64) -> (r: (bool, u64))
    ensures
        r.0 == (ms / 1000 == 0),
        r.0 ==> r.1 == ms,
        !r.0 ==> r.1 == ms - 50,
{
    if ms / 1000 == 0 {
        (true, ms)
    } else {
        (false, ms - 50)
    }
}

/// One count-up tick: fifty more milliseconds have elapsed.
pub fn countup_step(ms: u64) -> (r: u64)
    requires
        ms + 50 <= u64::MAX,
    ensures
        r == ms + 50,
{
    ms + 50
}

} // verus!
