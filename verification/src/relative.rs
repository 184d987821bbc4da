//! The relative-time engine: turns two instants into a human phrase such
//! as `1 day, 2 hours ago` or `3 minutes from now`.
//!
//! The decomposition is deliberately not calendar-exact, and the year and
//! month steps divide by one constant but reduce by another; both constants
//! are part of the observable behaviour and are kept as they are.

use vstd::prelude::*;
use crate::TimeUnit;
use crate::text::{push_all, push_dec, spec_dec, string_from_chars};

verus! {

pub const YEAR_DIVISOR: u128 = 31536926;

pub const YEAR_MODULUS: u128 = 31536000;

pub const MONTH_DIVISOR: u128 = 2629743;

pub const MONTH_MODULUS: u128 = 2592000;

pub const SECONDS_PER_DAY: u128 = 86400;

pub const SECONDS_PER_HOUR: u128 = 3600;

pub const SECONDS_PER_MINUTE: u128 = 60;

/// An instant reduced to whole seconds, whatever unit it was given in.
pub open spec fn to_seconds(t: u128, unit: TimeUnit) -> u128 {
    match unit {
        TimeUnit::Seconds => t,
        TimeUnit::Milliseconds => t / 1000,
    }
}

pub open spec fn abs_diff(a: u128, b: u128) -> u128 {
    if a > b {
        (a - b) as u128
    } else {
        (b - a) as u128
    }
}

pub open spec fn name_year() -> Seq<char> {
    seq!['y', 'e', 'a', 'r']
}

pub open spec fn name_month() -> Seq<char> {
    seq!['m', 'o', 'n', 't', 'h']
}

pub open spec fn name_day() -> Seq<char> {
    seq!['d', 'a', 'y']
}

pub open spec fn name_hour() -> Seq<char> {
    seq!['h', 'o', 'u', 'r']
}

pub open spec fn name_minute() -> Seq<char> {
    seq!['m', 'i', 'n', 'u', 't', 'e']
}

pub open spec fn name_second() -> Seq<char> {
    seq!['s', 'e', 'c', 'o', 'n', 'd']
}

pub open spec fn suffix_past() -> Seq<char> {
    seq![' ', 'a', 'g', 'o']
}

pub open spec fn suffix_future() -> Seq<char> {
    seq![' ', 'f', 'r', 'o', 'm', ' ', 'n', 'o', 'w']
}

/// One component clause: the count, a space, the unit name, and a plural
/// `s` when the count is above one.
pub open spec fn clause(n: u128, name: Seq<char>) -> Seq<char> {
    spec_dec(n as nat) + seq![' '] + name + (if n > 1 {
        seq!['s']
    } else {
        Seq::<char>::empty()
    })
}

/// Append one component to the phrase body: zero counts are skipped, and a
/// comma separator stands between adjacent clauses.
pub open spec fn join_clause(acc: Seq<char>, n: u128, name: Seq<char>) -> Seq<char> {
    if n == 0 {
        acc
    } else if acc.len() == 0 {
        clause(n, name)
    } else {
        acc + seq![',', ' '] + clause(n, name)
    }
}

/// The phrase body for a difference of `diff` whole seconds: the greedy
/// decomposition into years, months, days, hours, minutes and seconds,
/// joined in that order.
pub open spec fn phrase_body(diff: u128) -> Seq<char> {
    let years = diff / YEAR_DIVISOR;
    let d1 = diff % YEAR_MODULUS;
    let months = d1 / MONTH_DIVISOR;
    let d2 = d1 % MONTH_MODULUS;
    let days = d2 / SECONDS_PER_DAY;
    let d3 = d2 % SECONDS_PER_DAY;
    let hours = d3 / SECONDS_PER_HOUR;
    let d4 = d3 % SECONDS_PER_HOUR;
    let minutes = d4 / SECONDS_PER_MINUTE;
    let seconds = d4 % SECONDS_PER_MINUTE;
    let a1 = join_clause(Seq::<char>::empty(), years, name_year());
    let a2 = join_clause(a1, months, name_month());
    let a3 = join_clause(a2, days, name_day());
    let a4 = join_clause(a3, hours, name_hour());
    let a5 = join_clause(a4, minutes, name_minute());
    join_clause(a5, seconds, name_second())
}

/// The full phrase: body plus ` ago` when `current` lies after `against`,
/// else ` from now` (equal instants count as future).
pub open spec fn spec_relative_phrase(current: u128, against: u128, unit: TimeUnit) -> Seq<char> {
    let c = to_seconds(current, unit);
    let a = to_seconds(against, unit);
    phrase_body(abs_diff(c, a)) + (if c > a {
        suffix_past()
    } else {
        suffix_future()
    })
}

/// Identical instants always fall on the future side with every component
/// zero, so the phrase is the bare ` from now` suffix with no numeric
/// clause before it.
pub proof fn lemma_relative_phrase_same_instant(t: u128, unit: TimeUnit)
    ensures
        spec_relative_phrase(t, t, unit) == suffix_future(),
{
    let c = to_seconds(t, unit);
    assert(abs_diff(c, c) == 0);
    assert(phrase_body(0) =~= Seq::<char>::empty());
    assert(spec_relative_phrase(t, t, unit) =~= suffix_future());
}

fn name_year_vec() -> (r: Vec<char>)
    ensures
        r@ == name_year(),
{
    let mut v: Vec<char> = Vec::new();
    v.push('y');
    v.push('e');
    v.push('a');
    v.push('r');
    proof {
        assert(v@ =~= name_year());
    }
    v
}

fn name_month_vec() -> (r: Vec<char>)
    ensures
        r@ == name_month(),
{
    let mut v: Vec<char> = Vec::new();
    v.push('m');
    v.push('o');
    v.push('n');
    v.push('t');
    v.push('h');
    proof {
        assert(v@ =~= name_month());
    }
    v
}

fn name_day_vec() -> (r: Vec<char>)
    ensures
        r@ == name_day(),
{
    let mut v: Vec<char> = Vec::new();
    v.push('d');
    v.push('a');
    v.push('y');
    proof {
        assert(v@ =~= name_day());
    }
    v
}

fn name_hour_vec() -> (r: Vec<char>)
    ensures
        r@ == name_hour(),
{
    let mut v: Vec<char> = Vec::new();
    v.push('h');
    v.push('o');
    v.push('u');
    v.push('r');
    proof {
        assert(v@ =~= name_hour());
    }
    v
}

fn name_minute_vec() -> (r: Vec<char>)
    ensures
        r@ == name_minute(),
{
    let mut v: Vec<char> = Vec::new();
    v.push('m');
    v.push('i');
    v.push('n');
    v.push('u');
    v.push('t');
    v.push('e');
    proof {
        assert(v@ =~= name_minute());
    }
    v
}

fn name_second_vec() -> (r: Vec<char>)
    ensures
        r@ == name_second(),
{
    let mut v: Vec<char> = Vec::new();
    v.push('s');
    v.push('e');
    v.push('c');
    v.push('o');
    v.push('n');
    v.push('d');
    proof {
        assert(v@ =~= name_second());
    }
    v
}

fn push_join_clause(v: &mut Vec<char>, n: u128, name: &Vec<char>)
    ensures
        final(v)@ == join_clause(old(v)@, n, name@),
{
    if n == 0 {
        return ;
    }
    if v.len() != 0 {
        v.push(',');
        v.push(' ');
    }
    let ghost mid = v@;
    push_dec(v, n);
    v.push(' ');
    push_all(v, name);
    if n > 1 {
        v.push('s');
    }
    proof {
        assert(v@ =~= mid + clause(n, name@));
        if old(v)@.len() == 0 {
            assert(mid =~= old(v)@);
            assert(v@ =~= clause(n, name@));
        } else {
            assert(mid =~= old(v)@ + seq![',', ' ']);
            assert(v@ =~= old(v)@ + seq![',', ' '] + clause(n, name@));
        }
    }
}

/// The human-readable distance between two instants, exactly as the phrase
/// specification states it.
#[verifier::rlimit(60)]
pub fn relative_phrase(current: u128, against: u128, unit: TimeUnit) -> (r: String)
    ensures
        r@ == spec_relative_phrase(current, against, unit),
{
    let c: u128 = match unit {
        TimeUnit::Seconds => current,
        TimeUnit::Milliseconds => current / 1000,
    };
    let a: u128 = match unit {
        TimeUnit::Seconds => against,
        TimeUnit::Milliseconds => against / 1000,
    };
    let past: bool = c > a;
    let diff: u128 = if c > a {
        c - a
    } else {
        a - c
    };
    let years: u128 = diff / YEAR_DIVISOR;
    let d1: u128 = diff % YEAR_MODULUS;
    let months: u128 = d1 / MONTH_DIVISOR;
    let d2: u128 = d1 % MONTH_MODULUS;
    let days: u128 = d2 / SECONDS_PER_DAY;
    let d3: u128 = d2 % SECONDS_PER_DAY;
    let hours: u128 = d3 / SECONDS_PER_HOUR;
    let d4: u128 = d3 % SECONDS_PER_HOUR;
    let minutes: u128 = d4 / SECONDS_PER_MINUTE;
    let seconds: u128 = d4 % SECONDS_PER_MINUTE;
    let ghost a1 = join_clause(Seq::<char>::empty(), years, name_year());
    let ghost a2 = join_clause(a1, months, name_month());
    let ghost a3 = join_clause(a2, days, name_day());
    let ghost a4 = join_clause(a3, hours, name_hour());
    let ghost a5 = join_clause(a4, minutes, name_minute());
    let ghost a6 = join_clause(a5, seconds, name_second());
    let mut v: Vec<char> = Vec::new();
    push_join_clause(&mut v, years, &name_year_vec());
    proof {
        assert(v@ == a1);
    }
    push_join_clause(&mut v, months, &name_month_vec());
    proof {
        assert(v@ == a2);
    }
    push_join_clause(&mut v, days, &name_day_vec());
    proof {
        assert(v@ == a3);
    }
    push_join_clause(&mut v, hours, &name_hour_vec());
    proof {
        assert(v@ == a4);
    }
    push_join_clause(&mut v, minutes, &name_minute_vec());
    proof {
        assert(v@ == a5);
    }
    push_join_clause(&mut v, seconds, &name_second_vec());
    proof {
        assert(v@ == a6);
        assert(v@ == phrase_body(diff));
    }
    if past {
        v.push(' ');
        v.push('a');
        v.push('g');
        v.push('o');
        proof {
            assert(v@ =~= phrase_body(diff) + suffix_past());
        }
    } else {
        v.push(' ');
        v.push('f');
        v.push('r');
        v.push('o');
        v.push('m');
        v.push(' ');
        v.push('n');
        v.push('o');
        v.push('w');
        proof {
            assert(v@ =~= phrase_body(diff) + suffix_future());
        }
    }
    string_from_chars(&v)
}

} // verus!
