//! Character-level helpers shared by the phrase builder, the duration
//! parser and the store codec: decimal digits, decimal rendering of
//! unsigned values, and prefix matching over character sequences.

use vstd::prelude::*;
use vstd::string::*;

verus! {

// ---------- digits ----------

pub open spec fn is_digit_char(c: char) -> bool {
    48 <= c as u32 && c as u32 <= 57
}

/// Numeric value of a decimal digit character.
pub open spec fn digit_val(c: char) -> nat {
    (c as u32 - 48) as nat
}

/// The decimal digit character for a value below ten.
pub open spec fn digit_char(d: nat) -> char {
    if d == 0 {
        '0'
    } else if d == 1 {
        '1'
    } else if d == 2 {
        '2'
    } else if d == 3 {
        '3'
    } else if d == 4 {
        '4'
    } else if d == 5 {
        '5'
    } else if d == 6 {
        '6'
    } else if d == 7 {
        '7'
    } else if d == 8 {
        '8'
    } else {
        '9'
    }
}

pub proof fn lemma_digit_char_val(d: nat)
    requires
        d < 10,
    ensures
        is_digit_char(digit_char(d)),
        digit_val(digit_char(d)) == d,
{
}

/// Decimal rendering of an unsigned value, most significant digit first,
/// with no leading zeros (a single `'0'` for zero).
pub open spec fn spec_dec(n: nat) -> Seq<char>
    decreases n,
{
    if n < 10 {
        seq![digit_char(n)]
    } else {
        spec_dec(n / 10).push(digit_char(n % 10))
    }
}

pub open spec fn all_digits(s: Seq<char>) -> bool {
    forall|i: int| 0 <= i < s.len() ==> is_digit_char(#[trigger] s[i])
}

/// Value of a string of decimal digits, most significant first.
pub open spec fn val_of(s: Seq<char>) -> nat
    decreases s.len(),
{
    if s.len() == 0 {
        0
    } else {
        val_of(s.drop_last()) * 10 + digit_val(s.last())
    }
}

/// A rendered decimal is a nonempty digit string whose value is the
/// rendered number.
pub proof fn lemma_spec_dec(n: nat)
    ensures
        spec_dec(n).len() >= 1,
        all_digits(spec_dec(n)),
        val_of(spec_dec(n)) == n,
    decreases n,
{
    if n < 10 {
        lemma_digit_char_val(n);
        let s = spec_dec(n);
        assert(s.drop_last() =~= Seq::<char>::empty());
        assert(val_of(s.drop_last()) == 0);
        assert(s.last() == digit_char(n));
        assert(val_of(s) == digit_val(digit_char(n)));
    } else {
        lemma_spec_dec(n / 10);
        lemma_digit_char_val(n % 10);
        let p = spec_dec(n / 10);
        let s = spec_dec(n);
        assert(s == p.push(digit_char(n % 10)));
        assert(s.drop_last() =~= p);
        assert(s.last() == digit_char(n % 10));
        assert(val_of(s) == val_of(p) * 10 + digit_val(digit_char(n % 10)));
        vstd::arithmetic::div_mod::lemma_fundamental_div_mod(n as int, 10);
        assert(val_of(s) == n);
        assert forall|i: int| 0 <= i < s.len() implies is_digit_char(s[i]) by {
            if i < p.len() {
                assert(s[i] == p[i]);
            } else {
                assert(s[i] == digit_char(n % 10));
            }
        }
    }
}

fn digit_char_exec(d: u8) -> (c: char)
    requires
        d < 10,
    ensures
        c == digit_char(d as nat),
{
    if d == 0 {
        '0'
    } else if d == 1 {
        '1'
    } else if d == 2 {
        '2'
    } else if d == 3 {
        '3'
    } else if d == 4 {
        '4'
    } else if d == 5 {
        '5'
    } else if d == 6 {
        '6'
    } else if d == 7 {
        '7'
    } else if d == 8 {
        '8'
    } else {
        '9'
    }
}

pub fn is_digit_exec(c: char) -> (r: bool)
    ensures
        r == is_digit_char(c),
{
    let u: u32 = c as u32;
    48 <= u && u <= 57
}

pub fn digit_of(c: char) -> (r: Option<u8>)
    ensures
        r is Some <==> is_digit_char(c),
        r is Some ==> r.unwrap() as nat == digit_val(c) && r.unwrap() < 10,
{
    let u: u32 = c as u32;
    if 48 <= u && u <= 57 {
        Option::Some((u - 48) as u8)
    } else {
        Option::None
    }
}

/// Append the decimal rendering of `n` to `v`.
pub fn push_dec(v: &mut Vec<char>, n: u128)
    ensures
        final(v)@ == old(v)@ + spec_dec(n as nat),
    decreases n,
{
    if n < 10 {
        v.push(digit_char_exec(n as u8));
        proof {
            assert(v@ =~= old(v)@ + spec_dec(n as nat));
        }
    } else {
        let q: u128 = n / 10;
        let r: u128 = n % 10;
        proof {
            vstd::arithmetic::div_mod::lemma_div_decreases(n as int, 10);
        }
        push_dec(v, q);
        v.push(digit_char_exec(r as u8));
        proof {
            assert(spec_dec(n as nat) == spec_dec((n as nat) / 10).push(digit_char((n as nat) % 10)));
            assert(v@ =~= old(v)@ + spec_dec(n as nat));
        }
    }
}

/// Appending a digit multiplies the pending value by ten; this bounds check
/// is exactly the question whether the grown value still fits below `m`.
pub proof fn lemma_mul10_overflow(p: nat, d: nat, m: nat)
    requires
        d <= 9,
        10 <= m,
    ensures
        p * 10 + d > m <==> p > (m - d) / 10,
{
    let k = ((m - d) / 10) as nat;
    vstd::arithmetic::div_mod::lemma_fundamental_div_mod((m - d) as int, 10);
    if p > k {
        assert(p * 10 >= (k + 1) * 10) by (nonlinear_arith)
            requires
                p >= k + 1,
        ;
    } else {
        assert(p * 10 <= k * 10) by (nonlinear_arith)
            requires
                p <= k,
        ;
    }
}

/// A longer digit prefix never has a smaller value.
pub proof fn lemma_val_of_mono(s: Seq<char>, j: int, k: int)
    requires
        0 <= j <= k <= s.len(),
    ensures
        val_of(s.subrange(0, k)) >= val_of(s.subrange(0, j)),
    decreases k - j,
{
    if j < k {
        lemma_val_of_mono(s, j, k - 1);
        let a = s.subrange(0, k - 1);
        let b = s.subrange(0, k);
        assert(b.drop_last() =~= a);
        assert(val_of(b) == val_of(a) * 10 + digit_val(b.last()));
    }
}

pub open spec fn spec_parse_instant(s: Seq<char>) -> Option<u128> {
    let body = if s.len() >= 1 && s[0] == '+' {
        s.subrange(1, s.len() as int)
    } else {
        s
    };
    if body.len() >= 1 && all_digits(body) && val_of(body) <= u128::MAX {
        Option::Some(val_of(body) as u128)
    } else {
        Option::None
    }
}

/// Parse a non-negative decimal integer the way `u128` parsing accepts it:
/// an optional leading `+`, then at least one digit, and a value in range.
pub fn parse_instant(input: &str) -> (r: Result<u128, crate::ClockError>)
    ensures
        match r {
            Result::Ok(n) => spec_parse_instant(input@) == Option::Some(n),
            Result::Err(e) => spec_parse_instant(input@) is None && e
                == crate::ClockError::InvalidNumericInput,
        },
{
    let cs = str_chars(input);
    let mut i: usize = 0;
    if cs.len() >= 1 && cs[0] == '+' {
        i = 1;
    }
    let ghost body = if input@.len() >= 1 && input@[0] == '+' {
        input@.subrange(1, input@.len() as int)
    } else {
        input@
    };
    proof {
        assert(body =~= cs@.subrange(i as int, cs@.len() as int));
    }
    if i >= cs.len() {
        return Result::Err(crate::ClockError::InvalidNumericInput);
    }
    let mut acc: u128 = 0;
    let mut j: usize = i;
    proof {
        assert(cs@.subrange(i as int, i as int) =~= Seq::<char>::empty());
    }
    while j < cs.len()
        invariant
            cs@ == input@,
            i <= j <= cs@.len(),
            i < cs@.len(),
            body == cs@.subrange(i as int, cs@.len() as int),
            body == (if input@.len() >= 1 && input@[0] == '+' {
                input@.subrange(1, input@.len() as int)
            } else {
                input@
            }),
            all_digits(cs@.subrange(i as int, j as int)),
            acc as nat == val_of(cs@.subrange(i as int, j as int)),
        decreases cs@.len() - j,
    {
        let c: char = cs[j];
        match digit_of(c) {
            Option::None => {
                proof {
                    assert(body[j - i] == c);
                    assert(!all_digits(body));
                }
                return Result::Err(crate::ClockError::InvalidNumericInput);
            },
            Option::Some(d) => {
                proof {
                    lemma_mul10_overflow(acc as nat, d as nat, u128::MAX as nat);
                }
                if acc > (u128::MAX - d as u128) / 10 {
                    proof {
                        let pre = cs@.subrange(i as int, j + 1);
                        assert(pre.drop_last() =~= cs@.subrange(i as int, j as int));
                        assert(pre.last() == c);
                        assert(val_of(pre) > u128::MAX);
                        if all_digits(body) {
                            let bs = body;
                            assert(bs.subrange(0, j + 1 - i) =~= pre);
                            lemma_val_of_mono(bs, j + 1 - i, bs.len() as int);
                            assert(bs.subrange(0, bs.len() as int) =~= bs);
                            assert(val_of(body) > u128::MAX);
                        }
                    }
                    return Result::Err(crate::ClockError::InvalidNumericInput);
                }
                proof {
                    let pre = cs@.subrange(i as int, j + 1);
                    assert(pre.drop_last() =~= cs@.subrange(i as int, j as int));
                    assert(pre.last() == c);
                }
                acc = acc * 10 + d as u128;
            },
        }
        j = j + 1;
    }
    proof {
        assert(cs@.subrange(i as int, cs@.len() as int) =~= body);
    }
    Result::Ok(acc)
}

// ---------- sequences of characters ----------

/// Append every character of `w` to `v`.
pub fn push_all(v: &mut Vec<char>, w: &Vec<char>)
    ensures
        final(v)@ == old(v)@ + w@,
{
    proof {
        assert(v@ =~= old(v)@ + w@.subrange(0, 0));
    }
    let mut k: usize = 0;
    while k < w.len()
        invariant
            k <= w@.len(),
            v@ == old(v)@ + w@.subrange(0, k as int),
        decreases w@.len() - k,
    {
        v.push(w[k]);
        proof {
            assert(old(v)@ + w@.subrange(0, k as int) + seq![w@[k as int]] =~= old(v)@ + w@.subrange(
                0,
                k + 1,
            ));
        }
        k = k + 1;
    }
    proof {
        assert(w@.subrange(0, w@.len() as int) =~= w@);
    }
}

/// The characters of a string slice, in order.
pub fn str_chars(s: &str) -> (r: Vec<char>)
    ensures
        r@ == s@,
{
    let n: usize = s.unicode_len();
    let mut v: Vec<char> = Vec::new();
    let mut i: usize = 0;
    while i < n
        invariant
            n == s@.len(),
            i <= n,
            v@ == s@.subrange(0, i as int),
        decreases n - i,
    {
        let c: char = s.get_char(i);
        proof {
            assert(s@.subrange(0, i as int).push(s@[i as int]) =~= s@.subrange(0, i + 1));
        }
        v.push(c);
        i = i + 1;
    }
    proof {
        assert(s@.subrange(0, s@.len() as int) =~= s@);
    }
    v
}

/// Relies on `String`'s `FromIterator<char>` implementation: collecting an
/// iterator of characters yields the string of exactly those characters,
/// in order.
#[verifier::external_body]
pub(crate) fn string_from_chars(v: &Vec<char>) -> (r: String)
    ensures
        r@ == v@,
{
    v.iter().collect()
}

/// `pat` occurs in `s` starting at its first position.
pub open spec fn match_prefix(s: Seq<char>, pat: Seq<char>) -> bool {
    pat.len() <= s.len() && s.subrange(0, pat.len() as int) == pat
}

/// Whether the characters of `pat` stand in `t` starting at index `i`.
pub fn check_at(t: &Vec<char>, i: usize, pat: &Vec<char>) -> (r: bool)
    requires
        i <= t@.len(),
    ensures
        r == match_prefix(t@.subrange(i as int, t@.len() as int), pat@),
{
    let ghost suf = t@.subrange(i as int, t@.len() as int);
    let tlen: usize = t.len();
    if tlen - i < pat.len() {
        return false;
    }
    let mut k: usize = 0;
    while k < pat.len()
        invariant
            suf == t@.subrange(i as int, t@.len() as int),
            tlen == t@.len(),
            i + pat@.len() <= tlen,
            k <= pat@.len(),
            forall|j: int| 0 <= j < k ==> t@[i + j] == pat@[j],
        decreases pat@.len() - k,
    {
        if t[i + k] != pat[k] {
            proof {
                assert(suf.subrange(0, pat@.len() as int)[k as int] == t@[i + k]);
                assert(!match_prefix(suf, pat@));
            }
            return false;
        }
        k = k + 1;
    }
    proof {
        assert(suf.subrange(0, pat@.len() as int) =~= pat@);
    }
    true
}

} // verus!
