//! The store document codec. A marker store is persisted as a single text
//! document holding one `events` array of inline records:
//!
//! `events = [{timestamp = 100, description = "test"}]`
//!
//! followed by a newline. Double quotes and backslashes inside a
//! description are escaped with a backslash, so any description text
//! survives a save and a reload. An entirely empty document (the state of a
//! freshly created store file) reads as an empty store. The serializer and
//! the parser are written against one grammar, and parsing is proved to
//! invert serialization.

use vstd::prelude::*;
use crate::ClockError;
use crate::markers::{Marker, markers_view};
use crate::text::{
    digit_val, is_digit_char, lemma_mul10_overflow, lemma_spec_dec, is_digit_exec, match_prefix,
    push_dec, spec_dec, str_chars, string_from_chars, val_of, check_at,
};

verus! {

// ---------- the grammar's fixed pieces ----------

pub open spec fn doc_head() -> Seq<char> {
    seq!['e', 'v', 'e', 'n', 't', 's', ' ', '=', ' ', '[']
}

pub open spec fn doc_tail() -> Seq<char> {
    seq![']', '\n']
}

pub open spec fn entry_head() -> Seq<char> {
    seq!['{', 't', 'i', 'm', 'e', 's', 't', 'a', 'm', 'p', ' ', '=', ' ']
}

pub open spec fn desc_head() -> Seq<char> {
    seq![',', ' ', 'd', 'e', 's', 'c', 'r', 'i', 'p', 't', 'i', 'o', 'n', ' ', '=', ' ', '"']
}

pub open spec fn entry_tail() -> Seq<char> {
    seq!['"', '}']
}

// ---------- serialization ----------

/// A description character as it stands in the document: quotes and
/// backslashes take a leading backslash.
pub open spec fn esc_char(c: char) -> Seq<char> {
    if c == '"' || c == '\\' {
        seq!['\\', c]
    } else {
        seq![c]
    }
}

pub open spec fn esc(d: Seq<char>) -> Seq<char>
    decreases d.len(),
{
    if d.len() == 0 {
        Seq::<char>::empty()
    } else {
        esc_char(d[0]) + esc(d.subrange(1, d.len() as int))
    }
}

/// One persisted record.
pub open spec fn ser_entry(ts: u64, d: Seq<char>) -> Seq<char> {
    entry_head() + spec_dec(ts as nat) + desc_head() + esc(d) + entry_tail()
}

/// The records joined with `, `.
pub open spec fn ser_entries(ms: Seq<(u64, Seq<char>)>) -> Seq<char>
    decreases ms.len(),
{
    if ms.len() == 0 {
        Seq::<char>::empty()
    } else if ms.len() == 1 {
        ser_entry(ms[0].0, ms[0].1)
    } else {
        ser_entry(ms[0].0, ms[0].1) + seq![',', ' '] + ser_entries(ms.subrange(1, ms.len() as int))
    }
}

/// The whole document text for a store.
pub open spec fn spec_ser(ms: Seq<(u64, Seq<char>)>) -> Seq<char> {
    doc_head() + ser_entries(ms) + doc_tail()
}

pub proof fn lemma_esc_snoc(d: Seq<char>, c: char)
    ensures
        esc(d.push(c)) == esc(d) + esc_char(c),
    decreases d.len(),
{
    let e = d.push(c);
    if d.len() == 0 {
        assert(e[0] == c);
        assert(e.subrange(1, e.len() as int) =~= Seq::<char>::empty());
        assert(esc(e) == esc_char(c) + esc(Seq::<char>::empty()));
        assert(esc_char(c) + Seq::<char>::empty() =~= esc_char(c));
        assert(esc(d) + esc_char(c) =~= esc_char(c));
    } else {
        let dt = d.subrange(1, d.len() as int);
        assert(e[0] == d[0]);
        assert(e.subrange(1, e.len() as int) =~= dt.push(c));
        lemma_esc_snoc(dt, c);
        assert(esc(e) == esc_char(d[0]) + (esc(dt) + esc_char(c)));
        assert(esc_char(d[0]) + (esc(dt) + esc_char(c)) =~= (esc_char(d[0]) + esc(dt)) + esc_char(
            c,
        ));
    }
}

pub proof fn lemma_ser_entries_snoc(ms: Seq<(u64, Seq<char>)>, e: (u64, Seq<char>))
    ensures
        ser_entries(ms.push(e)) == if ms.len() == 0 {
            ser_entry(e.0, e.1)
        } else {
            ser_entries(ms) + seq![',', ' '] + ser_entry(e.0, e.1)
        },
    decreases ms.len(),
{
    let p = ms.push(e);
    if ms.len() == 0 {
        assert(p.len() == 1);
        assert(p[0] == e);
    } else {
        let tail = ms.subrange(1, ms.len() as int);
        assert(p.len() >= 2);
        assert(p[0] == ms[0]);
        assert(p.subrange(1, p.len() as int) =~= tail.push(e));
        lemma_ser_entries_snoc(tail, e);
        if ms.len() == 1 {
            assert(ser_entries(p) == ser_entry(ms[0].0, ms[0].1) + seq![',', ' '] + ser_entry(
                e.0,
                e.1,
            ));
        } else {
            assert(ser_entries(p) == ser_entry(ms[0].0, ms[0].1) + seq![',', ' '] + (ser_entries(
                tail,
            ) + seq![',', ' '] + ser_entry(e.0, e.1)));
            assert(ser_entry(ms[0].0, ms[0].1) + seq![',', ' '] + (ser_entries(tail) + seq![
                ',',
                ' ',
            ] + ser_entry(e.0, e.1)) =~= (ser_entry(ms[0].0, ms[0].1) + seq![',', ' ']
                + ser_entries(tail)) + seq![',', ' '] + ser_entry(e.0, e.1));
        }
    }
}

// ---------- the parser, over sequences ----------

/// How many decimal digits stand at the front of `s`.
pub open spec fn digit_run(s: Seq<char>) -> int
    decreases s.len(),
{
    if s.len() > 0 && is_digit_char(s[0]) {
        1 + digit_run(s.subrange(1, s.len() as int))
    } else {
        0
    }
}

pub proof fn lemma_digit_run(s: Seq<char>)
    ensures
        0 <= digit_run(s) <= s.len(),
        forall|i: int| 0 <= i < digit_run(s) ==> is_digit_char(#[trigger] s[i]),
        digit_run(s) < s.len() ==> !is_digit_char(s[digit_run(s)]),
    decreases s.len(),
{
    if s.len() > 0 && is_digit_char(s[0]) {
        let t = s.subrange(1, s.len() as int);
        lemma_digit_run(t);
        assert forall|i: int| 0 <= i < digit_run(s) implies is_digit_char(s[i]) by {
            if i > 0 {
                assert(s[i] == t[i - 1]);
            }
        }
        if digit_run(s) < s.len() {
            assert(s[digit_run(s)] == t[digit_run(t)]);
        }
    }
}

/// The front digit run is exactly the digits up to the first non-digit.
pub proof fn lemma_digit_run_prefix(s: Seq<char>, k: int)
    requires
        0 <= k <= s.len(),
        forall|i: int| 0 <= i < k ==> is_digit_char(#[trigger] s[i]),
        k < s.len() ==> !is_digit_char(s[k]),
    ensures
        digit_run(s) == k,
    decreases k,
{
    if k == 0 {
    } else {
        let t = s.subrange(1, s.len() as int);
        assert(is_digit_char(s[0]));
        assert forall|i: int| 0 <= i < k - 1 implies is_digit_char(#[trigger] t[i]) by {
            assert(t[i] == s[i + 1]);
        }
        if k - 1 < t.len() {
            assert(t[k - 1] == s[k]);
        }
        lemma_digit_run_prefix(t, k - 1);
    }
}

/// Read an escaped description off the front of `s`, up to and including
/// its closing quote; yields the unescaped text and the count of characters
/// consumed.
pub open spec fn parse_desc(s: Seq<char>) -> Option<(Seq<char>, int)>
    decreases s.len(),
{
    if s.len() == 0 {
        Option::None
    } else if s[0] == '"' {
        Option::Some((Seq::<char>::empty(), 1))
    } else if s[0] == '\\' {
        if s.len() >= 2 && (s[1] == '"' || s[1] == '\\') {
            match parse_desc(s.subrange(2, s.len() as int)) {
                Option::None => Option::None,
                Option::Some(p) => Option::Some((seq![s[1]] + p.0, p.1 + 2)),
            }
        } else {
            Option::None
        }
    } else {
        match parse_desc(s.subrange(1, s.len() as int)) {
            Option::None => Option::None,
            Option::Some(p) => Option::Some((seq![s[0]] + p.0, p.1 + 1)),
        }
    }
}

pub proof fn lemma_parse_desc_bounds(s: Seq<char>)
    ensures
        parse_desc(s) is Some ==> 1 <= parse_desc(s).unwrap().1 <= s.len(),
    decreases s.len(),
{
    if s.len() == 0 {
    } else if s[0] == '"' {
    } else if s[0] == '\\' {
        if s.len() >= 2 && (s[1] == '"' || s[1] == '\\') {
            lemma_parse_desc_bounds(s.subrange(2, s.len() as int));
        }
    } else {
        lemma_parse_desc_bounds(s.subrange(1, s.len() as int));
    }
}

/// Read one record off the front of `s`; yields timestamp, description and
/// the count of characters consumed.
pub open spec fn parse_entry(s: Seq<char>) -> Option<(u64, Seq<char>, int)> {
    if !match_prefix(s, entry_head()) {
        Option::None
    } else {
        let s1 = s.subrange(13, s.len() as int);
        let k = digit_run(s1);
        if k == 0 {
            Option::None
        } else if val_of(s1.subrange(0, k)) > u64::MAX {
            Option::None
        } else {
            let s2 = s1.subrange(k, s1.len() as int);
            if !match_prefix(s2, desc_head()) {
                Option::None
            } else {
                let s3 = s2.subrange(17, s2.len() as int);
                match parse_desc(s3) {
                    Option::None => Option::None,
                    Option::Some(p) => {
                        let s4 = s3.subrange(p.1, s3.len() as int);
                        if s4.len() >= 1 && s4[0] == '}' {
                            Option::Some((val_of(s1.subrange(0, k)) as u64, p.0, 31 + k + p.1))
                        } else {
                            Option::None
                        }
                    },
                }
            }
        }
    }
}

pub proof fn lemma_parse_entry_bounds(s: Seq<char>)
    ensures
        parse_entry(s) is Some ==> 1 <= parse_entry(s).unwrap().2 <= s.len(),
{
    if match_prefix(s, entry_head()) {
        let s1 = s.subrange(13, s.len() as int);
        let k = digit_run(s1);
        lemma_digit_run(s1);
        if 0 < k && val_of(s1.subrange(0, k)) <= u64::MAX {
            let s2 = s1.subrange(k, s1.len() as int);
            if match_prefix(s2, desc_head()) {
                let s3 = s2.subrange(17, s2.len() as int);
                lemma_parse_desc_bounds(s3);
            }
        }
    }
}

/// Read a `, `-separated run of records off the front of `s`.
pub open spec fn parse_entries(s: Seq<char>) -> Option<(Seq<(u64, Seq<char>)>, int)>
    decreases s.len(),
    via parse_entries_dec
{
    match parse_entry(s) {
        Option::None => Option::None,
        Option::Some((ts, d, n)) => {
            let s2 = s.subrange(n, s.len() as int);
            if match_prefix(s2, seq![',', ' ']) {
                match parse_entries(s2.subrange(2, s2.len() as int)) {
                    Option::None => Option::None,
                    Option::Some(p) => Option::Some((seq![(ts, d)] + p.0, n + 2 + p.1)),
                }
            } else {
                Option::Some((seq![(ts, d)], n))
            }
        },
    }
}

#[via_fn]
proof fn parse_entries_dec(s: Seq<char>) {
    lemma_parse_entry_bounds(s);
}

/// The store a document text denotes, when it is well formed: an empty text
/// (a freshly created store file) denotes the empty store; otherwise the
/// text must be exactly the header, an optional record run, and the footer.
pub open spec fn spec_parse(t: Seq<char>) -> Option<Seq<(u64, Seq<char>)>> {
    if t.len() == 0 {
        Option::Some(Seq::<(u64, Seq<char>)>::empty())
    } else if !match_prefix(t, doc_head()) {
        Option::None
    } else {
        let s = t.subrange(10, t.len() as int);
        if s == doc_tail() {
            Option::Some(Seq::<(u64, Seq<char>)>::empty())
        } else {
            match parse_entries(s) {
                Option::None => Option::None,
                Option::Some(p) => {
                    if s.subrange(p.1, s.len() as int) == doc_tail() {
                        Option::Some(p.0)
                    } else {
                        Option::None
                    }
                },
            }
        }
    }
}

// ---------- parsing inverts serialization ----------

proof fn lemma_parse_desc_esc(d: Seq<char>, rest: Seq<char>)
    ensures
        parse_desc(esc(d) + seq!['"'] + rest) == Option::Some((d, esc(d).len() as int + 1)),
    decreases d.len(),
{
    let s = esc(d) + seq!['"'] + rest;
    if d.len() == 0 {
        assert(esc(d) =~= Seq::<char>::empty());
        assert(s[0] == '"');
        assert(d =~= Seq::<char>::empty());
    } else {
        let c = d[0];
        let dt = d.subrange(1, d.len() as int);
        assert(esc(d) == esc_char(c) + esc(dt));
        lemma_parse_desc_esc(dt, rest);
        if c == '"' || c == '\\' {
            assert(esc_char(c) == seq!['\\', c]);
            assert(s[0] == '\\');
            assert(s[1] == c);
            assert(s.len() >= 2);
            assert(s.subrange(2, s.len() as int) =~= esc(dt) + seq!['"'] + rest);
            assert(seq![c] + dt =~= d);
            assert(parse_desc(s) == Option::Some((d, (esc(dt).len() as int + 1) + 2)));
            assert(esc(d).len() == 2 + esc(dt).len());
        } else {
            assert(esc_char(c) == seq![c]);
            assert(s[0] == c);
            assert(s.subrange(1, s.len() as int) =~= esc(dt) + seq!['"'] + rest);
            assert(seq![c] + dt =~= d);
            assert(parse_desc(s) == Option::Some((d, (esc(dt).len() as int + 1) + 1)));
            assert(esc(d).len() == 1 + esc(dt).len());
        }
    }
}

#[verifier::rlimit(60)]
proof fn lemma_parse_entry_ser(ts: u64, d: Seq<char>, rest: Seq<char>)
    ensures
        parse_entry(ser_entry(ts, d) + rest) == Option::Some((
            ts,
            d,
            ser_entry(ts, d).len() as int,
        )),
{
    let dec = spec_dec(ts as nat);
    let e = ser_entry(ts, d);
    let s = e + rest;
    lemma_spec_dec(ts as nat);
    assert(s.subrange(0, 13) =~= entry_head());
    assert(match_prefix(s, entry_head()));
    let s1 = s.subrange(13, s.len() as int);
    assert(s1 =~= dec + (desc_head() + esc(d) + entry_tail() + rest));
    let k = dec.len() as int;
    assert forall|i: int| 0 <= i < k implies is_digit_char(#[trigger] s1[i]) by {
        assert(s1[i] == dec[i]);
    }
    assert(s1[k] == ',');
    assert(!is_digit_char(','));
    lemma_digit_run_prefix(s1, k);
    assert(s1.subrange(0, k) =~= dec);
    assert(val_of(s1.subrange(0, k)) == ts as nat);
    let s2 = s1.subrange(k, s1.len() as int);
    assert(s2 =~= desc_head() + esc(d) + entry_tail() + rest);
    assert(s2.subrange(0, 17) =~= desc_head());
    assert(match_prefix(s2, desc_head()));
    let s3 = s2.subrange(17, s2.len() as int);
    assert(s3 =~= esc(d) + seq!['"'] + (seq!['}'] + rest));
    lemma_parse_desc_esc(d, seq!['}'] + rest);
    let p1 = esc(d).len() + 1;
    let s4 = s3.subrange(p1 as int, s3.len() as int);
    assert(s4 =~= seq!['}'] + rest);
    assert(s4.len() >= 1 && s4[0] == '}');
    assert(e.len() == 31 + k + p1);
}

#[verifier::rlimit(60)]
proof fn lemma_parse_entries_ser(ms: Seq<(u64, Seq<char>)>, tail: Seq<char>)
    requires
        ms.len() >= 1,
        tail.len() >= 1,
        tail[0] == ']',
    ensures
        parse_entries(ser_entries(ms) + tail) == Option::Some((ms, ser_entries(ms).len() as int)),
    decreases ms.len(),
{
    let s = ser_entries(ms) + tail;
    let e0 = ms[0];
    if ms.len() == 1 {
        lemma_parse_entry_ser(e0.0, e0.1, tail);
        assert(ser_entry(e0.0, e0.1) + tail =~= s);
        let n = ser_entry(e0.0, e0.1).len() as int;
        let s2 = s.subrange(n, s.len() as int);
        assert(s2 =~= tail);
        assert(!match_prefix(s2, seq![',', ' '])) by {
            if match_prefix(s2, seq![',', ' ']) {
                assert(s2.subrange(0, 2)[0] == s2[0]);
            }
        }
        assert((e0.0, e0.1) == e0);
        assert(seq![e0] =~= ms);
    } else {
        let tl = ms.subrange(1, ms.len() as int);
        assert(ser_entries(ms) == ser_entry(e0.0, e0.1) + seq![',', ' '] + ser_entries(tl));
        lemma_parse_entry_ser(e0.0, e0.1, seq![',', ' '] + ser_entries(tl) + tail);
        assert(s =~= ser_entry(e0.0, e0.1) + (seq![',', ' '] + ser_entries(tl) + tail));
        let n = ser_entry(e0.0, e0.1).len() as int;
        let s2 = s.subrange(n, s.len() as int);
        assert(s2 =~= seq![',', ' '] + ser_entries(tl) + tail);
        assert(match_prefix(s2, seq![',', ' '])) by {
            assert(s2.subrange(0, 2) =~= seq![',', ' ']);
        }
        let s3 = s2.subrange(2, s2.len() as int);
        assert(s3 =~= ser_entries(tl) + tail);
        lemma_parse_entries_ser(tl, tail);
        assert((e0.0, e0.1) == e0);
        assert(seq![e0] + tl =~= ms);
        assert(ser_entries(ms).len() == n + 2 + ser_entries(tl).len());
    }
}

/// Parsing inverts serialization: rendering any store and reading the text
/// back yields exactly the same entries, in the same order, whatever the
/// descriptions hold.
pub proof fn lemma_store_round_trip(ms: Seq<(u64, Seq<char>)>)
    ensures
        spec_parse(spec_ser(ms)) == Option::Some(ms),
{
    let t = spec_ser(ms);
    assert(t.len() >= 12);
    assert(t.subrange(0, 10) =~= doc_head());
    assert(match_prefix(t, doc_head()));
    let s = t.subrange(10, t.len() as int);
    assert(s =~= ser_entries(ms) + doc_tail());
    if ms.len() == 0 {
        assert(ser_entries(ms) =~= Seq::<char>::empty());
        assert(s =~= doc_tail());
        assert(ms =~= Seq::<(u64, Seq<char>)>::empty());
    } else {
        assert(ser_entries(ms).len() >= 32) by {
            if ms.len() == 1 {
                assert(ser_entries(ms) == ser_entry(ms[0].0, ms[0].1));
            }
        }
        assert(s.len() > 2);
        assert(s != doc_tail());
        lemma_parse_entries_ser(ms, doc_tail());
        let n = ser_entries(ms).len() as int;
        assert(s.subrange(n, s.len() as int) =~= doc_tail());
    }
}

// ---------- the serializer ----------

fn push_doc_head(v: &mut Vec<char>)
    ensures
        final(v)@ == old(v)@ + doc_head(),
{
    v.push('e');
    v.push('v');
    v.push('e');
    v.push('n');
    v.push('t');
    v.push('s');
    v.push(' ');
    v.push('=');
    v.push(' ');
    v.push('[');
    proof {
        assert(v@ =~= old(v)@ + doc_head());
    }
}

fn push_entry_head(v: &mut Vec<char>)
    ensures
        final(v)@ == old(v)@ + entry_head(),
{
    v.push('{');
    v.push('t');
    v.push('i');
    v.push('m');
    v.push('e');
    v.push('s');
    v.push('t');
    v.push('a');
    v.push('m');
    v.push('p');
    v.push(' ');
    v.push('=');
    v.push(' ');
    proof {
        assert(v@ =~= old(v)@ + entry_head());
    }
}

fn push_desc_head(v: &mut Vec<char>)
    ensures
        final(v)@ == old(v)@ + desc_head(),
{
    v.push(',');
    v.push(' ');
    v.push('d');
    v.push('e');
    v.push('s');
    v.push('c');
    v.push('r');
    v.push('i');
    v.push('p');
    v.push('t');
    v.push('i');
    v.push('o');
    v.push('n');
    v.push(' ');
    v.push('=');
    v.push(' ');
    v.push('"');
    proof {
        assert(v@ =~= old(v)@ + desc_head());
    }
}

fn push_escaped(v: &mut Vec<char>, s: &String)
    ensures
        final(v)@ == old(v)@ + esc(s@),
{
    let cs = str_chars(s.as_str());
    let mut k: usize = 0;
    proof {
        assert(cs@.subrange(0, 0) =~= Seq::<char>::empty());
        assert(v@ =~= old(v)@ + esc(cs@.subrange(0, 0)));
    }
    while k < cs.len()
        invariant
            cs@ == s@,
            k <= cs@.len(),
            v@ == old(v)@ + esc(cs@.subrange(0, k as int)),
        decreases cs@.len() - k,
    {
        let c: char = cs[k];
        proof {
            lemma_esc_snoc(cs@.subrange(0, k as int), c);
            assert(cs@.subrange(0, k as int).push(c) =~= cs@.subrange(0, k + 1));
        }
        if c == '"' || c == '\\' {
            v.push('\\');
            v.push(c);
        } else {
            v.push(c);
        }
        proof {
            assert(v@ =~= old(v)@ + esc(cs@.subrange(0, k + 1)));
        }
        k = k + 1;
    }
    proof {
        assert(cs@.subrange(0, cs@.len() as int) =~= cs@);
    }
}

fn push_entry(v: &mut Vec<char>, m: &Marker)
    ensures
        final(v)@ == old(v)@ + ser_entry(m.timestamp, m.description@),
{
    push_entry_head(v);
    push_dec(v, m.timestamp as u128);
    push_desc_head(v);
    push_escaped(v, &m.description);
    v.push('"');
    v.push('}');
    proof {
        assert(v@ =~= old(v)@ + ser_entry(m.timestamp, m.description@));
    }
}

/// Render the whole store document.
pub fn render_store(markers: &Vec<Marker>) -> (r: String)
    ensures
        r@ == spec_ser(markers_view(markers@)),
{
    let ghost mv = markers_view(markers@);
    let mut v: Vec<char> = Vec::new();
    push_doc_head(&mut v);
    let mut i: usize = 0;
    let n: usize = markers.len();
    proof {
        assert(mv.subrange(0, 0) =~= Seq::<(u64, Seq<char>)>::empty());
        assert(v@ =~= doc_head() + ser_entries(mv.subrange(0, 0)));
    }
    while i < n
        invariant
            mv == markers_view(markers@),
            n == markers@.len(),
            mv.len() == n,
            i <= n,
            v@ == doc_head() + ser_entries(mv.subrange(0, i as int)),
        decreases n - i,
    {
        proof {
            lemma_ser_entries_snoc(mv.subrange(0, i as int), mv[i as int]);
            assert(mv.subrange(0, i as int).push(mv[i as int]) =~= mv.subrange(0, i + 1));
            assert(mv[i as int] == markers@[i as int]@);
        }
        if i > 0 {
            v.push(',');
            v.push(' ');
        }
        push_entry(&mut v, &markers[i]);
        proof {
            assert(v@ =~= doc_head() + ser_entries(mv.subrange(0, i + 1)));
        }
        i = i + 1;
    }
    v.push(']');
    v.push('\n');
    proof {
        assert(mv.subrange(0, n as int) =~= mv);
        assert(v@ =~= spec_ser(mv));
    }
    string_from_chars(&v)
}

// ---------- the parser, executable ----------

fn doc_head_vec() -> (r: Vec<char>)
    ensures
        r@ == doc_head(),
{
    let mut v: Vec<char> = Vec::new();
    v.push('e');
    v.push('v');
    v.push('e');
    v.push('n');
    v.push('t');
    v.push('s');
    v.push(' ');
    v.push('=');
    v.push(' ');
    v.push('[');
    proof {
        assert(v@ =~= doc_head());
    }
    v
}

fn entry_head_vec() -> (r: Vec<char>)
    ensures
        r@ == entry_head(),
{
    let mut v: Vec<char> = Vec::new();
    v.push('{');
    v.push('t');
    v.push('i');
    v.push('m');
    v.push('e');
    v.push('s');
    v.push('t');
    v.push('a');
    v.push('m');
    v.push('p');
    v.push(' ');
    v.push('=');
    v.push(' ');
    proof {
        assert(v@ =~= entry_head());
    }
    v
}

fn desc_head_vec() -> (r: Vec<char>)
    ensures
        r@ == desc_head(),
{
    let mut v: Vec<char> = Vec::new();
    v.push(',');
    v.push(' ');
    v.push('d');
    v.push('e');
    v.push('s');
    v.push('c');
    v.push('r');
    v.push('i');
    v.push('p');
    v.push('t');
    v.push('i');
    v.push('o');
    v.push('n');
    v.push(' ');
    v.push('=');
    v.push(' ');
    v.push('"');
    proof {
        assert(v@ =~= desc_head());
    }
    v
}

fn comma_vec() -> (r: Vec<char>)
    ensures
        r@ == seq![',', ' '],
{
    let mut v: Vec<char> = Vec::new();
    v.push(',');
    v.push(' ');
    proof {
        assert(v@ =~= seq![',', ' ']);
    }
    v
}

#[verifier::rlimit(60)]
fn parse_desc_exec(cs: &Vec<char>, start: usize) -> (r: Option<(Vec<char>, usize)>)
    requires
        start <= cs@.len(),
    ensures
        ({
            let sp = parse_desc(cs@.subrange(start as int, cs@.len() as int));
            match r {
                Option::Some(q) => sp == Option::Some((q.0@, q.1 - start)) && start < q.1
                    <= cs@.len(),
                Option::None => sp is None,
            }
        }),
{
    let ghost s0 = cs@.subrange(start as int, cs@.len() as int);
    let mut p: usize = start;
    let mut out: Vec<char> = Vec::new();
    proof {
        if parse_desc(s0) is Some {
            let q = parse_desc(s0).unwrap();
            assert(out@ + q.0 =~= q.0);
        }
    }
    while p < cs.len()
        invariant
            start <= p <= cs@.len(),
            s0 == cs@.subrange(start as int, cs@.len() as int),
            ({
                let q = parse_desc(cs@.subrange(p as int, cs@.len() as int));
                match q {
                    Option::None => parse_desc(s0) is None,
                    Option::Some(q) => parse_desc(s0) == Option::Some(
                        (out@ + q.0, q.1 + p - start),
                    ),
                }
            }),
        decreases cs@.len() - p,
    {
        let ghost suf = cs@.subrange(p as int, cs@.len() as int);
        let c: char = cs[p];
        proof {
            assert(suf[0] == c);
        }
        if c == '"' {
            proof {
                assert(parse_desc(suf) == Option::Some((Seq::<char>::empty(), 1int)));
                assert(out@ + Seq::<char>::empty() =~= out@);
            }
            return Option::Some((out, p + 1));
        } else if c == '\\' {
            if p + 1 >= cs.len() {
                proof {
                    assert(suf.len() < 2);
                    assert(parse_desc(suf) is None);
                }
                return Option::None;
            }
            let c2: char = cs[p + 1];
            proof {
                assert(suf[1] == c2);
            }
            if c2 == '"' || c2 == '\\' {
                proof {
                    assert(suf.subrange(2, suf.len() as int) =~= cs@.subrange(
                        p + 2,
                        cs@.len() as int,
                    ));
                    let q2 = parse_desc(cs@.subrange(p + 2, cs@.len() as int));
                    if q2 is Some {
                        let q2v = q2.unwrap();
                        assert(parse_desc(suf) == Option::Some((seq![c2] + q2v.0, q2v.1 + 2)));
                        assert(out@ + (seq![c2] + q2v.0) =~= (out@ + seq![c2]) + q2v.0);
                        assert(out@.push(c2) =~= out@ + seq![c2]);
                    }
                }
                out.push(c2);
                p = p + 2;
            } else {
                proof {
                    assert(parse_desc(suf) is None);
                }
                return Option::None;
            }
        } else {
            proof {
                assert(suf.subrange(1, suf.len() as int) =~= cs@.subrange(p + 1, cs@.len() as int));
                let q2 = parse_desc(cs@.subrange(p + 1, cs@.len() as int));
                if q2 is Some {
                    let q2v = q2.unwrap();
                    assert(parse_desc(suf) == Option::Some((seq![c] + q2v.0, q2v.1 + 1)));
                    assert(out@ + (seq![c] + q2v.0) =~= (out@ + seq![c]) + q2v.0);
                    assert(out@.push(c) =~= out@ + seq![c]);
                }
            }
            out.push(c);
            p = p + 1;
        }
    }
    proof {
        assert(cs@.subrange(p as int, cs@.len() as int).len() == 0);
    }
    Option::None
}

#[verifier::rlimit(60)]
fn parse_entry_exec(cs: &Vec<char>, i: usize) -> (r: Option<(u64, String, usize)>)
    requires
        i <= cs@.len(),
    ensures
        ({
            let sp = parse_entry(cs@.subrange(i as int, cs@.len() as int));
            match r {
                Option::Some(q) => sp == Option::Some((q.0, q.1@, q.2 - i)) && i < q.2 <= cs@.len(),
                Option::None => sp is None,
            }
        }),
{
    let ghost suf = cs@.subrange(i as int, cs@.len() as int);
    let eh = entry_head_vec();
    if !check_at(cs, i, &eh) {
        return Option::None;
    }
    let n: usize = cs.len();
    proof {
        assert(i + 13 <= n);
    }
    let start: usize = i + 13;
    let ghost s1 = cs@.subrange(start as int, cs@.len() as int);
    proof {
        assert(s1 =~= suf.subrange(13, suf.len() as int));
        assert(s1.subrange(0, 0) =~= Seq::<char>::empty());
    }
    let mut j: usize = start;
    let mut acc: u64 = 0;
    let mut of: bool = false;
    while j < cs.len() && is_digit_exec(cs[j])
        invariant
            start == i + 13,
            start <= j <= cs@.len(),
            s1 == cs@.subrange(start as int, cs@.len() as int),
            forall|m: int| 0 <= m < j - start ==> is_digit_char(#[trigger] s1[m]),
            !of ==> acc as nat == val_of(s1.subrange(0, j - start)),
            of ==> val_of(s1.subrange(0, j - start)) > u64::MAX,
        decreases cs@.len() - j,
    {
        let c: char = cs[j];
        let u: u32 = c as u32;
        proof {
            assert(s1[j - start] == c);
            assert(is_digit_char(c));
        }
        let d: u64 = (u - 48) as u64;
        proof {
            let pre = s1.subrange(0, j - start);
            let pre2 = s1.subrange(0, j - start + 1);
            assert(pre2.drop_last() =~= pre);
            assert(pre2.last() == c);
            assert(val_of(pre2) == val_of(pre) * 10 + digit_val(c));
            assert(d as nat == digit_val(c));
        }
        if !of {
            proof {
                lemma_mul10_overflow(acc as nat, d as nat, u64::MAX as nat);
            }
            if acc > (u64::MAX - d) / 10 {
                of = true;
            } else {
                acc = acc * 10 + d;
            }
        }
        j = j + 1;
    }
    let k: usize = j - start;
    proof {
        if j < cs@.len() {
            assert(s1[k as int] == cs@[j as int]);
        }
        lemma_digit_run_prefix(s1, k as int);
    }
    if k == 0 {
        return Option::None;
    }
    if of {
        return Option::None;
    }
    proof {
        assert(s1.subrange(k as int, s1.len() as int) =~= cs@.subrange(j as int, cs@.len() as int));
    }
    let dh = desc_head_vec();
    if !check_at(cs, j, &dh) {
        return Option::None;
    }
    proof {
        assert(j + 17 <= cs@.len());
        assert(cs@.subrange(j as int, cs@.len() as int).subrange(
            17,
            cs@.subrange(j as int, cs@.len() as int).len() as int,
        ) =~= cs@.subrange(j + 17, cs@.len() as int));
    }
    match parse_desc_exec(cs, j + 17) {
        Option::None => Option::None,
        Option::Some((out, end)) => {
            proof {
                let s3 = cs@.subrange(j + 17, cs@.len() as int);
                assert(s3.subrange(end - (j + 17), s3.len() as int) =~= cs@.subrange(
                    end as int,
                    cs@.len() as int,
                ));
            }
            if end < cs.len() {
                let cc: char = cs[end];
                proof {
                    assert(cs@.subrange(end as int, cs@.len() as int)[0] == cc);
                }
                if cc == '}' {
                    let desc = string_from_chars(&out);
                    return Option::Some((acc, desc, end + 1));
                }
            }
            Option::None
        },
    }
}

/// Read a whole store document. An empty text denotes the empty store; any
/// text that does not follow the document grammar is a parse error.
#[verifier::rlimit(60)]
pub fn parse_store(text: &str) -> (r: Result<Vec<Marker>, ClockError>)
    ensures
        match r {
            Result::Ok(ms) => spec_parse(text@) == Option::Some(markers_view(ms@)),
            Result::Err(e) => spec_parse(text@) is None && e == ClockError::StorageParseError,
        },
{
    let cs = str_chars(text);
    if cs.len() == 0 {
        let empty: Vec<Marker> = Vec::new();
        proof {
            assert(markers_view(empty@) =~= Seq::<(u64, Seq<char>)>::empty());
        }
        return Result::Ok(empty);
    }
    let dh = doc_head_vec();
    proof {
        assert(cs@.subrange(0, cs@.len() as int) =~= cs@);
    }
    if !check_at(&cs, 0, &dh) {
        return Result::Err(ClockError::StorageParseError);
    }
    let ghost s = cs@.subrange(10, cs@.len() as int);
    // the empty document, header and footer only
    if cs.len() == 12 {
        let a: char = cs[10];
        let b: char = cs[11];
        if a == ']' && b == '\n' {
            proof {
                assert(s =~= doc_tail());
            }
            let empty: Vec<Marker> = Vec::new();
            proof {
                assert(markers_view(empty@) =~= Seq::<(u64, Seq<char>)>::empty());
            }
            return Result::Ok(empty);
        }
    }
    proof {
        assert(s != doc_tail()) by {
            if s == doc_tail() {
                assert(cs@.len() == 12);
                assert(s[0] == cs@[10]);
                assert(s[1] == cs@[11]);
            }
        }
    }
    let mut acc: Vec<Marker> = Vec::new();
    let mut pos: usize = 10;
    let cv = comma_vec();
    proof {
        if parse_entries(s) is Some {
            let q = parse_entries(s).unwrap();
            assert(markers_view(acc@) + q.0 =~= q.0);
        }
    }
    loop
        invariant
            10 <= pos <= cs@.len(),
            cs@ == text@,
            cs@.len() > 0,
            match_prefix(cs@, doc_head()),
            s == cs@.subrange(10, cs@.len() as int),
            s != doc_tail(),
            cv@ == seq![',', ' '],
            ({
                let q = parse_entries(cs@.subrange(pos as int, cs@.len() as int));
                match q {
                    Option::None => parse_entries(s) is None,
                    Option::Some(p) => parse_entries(s) == Option::Some(
                        (markers_view(acc@) + p.0, p.1 + pos - 10),
                    ),
                }
            }),
        decreases cs@.len() - pos,
    {
        let ghost suf = cs@.subrange(pos as int, cs@.len() as int);
        match parse_entry_exec(&cs, pos) {
            Option::None => {
                return Result::Err(ClockError::StorageParseError);
            },
            Option::Some((ts, d, end)) => {
                let ghost dv = d@;
                proof {
                    assert(suf.subrange(end - pos, suf.len() as int) =~= cs@.subrange(
                        end as int,
                        cs@.len() as int,
                    ));
                }
                acc.push(Marker { timestamp: ts, description: d });
                proof {
                    assert(markers_view(acc@) =~= markers_view(acc@.drop_last()) + seq![
                        (ts, dv),
                    ]);
                }
                if check_at(&cs, end, &cv) {
                    let n: usize = cs.len();
                    proof {
                        assert(end + 2 <= n);
                        let s2 = cs@.subrange(end as int, cs@.len() as int);
                        assert(s2.subrange(2, s2.len() as int) =~= cs@.subrange(
                            end + 2,
                            cs@.len() as int,
                        ));
                        let q2 = parse_entries(cs@.subrange(end + 2, cs@.len() as int));
                        if q2 is Some {
                            let q2v = q2.unwrap();
                            assert(parse_entries(suf) == Option::Some(
                                (seq![(ts, dv)] + q2v.0, (end - pos) + 2 + q2v.1),
                            ));
                            assert(markers_view(acc@.drop_last()) + (seq![(ts, dv)] + q2v.0) =~= (
                            markers_view(acc@.drop_last()) + seq![(ts, dv)]) + q2v.0);
                        }
                    }
                    pos = end + 2;
                } else {
                    proof {
                        let s2 = cs@.subrange(end as int, cs@.len() as int);
                        assert(!match_prefix(s2, seq![',', ' ']));
                        assert(parse_entries(suf) == Option::Some(
                            (seq![(ts, dv)], (end - pos) as int),
                        ));
                        assert(markers_view(acc@.drop_last()) + seq![(ts, dv)] =~= markers_view(
                            acc@,
                        ));
                        assert(parse_entries(s) == Option::Some(
                            (markers_view(acc@), end - 10),
                        ));
                        assert(s.subrange(end - 10, s.len() as int) =~= cs@.subrange(
                            end as int,
                            cs@.len() as int,
                        ));
                    }
                    // the records must be followed by exactly the footer
                    if cs.len() - end == 2 {
                        let a: char = cs[end];
                        let b: char = cs[end + 1];
                        if a == ']' && b == '\n' {
                            proof {
                                assert(cs@.subrange(end as int, cs@.len() as int) =~= doc_tail());
                            }
                            return Result::Ok(acc);
                        }
                        proof {
                            let tl = cs@.subrange(end as int, cs@.len() as int);
                            assert(tl[0] == a);
                            assert(tl[1] == b);
                            assert(tl != doc_tail());
                        }
                        return Result::Err(ClockError::StorageParseError);
                    }
                    proof {
                        assert(cs@.subrange(end as int, cs@.len() as int).len() != 2);
                        assert(cs@.subrange(end as int, cs@.len() as int) != doc_tail());
                    }
                    return Result::Err(ClockError::StorageParseError);
                }
            },
        }
    }
}

} // verus!
