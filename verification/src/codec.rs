//! The persisted form of the ledger: a record with one field, `coins`,
//! holding the name-to-balance mapping, written as
//! `{"coins":{"name":balance,...}}`. Quotes and backslashes inside names are
//! escaped with a backslash. `enc` gives the exact text `save` writes; `dec`
//! says which texts `load` accepts and what it reads from them; loading what
//! `save` wrote gives the ledger back (`lemma_save_load_round_trip`).

use vstd::prelude::*;

use crate::ledger::{kv_of, unique_keys, BotSaveData};
use crate::parse::{
    all_digits, digit_val, digits_val, is_digit, is_digit_char, lemma_digits_val_mono,
};
use vstd::string::StrSliceExecFns;
use vstd::string::StringExecFns;

verus! {

/// Relies on `String::push`: appends the given character to the end of the
/// string.
pub assume_specification[ String::push ](s: &mut String, c: char)
    ensures
        final(s)@ == old(s)@.push(c),
;

/// The character of a decimal digit value.
pub open spec fn digit_char(d: int) -> char
    recommends
        0 <= d < 10,
{
    if d == 0 {
        '0'
    } else if d == 1 {
        '1'
    } else if d == 2 {
        '2'
    } else if d == 3 {
        '3'
    } else if d == 4 {
        '4'
    } else if d == 5 {
        '5'
    } else if d == 6 {
        '6'
    } else if d == 7 {
        '7'
    } else if d == 8 {
        '8'
    } else {
        '9'
    }
}

/// The decimal digits of `n`, most significant first, no leading zeros.
pub open spec fn dec_digits(n: int) -> Seq<char>
    recommends
        n >= 0,
    decreases n when n >= 0
{
    if n < 10 {
        seq![digit_char(n)]
    } else {
        dec_digits(n / 10).push(digit_char(n % 10))
    }
}

/// `dec_digits` writes only digits, at least one, and `digits_val` reads the
/// value back.
pub proof fn lemma_dec_digits_val(n: int)
    requires
        n >= 0,
    ensures
        dec_digits(n).len() >= 1,
        all_digits(dec_digits(n)),
        digits_val(dec_digits(n)) == n,
    decreases n,
{
    if n < 10 {
        assert(is_digit(digit_char(n)));
        assert(digit_val(digit_char(n)) == n);
        let d = dec_digits(n);
        assert(d =~= seq![digit_char(n)]);
        assert(d.last() == digit_char(n));
        assert(d.drop_last() =~= Seq::<char>::empty());
        assert(digits_val(Seq::<char>::empty()) == 0);
        assert(digits_val(d) == digits_val(d.drop_last()) * 10 + digit_val(d.last()));
    } else {
        lemma_dec_digits_val(n / 10);
        assert(is_digit(digit_char(n % 10)));
        assert(digit_val(digit_char(n % 10)) == n % 10);
        let d = dec_digits(n);
        assert(d =~= dec_digits(n / 10).push(digit_char(n % 10)));
        assert(d.last() == digit_char(n % 10));
        assert(d.drop_last() =~= dec_digits(n / 10));
        assert(digits_val(d) == digits_val(d.drop_last()) * 10 + digit_val(d.last()));
        assert(digits_val(d) == (n / 10) * 10 + n % 10);
        assert((n / 10) * 10 + n % 10 == n);
    }
}

/// How one character of a name is written: quotes and backslashes get a
/// leading backslash.
pub open spec fn esc_char(c: char) -> Seq<char> {
    if c == '"' || c == '\\' {
        seq!['\\', c]
    } else {
        seq![c]
    }
}

/// A name with its quotes and backslashes escaped.
pub open spec fn esc(s: Seq<char>) -> Seq<char>
    decreases s.len(),
{
    if s.len() == 0 {
        Seq::empty()
    } else {
        esc_char(s[0]) + esc(s.drop_first())
    }
}

/// Escaping a string one character longer appends that character's escape.
pub proof fn lemma_esc_push(s: Seq<char>, c: char)
    ensures
        esc(s.push(c)) == esc(s) + esc_char(c),
    decreases s.len(),
{
    if s.len() == 0 {
        assert(s.push(c)[0] == c);
        assert(s.push(c).drop_first() =~= Seq::<char>::empty());
        assert(esc(Seq::<char>::empty()) =~= Seq::<char>::empty());
        assert(esc(s.push(c)) == esc_char(c) + esc(s.push(c).drop_first()));
        assert(esc(s.push(c)) =~= esc(s) + esc_char(c));
    } else {
        assert(s.push(c).drop_first() =~= s.drop_first().push(c));
        lemma_esc_push(s.drop_first(), c);
        assert(s.push(c)[0] == s[0]);
        assert(esc(s.push(c)) =~= esc(s) + esc_char(c));
    }
}

/// One written entry: `"name":balance`.
pub open spec fn enc_entry(k: Seq<char>, v: u64) -> Seq<char> {
    seq!['"'] + esc(k) + seq!['"', ':'] + dec_digits(v as int)
}

/// Written entries, joined by commas.
pub open spec fn enc_entries(es: Seq<(Seq<char>, u64)>) -> Seq<char>
    decreases es.len(),
{
    if es.len() == 0 {
        Seq::empty()
    } else if es.len() == 1 {
        enc_entry(es[0].0, es[0].1)
    } else {
        enc_entry(es[0].0, es[0].1) + seq![','] + enc_entries(es.drop_first())
    }
}

/// The ten characters every saved ledger starts with.
pub open spec fn enc_header() -> Seq<char> {
    seq!['{', '"', 'c', 'o', 'i', 'n', 's', '"', ':', '{']
}

/// The whole saved text of a ledger with entries `es`.
pub open spec fn enc(es: Seq<(Seq<char>, u64)>) -> Seq<char> {
    enc_header() + enc_entries(es) + seq!['}', '}']
}

/// Appending one entry to the list appends its text (after a comma, unless it
/// is the first).
pub proof fn lemma_enc_entries_push(es: Seq<(Seq<char>, u64)>, e: (Seq<char>, u64))
    ensures
        enc_entries(es.push(e)) == if es.len() == 0 {
            enc_entry(e.0, e.1)
        } else {
            enc_entries(es) + seq![','] + enc_entry(e.0, e.1)
        },
    decreases es.len(),
{
    let esp = es.push(e);
    if es.len() == 0 {
        assert(esp[0] == e);
        assert(enc_entries(esp) == enc_entry(e.0, e.1));
    } else {
        assert(esp.len() >= 2);
        assert(esp[0] == es[0]);
        assert(esp.drop_first() =~= es.drop_first().push(e));
        lemma_enc_entries_push(es.drop_first(), e);
        assert(enc_entries(esp) =~= enc_entries(es) + seq![','] + enc_entry(e.0, e.1));
    }
}

/// Append the decimal digits of `v` to `out`.
pub(crate) fn push_u64_digits(out: &mut String, v: u64)
    ensures
        final(out)@ == old(out)@ + dec_digits(v as int),
    decreases v,
{
    if v >= 10 {
        push_u64_digits(out, v / 10);
    }
    let d = v % 10;
    let c: char = if d == 0 {
        '0'
    } else if d == 1 {
        '1'
    } else if d == 2 {
        '2'
    } else if d == 3 {
        '3'
    } else if d == 4 {
        '4'
    } else if d == 5 {
        '5'
    } else if d == 6 {
        '6'
    } else if d == 7 {
        '7'
    } else if d == 8 {
        '8'
    } else {
        '9'
    };
    proof {
        assert(c == digit_char(d as int));
    }
    out.push(c);
    proof {
        if v < 10 {
            assert(dec_digits(v as int) =~= seq![digit_char(v as int)]);
        }
        assert(final(out)@ =~= old(out)@ + dec_digits(v as int));
    }
}

/// Append `name` to `out` with quotes and backslashes escaped.
fn push_escaped(out: &mut String, name: &str)
    ensures
        final(out)@ == old(out)@ + esc(name@),
{
    let n = name.unicode_len();
    let mut i: usize = 0;
    while i < n
        invariant
            0 <= i <= n,
            n == name@.len(),
            out@ == old(out)@ + esc(name@.take(i as int)),
        decreases n - i,
    {
        let c = name.get_char(i);
        if c == '"' || c == '\\' {
            out.push('\\');
        }
        out.push(c);
        proof {
            lemma_esc_push(name@.take(i as int), c);
            assert(name@.take(i as int).push(c) =~= name@.take(i + 1 as int));
            assert(out@ =~= old(out)@ + esc(name@.take(i + 1 as int)));
        }
        i = i + 1;
    }
    proof {
        assert(name@.take(n as int) =~= name@);
    }
}

/// Read a name up to its closing quote, starting just after the opening
/// quote; a backslash takes the next character literally. Yields the name and
/// the position after the closing quote.
pub open spec fn p_name(s: Seq<char>, i: int) -> Option<(Seq<char>, int)>
    decreases s.len() - i when 0 <= i <= s.len()
{
    if i >= s.len() {
        None
    } else if s[i] == '"' {
        Some((Seq::empty(), i + 1))
    } else if s[i] == '\\' {
        if i + 1 < s.len() {
            match p_name(s, i + 2) {
                Some(r) => Some((seq![s[i + 1]] + r.0, r.1)),
                None => None,
            }
        } else {
            None
        }
    } else {
        match p_name(s, i + 1) {
            Some(r) => Some((seq![s[i]] + r.0, r.1)),
            None => None,
        }
    }
}

/// A read name ends within the text, past where it started.
pub proof fn lemma_p_name_bounds(s: Seq<char>, i: int)
    requires
        0 <= i <= s.len(),
    ensures
        p_name(s, i) matches Some(r) ==> i + 1 <= r.1 <= s.len(),
    decreases s.len() - i,
{
    if i < s.len() && s[i] != '"' {
        if s[i] == '\\' {
            if i + 1 < s.len() {
                lemma_p_name_bounds(s, i + 2);
            }
        } else {
            lemma_p_name_bounds(s, i + 1);
        }
    }
}

/// First index at or after `i` that does not hold a digit (or the length).
pub open spec fn num_end(s: Seq<char>, i: int) -> int
    recommends
        0 <= i <= s.len(),
    decreases s.len() - i when 0 <= i <= s.len()
{
    if i >= s.len() || !is_digit(s[i]) {
        i
    } else {
        num_end(s, i + 1)
    }
}

pub proof fn lemma_num_end_bounds(s: Seq<char>, i: int)
    requires
        0 <= i <= s.len(),
    ensures
        i <= num_end(s, i) <= s.len(),
        forall|j: int| i <= j < num_end(s, i) ==> is_digit(#[trigger] s[j]),
    decreases s.len() - i,
{
    if i < s.len() && is_digit(s[i]) {
        lemma_num_end_bounds(s, i + 1);
    }
}

/// Read a balance: a maximal run of at least one digit whose value fits in a
/// `u64`. Yields the value and the position after the digits.
pub open spec fn p_num(s: Seq<char>, i: int) -> Option<(u64, int)>
    recommends
        0 <= i <= s.len(),
{
    let j = num_end(s, i);
    if j > i && digits_val(s.subrange(i, j)) <= u64::MAX {
        Some((digits_val(s.subrange(i, j)) as u64, j))
    } else {
        None
    }
}

/// Read a comma-separated run of `"name":balance` entries, ending at a `}`
/// that is consumed. Yields the entries and the position after the `}`.
pub open spec fn p_entries(s: Seq<char>, i: int) -> Option<(Seq<(Seq<char>, u64)>, int)>
    decreases s.len() - i when 0 <= i <= s.len() via p_entries_decreases
{
    if i >= s.len() || s[i] != '"' {
        None
    } else {
        match p_name(s, i + 1) {
            None => None,
            Some(nr) => if nr.1 >= s.len() || s[nr.1] != ':' {
                None
            } else {
                match p_num(s, nr.1 + 1) {
                    None => None,
                    Some(vr) => if vr.1 < s.len() && s[vr.1] == ',' {
                        match p_entries(s, vr.1 + 1) {
                            None => None,
                            Some(rr) => Some((seq![(nr.0, vr.0)] + rr.0, rr.1)),
                        }
                    } else if vr.1 < s.len() && s[vr.1] == '}' {
                        Some((seq![(nr.0, vr.0)], vr.1 + 1))
                    } else {
                        None
                    },
                }
            },
        }
    }
}

#[via_fn]
proof fn p_entries_decreases(s: Seq<char>, i: int) {
    if 0 <= i && i < s.len() && s[i] == '"' {
        lemma_p_name_bounds(s, i + 1);
        match p_name(s, i + 1) {
            Some(nr) => {
                if nr.1 < s.len() && s[nr.1] == ':' {
                    lemma_num_end_bounds(s, nr.1 + 1);
                }
            },
            None => {},
        }
    }
}

/// Which texts `load` accepts, and what it reads from them: the header, then
/// either nothing or a run of entries with pairwise distinct names, then the
/// closing braces, and nothing after.
pub open spec fn dec(s: Seq<char>) -> Option<Seq<(Seq<char>, u64)>> {
    if s.len() < 12 || s.subrange(0, 10) != enc_header() {
        None
    } else if s[10] == '}' {
        if s.len() == 12 && s[11] == '}' {
            Some(Seq::empty())
        } else {
            None
        }
    } else {
        match p_entries(s, 10) {
            None => None,
            Some(r) => if r.1 == s.len() - 1 && s[r.1] == '}' && unique_keys(r.0) {
                Some(r.0)
            } else {
                None
            },
        }
    }
}

/// `num_end` stops exactly at the end of a known digit run.
pub proof fn lemma_num_end_eq(s: Seq<char>, i: int, e: int)
    requires
        0 <= i <= e <= s.len(),
        forall|j: int| i <= j < e ==> is_digit(#[trigger] s[j]),
        e == s.len() || !is_digit(s[e]),
    ensures
        num_end(s, i) == e,
    decreases e - i,
{
    if i < e {
        lemma_num_end_eq(s, i + 1, e);
    }
}

/// Reading a number off its own written digits yields the value back and
/// stops right after them.
pub proof fn lemma_p_num_encoded(s: Seq<char>, i: int, v: u64)
    requires
        0 <= i,
        i + dec_digits(v as int).len() <= s.len(),
        s.subrange(i, i + dec_digits(v as int).len()) == dec_digits(v as int),
        i + dec_digits(v as int).len() == s.len() || !is_digit(s[i + dec_digits(v as int).len()]),
    ensures
        p_num(s, i) == Some((v, i + dec_digits(v as int).len())),
{
    lemma_dec_digits_val(v as int);
    let dg = dec_digits(v as int);
    let e = i + dg.len();
    assert forall|j: int| i <= j < e implies is_digit(#[trigger] s[j]) by {
        assert(s.subrange(i, e)[j - i] == s[j]);
        assert(dg[j - i] == s[j]);
    }
    lemma_num_end_eq(s, i, e);
    assert(digits_val(s.subrange(i, e)) == v);
}

/// Reading a name off its own escaped text yields the name back and stops
/// right after the closing quote.
pub proof fn lemma_p_name_encoded(s: Seq<char>, i: int, k: Seq<char>)
    requires
        0 <= i,
        i + esc(k).len() + 1 <= s.len(),
        s.subrange(i, i + esc(k).len() + 1) == esc(k).push('"'),
    ensures
        p_name(s, i) == Some((k, i + esc(k).len() + 1)),
    decreases k.len(),
{
    let ek = esc(k);
    let t = s.subrange(i, i + ek.len() + 1);
    if k.len() == 0 {
        assert(ek =~= Seq::<char>::empty());
        assert(s[i] == t[0]);
        assert(t[0] == ek.push('"')[0]);
        assert(s[i] == '"');
        assert(p_name(s, i) == Some((Seq::<char>::empty(), i + 1)));
        assert(k =~= Seq::<char>::empty());
    } else {
        let c = k[0];
        let kd = k.drop_first();
        let ekd = esc(kd);
        assert(ek == esc_char(c) + ekd);
        if c == '"' || c == '\\' {
            assert(ek.len() == 2 + ekd.len());
            assert(ek[0] == '\\' && ek[1] == c);
            assert(s[i] == t[0] && t[0] == ek.push('"')[0]);
            assert(s[i] == '\\');
            assert(s[i + 1] == t[1] && t[1] == ek.push('"')[1]);
            assert(s[i + 1] == c);
            assert forall|m: int| 0 <= m < ekd.len() + 1 implies s.subrange(
                i + 2,
                i + 2 + ekd.len() + 1,
            )[m] == ekd.push('"')[m] by {
                assert(s.subrange(i + 2, i + 2 + ekd.len() + 1)[m] == s[i + 2 + m]);
                assert(s[i + 2 + m] == t[2 + m]);
                assert(t[2 + m] == ek.push('"')[2 + m]);
                if m < ekd.len() {
                    assert(ek.push('"')[2 + m] == ek[2 + m]);
                    assert(ek[2 + m] == ekd[m]);
                } else {
                    assert(ek.push('"')[2 + m] == '"');
                }
            }
            assert(s.subrange(i + 2, i + 2 + ekd.len() + 1) =~= ekd.push('"'));
            lemma_p_name_encoded(s, i + 2, kd);
            assert(s[i] != '"');
            assert(i + 1 < s.len());
            assert(p_name(s, i) == Some((seq![s[i + 1]] + kd, i + 2 + ekd.len() + 1)));
            assert(seq![c] + kd =~= k);
            assert(i + 2 + ekd.len() + 1 == i + ek.len() + 1);
        } else {
            assert(ek.len() == 1 + ekd.len());
            assert(ek[0] == c);
            assert(s[i] == t[0] && t[0] == ek.push('"')[0]);
            assert(s[i] == c);
            assert(s[i] != '"' && s[i] != '\\');
            assert forall|m: int| 0 <= m < ekd.len() + 1 implies s.subrange(
                i + 1,
                i + 1 + ekd.len() + 1,
            )[m] == ekd.push('"')[m] by {
                assert(s.subrange(i + 1, i + 1 + ekd.len() + 1)[m] == s[i + 1 + m]);
                assert(s[i + 1 + m] == t[1 + m]);
                assert(t[1 + m] == ek.push('"')[1 + m]);
                if m < ekd.len() {
                    assert(ek.push('"')[1 + m] == ek[1 + m]);
                    assert(ek[1 + m] == ekd[m]);
                } else {
                    assert(ek.push('"')[1 + m] == '"');
                }
            }
            assert(s.subrange(i + 1, i + 1 + ekd.len() + 1) =~= ekd.push('"'));
            lemma_p_name_encoded(s, i + 1, kd);
            assert(p_name(s, i) == Some((seq![s[i]] + kd, i + 1 + ekd.len() + 1)));
            assert(seq![c] + kd =~= k);
            assert(i + 1 + ekd.len() + 1 == i + ek.len() + 1);
        }
    }
}

/// Reading entries off their own written text yields them back and stops
/// right after the closing brace.
pub proof fn lemma_p_entries_encoded(s: Seq<char>, i: int, es: Seq<(Seq<char>, u64)>)
    requires
        es.len() >= 1,
        0 <= i,
        i + enc_entries(es).len() + 1 <= s.len(),
        s.subrange(i, i + enc_entries(es).len() + 1) == enc_entries(es).push('}'),
    ensures
        p_entries(s, i) == Some((es, i + enc_entries(es).len() + 1)),
    decreases es.len(),
{
    let ee = enc_entries(es);
    let t = s.subrange(i, i + ee.len() + 1);
    let k0 = es[0].0;
    let v0 = es[0].1;
    let e0 = enc_entry(k0, v0);
    let ek = esc(k0);
    let dg = dec_digits(v0 as int);
    lemma_dec_digits_val(v0 as int);
    assert(e0 == seq!['"'] + ek + seq!['"', ':'] + dg);
    assert(e0.len() == ek.len() + dg.len() + 3);
    let esd = es.drop_first();
    if es.len() == 1 {
        assert(ee == e0);
    } else {
        assert(ee == e0 + seq![','] + enc_entries(esd));
    }
    assert forall|m: int| 0 <= m < e0.len() implies ee[m] == e0[m] by {}
    // the opening quote
    assert(s[i] == t[0] && t[0] == ee.push('}')[0] && ee[0] == e0[0]);
    assert(e0[0] == '"');
    assert(s[i] == '"');
    // the name
    assert forall|m: int| 0 <= m < ek.len() + 1 implies s.subrange(i + 1, i + 1 + ek.len() + 1)[m]
        == ek.push('"')[m] by {
        assert(s.subrange(i + 1, i + 1 + ek.len() + 1)[m] == s[i + 1 + m]);
        assert(s[i + 1 + m] == t[1 + m]);
        assert(t[1 + m] == ee.push('}')[1 + m]);
        assert(1 + m < e0.len());
        assert(ee.push('}')[1 + m] == e0[1 + m]);
        if m < ek.len() {
            assert(e0[1 + m] == ek[m]);
            assert(ek.push('"')[m] == ek[m]);
        } else {
            assert(e0[1 + m] == '"');
            assert(ek.push('"')[m] == '"');
        }
    }
    assert(s.subrange(i + 1, i + 1 + ek.len() + 1) =~= ek.push('"'));
    lemma_p_name_encoded(s, i + 1, k0);
    let j = i + 1 + ek.len() + 1;
    assert(p_name(s, i + 1) == Some((k0, j)));
    // the colon
    assert(s[j] == t[j - i] && t[j - i] == ee.push('}')[j - i]);
    assert(j - i < e0.len());
    assert(ee.push('}')[j - i] == e0[j - i]);
    assert(e0[ek.len() as int + 2] == ':');
    assert(s[j] == ':');
    assert(j < s.len());
    // the digits
    assert forall|m: int| 0 <= m < dg.len() implies s.subrange(j + 1, j + 1 + dg.len())[m]
        == dg[m] by {
        assert(s.subrange(j + 1, j + 1 + dg.len())[m] == s[j + 1 + m]);
        assert(s[j + 1 + m] == t[ek.len() + 3 + m]);
        assert(ek.len() + 3 + m < e0.len());
        assert(t[ek.len() + 3 + m] == ee.push('}')[ek.len() + 3 + m]);
        assert(ee.push('}')[ek.len() + 3 + m] == e0[ek.len() + 3 + m]);
        assert(e0[ek.len() + 3 + m] == dg[m]);
    }
    assert(s.subrange(j + 1, j + 1 + dg.len()) =~= dg);
    let p = j + 1 + dg.len();
    assert(p == i + e0.len());
    // the character after the digits: a comma or the closing brace
    assert(s[p] == t[e0.len() as int] && t[e0.len() as int] == ee.push('}')[e0.len() as int]);
    if es.len() == 1 {
        assert(ee.push('}')[e0.len() as int] == '}');
        assert(s[p] == '}');
        assert(!is_digit('}'));
        lemma_p_num_encoded(s, j + 1, v0);
        assert(p_num(s, j + 1) == Some((v0, p)));
        assert(p < s.len());
        assert(s[p] != ',');
        assert(p_entries(s, i) == Some((seq![(k0, v0)], p + 1)));
        assert(seq![(k0, v0)] =~= es);
        assert(p + 1 == i + ee.len() + 1);
    } else {
        let eed = enc_entries(esd);
        assert(ee.len() == e0.len() + 1 + eed.len());
        assert(ee.push('}')[e0.len() as int] == ee[e0.len() as int]);
        assert(ee[e0.len() as int] == ',');
        assert(s[p] == ',');
        assert(!is_digit(','));
        lemma_p_num_encoded(s, j + 1, v0);
        assert(p_num(s, j + 1) == Some((v0, p)));
        assert(p < s.len());
        assert forall|m: int| 0 <= m < eed.len() + 1 implies s.subrange(
            p + 1,
            p + 1 + eed.len() + 1,
        )[m] == eed.push('}')[m] by {
            assert(s.subrange(p + 1, p + 1 + eed.len() + 1)[m] == s[p + 1 + m]);
            assert(s[p + 1 + m] == t[e0.len() + 1 + m]);
            assert(t[e0.len() + 1 + m] == ee.push('}')[e0.len() + 1 + m]);
            if m < eed.len() {
                assert(ee.push('}')[e0.len() + 1 + m] == ee[e0.len() + 1 + m]);
                assert(ee[e0.len() + 1 + m] == eed[m]);
                assert(eed.push('}')[m] == eed[m]);
            } else {
                assert(ee.push('}')[e0.len() + 1 + m] == '}');
                assert(eed.push('}')[m] == '}');
            }
        }
        assert(s.subrange(p + 1, p + 1 + eed.len() + 1) =~= eed.push('}'));
        assert(esd.len() >= 1);
        lemma_p_entries_encoded(s, p + 1, esd);
        assert(p_entries(s, p + 1) == Some((esd, p + 1 + eed.len() + 1)));
        assert(p_entries(s, i) == Some((seq![(k0, v0)] + esd, p + 1 + eed.len() + 1)));
        assert(seq![(k0, v0)] + esd =~= es);
        assert(p + 1 + eed.len() + 1 == i + ee.len() + 1);
    }
}

/// Law: the persistence round trip — the text `save` writes for any ledger is
/// accepted by `dec`, and what it reads back is exactly that ledger's entries.
pub proof fn lemma_save_load_round_trip(es: Seq<(Seq<char>, u64)>)
    requires
        unique_keys(es),
    ensures
        dec(enc(es)) == Some(es),
{
    let s = enc(es);
    let ee = enc_entries(es);
    let h = enc_header();
    assert(s.len() == 12 + ee.len());
    assert forall|m: int| 0 <= m < 10 implies s.subrange(0, 10)[m] == h[m] by {
        assert(s.subrange(0, 10)[m] == s[m]);
        assert(s[m] == h[m]);
    }
    assert(s.subrange(0, 10) =~= h);
    if es.len() == 0 {
        assert(ee =~= Seq::<char>::empty());
        assert(s[10] == '}');
        assert(s[11] == '}');
        assert(s.len() == 12);
        assert(es =~= Seq::<(Seq<char>, u64)>::empty());
        assert(dec(s) == Some(es));
    } else {
        let e0 = enc_entry(es[0].0, es[0].1);
        if es.len() == 1 {
            assert(ee == e0);
        } else {
            assert(ee == e0 + seq![','] + enc_entries(es.drop_first()));
        }
        assert(ee[0] == e0[0]);
        assert(e0[0] == '"');
        assert(s[10] == ee[0]);
        assert(s[10] != '}');
        assert forall|m: int| 0 <= m < ee.len() + 1 implies s.subrange(10, 10 + ee.len() as int + 1)[m]
            == ee.push('}')[m] by {
            assert(s.subrange(10, 10 + ee.len() as int + 1)[m] == s[10 + m]);
            if m < ee.len() {
                assert(s[10 + m] == ee[m]);
                assert(ee.push('}')[m] == ee[m]);
            } else {
                assert(s[10 + m] == '}');
                assert(ee.push('}')[m] == '}');
            }
        }
        assert(s.subrange(10, 10 + ee.len() as int + 1) =~= ee.push('}'));
        lemma_p_entries_encoded(s, 10, es);
        assert(p_entries(s, 10) == Some((es, 11 + ee.len() as int)));
        assert(11 + ee.len() as int == s.len() - 1);
        assert(s[s.len() - 1] == '}');
        assert(dec(s) == Some(es));
    }
}

impl BotSaveData {
    /// The text written to storage for this ledger.
    pub fn save(&self) -> (r: String)
        ensures
            r@ == enc(self.kv()),
    {
        let mut out = String::new();
        out.append("{\"coins\":{");
        proof {
            reveal_strlit("{\"coins\":{");
            assert(out@ =~= enc_header());
        }
        let n = self.coins.len();
        let mut i: usize = 0;
        while i < n
            invariant
                0 <= i <= n,
                n == self.coins.len(),
                out@ == enc_header() + enc_entries(self.kv().take(i as int)),
            decreases n - i,
        {
            if i > 0 {
                out.push(',');
            }
            out.push('"');
            push_escaped(&mut out, self.coins[i].0.as_str());
            out.push('"');
            out.push(':');
            push_u64_digits(&mut out, self.coins[i].1);
            proof {
                let kv = self.kv();
                assert(kv[i as int] == (self.coins@[i as int].0@, self.coins@[i as int].1));
                lemma_enc_entries_push(kv.take(i as int), kv[i as int]);
                assert(kv.take(i as int).push(kv[i as int]) =~= kv.take(i + 1 as int));
                assert(out@ =~= enc_header() + enc_entries(kv.take(i + 1 as int)));
            }
            i = i + 1;
        }
        out.push('}');
        out.push('}');
        proof {
            assert(self.kv().take(n as int) =~= self.kv());
            assert(out@ =~= enc(self.kv()));
        }
        out
    }
}

/// Read a name at `i` (just after its opening quote), unescaping what
/// `p_name` reads.
fn read_name(s: &str, i: usize) -> (r: Option<(String, usize)>)
    requires
        i <= s@.len(),
    ensures
        match r {
            Some(t) => p_name(s@, i as int) == Some((t.0@, t.1 as int)) && i < t.1 <= s@.len(),
            None => p_name(s@, i as int) is None,
        },
{
    let n = s.unicode_len();
    let mut j: usize = i;
    let mut acc = String::new();
    proof {
        match p_name(s@, i as int) {
            Some(rr) => {
                assert(Seq::<char>::empty() + rr.0 =~= rr.0);
            },
            None => {},
        }
    }
    loop
        invariant
            i <= j <= n,
            n == s@.len(),
            match p_name(s@, j as int) {
                Some(rr) => p_name(s@, i as int) == Some((acc@ + rr.0, rr.1)),
                None => p_name(s@, i as int) is None,
            },
        decreases n - j,
    {
        if j >= n {
            return None;
        }
        let c = s.get_char(j);
        if c == '"' {
            proof {
                assert(p_name(s@, j as int) == Some((Seq::<char>::empty(), j as int + 1)));
                assert(acc@ + Seq::<char>::empty() =~= acc@);
            }
            return Some((acc, j + 1));
        } else if c == '\\' {
            if j + 1 >= n {
                return None;
            }
            let c2 = s.get_char(j + 1);
            proof {
                match p_name(s@, j as int + 2) {
                    Some(rr) => {
                        assert(acc@ + (seq![c2] + rr.0) =~= acc@.push(c2) + rr.0);
                    },
                    None => {},
                }
            }
            acc.push(c2);
            j = j + 2;
        } else {
            proof {
                match p_name(s@, j as int + 1) {
                    Some(rr) => {
                        assert(acc@ + (seq![c] + rr.0) =~= acc@.push(c) + rr.0);
                    },
                    None => {},
                }
            }
            acc.push(c);
            j = j + 1;
        }
    }
}

/// Read a balance at `i`: the maximal digit run, refused when it is empty or
/// its value does not fit in a `u64`.
fn read_num(s: &str, i: usize) -> (r: Option<(u64, usize)>)
    requires
        i <= s@.len(),
    ensures
        match r {
            Some(t) => p_num(s@, i as int) == Some((t.0, t.1 as int)) && i < t.1 <= s@.len(),
            None => p_num(s@, i as int) is None,
        },
{
    let n = s.unicode_len();
    let mut e: usize = i;
    while e < n && is_digit_char(s.get_char(e))
        invariant
            i <= e <= n,
            n == s@.len(),
            num_end(s@, i as int) == num_end(s@, e as int),
        decreases n - e,
    {
        e = e + 1;
    }
    proof {
        lemma_num_end_bounds(s@, e as int);
        assert(num_end(s@, i as int) == e as int);
    }
    if e == i {
        return None;
    }
    let ghost t = s@.subrange(i as int, e as int);
    proof {
        lemma_num_end_bounds(s@, i as int);
        assert forall|q: int| 0 <= q < t.len() implies is_digit(#[trigger] t[q]) by {
            assert(t[q] == s@[i + q]);
        }
        assert(all_digits(t));
    }
    let mut acc: u64 = 0;
    let mut m: usize = i;
    while m < e
        invariant
            i <= m <= e <= n,
            n == s@.len(),
            num_end(s@, i as int) == e as int,
            t == s@.subrange(i as int, e as int),
            all_digits(t),
            acc == digits_val(t.take(m - i)),
        decreases e - m,
    {
        let c = s.get_char(m);
        proof {
            assert(t[m - i] == s@[m as int]);
            assert(is_digit(c));
        }
        let u = c as u32;
        let d: u64 = (u - 48) as u64;
        let ghost k = m - i;
        proof {
            assert(t.take(k + 1).drop_last() =~= t.take(k));
            assert(t.take(k + 1).last() == t[k]);
            assert(digit_val(t[k]) == d);
        }
        if acc > (u64::MAX - d) / 10 {
            proof {
                assert(acc * 10 + d > u64::MAX) by {
                    assert(acc >= (u64::MAX - d) / 10 + 1);
                    assert(((u64::MAX - d) / 10 + 1) * 10 == ((u64::MAX - d) / 10) * 10 + 10);
                    assert(((u64::MAX - d) / 10) * 10 + 10 > u64::MAX - d) by {
                        assert(((u64::MAX - d) as int / 10) * 10 > (u64::MAX - d) - 10);
                    }
                    assert(acc * 10 >= ((u64::MAX - d) / 10 + 1) * 10) by (nonlinear_arith)
                        requires
                            acc >= (u64::MAX - d) / 10 + 1,
                    ;
                }
                assert(digits_val(t.take(k + 1)) > u64::MAX);
                lemma_digits_val_mono(t, k + 1);
                assert(digits_val(t) > u64::MAX);
            }
            return None;
        }
        proof {
            assert(acc * 10 + d <= u64::MAX) by {
                assert(acc <= (u64::MAX - d) / 10);
                assert(acc * 10 <= ((u64::MAX - d) / 10) * 10) by (nonlinear_arith)
                    requires
                        acc <= (u64::MAX - d) / 10,
                ;
                assert(((u64::MAX - d) / 10) * 10 <= u64::MAX - d) by {
                    assert(((u64::MAX - d) as int / 10) * 10 <= (u64::MAX - d) as int);
                }
            }
        }
        acc = acc * 10 + d;
        m = m + 1;
    }
    proof {
        assert(t.take(e - i) =~= t);
    }
    Some((acc, e))
}

/// Whether some stored entry already carries this name.
fn vec_has_key(coins: &Vec<(String, u64)>, name: &String) -> (r: bool)
    ensures
        r == exists|q: int| 0 <= q < coins@.len() && coins@[q].0@ == name@,
{
    let m = coins.len();
    let mut q: usize = 0;
    while q < m
        invariant
            0 <= q <= m,
            m == coins@.len(),
            forall|w: int| 0 <= w < q ==> coins@[w].0@ != name@,
        decreases m - q,
    {
        if coins[q].0 == *name {
            return true;
        }
        q = q + 1;
    }
    false
}

impl BotSaveData {
    /// Read a ledger back from stored text; text `dec` does not accept gives
    /// the empty ledger.
    pub fn load(contents: &str) -> (r: BotSaveData)
        ensures
            r.wf(),
            dec(contents@) is Some ==> r.kv() == dec(contents@)->0,
            dec(contents@) is None ==> r.kv() == Seq::<(Seq<char>, u64)>::empty(),
    {
        let s = contents;
        let n = s.unicode_len();
        if n < 12 {
            return BotSaveData::new();
        }
        let h = "{\"coins\":{";
        proof {
            reveal_strlit("{\"coins\":{");
            assert(h@ =~= enc_header());
        }
        let mut idx: usize = 0;
        while idx < 10
            invariant
                s == contents,
                0 <= idx <= 10,
                n == s@.len(),
                n >= 12,
                h@ == enc_header(),
                forall|w: int| 0 <= w < idx ==> s@[w] == enc_header()[w],
            decreases 10 - idx,
        {
            if s.get_char(idx) != h.get_char(idx) {
                proof {
                    let sb = s@.subrange(0, 10);
                    assert(sb[idx as int] == s@[idx as int]);
                    assert(sb != enc_header()) by {
                        if sb == enc_header() {
                            assert(sb[idx as int] == enc_header()[idx as int]);
                        }
                    }
                    assert(dec(s@) is None);
                }
                return BotSaveData::new();
            }
            idx = idx + 1;
        }
        proof {
            assert(s@.subrange(0, 10) =~= enc_header());
        }
        if s.get_char(10) == '}' {
            return BotSaveData::new();
        }
        let mut coins: Vec<(String, u64)> = Vec::new();
        let mut i: usize = 10;
        proof {
            match p_entries(s@, 10) {
                Some(rr) => {
                    assert(kv_of(coins@) =~= Seq::<(Seq<char>, u64)>::empty());
                    assert(kv_of(coins@) + rr.0 =~= rr.0);
                },
                None => {},
            }
        }
        loop
            invariant
                s == contents,
                10 <= i <= n,
                n == s@.len(),
                n >= 12,
                s@.subrange(0, 10) == enc_header(),
                s@[10] != '}',
                unique_keys(kv_of(coins@)),
                match p_entries(s@, i as int) {
                    Some(rr) => p_entries(s@, 10) == Some((kv_of(coins@) + rr.0, rr.1)),
                    None => p_entries(s@, 10) is None,
                },
            decreases n - i,
        {
            if i >= n {
                proof {
                    assert(p_entries(s@, i as int) is None);
                    assert(dec(s@) is None);
                }
                return BotSaveData::new();
            }
            let c = s.get_char(i);
            if c != '"' {
                proof {
                    assert(s@[i as int] != '"');
                    assert(p_entries(s@, i as int) is None);
                    assert(dec(s@) is None);
                }
                return BotSaveData::new();
            }
            let (name, j) = match read_name(s, i + 1) {
                Some(t) => t,
                None => {
                    proof {
                        assert(p_name(s@, i as int + 1) is None);
                        assert(p_entries(s@, i as int) is None);
                        assert(dec(s@) is None);
                    }
                    return BotSaveData::new();
                },
            };
            if j >= n || s.get_char(j) != ':' {
                proof {
                    assert(p_name(s@, i as int + 1) == Some((name@, j as int)));
                    assert(p_entries(s@, i as int) is None);
                    assert(dec(s@) is None);
                }
                return BotSaveData::new();
            }
            let (v, k) = match read_num(s, j + 1) {
                Some(t) => t,
                None => {
                    proof {
                        assert(p_name(s@, i as int + 1) == Some((name@, j as int)));
                        assert(p_num(s@, j as int + 1) is None);
                        assert(p_entries(s@, i as int) is None);
                        assert(dec(s@) is None);
                    }
                    return BotSaveData::new();
                },
            };
            proof {
                assert(p_name(s@, i as int + 1) == Some((name@, j as int)));
                assert(p_num(s@, j as int + 1) == Some((v, k as int)));
            }
            if vec_has_key(&coins, &name) {
                proof {
                    match p_entries(s@, i as int) {
                        Some(rr) => {
                            assert(rr.0[0] == (name@, v));
                            let full = kv_of(coins@) + rr.0;
                            let a = choose|a: int|
                                0 <= a < coins@.len() && coins@[a].0@ == name@;
                            assert(full[a].0 == name@);
                            assert(full[coins@.len() as int].0 == name@);
                            assert(!unique_keys(full));
                        },
                        None => {},
                    }
                }
                return BotSaveData::new();
            }
            let ghost old_coins = coins@;
            coins.push((name, v));
            proof {
                assert(kv_of(coins@) =~= kv_of(old_coins).push((name@, v)));
                assert forall|a: int, b: int|
                    0 <= a < b < kv_of(coins@).len() implies kv_of(coins@)[a].0 != kv_of(
                    coins@,
                )[b].0 by {
                    if b == kv_of(coins@).len() - 1 {
                        assert(kv_of(old_coins)[a].0 == old_coins[a].0@);
                    }
                }
            }
            if k < n && s.get_char(k) == ',' {
                proof {
                    match p_entries(s@, k as int + 1) {
                        Some(rr) => {
                            assert(p_entries(s@, i as int) == Some(
                                (seq![(name@, v)] + rr.0, rr.1),
                            ));
                            assert(kv_of(old_coins) + (seq![(name@, v)] + rr.0) =~= kv_of(coins@)
                                + rr.0);
                        },
                        None => {
                            assert(p_entries(s@, i as int) is None);
                        },
                    }
                }
                i = k + 1;
            } else if k < n && s.get_char(k) == '}' {
                proof {
                    assert(p_entries(s@, i as int) == Some((seq![(name@, v)], k as int + 1)));
                    assert(kv_of(old_coins) + seq![(name@, v)] =~= kv_of(coins@));
                    assert(p_entries(s@, 10) == Some((kv_of(coins@), k as int + 1)));
                }
                if k + 1 == n - 1 && s.get_char(k + 1) == '}' {
                    let r = BotSaveData { coins };
                    proof {
                        assert(dec(s@) == Some(r.kv()));
                    }
                    return r;
                } else {
                    return BotSaveData::new();
                }
            } else {
                return BotSaveData::new();
            }
        }
    }

    /// Replace this ledger with what the stored text holds.
    pub fn reload(&mut self, contents: &str)
        ensures
            final(self).wf(),
            dec(contents@) is Some ==> final(self).kv() == dec(contents@)->0,
            dec(contents@) is None ==> final(self).kv() == Seq::<(Seq<char>, u64)>::empty(),
    {
        *self = Self::load(contents);
    }
}

} // verus!
