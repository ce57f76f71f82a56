//! Tokenizing of chat messages and decimal parsing of command amounts.
//!
//! A command line looks like `!gamble 100`: the command keyword is the first
//! `' '`-delimited word, the amount is the second whitespace-delimited token.
//! Whitespace is the Unicode `White_Space` set, the characters
//! `char::is_whitespace` accepts.

use vstd::prelude::*;
use vstd::string::StrSliceExecFns;

verus! {

/// Token separators: the Unicode `White_Space` characters, the set
/// `char::is_whitespace` accepts.
pub open spec fn is_space(c: char) -> bool {
    let u = c as u32;
    (9 <= u && u <= 13) || u == 32 || u == 0x85 || u == 0xa0 || u == 0x1680 || (0x2000 <= u && u
        <= 0x200a) || u == 0x2028 || u == 0x2029 || u == 0x202f || u == 0x205f || u == 0x3000
}

/// Exec test for `is_space`.
pub fn is_space_char(c: char) -> (r: bool)
    ensures
        r == is_space(c),
{
    let u = c as u32;
    (9 <= u && u <= 13) || u == 32 || u == 0x85 || u == 0xa0 || u == 0x1680 || (0x2000 <= u && u
        <= 0x200a) || u == 0x2028 || u == 0x2029 || u == 0x202f || u == 0x205f || u == 0x3000
}

/// First index at or after `i` whose character is not whitespace (or the length).
pub open spec fn next_non_space(s: Seq<char>, i: int) -> int
    recommends
        0 <= i <= s.len(),
    decreases s.len() - i when 0 <= i <= s.len()
{
    if i >= s.len() {
        s.len() as int
    } else if is_space(s[i]) {
        next_non_space(s, i + 1)
    } else {
        i
    }
}

/// First index at or after `i` whose character is whitespace (or the length).
pub open spec fn next_space(s: Seq<char>, i: int) -> int
    recommends
        0 <= i <= s.len(),
    decreases s.len() - i when 0 <= i <= s.len()
{
    if i >= s.len() {
        s.len() as int
    } else if !is_space(s[i]) {
        next_space(s, i + 1)
    } else {
        i
    }
}

/// The second whitespace-delimited token of `s`, if any.
pub open spec fn spec_second_token(s: Seq<char>) -> Option<Seq<char>> {
    let a = next_non_space(s, 0);
    let b = next_space(s, a);
    let c = next_non_space(s, b);
    let d = next_space(s, c);
    if c >= s.len() {
        None
    } else {
        Some(s.subrange(c, d))
    }
}

proof fn lemma_next_non_space_bounds(s: Seq<char>, i: int)
    requires
        0 <= i <= s.len(),
    ensures
        i <= next_non_space(s, i) <= s.len(),
    decreases s.len() - i,
{
    if i < s.len() && is_space(s[i]) {
        lemma_next_non_space_bounds(s, i + 1);
    }
}

proof fn lemma_next_space_bounds(s: Seq<char>, i: int)
    requires
        0 <= i <= s.len(),
    ensures
        i <= next_space(s, i) <= s.len(),
    decreases s.len() - i,
{
    if i < s.len() && !is_space(s[i]) {
        lemma_next_space_bounds(s, i + 1);
    }
}

/// Exec scan matching `next_non_space`.
fn scan_non_space(s: &str, from: usize) -> (r: usize)
    requires
        from <= s@.len(),
    ensures
        r == next_non_space(s@, from as int),
        from <= r <= s@.len(),
{
    let n = s.unicode_len();
    let mut i: usize = from;
    while i < n && is_space_char(s.get_char(i))
        invariant
            from <= i <= n,
            n == s@.len(),
            next_non_space(s@, from as int) == next_non_space(s@, i as int),
        decreases n - i,
    {
        i = i + 1;
    }
    proof {
        lemma_next_non_space_bounds(s@, from as int);
    }
    i
}

/// Exec scan matching `next_space`.
fn scan_space(s: &str, from: usize) -> (r: usize)
    requires
        from <= s@.len(),
    ensures
        r == next_space(s@, from as int),
        from <= r <= s@.len(),
{
    let n = s.unicode_len();
    let mut i: usize = from;
    while i < n && !is_space_char(s.get_char(i))
        invariant
            from <= i <= n,
            n == s@.len(),
            next_space(s@, from as int) == next_space(s@, i as int),
        decreases n - i,
    {
        i = i + 1;
    }
    proof {
        lemma_next_space_bounds(s@, from as int);
    }
    i
}

/// The second whitespace-delimited token of `s`, if any.
pub fn second_token<'a>(s: &'a str) -> (r: Option<&'a str>)
    ensures
        match r {
            Some(t) => spec_second_token(s@) == Some(t@),
            None => spec_second_token(s@) is None,
        },
{
    let a = scan_non_space(s, 0);
    let b = scan_space(s, a);
    let c = scan_non_space(s, b);
    let d = scan_space(s, c);
    let n = s.unicode_len();
    if c >= n {
        None
    } else {
        Some(s.substring_char(c, d))
    }
}

/// Character-for-character string comparison.
pub fn str_eq(a: &str, b: &str) -> (r: bool)
    ensures
        r == (a@ == b@),
{
    let n = a.unicode_len();
    let m = b.unicode_len();
    if n != m {
        proof {
            assert(a@ != b@) by {
                if a@ == b@ {
                    assert(a@.len() == b@.len());
                }
            }
        }
        return false;
    }
    let mut i: usize = 0;
    while i < n
        invariant
            0 <= i <= n,
            n == a@.len(),
            n == b@.len(),
            forall|j: int| 0 <= j < i ==> a@[j] == b@[j],
        decreases n - i,
    {
        if a.get_char(i) != b.get_char(i) {
            proof {
                assert(a@ != b@) by {
                    if a@ == b@ {
                        assert(a@[i as int] == b@[i as int]);
                    }
                }
            }
            return false;
        }
        i = i + 1;
    }
    proof {
        assert(a@ =~= b@);
    }
    true
}

/// Decimal digits.
pub open spec fn is_digit(c: char) -> bool {
    48 <= c as u32 <= 57
}

/// Exec test for `is_digit`.
pub fn is_digit_char(c: char) -> (r: bool)
    ensures
        r == is_digit(c),
{
    let u = c as u32;
    48 <= u && u <= 57
}

/// The numeric value of a decimal digit.
pub open spec fn digit_val(c: char) -> int {
    c as u32 - 48
}

/// Every character of `s` is a decimal digit.
pub open spec fn all_digits(s: Seq<char>) -> bool {
    forall|i: int| 0 <= i < s.len() ==> is_digit(#[trigger] s[i])
}

/// The value of a digit string, most significant digit first.
pub open spec fn digits_val(s: Seq<char>) -> int
    decreases s.len(),
{
    if s.len() == 0 {
        0
    } else {
        digits_val(s.drop_last()) * 10 + digit_val(s.last())
    }
}

/// What `u64::from_str` accepts: an optional leading `'+'`, then at least one
/// digit, and a value that fits in a `u64`.
pub open spec fn spec_parse_u64(s: Seq<char>) -> Option<u64> {
    let body = if s.len() >= 1 && s[0] == '+' {
        s.drop_first()
    } else {
        s
    };
    if body.len() > 0 && all_digits(body) && digits_val(body) <= u64::MAX {
        Some(digits_val(body) as u64)
    } else {
        None
    }
}

/// With all digits in range, the value of a digit string never goes down as
/// the string grows to the right.
pub proof fn lemma_digits_val_mono(s: Seq<char>, i: int)
    requires
        0 <= i <= s.len(),
        all_digits(s),
    ensures
        digits_val(s.take(i)) <= digits_val(s),
        digits_val(s) >= 0,
    decreases s.len(),
{
    if s.len() == 0 {
    } else if i == s.len() {
        assert(s.take(i) =~= s);
        lemma_digits_val_mono(s.drop_last(), s.len() - 1);
    } else {
        assert(all_digits(s.drop_last()));
        lemma_digits_val_mono(s.drop_last(), i);
        assert(s.drop_last().take(i) =~= s.take(i));
        assert(digit_val(s.last()) >= 0);
        assert(digits_val(s.drop_last()) * 10 >= digits_val(s.drop_last())) by {
            lemma_digits_val_mono(s.drop_last(), s.len() - 1);
        }
    }
}

/// Parse a `u64` the way `str::parse::<u64>` does on decimal input.
pub fn parse_u64(s: &str) -> (r: Option<u64>)
    ensures
        r == spec_parse_u64(s@),
{
    let n = s.unicode_len();
    let start: usize = if n >= 1 && s.get_char(0) == '+' {
        1
    } else {
        0
    };
    let ghost body = if start == 1 {
        s@.drop_first()
    } else {
        s@
    };
    proof {
        assert(body.len() == n - start);
        assert(forall|j: int| 0 <= j < body.len() ==> body[j] == s@[j + start]);
    }
    if start == n {
        return None;
    }
    let mut acc: u64 = 0;
    let mut i: usize = start;
    while i < n
        invariant
            start <= i <= n,
            n == s@.len(),
            start == 0 || start == 1,
            start == 1 ==> s@.len() >= 1 && s@[0] == '+',
            start == 0 ==> s@.len() == 0 || s@[0] != '+',
            body == (if start == 1 {
                s@.drop_first()
            } else {
                s@
            }),
            body.len() == n - start,
            forall|j: int| 0 <= j < body.len() ==> body[j] == s@[j + start],
            all_digits(body.take(i - start)),
            acc == digits_val(body.take(i - start)),
        decreases n - i,
    {
        let c = s.get_char(i);
        let u = c as u32;
        if !(48 <= u && u <= 57) {
            proof {
                assert(body[i - start] == c);
                assert(!is_digit(body[i - start]));
            }
            return None;
        }
        let d: u64 = (u - 48) as u64;
        let ghost k = i - start;
        proof {
            assert(body.take(k + 1).drop_last() =~= body.take(k));
            assert(body.take(k + 1).last() == body[k]);
            assert(body[k] == c);
        }
        if acc > (u64::MAX - d) / 10 {
            // The digits seen so far already exceed what a u64 can hold.
            proof {
                assert(acc * 10 + d > u64::MAX) by {
                    assert(acc >= (u64::MAX - d) / 10 + 1);
                    assert(((u64::MAX - d) / 10 + 1) * 10 == ((u64::MAX - d) / 10) * 10 + 10);
                    assert(((u64::MAX - d) / 10) * 10 + 10 > u64::MAX - d) by {
                        assert(((u64::MAX - d) as int / 10) * 10 > (u64::MAX - d) - 10);
                    }
                    assert(acc * 10 >= ((u64::MAX - d) / 10 + 1) * 10) by (nonlinear_arith)
                        requires
                            acc >= (u64::MAX - d) / 10 + 1,
                    ;
                }
                assert(digits_val(body.take(k + 1)) > u64::MAX);
                if all_digits(body) {
                    lemma_digits_val_mono(body, k + 1);
                    assert(digits_val(body) > u64::MAX);
                }
            }
            return None;
        }
        proof {
            assert(acc * 10 + d <= u64::MAX) by {
                assert(acc <= (u64::MAX - d) / 10);
                assert(acc * 10 <= ((u64::MAX - d) / 10) * 10) by (nonlinear_arith)
                    requires
                        acc <= (u64::MAX - d) / 10,
                ;
                assert(((u64::MAX - d) / 10) * 10 <= u64::MAX - d) by {
                    assert(((u64::MAX - d) as int / 10) * 10 <= (u64::MAX - d) as int);
                }
            }
        }
        acc = acc * 10 + d;
        i = i + 1;
    }
    proof {
        assert(body.take(n - start) =~= body);
    }
    Some(acc)
}

/// The amount argument of a command: the second token, parsed as a `u64`.
pub open spec fn spec_parse_amount(s: Seq<char>) -> Option<u64> {
    match spec_second_token(s) {
        Some(t) => spec_parse_u64(t),
        None => None,
    }
}

/// Parse the amount argument of a command message.
pub fn parse_amount(text: &str) -> (r: Option<u64>)
    ensures
        r == spec_parse_amount(text@),
{
    match second_token(text) {
        Some(t) => parse_u64(t),
        None => None,
    }
}

/// First index at or after `i` holding a `' '` (or the length); command
/// keywords are delimited by the space character alone.
pub open spec fn next_blank(s: Seq<char>, i: int) -> int
    recommends
        0 <= i <= s.len(),
    decreases s.len() - i when 0 <= i <= s.len()
{
    if i >= s.len() {
        s.len() as int
    } else if s[i] != ' ' {
        next_blank(s, i + 1)
    } else {
        i
    }
}

/// The command keyword of a message: the first `' '`-delimited word, present
/// exactly when the text starts with the `'!'` sigil.
pub open spec fn spec_parse_command(s: Seq<char>) -> Option<Seq<char>> {
    if s.len() == 0 || s[0] != '!' {
        None
    } else {
        Some(s.subrange(0, next_blank(s, 0)))
    }
}

proof fn lemma_next_blank_bounds(s: Seq<char>, i: int)
    requires
        0 <= i <= s.len(),
    ensures
        i <= next_blank(s, i) <= s.len(),
    decreases s.len() - i,
{
    if i < s.len() && s[i] != ' ' {
        lemma_next_blank_bounds(s, i + 1);
    }
}

/// Extract the command keyword of a message, if it carries the sigil.
pub fn parse_command<'a>(input: &'a str) -> (r: Option<&'a str>)
    ensures
        match r {
            Some(t) => spec_parse_command(input@) == Some(t@),
            None => spec_parse_command(input@) is None,
        },
{
    let n = input.unicode_len();
    if n == 0 || input.get_char(0) != '!' {
        return None;
    }
    let mut i: usize = 0;
    while i < n && input.get_char(i) != ' '
        invariant
            0 <= i <= n,
            n == input@.len(),
            next_blank(input@, 0) == next_blank(input@, i as int),
        decreases n - i,
    {
        i = i + 1;
    }
    proof {
        lemma_next_blank_bounds(input@, 0);
    }
    Some(input.substring_char(0, i))
}

} // verus!
