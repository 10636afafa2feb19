//! Numeric tokens of the mesh description format: unsigned decimal integers,
//! which are evaluated, and floating-point literals, which are recognised.

use vstd::prelude::*;

verus! {

/// Whether `c` is one of the ASCII digits `0` to `9`.
pub open spec fn is_digit(c: char) -> bool {
    0x30 <= c as u32 <= 0x39
}

/// The value of an ASCII digit.
pub open spec fn digit_value(c: char) -> nat
    recommends
        is_digit(c),
{
    (c as u32 - 0x30) as nat
}

/// Whether every character of `s` is an ASCII digit.
pub open spec fn all_digits(s: Seq<char>) -> bool {
    forall|i: int| 0 <= i < s.len() ==> is_digit(#[trigger] s[i])
}

/// The number that a sequence of ASCII digits denotes in base ten.
pub open spec fn decimal_value(s: Seq<char>) -> nat
    decreases s.len(),
{
    if s.len() == 0 {
        0
    } else {
        decimal_value(s.drop_last()) * 10 + digit_value(s.last())
    }
}

/// A token without the one `+` that may stand in front of an unsigned integer.
pub open spec fn unsigned_digits(s: Seq<char>) -> Seq<char> {
    if s.len() > 0 && s[0] == '+' {
        s.subrange(1, s.len() as int)
    } else {
        s
    }
}

/// The value of `s` read as an unsigned decimal integer no greater than
/// `max`: an optional `+`, then one or more digits. Anything else, and any
/// value above `max`, is no such integer.
pub open spec fn parse_unsigned(s: Seq<char>, max: nat) -> Option<nat> {
    let d = unsigned_digits(s);
    if d.len() > 0 && all_digits(d) && decimal_value(d) <= max {
        Some(decimal_value(d))
    } else {
        None
    }
}

/// A longer digit string denotes a number at least as large as any prefix of it.
pub proof fn lemma_decimal_value_prefix(s: Seq<char>, k: int)
    requires
        0 <= k <= s.len(),
    ensures
        decimal_value(s.subrange(0, k)) <= decimal_value(s),
    decreases s.len(),
{
    if k == s.len() {
        assert(s.subrange(0, k) =~= s);
    } else {
        lemma_decimal_value_prefix(s.drop_last(), k);
        assert(s.drop_last().subrange(0, k) =~= s.subrange(0, k));
    }
}

/// Tells whether `c` is an ASCII digit.
pub fn is_digit_char(c: char) -> (r: bool)
    ensures
        r == is_digit(c),
{
    let n: u32 = c as u32;
    0x30 <= n && n <= 0x39
}

/// Reads `token` as an unsigned decimal integer no greater than `max`.
pub fn parse_bounded(token: &Vec<char>, max: u32) -> (r: Option<u32>)
    ensures
        match parse_unsigned(token@, max as nat) {
            Some(n) => r == Some(n as u32) && n <= max,
            None => r.is_none(),
        },
{
    let start: usize = if token.len() > 0 && token[0] == '+' {
        1
    } else {
        0
    };
    let ghost d = unsigned_digits(token@);
    assert(d == token@.subrange(start as int, token.len() as int));
    if start >= token.len() {
        return None;
    }
    let mut acc: u64 = 0;
    let mut i: usize = start;
    assert(d.subrange(0, 0) =~= Seq::<char>::empty());
    while i < token.len()
        invariant
            start <= i <= token.len(),
            d == unsigned_digits(token@),
            d == token@.subrange(start as int, token.len() as int),
            all_digits(d.subrange(0, i - start)),
            acc == decimal_value(d.subrange(0, i - start)),
            acc <= max,
        decreases token.len() - i,
    {
        let c = token[i];
        if !is_digit_char(c) {
            assert(!is_digit(d[i - start]));
            return None;
        }
        let ghost prefix = d.subrange(0, i - start + 1);
        assert(prefix.drop_last() =~= d.subrange(0, i - start));
        assert(prefix.last() == c);
        let digit: u32 = c as u32 - 0x30;
        let next: u64 = acc * 10 + digit as u64;
        assert(next == decimal_value(prefix));
        if next > max as u64 {
            proof {
                lemma_decimal_value_prefix(d, i - start + 1);
            }
            return None;
        }
        assert forall|k: int| 0 <= k < prefix.len() implies is_digit(#[trigger] prefix[k]) by {
            if k < i - start {
                assert(prefix[k] == d.subrange(0, i - start)[k]);
            }
        }
        acc = next;
        i += 1;
    }
    assert(d.subrange(0, i - start) =~= d);
    Some(acc as u32)
}

/// The position just behind the run of digits that starts at `i`.
pub open spec fn digits_end(s: Seq<char>, i: int) -> int
    decreases s.len() - i,
{
    if 0 <= i < s.len() && is_digit(s[i]) {
        digits_end(s, i + 1)
    } else {
        i
    }
}

/// Whether `s` and the lower-case word `word` are equal up to the case of
/// ASCII letters.
pub open spec fn matches_word(s: Seq<char>, word: Seq<char>) -> bool {
    s.len() == word.len() && forall|i: int|
        #![trigger s[i]]
        0 <= i < s.len() ==> (s[i] == word[i] || s[i] as u32 + 0x20 == word[i] as u32)
}

/// Whether `s` is one of the words `inf`, `infinity` and `nan`, in any case.
pub open spec fn is_special_float(s: Seq<char>) -> bool {
    matches_word(s, seq!['i', 'n', 'f']) || matches_word(
        s,
        seq!['i', 'n', 'f', 'i', 'n', 'i', 't', 'y'],
    ) || matches_word(s, seq!['n', 'a', 'n'])
}

/// Whether a sign stands at position `i`.
pub open spec fn sign_at(s: Seq<char>, i: int) -> bool {
    0 <= i < s.len() && (s[i] == '+' || s[i] == '-')
}

/// Whether `s` from position `i` to its end is an exponent: `e` or `E`, an
/// optional sign, and one or more digits.
pub open spec fn is_exponent(s: Seq<char>, i: int) -> bool {
    let d = if sign_at(s, i + 1) {
        i + 2
    } else {
        i + 1
    };
    0 <= i < s.len() && (s[i] == 'e' || s[i] == 'E') && d < s.len() && digits_end(s, d) == s.len()
}

/// Whether `s` is an unsigned decimal number: digits with at most one point
/// among them, at least one digit in all, and an optional exponent.
pub open spec fn is_decimal_number(s: Seq<char>) -> bool {
    let whole = digits_end(s, 0);
    let mantissa = if whole < s.len() && s[whole] == '.' {
        digits_end(s, whole + 1)
    } else {
        whole
    };
    let digits = if mantissa > whole {
        mantissa - 1
    } else {
        mantissa
    };
    digits >= 1 && (mantissa == s.len() || is_exponent(s, mantissa))
}

/// Whether `s` is a floating-point literal: an optional sign in front of a
/// decimal number or of one of the words `inf`, `infinity` and `nan`.
pub open spec fn is_float_literal(s: Seq<char>) -> bool {
    let body = if sign_at(s, 0) {
        s.subrange(1, s.len() as int)
    } else {
        s
    };
    is_decimal_number(body) || is_special_float(body)
}

/// `digits_end` of a suffix is that of the whole sequence, shifted.
pub proof fn lemma_digits_end_suffix(s: Seq<char>, from: int, i: int)
    requires
        0 <= from <= i <= s.len(),
    ensures
        digits_end(s.subrange(from, s.len() as int), i - from) == digits_end(s, i) - from,
    decreases s.len() - i,
{
    let t = s.subrange(from, s.len() as int);
    if i < s.len() && is_digit(s[i]) {
        assert(t[i - from] == s[i]);
        lemma_digits_end_suffix(s, from, i + 1);
    }
}

/// Skips the digits of `token` from position `i` on.
fn skip_digits(token: &Vec<char>, i: usize) -> (r: usize)
    requires
        i <= token.len(),
    ensures
        r == digits_end(token@, i as int),
        i <= r <= token.len(),
{
    let mut j: usize = i;
    while j < token.len() && is_digit_char(token[j])
        invariant
            i <= j <= token.len(),
            digits_end(token@, i as int) == digits_end(token@, j as int),
        decreases token.len() - j,
    {
        j += 1;
    }
    j
}

/// Tells whether `token` from `from` on is `word`, up to the case of ASCII letters.
fn matches_word_from(token: &Vec<char>, from: usize, word: &Vec<char>) -> (r: bool)
    requires
        from <= token.len(),
    ensures
        r == matches_word(token@.subrange(from as int, token.len() as int), word@),
{
    let ghost body = token@.subrange(from as int, token.len() as int);
    if token.len() - from != word.len() {
        return false;
    }
    let mut i: usize = 0;
    while i < word.len()
        invariant
            from <= token.len(),
            token.len() - from == word.len(),
            0 <= i <= word.len(),
            body == token@.subrange(from as int, token.len() as int),
            forall|k: int|
                #![trigger body[k]]
                0 <= k < i ==> (body[k] == word@[k] || body[k] as u32 + 0x20 == word@[k] as u32),
        decreases word.len() - i,
    {
        let c: char = token[from + i];
        let w: char = word[i];
        let cn: u64 = c as u32 as u64;
        let wn: u64 = w as u32 as u64;
        assert(body[i as int] == c);
        if !(c == w || cn + 0x20 == wn) {
            return false;
        }
        i += 1;
    }
    true
}

/// Tells whether `token` is a floating-point literal.
pub fn is_float_token(token: &Vec<char>) -> (r: bool)
    ensures
        r == is_float_literal(token@),
{
    let n: usize = token.len();
    let from: usize = if n > 0 && (token[0] == '+' || token[0] == '-') {
        1
    } else {
        0
    };
    let ghost body = token@.subrange(from as int, n as int);
    proof {
        if from == 0 {
            assert(body =~= token@);
        }
    }
    let inf: Vec<char> = vec!['i', 'n', 'f'];
    let infinity: Vec<char> = vec!['i', 'n', 'f', 'i', 'n', 'i', 't', 'y'];
    let nan: Vec<char> = vec!['n', 'a', 'n'];
    assert(inf@ =~= seq!['i', 'n', 'f']);
    assert(infinity@ =~= seq!['i', 'n', 'f', 'i', 'n', 'i', 't', 'y']);
    assert(nan@ =~= seq!['n', 'a', 'n']);
    if matches_word_from(token, from, &inf) || matches_word_from(token, from, &infinity)
        || matches_word_from(token, from, &nan) {
        return true;
    }
    assert(!is_special_float(body));
    let whole: usize = skip_digits(token, from);
    let mantissa: usize = if whole < n && token[whole] == '.' {
        skip_digits(token, whole + 1)
    } else {
        whole
    };
    let digits: usize = if mantissa > whole {
        mantissa - 1 - from
    } else {
        mantissa - from
    };
    proof {
        lemma_digits_end_suffix(token@, from as int, from as int);
        if whole < n {
            assert(body[whole - from] == token@[whole as int]);
            lemma_digits_end_suffix(token@, from as int, whole + 1);
        }
    }
    if digits < 1 {
        return false;
    }
    if mantissa == n {
        return true;
    }
    assert(body[mantissa - from] == token@[mantissa as int]);
    if !(token[mantissa] == 'e' || token[mantissa] == 'E') {
        return false;
    }
    let d: usize = if mantissa + 1 < n && (token[mantissa + 1] == '+' || token[mantissa + 1]
        == '-') {
        mantissa + 2
    } else {
        mantissa + 1
    };
    proof {
        if mantissa + 1 < n {
            assert(body[mantissa + 1 - from] == token@[mantissa + 1]);
        }
    }
    if d >= n {
        return false;
    }
    let end: usize = skip_digits(token, d);
    proof {
        lemma_digits_end_suffix(token@, from as int, d as int);
    }
    end == n
}

} // verus!
