//! Characters, decimal numbers and strings: the small vocabulary that the
//! lexer, the diagnostics and the assembly text share.

use vstd::prelude::*;
use vstd::string::StringExecFns;

verus! {

/// `String::push` of std appends one character to the string.
pub assume_specification[ String::push ](s: &mut String, c: char)
    ensures
        final(s)@ == old(s)@.push(c),
;

/// The characters of a string slice, in order.
pub fn chars_of(s: &str) -> (v: Vec<char>)
    ensures
        v@ == s@,
{
    let mut v: Vec<char> = Vec::new();
    for c in it: s.chars()
        invariant
            it.seq() == s@,
            v@ =~= it.seq().take(it.index() as int),
    {
        v.push(c);
    }
    assert(v@ =~= s@);
    v
}

/// The string that holds `chars[from..to]`.
pub fn string_of(chars: &Vec<char>, from: usize, to: usize) -> (s: String)
    requires
        from <= to <= chars@.len(),
    ensures
        s@ == chars@.subrange(from as int, to as int),
{
    let mut s = String::new();
    let mut i: usize = from;
    while i < to
        invariant
            from <= i <= to <= chars@.len(),
            s@ == chars@.subrange(from as int, i as int),
        decreases to - i,
    {
        s.push(chars[i]);
        i += 1;
        assert(s@ =~= chars@.subrange(from as int, i as int));
    }
    s
}

/// Whether `chars[from..to]` spells `word`.
pub fn matches_word(chars: &Vec<char>, from: usize, to: usize, word: &str) -> (r: bool)
    requires
        from <= to <= chars@.len(),
    ensures
        r == (chars@.subrange(from as int, to as int) == word@),
{
    let w = chars_of(word);
    let ghost s = chars@.subrange(from as int, to as int);
    if w.len() != to - from {
        return false;
    }
    let mut i: usize = 0;
    while i < w.len()
        invariant
            from <= to <= chars@.len(),
            w@ == word@,
            w@.len() == to - from,
            s == chars@.subrange(from as int, to as int),
            0 <= i <= w@.len(),
            forall|j: int| 0 <= j < i ==> s[j] == w@[j],
        decreases w@.len() - i,
    {
        if chars[from + i] != w[i] {
            assert(s[i as int] != w@[i as int]);
            return false;
        }
        i += 1;
    }
    assert(s =~= w@);
    true
}

/// Whether `c` is one of `0` to `9`.
pub open spec fn is_decimal_digit(c: char) -> bool {
    '0' <= c <= '9'
}

/// The number that the decimal digit `c` stands for.
pub open spec fn digit_value(c: char) -> nat
    recommends
        is_decimal_digit(c),
{
    (c as u32 - '0' as u32) as nat
}

/// The decimal digit that stands for `d`.
pub open spec fn digit_char(d: nat) -> char
    recommends
        d < 10,
{
    ('0' as u32 + d) as char
}

/// Whether every character of `s` is a decimal digit.
pub open spec fn all_digits(s: Seq<char>) -> bool {
    forall|i: int| 0 <= i < s.len() ==> is_decimal_digit(#[trigger] s[i])
}

/// The number that a sequence of decimal digits denotes, most significant digit first.
pub open spec fn digits_value(s: Seq<char>) -> nat
    decreases s.len(),
{
    if s.len() == 0 {
        0
    } else {
        digits_value(s.drop_last()) * 10 + digit_value(s.last())
    }
}

/// The decimal notation of `n`, without leading zeros.
pub open spec fn decimal(n: nat) -> Seq<char>
    decreases n,
{
    if n < 10 {
        seq![digit_char(n)]
    } else {
        decimal(n / 10).push(digit_char(n % 10))
    }
}

/// The decimal notation of `v`, with a leading `-` where `v` is negative.
pub open spec fn signed_decimal(v: int) -> Seq<char> {
    if v < 0 {
        seq!['-'] + decimal((-v) as nat)
    } else {
        decimal(v as nat)
    }
}

/// The integer that `s` denotes: an optional sign, then one or more decimal digits.
pub open spec fn parse_signed(s: Seq<char>) -> Option<int> {
    if s.len() > 0 && (s[0] == '-' || s[0] == '+') {
        let digits = s.subrange(1, s.len() as int);
        if digits.len() > 0 && all_digits(digits) {
            if s[0] == '-' {
                Some(-(digits_value(digits) as int))
            } else {
                Some(digits_value(digits) as int)
            }
        } else {
            None
        }
    } else if s.len() > 0 && all_digits(s) {
        Some(digits_value(s) as int)
    } else {
        None
    }
}

/// The 32-bit integer that `s` denotes, if it denotes one that fits.
pub open spec fn parse_i32_spec(s: Seq<char>) -> Option<i32> {
    match parse_signed(s) {
        Some(v) => if i32::MIN <= v <= i32::MAX {
            Some(v as i32)
        } else {
            None
        },
        None => None,
    }
}

/// The decimal notation of a number consists of digits and denotes that number.
pub proof fn lemma_decimal_digits(n: nat)
    ensures
        decimal(n).len() >= 1,
        all_digits(decimal(n)),
        digits_value(decimal(n)) == n,
    decreases n,
{
    if n < 10 {
        let s = decimal(n);
        assert(s.drop_last() =~= Seq::<char>::empty());
        assert(digits_value(s.drop_last()) == 0);
    } else {
        lemma_decimal_digits(n / 10);
        let s = decimal(n);
        assert(s.drop_last() =~= decimal(n / 10));
        assert(s.last() == digit_char(n % 10));
    }
}

/// Reading back the decimal notation of a 32-bit integer gives that integer.
pub proof fn lemma_parse_signed_decimal(v: i32)
    ensures
        parse_i32_spec(signed_decimal(v as int)) == Some(v),
{
    let s = signed_decimal(v as int);
    if v < 0 {
        let n = (-(v as int)) as nat;
        lemma_decimal_digits(n);
        assert(s.subrange(1, s.len() as int) =~= decimal(n));
        assert(s[0] == '-');
    } else {
        lemma_decimal_digits(v as nat);
        assert(s == decimal(v as nat));
        assert(is_decimal_digit(s[0]));
    }
}

/// The value of a decimal digit, or `None` for any other character.
pub fn decimal_digit(c: char) -> (d: Option<u32>)
    ensures
        d == (if is_decimal_digit(c) {
            Some(digit_value(c) as u32)
        } else {
            None
        }),
{
    if '0' <= c && c <= '9' {
        Some(c as u32 - '0' as u32)
    } else {
        None
    }
}

/// Reads `chars[from..to]` as a 32-bit decimal integer with an optional sign.
pub fn parse_i32(chars: &Vec<char>, from: usize, to: usize) -> (r: Option<i32>)
    requires
        from <= to <= chars@.len(),
    ensures
        r == parse_i32_spec(chars@.subrange(from as int, to as int)),
{
    let ghost s = chars@.subrange(from as int, to as int);
    if from == to {
        return None;
    }
    let first = chars[from];
    assert(s[0] == first);
    let negative = first == '-';
    let start: usize = if first == '-' || first == '+' {
        from + 1
    } else {
        from
    };
    if start == to {
        assert(s.subrange(1, s.len() as int).len() == 0);
        return None;
    }
    let ghost digits = chars@.subrange(start as int, to as int);
    assert(start > from ==> digits =~= s.subrange(1, s.len() as int));
    assert(start == from ==> digits =~= s);
    let ghost signed = start > from;
    // One more than the largest magnitude that fits stands for every larger value.
    let limit: u64 = 0x8000_0000;
    let mut acc: u64 = 0;
    let mut i: usize = start;
    while i < to
        invariant
            start <= i <= to <= chars@.len(),
            digits == chars@.subrange(start as int, to as int),
            from <= start,
            s == chars@.subrange(from as int, to as int),
            s.len() > 0,
            signed == (s[0] == '-' || s[0] == '+'),
            signed ==> digits == s.subrange(1, s.len() as int),
            !signed ==> digits == s,
            limit == 0x8000_0000,
            all_digits(digits.take(i - start)),
            acc == (if digits_value(digits.take(i - start)) > limit {
                limit + 1
            } else {
                digits_value(digits.take(i - start)) as int
            }),
        decreases to - i,
    {
        let c = chars[i];
        assert(digits[i - start] == c);
        let ghost before = digits.take(i - start);
        let ghost after = digits.take(i - start + 1);
        assert(after.drop_last() =~= before);
        assert(after.last() == c);
        match decimal_digit(c) {
            None => {
                assert(!is_decimal_digit(digits[i - start]));
                return None;
            },
            Some(d) => {
                let next = acc * 10 + d as u64;
                acc = if next > limit {
                    limit + 1
                } else {
                    next
                };
                assert forall|k: int| 0 <= k < after.len() implies is_decimal_digit(
                    #[trigger] after[k],
                ) by {
                    if k < before.len() {
                        assert(before[k] == after[k]);
                    }
                }
            },
        }
        i += 1;
    }
    assert(digits.take(to - start) =~= digits);
    if negative {
        if acc > limit {
            None
        } else {
            Some((-(acc as i64)) as i32)
        }
    } else {
        if acc >= limit {
            None
        } else {
            Some(acc as i32)
        }
    }
}

/// Appends the decimal notation of `n` to `out`.
pub fn push_decimal(out: &mut String, n: u64)
    ensures
        final(out)@ == old(out)@ + decimal(n as nat),
    decreases n,
{
    if n >= 10 {
        push_decimal(out, n / 10);
    }
    let d = (n % 10) as u8;
    out.push((48u8 + d) as char);
    assert(final(out)@ =~= old(out)@ + decimal(n as nat));
}

/// Appends the decimal notation of `v`, with its sign, to `out`.
pub fn push_signed_decimal(out: &mut String, v: i32)
    ensures
        final(out)@ == old(out)@ + signed_decimal(v as int),
{
    if v < 0 {
        out.push('-');
        push_decimal(out, (-(v as i64)) as u64);
        assert(final(out)@ =~= old(out)@ + signed_decimal(v as int));
    } else {
        push_decimal(out, v as u64);
    }
}

/// Appends a string slice to `out`.
pub fn push_str(out: &mut String, s: &str)
    ensures
        final(out)@ == old(out)@ + s@,
{
    out.append(s);
}

} // verus!
