//! Character-level helpers shared by the parser and the renderer.

use vstd::prelude::*;

verus! {

/// The ASCII digit character for `d` (0 to 9).
pub open spec fn digit_char(d: nat) -> char {
    ((d + 48) as u8) as char
}

/// The decimal digits of `n`, most significant first; `"0"` for zero.
pub open spec fn decimal_digits(n: nat) -> Seq<char>
    decreases n,
{
    if n < 10 {
        seq![digit_char(n)]
    } else {
        decimal_digits(n / 10).push(digit_char(n % 10))
    }
}

/// `n` copies of the character `'0'`.
pub open spec fn zeros(n: nat) -> Seq<char> {
    Seq::new(n, |i: int| '0')
}

pub open spec fn is_ascii_digit(c: char) -> bool {
    '0' <= c && c <= '9'
}

pub open spec fn is_ascii_letter(c: char) -> bool {
    ('a' <= c && c <= 'z') || ('A' <= c && c <= 'Z')
}

/// The number of bytes that `c` takes in UTF-8.
pub open spec fn utf8_width(c: char) -> nat {
    if (c as u32) < 0x80 {
        1
    } else if (c as u32) < 0x800 {
        2
    } else if (c as u32) < 0x10000 {
        3
    } else {
        4
    }
}

/// The number of bytes that the characters `s` take in UTF-8.
pub open spec fn utf8_len(s: Seq<char>) -> nat
    decreases s.len(),
{
    if s.len() == 0 {
        0
    } else {
        utf8_len(s.drop_last()) + utf8_width(s.last())
    }
}

pub fn char_is_digit(c: char) -> (r: bool)
    ensures
        r == is_ascii_digit(c),
{
    '0' <= c && c <= '9'
}

pub fn char_is_letter(c: char) -> (r: bool)
    ensures
        r == is_ascii_letter(c),
{
    ('a' <= c && c <= 'z') || ('A' <= c && c <= 'Z')
}

pub fn char_utf8_width(c: char) -> (r: usize)
    ensures
        r == utf8_width(c),
{
    let u = c as u32;
    if u < 0x80 {
        1
    } else if u < 0x800 {
        2
    } else if u < 0x10000 {
        3
    } else {
        4
    }
}

/// The value of the ASCII digit `c`.
pub fn digit_value(c: char) -> (r: u8)
    requires
        is_ascii_digit(c),
    ensures
        r < 10,
        digit_char(r as nat) == c,
{
    (c as u32 - 48) as u8
}

/// Relies on `str::chars`: yields the characters of `s` in order, and a
/// `str` is UTF-8 whose byte length is a `usize`.
#[verifier::external_body]
pub(crate) fn chars_of(s: &str) -> (r: Vec<char>)
    ensures
        r@ == s@,
        utf8_len(r@) <= usize::MAX,
{
    s.chars().collect()
}

/// Relies on `String`'s `FromIterator<char>`: the string holds the characters in order.
#[verifier::external_body]
pub(crate) fn string_from_chars(v: &Vec<char>) -> (r: String)
    ensures
        r@ == v@,
{
    v.iter().collect()
}

/// Appends the decimal digits of `n` to `out`.
pub fn push_decimal(out: &mut Vec<char>, n: u64)
    ensures
        final(out)@ == old(out)@ + decimal_digits(n as nat),
    decreases n,
{
    if n >= 10 {
        push_decimal(out, n / 10);
    }
    let d = (n % 10) as u8;
    out.push(((d + 48) as u8) as char);
    assert(decimal_digits(n as nat) == (if n < 10 { seq![digit_char(n as nat)] } else {
        decimal_digits((n / 10) as nat).push(digit_char((n % 10) as nat))
    }));
    assert(final(out)@ =~= old(out)@ + decimal_digits(n as nat));
}

/// The number that the ASCII digits `d` write.
pub open spec fn digits_value(d: Seq<char>) -> nat
    decreases d.len(),
{
    if d.len() == 0 {
        0
    } else {
        digits_value(d.drop_last()) * 10 + (d.last() as nat - 48) as nat
    }
}

pub proof fn lemma_digits_value_mono(d: Seq<char>, a: int, b: int)
    requires
        0 <= a <= b <= d.len(),
    ensures
        digits_value(d.take(a)) <= digits_value(d.take(b)),
    decreases b - a,
{
    if a < b {
        lemma_digits_value_mono(d, a, b - 1);
        assert(d.take(b).drop_last() =~= d.take(b - 1));
    }
}

/// The number written by the digits `s[start..end]`, if it is at most `limit`.
pub fn read_number(s: &Vec<char>, start: usize, end: usize, limit: u128) -> (r: Option<u128>)
    requires
        start <= end <= s@.len(),
        forall|k: int| start <= k < end ==> is_ascii_digit(s@[k]),
    ensures
        match r {
            Some(v) => v == digits_value(s@.subrange(start as int, end as int)) && v <= limit,
            None => digits_value(s@.subrange(start as int, end as int)) > limit,
        },
{
    let ghost d = s@.subrange(start as int, end as int);
    let mut acc: u128 = 0;
    let mut p = start;
    assert(d.take(0) =~= seq![]);
    while p < end
        invariant
            start <= p <= end <= s@.len(),
            d == s@.subrange(start as int, end as int),
            forall|k: int| start <= k < end ==> is_ascii_digit(s@[k]),
            acc == digits_value(d.take(p - start)),
            acc <= limit,
        decreases end - p,
    {
        let dv = digit_value(s[p]) as u128;
        assert(d.take(p - start + 1).drop_last() =~= d.take(p - start));
        assert(d.take(p - start + 1).last() == s@[p as int]);
        if dv > limit || acc > (limit - dv) / 10 {
            proof {
                lemma_digits_value_mono(d, p - start + 1, d.len() as int);
                assert(d.take(d.len() as int) =~= d);
                assert(acc * 10 + dv > limit) by (nonlinear_arith)
                    requires
                        dv > limit || acc > (limit - dv) / 10,
                        dv <= limit ==> (limit - dv) >= 0,
                ;
            }
            return None;
        }
        assert(acc * 10 + dv <= limit) by (nonlinear_arith)
            requires
                acc <= (limit - dv) / 10,
                dv <= limit,
        ;
        acc = acc * 10 + dv;
        p = p + 1;
    }
    assert(d.take(end - start) =~= d);
    Some(acc)
}

/// The characters `s[a..b]`.
pub fn copy_range(s: &Vec<char>, a: usize, b: usize) -> (r: Vec<char>)
    requires
        a <= b <= s@.len(),
    ensures
        r@ == s@.subrange(a as int, b as int),
{
    let mut r: Vec<char> = Vec::new();
    let mut i = a;
    while i < b
        invariant
            a <= i <= b <= s@.len(),
            r@ == s@.subrange(a as int, i as int),
        decreases b - i,
    {
        r.push(s[i]);
        i = i + 1;
        assert(r@ =~= s@.subrange(a as int, i as int));
    }
    r
}

} // verus!
