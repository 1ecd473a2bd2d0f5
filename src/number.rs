//! Exact decimal numbers, fixed-digit rendering and magnitude-unit scaling.

use vstd::prelude::*;

use crate::text::{
    char_is_digit, chars_of, copy_range, decimal_digits, digits_value, is_ascii_digit, push_decimal,
    read_number, zeros,
};

use vstd::arithmetic::mul::lemma_mul_inequality;

verus! {

/// A finite real number, held exactly as `(-1)^negative * mantissa * 10^exponent`.
///
/// Every finite `f64` has a shortest decimal form of this shape (at most
/// seventeen significant digits, exponent within `i16`).
#[derive(Clone, Copy, Debug)]
pub struct Decimal {
    pub negative: bool,
    pub mantissa: u64,
    pub exponent: i16,
}

/// Magnitude scaling: decimal (SI, base 1000) or binary (base 1024).
#[derive(Clone, Copy, Debug, PartialEq, Eq, Structural)]
pub enum Unit {
    Si,
    Bin,
}

/// Scaled mantissas are kept below this bound (nineteen significant digits).
pub const MANTISSA_LIMIT: u64 = 10_000_000_000_000_000_000;

/// The last index of the unit suffix tables.
pub const MAX_STEP: usize = 5;

pub open spec fn pow10(n: nat) -> nat
    decreases n,
{
    if n == 0 {
        1
    } else {
        10 * pow10((n - 1) as nat)
    }
}

pub open spec fn unit_base(u: Unit) -> nat {
    match u {
        Unit::Si => 1000,
        Unit::Bin => 1024,
    }
}

/// Whether `m * 10^e >= b`.
pub open spec fn at_least(m: nat, e: int, b: nat) -> bool {
    if e >= 0 {
        m * pow10(e as nat) >= b
    } else {
        m >= b * pow10((-e) as nat)
    }
}

/// Drops trailing digits of `m` (raising `e` for each) until `m` is below
/// `MANTISSA_LIMIT`.
pub open spec fn trim_mantissa(m: nat, e: int) -> (nat, int)
    decreases m,
{
    if m < MANTISSA_LIMIT {
        (m, e)
    } else {
        trim_mantissa(m / 10, e + 1)
    }
}

/// One division by the unit's base. Division by 1000 is exact; division by
/// 1024 multiplies by `5^10` and lowers the exponent by ten, which is exact
/// too, and then keeps nineteen significant digits.
pub open spec fn divide_step(u: Unit, m: nat, e: int) -> (nat, int) {
    match u {
        Unit::Si => (m, e - 3),
        Unit::Bin => trim_mantissa(m * 9765625, e - 10),
    }
}

/// Divides by the unit's base while the value is at least the base, starting
/// at suffix index `step` and stopping at the last suffix. Returns the scaled
/// mantissa, exponent and suffix index.
pub open spec fn scale_from(u: Unit, negative: bool, m: nat, e: int, step: nat) -> (nat, int, nat)
    decreases 5 - step,
{
    if step < 5 && !negative && at_least(m, e, unit_base(u)) {
        let (m2, e2) = divide_step(u, m, e);
        scale_from(u, negative, m2, e2, step + 1)
    } else {
        (m, e, step)
    }
}

/// The digits of the integer part of `m * 10^e`; `"0"` when it is zero.
pub open spec fn int_part(m: nat, e: int) -> Seq<char> {
    let s = decimal_digits(m);
    if m == 0 {
        seq!['0']
    } else if e >= 0 {
        s + zeros(e as nat)
    } else if s.len() > -e {
        s.take(s.len() + e)
    } else {
        seq!['0']
    }
}

/// The digits after the decimal point of `m * 10^e`, as written out in full
/// (trailing zeros of the mantissa included).
pub open spec fn frac_part(m: nat, e: int) -> Seq<char> {
    let s = decimal_digits(m);
    if e >= 0 {
        seq![]
    } else if s.len() > -e {
        s.skip(s.len() + e)
    } else {
        zeros((-e - s.len()) as nat) + s
    }
}

/// The first `d` characters of `f`, padded with `'0'` where `f` is shorter.
pub open spec fn fit(f: Seq<char>, d: nat) -> Seq<char> {
    if f.len() >= d {
        f.take(d as int)
    } else {
        f + zeros((d - f.len()) as nat)
    }
}

/// `(-1)^negative * m * 10^e` written with exactly `d` digits after the
/// point (none and no point when `d` is zero). Excess digits are cut off,
/// not rounded. Zero carries no sign.
pub open spec fn fixed_text(negative: bool, m: nat, e: int, d: nat) -> Seq<char> {
    (if negative && m != 0 {
        seq!['-']
    } else {
        seq![]
    }) + int_part(m, e) + (if d > 0 {
        seq!['.'] + fit(frac_part(m, e), d)
    } else {
        seq![]
    })
}

/// The text of a decimal number with `d` digits after the point.
pub open spec fn format_fixed_spec(n: Decimal, d: nat) -> Seq<char> {
    fixed_text(n.negative, n.mantissa as nat, n.exponent as int, d)
}

proof fn lemma_fit_index(f: Seq<char>, d: nat, j: int)
    requires
        0 <= j < d,
    ensures
        fit(f, d).len() == d,
        fit(f, d)[j] == if j < f.len() {
            f[j]
        } else {
            '0'
        },
{
}

/// Appends `src` to `out`.
fn push_all(out: &mut Vec<char>, src: &Vec<char>, n: usize)
    requires
        n <= src@.len(),
    ensures
        final(out)@ == old(out)@ + src@.take(n as int),
{
    let mut i: usize = 0;
    while i < n
        invariant
            i <= n <= src@.len(),
            out@ == old(out)@ + src@.take(i as int),
        decreases n - i,
    {
        out.push(src[i]);
        i = i + 1;
        assert(out@ =~= old(out)@ + src@.take(i as int));
    }
}

/// Appends `n` copies of `'0'` to `out`.
fn push_zeros(out: &mut Vec<char>, n: u64)
    ensures
        final(out)@ == old(out)@ + zeros(n as nat),
{
    let mut i: u64 = 0;
    while i < n
        invariant
            i <= n,
            out@ == old(out)@ + zeros(i as nat),
        decreases n - i,
    {
        out.push('0');
        i = i + 1;
        assert(out@ =~= old(out)@ + zeros(i as nat));
    }
    assert(out@ =~= old(out)@ + zeros(n as nat));
}

/// Appends `fixed_text(negative, m, e, d)` to `out`.
pub(crate) fn push_fixed(out: &mut Vec<char>, negative: bool, m: u64, e: i64, d: u8)
    requires
        -1_000_000 <= e <= 1_000_000,
    ensures
        final(out)@ == old(out)@ + fixed_text(negative, m as nat, e as int, d as nat),
{
    let ghost pre = out@;
    let mut digits: Vec<char> = Vec::new();
    push_decimal(&mut digits, m);
    assert(digits@ =~= decimal_digits(m as nat));
    let len = digits.len();
    let ghost sign: Seq<char> = if negative && m != 0 {
        seq!['-']
    } else {
        seq![]
    };
    if negative && m != 0 {
        out.push('-');
    }
    assert(out@ =~= pre + sign);
    if m == 0 {
        out.push('0');
    } else if e >= 0 {
        push_all(out, &digits, len);
        push_zeros(out, e as u64);
        assert(digits@.take(len as int) =~= digits@);
    } else {
        let k: u64 = (-e) as u64;
        if (len as u64) > k {
            push_all(out, &digits, len - k as usize);
        } else {
            out.push('0');
        }
    }
    let ghost ip = int_part(m as nat, e as int);
    assert(out@ =~= pre + sign + ip);
    let ghost f = frac_part(m as nat, e as int);
    if d > 0 {
        out.push('.');
        let ghost mid = out@;
        let mut j: u8 = 0;
        while j < d
            invariant
                0 <= j <= d,
                out@ == mid + fit(f, d as nat).take(j as int),
                f == frac_part(m as nat, e as int),
                digits@ == decimal_digits(m as nat),
                len == digits@.len(),
                -1_000_000 <= e <= 1_000_000,
            decreases d - j,
        {
            proof {
                lemma_fit_index(f, d as nat, j as int);
            }
            let c = if e >= 0 {
                '0'
            } else {
                let k: u64 = (-e) as u64;
                let ju = j as u64;
                if (len as u64) > k {
                    if ju < k {
                        digits[(len as u64 - k + ju) as usize]
                    } else {
                        '0'
                    }
                } else {
                    let pad = k - len as u64;
                    if ju < pad {
                        '0'
                    } else if ju < k {
                        digits[(ju - pad) as usize]
                    } else {
                        '0'
                    }
                }
            };
            assert(c == fit(f, d as nat)[j as int]);
            out.push(c);
            j = j + 1;
            assert(out@ =~= mid + fit(f, d as nat).take(j as int));
        }
        assert(fit(f, d as nat).take(d as int) =~= fit(f, d as nat));
    }
    assert(out@ =~= pre + fixed_text(negative, m as nat, e as int, d as nat));
}

/// The letter of magnitude index `i` (1 to 5).
pub open spec fn magnitude_letter(i: nat) -> char {
    if i == 1 {
        'k'
    } else if i == 2 {
        'M'
    } else if i == 3 {
        'G'
    } else if i == 4 {
        'T'
    } else {
        'P'
    }
}

/// The suffix of magnitude index `i`: `"", "k", "M", "G", "T", "P"` for SI
/// and `"", "ki", "Mi", "Gi", "Ti", "Pi"` for binary.
pub open spec fn suffix(u: Unit, i: nat) -> Seq<char> {
    if i == 0 {
        seq![]
    } else if u == Unit::Bin {
        seq![magnitude_letter(i), 'i']
    } else {
        seq![magnitude_letter(i)]
    }
}

/// A number rendered with `d` digits after the point, first scaled to the
/// unit with its suffix appended when a unit is given.
pub open spec fn number_text(n: Decimal, unit: Option<Unit>, d: nat) -> Seq<char> {
    match unit {
        None => format_fixed_spec(n, d),
        Some(u) => {
            let (m, e, i) = scale_from(u, n.negative, n.mantissa as nat, n.exponent as int, 0);
            fixed_text(n.negative, m, e, d) + suffix(u, i)
        },
    }
}

proof fn lemma_pow10_pos(n: nat)
    ensures
        pow10(n) >= 1,
    decreases n,
{
    if n > 0 {
        lemma_pow10_pos((n - 1) as nat);
    }
}

proof fn lemma_pow10_mono(a: nat, b: nat)
    requires
        a <= b,
    ensures
        pow10(a) <= pow10(b),
    decreases b,
{
    if a < b {
        lemma_pow10_mono(a, (b - 1) as nat);
        lemma_pow10_pos((b - 1) as nat);
    }
}

proof fn lemma_pow10_values()
    ensures
        pow10(8) == 100_000_000,
        pow10(19) == 10_000_000_000_000_000_000,
        pow10(20) == 100_000_000_000_000_000_000,
{
    reveal_with_fuel(pow10, 21);
}

/// `10^k` for `k <= 19`.
fn pow10_exec(k: u32) -> (r: u128)
    requires
        k <= 19,
    ensures
        r == pow10(k as nat),
        r <= 10_000_000_000_000_000_000,
{
    let mut r: u128 = 1;
    let mut i: u32 = 0;
    while i < k
        invariant
            i <= k <= 19,
            r == pow10(i as nat),
        decreases k - i,
    {
        proof {
            lemma_pow10_mono(i as nat, 19);
            lemma_pow10_values();
        }
        r = r * 10;
        i = i + 1;
    }
    proof {
        lemma_pow10_mono(k as nat, 19);
        lemma_pow10_values();
    }
    r
}

/// Whether `m * 10^e >= b`.
fn at_least_exec(m: u64, e: i64, b: u64) -> (r: bool)
    requires
        1 <= b <= 1024,
    ensures
        r == at_least(m as nat, e as int, b as nat),
        e <= -20 ==> !r,
{
    proof {
        lemma_pow10_values();
    }
    if m == 0 {
        proof {
            let p = pow10(if e >= 0 { e as nat } else { (-e) as nat });
            lemma_pow10_pos(if e >= 0 { e as nat } else { (-e) as nat });
            assert(m as nat * p == 0);
            assert(b as nat * p >= 1) by (nonlinear_arith)
                requires
                    b >= 1,
                    p >= 1,
            ;
        }
        false
    } else if e >= 19 {
        proof {
            lemma_pow10_mono(19, e as nat);
            lemma_mul_inequality(1, m as int, pow10(e as nat) as int);
        }
        true
    } else if e >= 0 {
        let p = pow10_exec(e as u32);
        assert((m as u128) * p <= 0xffff_ffff_ffff_ffffu128 * 10_000_000_000_000_000_000u128)
            by (nonlinear_arith)
            requires
                m <= 0xffff_ffff_ffff_ffffu64,
                p <= 10_000_000_000_000_000_000u128,
        ;
        (m as u128) * p >= b as u128
    } else if e <= -20 {
        proof {
            lemma_pow10_mono(20, (-e) as nat);
            lemma_mul_inequality(1, b as int, pow10((-e) as nat) as int);
        }
        false
    } else {
        let p = pow10_exec((-e) as u32);
        assert((b as u128) * p <= 1024 * 10_000_000_000_000_000_000u128) by (nonlinear_arith)
            requires
                b <= 1024,
                p <= 10_000_000_000_000_000_000u128,
        ;
        (m as u128) >= (b as u128) * p
    }
}

/// One division by 1024, as `divide_step` states it.
fn divide_bin(m: u64, e: i64) -> (r: (u64, i64))
    requires
        -1_000_000 <= e <= 1_000_000,
    ensures
        (r.0 as nat, r.1 as int) == trim_mantissa(m as nat * 9765625, e - 10),
        e - 10 <= r.1 <= e - 2,
{
    let ghost total: nat = m as nat * 9765625;
    let mut m2: u128 = (m as u128) * 9765625;
    let mut e2: i64 = e - 10;
    let mut dropped: u32 = 0;
    proof {
        lemma_pow10_values();
        assert(pow10(0) == 1);
    }
    while m2 >= MANTISSA_LIMIT as u128
        invariant
            trim_mantissa(m2 as nat, e2 as int) == trim_mantissa(total, e - 10),
            e2 == e - 10 + dropped,
            m2 * pow10(dropped as nat) <= total,
            total == m as nat * 9765625,
            m <= 0xffff_ffff_ffff_ffffu64,
            dropped <= 8,
            pow10(8) == 100_000_000,
            pow10(19) == 10_000_000_000_000_000_000,
            -1_000_000 <= e <= 1_000_000,
        decreases m2,
    {
        if dropped >= 8 {
            proof {
                lemma_pow10_mono(8, dropped as nat);
                let p = pow10(dropped as nat) as int;
                lemma_mul_inequality(MANTISSA_LIMIT as int, m2 as int, p);
                assert(MANTISSA_LIMIT as int * pow10(dropped as nat) >= MANTISSA_LIMIT as int
                    * 100_000_000) by (nonlinear_arith)
                    requires
                        pow10(dropped as nat) >= 100_000_000,
                ;
                assert(total < MANTISSA_LIMIT as int * 100_000_000) by (nonlinear_arith)
                    requires
                        total == m as nat * 9765625,
                        m <= 0xffff_ffff_ffff_ffffu64,
                ;
            }
            assert(false);
        }
        let ghost old_m2 = m2;
        m2 = m2 / 10;
        e2 = e2 + 1;
        dropped = dropped + 1;
        proof {
            let p = pow10((dropped - 1) as nat);
            assert(pow10(dropped as nat) == 10 * p);
            assert(m2 * (10 * p) <= old_m2 * p) by (nonlinear_arith)
                requires
                    m2 == old_m2 / 10,
                    p >= 0,
            ;
        }
    }
    (m2 as u64, e2)
}

/// Divides by the unit's base while the value is at least the base, at most
/// `MAX_STEP` times; returns the scaled mantissa, exponent and suffix index.
pub(crate) fn scale(u: Unit, negative: bool, m: u64, e: i64) -> (r: (u64, i64, usize))
    requires
        -100_000 <= e <= 100_000,
    ensures
        (r.0 as nat, r.1 as int, r.2 as nat) == scale_from(u, negative, m as nat, e as int, 0),
        e - 50 <= r.1 <= e,
        r.2 <= MAX_STEP,
        r.2 == 0 ==> r.1 == e,
        r.2 > 0 ==> r.1 >= -70,
{
    let base: u64 = match u {
        Unit::Si => 1000,
        Unit::Bin => 1024,
    };
    let mut m2 = m;
    let mut e2 = e;
    let mut step: usize = 0;
    while step < MAX_STEP && !negative && at_least_exec(m2, e2, base)
        invariant
            step <= MAX_STEP,
            base == unit_base(u),
            scale_from(u, negative, m2 as nat, e2 as int, step as nat) == scale_from(
                u,
                negative,
                m as nat,
                e as int,
                0,
            ),
            e - 10 * step <= e2 <= e,
            -100_000 <= e <= 100_000,
            step == 0 ==> e2 == e,
            step > 0 ==> e >= -19,
        decreases MAX_STEP - step,
    {
        match u {
            Unit::Si => {
                e2 = e2 - 3;
            },
            Unit::Bin => {
                let (m3, e3) = divide_bin(m2, e2);
                m2 = m3;
                e2 = e3;
            },
        }
        step = step + 1;
    }
    (m2, e2, step)
}

fn push_suffix(out: &mut Vec<char>, u: Unit, i: usize)
    requires
        i <= MAX_STEP,
    ensures
        final(out)@ == old(out)@ + suffix(u, i as nat),
{
    if i > 0 {
        let c = if i == 1 {
            'k'
        } else if i == 2 {
            'M'
        } else if i == 3 {
            'G'
        } else if i == 4 {
            'T'
        } else {
            'P'
        };
        out.push(c);
        if u == Unit::Bin {
            out.push('i');
        }
    }
    assert(final(out)@ =~= old(out)@ + suffix(u, i as nat));
}

/// Appends `number_text(*n, unit, d)` to `out`.
pub(crate) fn push_number(out: &mut Vec<char>, n: &Decimal, unit: Option<Unit>, d: u8)
    ensures
        final(out)@ == old(out)@ + number_text(*n, unit, d as nat),
{
    match unit {
        None => push_fixed(out, n.negative, n.mantissa, n.exponent as i64, d),
        Some(u) => {
            let ghost pre = out@;
            let (m, e, i) = scale(u, n.negative, n.mantissa, n.exponent as i64);
            push_fixed(out, n.negative, m, e, d);
            push_suffix(out, u, i);
            assert(out@ =~= pre + number_text(*n, unit, d as nat));
        },
    }
}

/// `n` written with exactly `digits` digits after the decimal point (and no
/// point when `digits` is zero); further digits are cut off, not rounded.
pub fn format_fixed(n: &Decimal, digits: u8) -> (r: String)
    ensures
        r@ == format_fixed_spec(*n, digits as nat),
{
    let mut out: Vec<char> = Vec::new();
    push_fixed(&mut out, n.negative, n.mantissa, n.exponent as i64, digits);
    assert(out@ =~= format_fixed_spec(*n, digits as nat));
    crate::text::string_from_chars(&out)
}

/// Scales `n` by its unit: the scaled number and the suffix index.
pub fn scale_decimal(n: &Decimal, u: Unit) -> (r: (Decimal, usize))
    ensures
        ({
            let (m, e, i) = scale_from(u, n.negative, n.mantissa as nat, n.exponent as int, 0);
            &&& r.0.negative == n.negative
            &&& r.0.mantissa as nat == m
            &&& r.0.exponent as int == e
            &&& r.1 as nat == i
        }),
{
    let (m, e, i) = scale(u, n.negative, n.mantissa, n.exponent as i64);
    (Decimal { negative: n.negative, mantissa: m, exponent: e as i16 }, i)
}

/// The first index at or after `i` that holds `c`, or the length.
pub open spec fn find_char(s: Seq<char>, c: char, i: int) -> int
    decreases s.len() - i,
{
    if i < 0 || i >= s.len() || s[i] == c {
        i
    } else {
        find_char(s, c, i + 1)
    }
}

pub open spec fn all_digits(t: Seq<char>) -> bool {
    forall|i: int| 0 <= i < t.len() ==> is_ascii_digit(t[i])
}

/// The parts of `[-]digits[.digits][e[-]digits]`: the sign, the digits
/// before and after the point, whether there is a point and an exponent,
/// the exponent's sign and its digits.
pub struct TextParts {
    pub negative: bool,
    pub int_digits: Seq<char>,
    pub frac_digits: Seq<char>,
    pub has_point: bool,
    pub has_exponent: bool,
    pub exp_negative: bool,
    pub exp_digits: Seq<char>,
}

pub open spec fn text_parts(s: Seq<char>) -> TextParts {
    let neg = s.len() > 0 && s[0] == '-';
    let body = if neg {
        s.skip(1)
    } else {
        s
    };
    let ep = find_char(body, 'e', 0);
    let mant = body.take(ep);
    let dp = find_char(mant, '.', 0);
    let et = if ep < body.len() {
        body.skip(ep + 1)
    } else {
        seq![]
    };
    let eneg = et.len() > 0 && et[0] == '-';
    TextParts {
        negative: neg,
        int_digits: mant.take(dp),
        frac_digits: if dp < mant.len() {
            mant.skip(dp + 1)
        } else {
            seq![]
        },
        has_point: dp < mant.len(),
        has_exponent: ep < body.len(),
        exp_negative: eneg,
        exp_digits: if eneg {
            et.skip(1)
        } else {
            et
        },
    }
}

/// The number that `s` writes as `[-]digits[.digits][e[-]digits]` (the form
/// that shortest round-trip float printers produce), if it is one and its
/// digits fit a `Decimal`; exponents above 999999 are refused.
pub open spec fn decimal_from_text(s: Seq<char>) -> Option<Decimal> {
    let p = text_parts(s);
    let m = digits_value(p.int_digits + p.frac_digits);
    let x = (if p.exp_negative {
        -(digits_value(p.exp_digits) as int)
    } else {
        digits_value(p.exp_digits) as int
    }) - p.frac_digits.len();
    if p.int_digits.len() == 0 || !all_digits(p.int_digits) || !all_digits(p.frac_digits) || (
    p.has_point && p.frac_digits.len() == 0) || (p.has_exponent && (p.exp_digits.len() == 0
        || !all_digits(p.exp_digits))) || digits_value(p.exp_digits) > 999_999 || m > u64::MAX
        || x < i16::MIN || x > i16::MAX {
        None
    } else {
        Some(Decimal { negative: p.negative, mantissa: m as u64, exponent: x as i16 })
    }
}

fn find_exec(s: &Vec<char>, c: char) -> (r: usize)
    ensures
        r == find_char(s@, c, 0),
{
    let mut j: usize = 0;
    while j < s.len() && s[j] != c
        invariant
            j <= s@.len(),
            find_char(s@, c, j as int) == find_char(s@, c, 0),
        decreases s@.len() - j,
    {
        j = j + 1;
    }
    j
}

fn all_digits_exec(t: &Vec<char>) -> (r: bool)
    ensures
        r == all_digits(t@),
{
    let mut j: usize = 0;
    while j < t.len()
        invariant
            j <= t@.len(),
            forall|i: int| 0 <= i < j ==> is_ascii_digit(t@[i]),
        decreases t@.len() - j,
    {
        if !char_is_digit(t[j]) {
            return false;
        }
        j = j + 1;
    }
    true
}

impl Decimal {
    /// Reads a number written as `[-]digits[.digits][e[-]digits]`, exactly.
    pub fn parse(text: &str) -> (r: Option<Decimal>)
        ensures
            r == decimal_from_text(text@),
    {
        let s = chars_of(text);
        let (neg, ip, fp, has_point, has_exp, eneg, ed) = split_text(&s);
        if ip.len() == 0 || !all_digits_exec(&ip) || !all_digits_exec(&fp) || (has_point
            && fp.len() == 0) || (has_exp && (ed.len() == 0 || !all_digits_exec(&ed))) {
            return None;
        }
        let ev = match read_number(&ed, 0, ed.len(), 999_999) {
            Some(v) => v,
            None => {
                assert(ed@.subrange(0, ed@.len() as int) =~= ed@);
                return None;
            },
        };
        assert(ed@.subrange(0, ed@.len() as int) =~= ed@);
        let mut digits: Vec<char> = Vec::new();
        push_all(&mut digits, &ip, ip.len());
        push_all(&mut digits, &fp, fp.len());
        assert(ip@.take(ip@.len() as int) =~= ip@);
        assert(fp@.take(fp@.len() as int) =~= fp@);
        assert(digits@ =~= ip@ + fp@);
        let m = match read_number(&digits, 0, digits.len(), 0xffff_ffff_ffff_ffff) {
            Some(v) => v,
            None => {
                assert(digits@.subrange(0, digits@.len() as int) =~= digits@);
                return None;
            },
        };
        assert(digits@.subrange(0, digits@.len() as int) =~= digits@);
        let x: i128 = (if eneg {
            -(ev as i128)
        } else {
            ev as i128
        }) - fp.len() as i128;
        if x < -32768 || x > 32767 {
            return None;
        }
        Some(Decimal { negative: neg, mantissa: m as u64, exponent: x as i16 })
    }
}

/// Splits `s` into the parts that `text_parts` names.
fn split_text(s: &Vec<char>) -> (r: (bool, Vec<char>, Vec<char>, bool, bool, bool, Vec<char>))
    ensures
        r.0 == text_parts(s@).negative,
        r.1@ == text_parts(s@).int_digits,
        r.2@ == text_parts(s@).frac_digits,
        r.3 == text_parts(s@).has_point,
        r.4 == text_parts(s@).has_exponent,
        r.5 == text_parts(s@).exp_negative,
        r.6@ == text_parts(s@).exp_digits,
{
    let neg = s.len() > 0 && s[0] == '-';
    let body = if neg {
        copy_range(s, 1, s.len())
    } else {
        copy_range(s, 0, s.len())
    };
    assert(s@.subrange(0, s@.len() as int) =~= s@);
    assert(s@.len() > 0 ==> s@.subrange(1, s@.len() as int) =~= s@.skip(1));
    let ep = find_exec(&body, 'e');
    proof {
        lemma_find_char_bound(body@, 'e', 0);
    }
    let mant = copy_range(&body, 0, ep);
    let dp = find_exec(&mant, '.');
    proof {
        lemma_find_char_bound(mant@, '.', 0);
    }
    let ip = copy_range(&mant, 0, dp);
    let has_point = dp < mant.len();
    let fp = if has_point {
        copy_range(&mant, dp + 1, mant.len())
    } else {
        Vec::new()
    };
    let has_exp = ep < body.len();
    let et = if has_exp {
        copy_range(&body, ep + 1, body.len())
    } else {
        Vec::new()
    };
    let eneg = et.len() > 0 && et[0] == '-';
    let ed = if eneg {
        copy_range(&et, 1, et.len())
    } else {
        copy_range(&et, 0, et.len())
    };
    assert(et@.subrange(0, et@.len() as int) =~= et@);
    assert(fp@ =~= text_parts(s@).frac_digits);
    assert(ed@ =~= text_parts(s@).exp_digits);
    (neg, ip, fp, has_point, has_exp, eneg, ed)
}

proof fn lemma_find_char_bound(s: Seq<char>, c: char, i: int)
    requires
        0 <= i <= s.len(),
    ensures
        i <= find_char(s, c, i) <= s.len(),
    decreases s.len() - i,
{
    if i < s.len() && s[i] != c {
        lemma_find_char_bound(s, c, i + 1);
    }
}

} // verus!
