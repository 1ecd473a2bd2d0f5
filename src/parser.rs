//! The template parser: compiles template text into a `FormatString`,
//! exactly as `parse_spec` describes.

use vstd::prelude::*;

use crate::number::Unit;
use crate::template::{
    digits_end, glue, ident_end, lemma_digits_end, lemma_ident_end, lemma_placeholder_next,
    lemma_run_end, no_options, offset, options_at, parse_at, parse_spec, placeholder_at, run_end,
    Error, FormatOptions, FormatString, Op, ParseError, ParseFailure, ParseResult, Piece,
};
use crate::text::{
    char_is_digit, char_is_letter, char_utf8_width, chars_of, copy_range, read_number,
    string_from_chars, utf8_len, utf8_width,
};

verus! {

/// The allowed keys as the contracts see them.
pub open spec fn keys_view(allowed: Option<&[&str]>) -> Option<Seq<Seq<char>>> {
    match allowed {
        None => None,
        Some(keys) => Some(keys@.map_values(|k: &str| k@)),
    }
}

/// Whether `r` is what parsing should give, where `expected` is what
/// `parse_spec` gives and `allowed` the allowed keys.
pub open spec fn parse_outcome(
    r: Result<FormatString, Error>,
    expected: ParseResult,
    allowed: Seq<Seq<char>>,
) -> bool {
    match expected {
        Ok(pieces) => r is Ok && r->Ok_0@ == pieces,
        Err(f) => r is Err && failure_outcome(r->Err_0, f, allowed),
    }
}

/// Whether the error `e` reports the failure `f`.
pub open spec fn failure_outcome(e: Error, f: ParseFailure, allowed: Seq<Seq<char>>) -> bool {
    match f {
        ParseFailure::Syntax(p) => e is Parse && e->Parse_0 == p,
        ParseFailure::Key(k) => match e {
            Error::InvalidKey { key, allowed: listed } => key@ == k && listed@.map_values(
                |l: String| l@,
            ) == allowed,
            _ => false,
        },
    }
}

pub open spec fn listed_keys(allowed: Option<&[&str]>) -> Seq<Seq<char>> {
    match keys_view(allowed) {
        Some(k) => k,
        None => seq![],
    }
}

proof fn lemma_utf8_len_take(s: Seq<char>, k: int)
    requires
        0 <= k < s.len(),
    ensures
        utf8_len(s.take(k + 1)) == utf8_len(s.take(k)) + utf8_width(s[k]),
{
    assert(s.take(k + 1).drop_last() =~= s.take(k));
}

proof fn lemma_utf8_len_mono(s: Seq<char>, a: int, b: int)
    requires
        0 <= a <= b <= s.len(),
    ensures
        utf8_len(s.take(a)) <= utf8_len(s.take(b)),
    decreases b - a,
{
    if a < b {
        lemma_utf8_len_mono(s, a, b - 1);
        lemma_utf8_len_take(s, b - 1);
    }
}

/// The byte offset of character index `k`.
fn offset_exec(s: &Vec<char>, k: usize) -> (r: usize)
    requires
        k <= s@.len(),
        utf8_len(s@) <= usize::MAX,
    ensures
        r == offset(s@, k as int),
{
    let mut i: usize = 0;
    let mut acc: usize = 0;
    while i < k
        invariant
            i <= k <= s@.len(),
            acc == utf8_len(s@.take(i as int)),
            utf8_len(s@) <= usize::MAX,
        decreases k - i,
    {
        proof {
            lemma_utf8_len_take(s@, i as int);
            lemma_utf8_len_mono(s@, i as int + 1, s@.len() as int);
            assert(s@.take(s@.len() as int) =~= s@);
        }
        acc = acc + char_utf8_width(s[i]);
        i = i + 1;
    }
    acc
}

fn run_end_exec(s: &Vec<char>, i: usize) -> (r: usize)
    requires
        i <= s@.len(),
    ensures
        r == run_end(s@, i as int),
{
    let mut j = i;
    while j < s.len() && s[j] != '{' && s[j] != '}'
        invariant
            i <= j <= s@.len(),
            run_end(s@, j as int) == run_end(s@, i as int),
        decreases s@.len() - j,
    {
        j = j + 1;
    }
    j
}

fn ident_end_exec(s: &Vec<char>, i: usize) -> (r: usize)
    requires
        i <= s@.len(),
    ensures
        r == ident_end(s@, i as int),
{
    let mut j = i;
    while j < s.len() && (char_is_letter(s[j]) || char_is_digit(s[j]))
        invariant
            i <= j <= s@.len(),
            ident_end(s@, j as int) == ident_end(s@, i as int),
        decreases s@.len() - j,
    {
        j = j + 1;
    }
    j
}

fn digits_end_exec(s: &Vec<char>, i: usize) -> (r: usize)
    requires
        i <= s@.len(),
    ensures
        r == digits_end(s@, i as int),
{
    let mut j = i;
    while j < s.len() && char_is_digit(s[j])
        invariant
            i <= j <= s@.len(),
            digits_end(s@, j as int) == digits_end(s@, i as int),
        decreases s@.len() - j,
    {
        j = j + 1;
    }
    j
}

/// Parses the format spec from index `j` to its closing `}`.
fn parse_options(s: &Vec<char>, j: usize) -> (r: Result<(FormatOptions, usize), ParseError>)
    requires
        j <= s@.len(),
        utf8_len(s@) <= usize::MAX,
    ensures
        match r {
            Ok((o, n)) => options_at(s@, j as int, no_options()) == Ok::<
                (FormatOptions, int),
                ParseFailure,
            >((o, n as int)),
            Err(e) => options_at(s@, j as int, no_options()) == Err::<
                (FormatOptions, int),
                ParseFailure,
            >(ParseFailure::Syntax(e)),
        },
{
    let ghost expected = options_at(s@, j as int, no_options());
    let mut opts = FormatOptions { trunc: None, unit: None, significant_digits: None };
    let mut p = j;
    let total = offset_exec(s, s.len());
    assert(s@.take(s@.len() as int) =~= s@);
    loop
        invariant
            p <= s@.len(),
            utf8_len(s@) <= usize::MAX,
            total == utf8_len(s@),
            options_at(s@, p as int, opts) == expected,
            expected == options_at(s@, j as int, no_options()),
        decreases s@.len() - p,
    {
        if p >= s.len() {
            return Err(ParseError::UnexpectedEof(total));
        }
        let c = s[p];
        if c == '}' {
            return Ok((opts, p + 1));
        } else if (c == '-' && opts.trunc.is_none()) || (c == '.'
            && opts.significant_digits.is_none()) {
            if p + 1 >= s.len() {
                return Err(ParseError::UnexpectedEof(total));
            }
            if !char_is_digit(s[p + 1]) {
                let at = offset_exec(s, p + 1);
                if c == '-' {
                    return Err(ParseError::MissingTrunc(at));
                } else {
                    return Err(ParseError::MissingPrecision(at));
                }
            }
            let end = digits_end_exec(s, p + 1);
            proof {
                lemma_digits_end(s@, p + 1);
            }
            let limit: usize = if c == '-' {
                usize::MAX
            } else {
                255
            };
            match read_number(s, p + 1, end, limit as u128) {
                None => {
                    let at = offset_exec(s, p + 1);
                    if c == '-' {
                        return Err(ParseError::TruncOverflow(at));
                    } else {
                        return Err(ParseError::PrecisionOverflow(at));
                    }
                },
                Some(v) => {
                    if c == '-' {
                        opts = FormatOptions { trunc: Some(v as usize), ..opts };
                    } else {
                        opts = FormatOptions { significant_digits: Some(v as u8), ..opts };
                    }
                },
            }
            p = end;
        } else if (c == 'S' || c == 'B') && opts.unit.is_none() {
            let u = if c == 'S' {
                Unit::Si
            } else {
                Unit::Bin
            };
            opts = FormatOptions { unit: Some(u), ..opts };
            p = p + 1;
        } else {
            let at = offset_exec(s, p);
            return Err(ParseError::TruncNotDigit(at, c));
        }
    }
}

fn chars_eq(a: &Vec<char>, b: &Vec<char>) -> (r: bool)
    ensures
        r == (a@ == b@),
{
    if a.len() != b.len() {
        return false;
    }
    let mut i: usize = 0;
    while i < a.len()
        invariant
            i <= a@.len() == b@.len(),
            forall|k: int| 0 <= k < i ==> a@[k] == b@[k],
        decreases a@.len() - i,
    {
        if a[i] != b[i] {
            return false;
        }
        i = i + 1;
    }
    assert(a@ =~= b@);
    true
}

fn key_listed(keys: &Vec<Vec<char>>, key: &Vec<char>) -> (r: bool)
    ensures
        r == keys@.map_values(|v: Vec<char>| v@).contains(key@),
{
    let ghost kv = keys@.map_values(|v: Vec<char>| v@);
    let mut i: usize = 0;
    while i < keys.len()
        invariant
            i <= keys@.len(),
            kv == keys@.map_values(|v: Vec<char>| v@),
            forall|k: int| 0 <= k < i ==> kv[k] != key@,
        decreases keys@.len() - i,
    {
        if chars_eq(&keys[i], key) {
            assert(kv[i as int] == key@);
            return true;
        }
        i = i + 1;
    }
    false
}

/// The characters of every allowed key.
fn key_chars(allowed: &[&str]) -> (r: Vec<Vec<char>>)
    ensures
        r@.map_values(|v: Vec<char>| v@) == allowed@.map_values(|k: &str| k@),
{
    let mut r: Vec<Vec<char>> = Vec::new();
    let mut i: usize = 0;
    while i < allowed.len()
        invariant
            i <= allowed@.len(),
            r@.map_values(|v: Vec<char>| v@) == allowed@.take(i as int).map_values(|k: &str| k@),
            r@.len() == i,
        decreases allowed@.len() - i,
    {
        let item = chars_of(allowed[i]);
        let ghost prev = r@;
        r.push(item);
        proof {
            let mapped = r@.map_values(|v: Vec<char>| v@);
            let want = allowed@.take(i as int + 1).map_values(|k: &str| k@);
            assert(prev.map_values(|v: Vec<char>| v@) == allowed@.take(i as int).map_values(
                |k: &str| k@,
            ));
            assert forall|k: int| 0 <= k < i + 1 implies mapped[k] == want[k] by {
                if k < i {
                    let before = allowed@.take(i as int).map_values(|k: &str| k@);
                    assert(prev.map_values(|v: Vec<char>| v@)[k] == before[k]);
                }
            }
            assert(mapped =~= want);
        }
        i = i + 1;
    }
    assert(allowed@.take(i as int) =~= allowed@);
    r
}

/// The allowed keys as owned strings, for an error report.
fn key_strings(allowed: &[&str]) -> (r: Vec<String>)
    ensures
        r@.map_values(|l: String| l@) == allowed@.map_values(|k: &str| k@),
{
    let mut r: Vec<String> = Vec::new();
    let mut i: usize = 0;
    while i < allowed.len()
        invariant
            i <= allowed@.len(),
            r@.map_values(|l: String| l@) == allowed@.take(i as int).map_values(|k: &str| k@),
            r@.len() == i,
        decreases allowed@.len() - i,
    {
        let item = allowed[i].to_owned();
        let ghost prev = r@;
        r.push(item);
        proof {
            let mapped = r@.map_values(|l: String| l@);
            let want = allowed@.take(i as int + 1).map_values(|k: &str| k@);
            assert(prev.map_values(|l: String| l@) == allowed@.take(i as int).map_values(
                |k: &str| k@,
            ));
            assert forall|k: int| 0 <= k < i + 1 implies mapped[k] == want[k] by {
                if k < i {
                    assert(prev.map_values(|l: String| l@)[k] == allowed@.take(i as int).map_values(
                        |k: &str| k@,
                    )[k]);
                }
            }
            assert(mapped =~= want);
        }
        i = i + 1;
    }
    assert(allowed@.take(i as int) =~= allowed@);
    r
}

/// Parses the placeholder whose `{` stands just before index `k`.
fn parse_placeholder(
    s: &Vec<char>,
    k: usize,
    allowed: Option<&[&str]>,
    keys: &Vec<Vec<char>>,
) -> (r: Result<(Op, usize), Error>)
    requires
        k <= s@.len(),
        utf8_len(s@) <= usize::MAX,
        allowed is Some ==> keys@.map_values(|v: Vec<char>| v@) == listed_keys(allowed),
    ensures
        match r {
            Ok((op, n)) => placeholder_at(s@, k as int, keys_view(allowed)) == Ok::<
                (Piece, int),
                ParseFailure,
            >((op@, n as int)),
            Err(e) => placeholder_at(s@, k as int, keys_view(allowed)) is Err && failure_outcome(
                e,
                placeholder_at(s@, k as int, keys_view(allowed))->Err_0,
                listed_keys(allowed),
            ),
        },
{
    let total = offset_exec(s, s.len());
    assert(s@.take(s@.len() as int) =~= s@);
    if k >= s.len() {
        return Err(Error::Parse(ParseError::UnexpectedEof(total)));
    }
    let c = s[k];
    if c == '}' || c == ':' {
        return Err(Error::Parse(ParseError::EmptyIdent(offset_exec(s, k))));
    }
    if !char_is_letter(c) {
        return Err(Error::Parse(ParseError::InvalidIdent(offset_exec(s, k), c)));
    }
    let j = ident_end_exec(s, k);
    proof {
        lemma_ident_end(s@, k as int);
    }
    if j >= s.len() {
        return Err(Error::Parse(ParseError::UnexpectedEof(total)));
    }
    let d = s[j];
    if d != '}' && d != ':' {
        return Err(Error::Parse(ParseError::InvalidIdent(offset_exec(s, j), d)));
    }
    let key_v = copy_range(s, k, j);
    let key = string_from_chars(&key_v);
    match allowed {
        Some(list) => {
            if !key_listed(keys, &key_v) {
                return Err(Error::InvalidKey { key, allowed: key_strings(list) });
            }
        },
        None => {},
    }
    if d == '}' {
        let opts = FormatOptions { trunc: None, unit: None, significant_digits: None };
        Ok((Op::FromMap { key, fmt_opt: opts }, j + 1))
    } else {
        match parse_options(s, j + 1) {
            Ok((opts, n)) => Ok((Op::FromMap { key, fmt_opt: opts }, n)),
            Err(e) => Err(Error::Parse(e)),
        }
    }
}

proof fn lemma_glue_push(acc: Seq<Piece>, p: Piece, r: ParseResult)
    ensures
        glue(acc, glue(seq![p], r)) == glue(acc.push(p), r),
{
    match r {
        Ok(v) => {
            assert(acc + (seq![p] + v) =~= acc.push(p) + v);
        },
        Err(e) => {},
    }
}

/// Parses the element that starts at index `pos`.
fn parse_step(
    s: &Vec<char>,
    pos: usize,
    allowed: Option<&[&str]>,
    keys: &Vec<Vec<char>>,
) -> (r: Result<(Op, usize), Error>)
    requires
        pos < s@.len(),
        utf8_len(s@) <= usize::MAX,
        allowed is Some ==> keys@.map_values(|v: Vec<char>| v@) == listed_keys(allowed),
    ensures
        match r {
            Ok((op, next)) => pos < next <= s@.len() && parse_at(s@, pos as int, keys_view(allowed))
                == glue(seq![op@], parse_at(s@, next as int, keys_view(allowed))),
            Err(e) => parse_at(s@, pos as int, keys_view(allowed)) is Err && failure_outcome(
                e,
                parse_at(s@, pos as int, keys_view(allowed))->Err_0,
                listed_keys(allowed),
            ),
        },
{
    let ghost kv = keys_view(allowed);
    let c = s[pos];
    let next_open = pos < s.len() - 1 && s[pos + 1] == '{';
    let next_close = pos < s.len() - 1 && s[pos + 1] == '}';
    if c == '{' && next_open {
        let t = string_from_chars(&vec!['{']);
        assert(t@ == seq!['{']);
        Ok((Op::Str(t), pos + 2))
    } else if c == '}' {
        let t = string_from_chars(&vec!['}']);
        assert(t@ == seq!['}']);
        if next_close {
            Ok((Op::Str(t), pos + 2))
        } else {
            Ok((Op::Str(t), pos + 1))
        }
    } else if c == '{' {
        proof {
            lemma_placeholder_next(s@, pos + 1, kv);
        }
        parse_placeholder(s, pos + 1, allowed, keys)
    } else {
        let end = run_end_exec(s, pos);
        proof {
            lemma_run_end(s@, pos as int);
        }
        Ok((Op::Str(string_from_chars(&copy_range(s, pos, end))), end))
    }
}

/// Parses the characters of a template.
fn parse_chars(s: &Vec<char>, allowed: Option<&[&str]>) -> (r: Result<FormatString, Error>)
    requires
        utf8_len(s@) <= usize::MAX,
    ensures
        parse_outcome(r, parse_spec(s@, keys_view(allowed)), listed_keys(allowed)),
{
    let ghost kv = keys_view(allowed);
    let keys: Vec<Vec<char>> = match allowed {
        Some(list) => key_chars(list),
        None => Vec::new(),
    };
    let mut acc: Vec<Op> = Vec::new();
    let mut pos: usize = 0;
    assert(acc@.map_values(|o: Op| o@) =~= seq![]);
    while pos < s.len()
        invariant
            pos <= s@.len(),
            utf8_len(s@) <= usize::MAX,
            kv == keys_view(allowed),
            allowed is Some ==> keys@.map_values(|v: Vec<char>| v@) == listed_keys(allowed),
            glue(acc@.map_values(|o: Op| o@), parse_at(s@, pos as int, kv)) == parse_spec(s@, kv),
        decreases s@.len() - pos,
    {
        let ghost before = acc@.map_values(|o: Op| o@);
        let (op, next) = match parse_step(s, pos, allowed, &keys) {
            Ok(stepped) => stepped,
            Err(e) => {
                return Err(e);
            },
        };
        proof {
            lemma_glue_push(before, op@, parse_at(s@, next as int, kv));
            assert(acc@.push(op).map_values(|o: Op| o@) =~= before.push(op@));
        }
        acc.push(op);
        pos = next;
    }
    Ok(FormatString(acc))
}

impl FormatString {
    /// Compiles `s`, accepting every key.
    pub fn parse(s: &str) -> (r: Result<Self, Error>)
        ensures
            parse_outcome(r, parse_spec(s@, None), seq![]),
    {
        let chars = chars_of(s);
        parse_chars(&chars, None)
    }

    /// Compiles `s`, refusing a placeholder whose key is not in `allowed`.
    pub fn parse_with_allowed_keys(s: &str, allowed: &[&str]) -> (r: Result<Self, Error>)
        ensures
            parse_outcome(
                r,
                parse_spec(s@, Some(allowed@.map_values(|k: &str| k@))),
                allowed@.map_values(|k: &str| k@),
            ),
    {
        let chars = chars_of(s);
        parse_chars(&chars, Some(allowed))
    }
}

} // verus!
