//! Templates: the placeholder grammar, its compiled form, and the parser.
//!
//! A template is literal text with placeholders. `{{` and `}}` stand for a
//! literal `{` and `}`; a `}` on its own is literal too. A placeholder is `{`,
//! an identifier (an ASCII letter, then ASCII letters and digits), an optional
//! `:` with a format spec, and `}`. The format spec holds, in any order and
//! each at most once: `-N` (truncate text to `N` characters), `S` or `B` (SI
//! or binary unit scaling) and `.N` (`N` digits after the decimal point).

use vstd::prelude::*;

use crate::number::Unit;
use crate::text::{
    char_utf8_width, chars_of, digits_value, is_ascii_digit, is_ascii_letter, string_from_chars,
    utf8_len, utf8_width,
};

verus! {

/// One element of a compiled template: literal text, or a placeholder with
/// the key it reads and its modifiers.
#[derive(Clone, Debug)]
pub enum Op {
    Str(String),
    FromMap { key: String, fmt_opt: FormatOptions },
}

/// A compiled template: the elements in source order.
#[derive(Clone, Debug)]
pub struct FormatString(pub Vec<Op>);

/// Every error of parsing and rendering.
#[derive(Clone, Debug)]
pub enum Error {
    /// The context holds no value for a key that the template reads.
    KeyNotInMap(String),
    /// The template is not well formed.
    Parse(ParseError),
    /// A placeholder names a key outside the allowed ones.
    InvalidKey { key: String, allowed: Vec<String> },
}

impl View for Op {
    type V = Piece;

    open spec fn view(&self) -> Piece {
        match self {
            Op::Str(s) => Piece::Text(s@),
            Op::FromMap { key, fmt_opt } => Piece::Slot(key@, *fmt_opt),
        }
    }
}

impl View for FormatString {
    type V = Seq<Piece>;

    open spec fn view(&self) -> Seq<Piece> {
        self.0@.map_values(|o: Op| o@)
    }
}

/// The formatting modifiers of one placeholder.
#[derive(Clone, Copy, Debug, PartialEq, Eq, Structural)]
pub struct FormatOptions {
    pub trunc: Option<usize>,
    pub unit: Option<Unit>,
    pub significant_digits: Option<u8>,
}

/// A syntax error in a template, with the byte offset where it was found.
#[derive(Clone, Copy, Debug, PartialEq, Eq, Structural)]
pub enum ParseError {
    /// A placeholder without an identifier (`{}` or `{:...}`).
    EmptyIdent(usize),
    /// `-` in a format spec that is not followed by a digit.
    MissingTrunc(usize),
    /// A character that is not allowed at this point of a format spec (an
    /// unknown marker, or one given twice).
    TruncNotDigit(usize, char),
    /// A truncation length that does not fit in `usize`; the offset is that
    /// of its first digit.
    TruncOverflow(usize),
    /// A character that cannot stand in an identifier, or cannot follow one.
    InvalidIdent(usize, char),
    /// The template ends inside a placeholder; the offset is the template's
    /// length in bytes.
    UnexpectedEof(usize),
    /// `.` in a format spec that is not followed by a digit.
    MissingPrecision(usize),
    /// A precision above 255; the offset is that of its first digit.
    PrecisionOverflow(usize),
}

/// One element of a compiled template, as the contracts see it.
pub enum Piece {
    Text(Seq<char>),
    Slot(Seq<char>, FormatOptions),
}

/// Why a template was refused, as the contracts see it.
pub enum ParseFailure {
    Syntax(ParseError),
    /// The identifier is not among the allowed keys.
    Key(Seq<char>),
}

pub type ParseResult = Result<Seq<Piece>, ParseFailure>;

pub open spec fn no_options() -> FormatOptions {
    FormatOptions { trunc: None, unit: None, significant_digits: None }
}

/// The byte offset of character index `k` of `s`.
pub open spec fn offset(s: Seq<char>, k: int) -> usize {
    utf8_len(s.take(k)) as usize
}

pub open spec fn eof(s: Seq<char>) -> ParseFailure {
    ParseFailure::Syntax(ParseError::UnexpectedEof(utf8_len(s) as usize))
}

/// `prefix` put before the pieces of `r`; errors pass through.
pub open spec fn glue(prefix: Seq<Piece>, r: ParseResult) -> ParseResult {
    match r {
        Ok(v) => Ok(prefix + v),
        Err(e) => Err(e),
    }
}

/// The first index at or after `i` that holds a brace, or the length.
pub open spec fn run_end(s: Seq<char>, i: int) -> int
    decreases s.len() - i,
{
    if i < 0 || i >= s.len() || s[i] == '{' || s[i] == '}' {
        i
    } else {
        run_end(s, i + 1)
    }
}

/// The first index at or after `i` that holds no ASCII letter or digit.
pub open spec fn ident_end(s: Seq<char>, i: int) -> int
    decreases s.len() - i,
{
    if i < 0 || i >= s.len() || !(is_ascii_letter(s[i]) || is_ascii_digit(s[i])) {
        i
    } else {
        ident_end(s, i + 1)
    }
}

/// The first index at or after `i` that holds no ASCII digit.
pub open spec fn digits_end(s: Seq<char>, i: int) -> int
    decreases s.len() - i,
{
    if i < 0 || i >= s.len() || !is_ascii_digit(s[i]) {
        i
    } else {
        digits_end(s, i + 1)
    }
}

/// Whether `key` passes the allowed keys (`None` allows every key).
pub open spec fn key_allowed(allowed: Option<Seq<Seq<char>>>, key: Seq<char>) -> bool {
    match allowed {
        None => true,
        Some(keys) => keys.contains(key),
    }
}

/// The format spec from index `j` up to and including its closing `}`,
/// adding to `opts`; gives the options and the index after the `}`.
pub open spec fn options_at(s: Seq<char>, j: int, opts: FormatOptions) -> Result<
    (FormatOptions, int),
    ParseFailure,
>
    decreases s.len() - j,
    via options_at_decreases
{
    if j < 0 || j >= s.len() {
        Err(eof(s))
    } else if s[j] == '}' {
        Ok((opts, j + 1))
    } else if s[j] == '-' && opts.trunc is None {
        if j + 1 >= s.len() {
            Err(eof(s))
        } else if !is_ascii_digit(s[j + 1]) {
            Err(ParseFailure::Syntax(ParseError::MissingTrunc(offset(s, j + 1))))
        } else {
            let end = digits_end(s, j + 1);
            let v = digits_value(s.subrange(j + 1, end));
            if v > usize::MAX {
                Err(ParseFailure::Syntax(ParseError::TruncOverflow(offset(s, j + 1))))
            } else {
                options_at(s, end, FormatOptions { trunc: Some(v as usize), ..opts })
            }
        }
    } else if s[j] == '.' && opts.significant_digits is None {
        if j + 1 >= s.len() {
            Err(eof(s))
        } else if !is_ascii_digit(s[j + 1]) {
            Err(ParseFailure::Syntax(ParseError::MissingPrecision(offset(s, j + 1))))
        } else {
            let end = digits_end(s, j + 1);
            let v = digits_value(s.subrange(j + 1, end));
            if v > 255 {
                Err(ParseFailure::Syntax(ParseError::PrecisionOverflow(offset(s, j + 1))))
            } else {
                options_at(s, end, FormatOptions { significant_digits: Some(v as u8), ..opts })
            }
        }
    } else if (s[j] == 'S' || s[j] == 'B') && opts.unit is None {
        options_at(
            s,
            j + 1,
            FormatOptions { unit: Some(if s[j] == 'S' { Unit::Si } else { Unit::Bin }), ..opts },
        )
    } else {
        Err(ParseFailure::Syntax(ParseError::TruncNotDigit(offset(s, j), s[j])))
    }
}

/// The placeholder whose `{` stands just before index `k`; gives the slot and
/// the index after its closing `}`.
pub open spec fn placeholder_at(s: Seq<char>, k: int, allowed: Option<Seq<Seq<char>>>) -> Result<
    (Piece, int),
    ParseFailure,
> {
    if k < 0 || k >= s.len() {
        Err(eof(s))
    } else if s[k] == '}' || s[k] == ':' {
        Err(ParseFailure::Syntax(ParseError::EmptyIdent(offset(s, k))))
    } else if !is_ascii_letter(s[k]) {
        Err(ParseFailure::Syntax(ParseError::InvalidIdent(offset(s, k), s[k])))
    } else {
        let j = ident_end(s, k);
        let key = s.subrange(k, j);
        if j >= s.len() {
            Err(eof(s))
        } else if s[j] != '}' && s[j] != ':' {
            Err(ParseFailure::Syntax(ParseError::InvalidIdent(offset(s, j), s[j])))
        } else if !key_allowed(allowed, key) {
            Err(ParseFailure::Key(key))
        } else if s[j] == '}' {
            Ok((Piece::Slot(key, no_options()), j + 1))
        } else {
            match options_at(s, j + 1, no_options()) {
                Ok((opts, next)) => Ok((Piece::Slot(key, opts), next)),
                Err(e) => Err(e),
            }
        }
    }
}

/// The pieces of `s` from character index `i` on.
pub open spec fn parse_at(s: Seq<char>, i: int, allowed: Option<Seq<Seq<char>>>) -> ParseResult
    decreases s.len() - i,
    via parse_at_decreases
{
    if i < 0 || i >= s.len() {
        Ok(seq![])
    } else if s[i] == '{' && i + 1 < s.len() && s[i + 1] == '{' {
        glue(seq![Piece::Text(seq!['{'])], parse_at(s, i + 2, allowed))
    } else if s[i] == '}' && i + 1 < s.len() && s[i + 1] == '}' {
        glue(seq![Piece::Text(seq!['}'])], parse_at(s, i + 2, allowed))
    } else if s[i] == '}' {
        glue(seq![Piece::Text(seq!['}'])], parse_at(s, i + 1, allowed))
    } else if s[i] == '{' {
        match placeholder_at(s, i + 1, allowed) {
            Ok((p, next)) => glue(seq![p], parse_at(s, next, allowed)),
            Err(e) => Err(e),
        }
    } else {
        glue(seq![Piece::Text(s.subrange(i, run_end(s, i)))], parse_at(s, run_end(s, i), allowed))
    }
}

pub proof fn lemma_run_end(s: Seq<char>, i: int)
    requires
        0 <= i <= s.len(),
    ensures
        i <= run_end(s, i) <= s.len(),
        forall|k: int| i <= k < run_end(s, i) ==> s[k] != '{' && s[k] != '}',
        run_end(s, i) < s.len() ==> s[run_end(s, i)] == '{' || s[run_end(s, i)] == '}',
    decreases s.len() - i,
{
    if i < s.len() && s[i] != '{' && s[i] != '}' {
        lemma_run_end(s, i + 1);
    }
}

pub proof fn lemma_ident_end(s: Seq<char>, i: int)
    requires
        0 <= i <= s.len(),
    ensures
        i <= ident_end(s, i) <= s.len(),
        forall|k: int|
            i <= k < ident_end(s, i) ==> is_ascii_letter(s[k]) || is_ascii_digit(s[k]),
        ident_end(s, i) < s.len() ==> !(is_ascii_letter(s[ident_end(s, i)]) || is_ascii_digit(
            s[ident_end(s, i)],
        )),
    decreases s.len() - i,
{
    if i < s.len() && (is_ascii_letter(s[i]) || is_ascii_digit(s[i])) {
        lemma_ident_end(s, i + 1);
    }
}

pub proof fn lemma_digits_end(s: Seq<char>, i: int)
    requires
        0 <= i <= s.len(),
    ensures
        i <= digits_end(s, i) <= s.len(),
        forall|k: int| i <= k < digits_end(s, i) ==> is_ascii_digit(s[k]),
        digits_end(s, i) < s.len() ==> !is_ascii_digit(s[digits_end(s, i)]),
    decreases s.len() - i,
{
    if i < s.len() && is_ascii_digit(s[i]) {
        lemma_digits_end(s, i + 1);
    }
}

#[via_fn]
proof fn options_at_decreases(s: Seq<char>, j: int, opts: FormatOptions) {
    if 0 <= j && j + 1 < s.len() {
        lemma_digits_end(s, j + 1);
    }
}

pub proof fn lemma_options_next(s: Seq<char>, j: int, opts: FormatOptions)
    ensures
        options_at(s, j, opts) is Ok ==> j < options_at(s, j, opts)->Ok_0.1 <= s.len(),
    decreases s.len() - j,
{
    if 0 <= j && j + 1 < s.len() {
        lemma_digits_end(s, j + 1);
    }
    if 0 <= j < s.len() && s[j] != '}' {
        if s[j] == '-' && opts.trunc is None {
            if j + 1 < s.len() && is_ascii_digit(s[j + 1]) {
                let end = digits_end(s, j + 1);
                let v = digits_value(s.subrange(j + 1, end));
                if v <= usize::MAX {
                    lemma_options_next(s, end, FormatOptions { trunc: Some(v as usize), ..opts });
                }
            }
        } else if s[j] == '.' && opts.significant_digits is None {
            if j + 1 < s.len() && is_ascii_digit(s[j + 1]) {
                let end = digits_end(s, j + 1);
                let v = digits_value(s.subrange(j + 1, end));
                if v <= 255 {
                    lemma_options_next(
                        s,
                        end,
                        FormatOptions { significant_digits: Some(v as u8), ..opts },
                    );
                }
            }
        } else if (s[j] == 'S' || s[j] == 'B') && opts.unit is None {
            lemma_options_next(
                s,
                j + 1,
                FormatOptions {
                    unit: Some(if s[j] == 'S' { Unit::Si } else { Unit::Bin }),
                    ..opts
                },
            );
        }
    }
}

pub proof fn lemma_placeholder_next(s: Seq<char>, k: int, allowed: Option<Seq<Seq<char>>>)
    requires
        0 <= k,
    ensures
        placeholder_at(s, k, allowed) is Ok ==> k < placeholder_at(s, k, allowed)->Ok_0.1
            <= s.len(),
{
    if k < s.len() {
        lemma_ident_end(s, k);
        let j = ident_end(s, k);
        if j < s.len() {
            lemma_options_next(s, j + 1, no_options());
        }
    }
}

#[via_fn]
proof fn parse_at_decreases(s: Seq<char>, i: int, allowed: Option<Seq<Seq<char>>>) {
    if 0 <= i < s.len() {
        lemma_run_end(s, i);
        lemma_placeholder_next(s, i + 1, allowed);
    }
}

/// The compiled form of template `s`, or why it is refused.
pub open spec fn parse_spec(s: Seq<char>, allowed: Option<Seq<Seq<char>>>) -> ParseResult {
    parse_at(s, 0, allowed)
}

/// The number of characters of `s` that end at or before byte `off`.
pub open spec fn column(s: Seq<char>, off: int) -> nat
    decreases s.len(),
{
    if s.len() == 0 || utf8_width(s[0]) > off {
        0
    } else {
        1 + column(s.skip(1), off - utf8_width(s[0]))
    }
}

pub open spec fn error_offset(e: ParseError) -> usize {
    match e {
        ParseError::EmptyIdent(o) => o,
        ParseError::MissingTrunc(o) => o,
        ParseError::TruncNotDigit(o, _) => o,
        ParseError::TruncOverflow(o) => o,
        ParseError::InvalidIdent(o, _) => o,
        ParseError::UnexpectedEof(o) => o,
        ParseError::MissingPrecision(o) => o,
        ParseError::PrecisionOverflow(o) => o,
    }
}

pub open spec fn error_message(e: ParseError) -> Seq<char> {
    match e {
        ParseError::EmptyIdent(_) => "Empty ident"@,
        ParseError::MissingTrunc(_) => "Truncation missing"@,
        ParseError::TruncNotDigit(_, c) => "Unexpected character in format spec: "@ + seq![c],
        ParseError::TruncOverflow(_) => "Truncation specifier is too big and overflowed"@,
        ParseError::InvalidIdent(_, c) => "Invalid character in ident: "@ + seq![c],
        ParseError::UnexpectedEof(_) => "Unexpected eof"@,
        ParseError::MissingPrecision(_) => "Precision missing"@,
        ParseError::PrecisionOverflow(_) => "Precision is above 255"@,
    }
}

/// The template, a line that points at the error's column, and the message.
pub open spec fn pretty_text(e: ParseError, s: Seq<char>) -> Seq<char> {
    s + "\n"@ + Seq::new(column(s, error_offset(e) as int), |i: int| ' ') + "^ "@ + error_message(e)
}

impl ParseError {
    /// The byte offset where the error was found.
    pub fn offset(&self) -> (r: usize)
        ensures
            r == error_offset(*self),
    {
        match self {
            ParseError::EmptyIdent(o) => *o,
            ParseError::MissingTrunc(o) => *o,
            ParseError::TruncNotDigit(o, _) => *o,
            ParseError::TruncOverflow(o) => *o,
            ParseError::InvalidIdent(o, _) => *o,
            ParseError::UnexpectedEof(o) => *o,
            ParseError::MissingPrecision(o) => *o,
            ParseError::PrecisionOverflow(o) => *o,
        }
    }

    /// A description of the error.
    pub fn message(&self) -> (r: String)
        ensures
            r@ == error_message(*self),
    {
        match self {
            ParseError::EmptyIdent(_) => "Empty ident".to_owned(),
            ParseError::MissingTrunc(_) => "Truncation missing".to_owned(),
            ParseError::TruncNotDigit(_, c) => {
                let mut r = "Unexpected character in format spec: ".to_owned();
                let tail = string_from_chars(&vec![*c]);
                r.append(tail.as_str());
                r
            },
            ParseError::TruncOverflow(_) => {
                "Truncation specifier is too big and overflowed".to_owned()
            },
            ParseError::InvalidIdent(_, c) => {
                let mut r = "Invalid character in ident: ".to_owned();
                let tail = string_from_chars(&vec![*c]);
                r.append(tail.as_str());
                r
            },
            ParseError::UnexpectedEof(_) => "Unexpected eof".to_owned(),
            ParseError::MissingPrecision(_) => "Precision missing".to_owned(),
            ParseError::PrecisionOverflow(_) => "Precision is above 255".to_owned(),
        }
    }

    /// The template `s`, then a line with `^` under the character where the
    /// error was found, followed by the message.
    pub fn pretty(&self, s: &str) -> (r: String)
        ensures
            r@ == pretty_text(*self, s@),
    {
        let chars = chars_of(s);
        let off = self.offset();
        let mut i: usize = 0;
        let mut rem: usize = off;
        assert(chars@.skip(0) =~= chars@);
        while i < chars.len() && char_utf8_width(chars[i]) <= rem
            invariant
                i <= chars@.len(),
                i + column(chars@.skip(i as int), rem as int) == column(chars@, off as int),
            decreases chars@.len() - i,
        {
            assert(chars@.skip(i as int).skip(1) =~= chars@.skip(i as int + 1));
            rem = rem - char_utf8_width(chars[i]);
            i = i + 1;
        }
        let mut out = s.to_owned();
        out.append("\n");
        let ghost head = out@;
        let mut k: usize = 0;
        proof {
            reveal_strlit(" ");
        }
        while k < i
            invariant
                k <= i,
                out@ == head + Seq::new(k as nat, |j: int| ' '),
                " "@ == seq![' '],
            decreases i - k,
        {
            out.append(" ");
            k = k + 1;
            assert(out@ =~= head + Seq::new(k as nat, |j: int| ' '));
        }
        out.append("^ ");
        let msg = self.message();
        out.append(msg.as_str());
        out
    }
}

/// `keys` joined with `sep` between each two.
pub open spec fn joined(keys: Seq<Seq<char>>, sep: Seq<char>) -> Seq<char>
    decreases keys.len(),
{
    if keys.len() == 0 {
        seq![]
    } else if keys.len() == 1 {
        keys[0]
    } else {
        joined(keys.drop_last(), sep) + sep + keys.last()
    }
}

/// A one-line description of an error.
pub open spec fn error_text(e: Error) -> Seq<char> {
    match e {
        Error::KeyNotInMap(k) => "Key "@ + k@ + " not in map"@,
        Error::Parse(p) => "Error while parsing format string: "@ + error_message(p),
        Error::InvalidKey { key, allowed } => "Invalid key: "@ + key@ + " allowed keys: "@ + joined(
            allowed@.map_values(|l: String| l@),
            "|"@,
        ),
    }
}

impl Error {
    /// A one-line description of the error.
    pub fn message(&self) -> (r: String)
        ensures
            r@ == error_text(*self),
    {
        match self {
            Error::KeyNotInMap(k) => {
                let mut r = "Key ".to_owned();
                r.append(k.as_str());
                r.append(" not in map");
                r
            },
            Error::Parse(p) => {
                let mut r = "Error while parsing format string: ".to_owned();
                let m = p.message();
                r.append(m.as_str());
                r
            },
            Error::InvalidKey { key, allowed } => {
                let mut r = "Invalid key: ".to_owned();
                r.append(key.as_str());
                r.append(" allowed keys: ");
                let ghost head = r@;
                let ghost keys = allowed@.map_values(|l: String| l@);
                let mut i: usize = 0;
                while i < allowed.len()
                    invariant
                        i <= allowed@.len(),
                        keys == allowed@.map_values(|l: String| l@),
                        r@ == head + joined(keys.take(i as int), "|"@),
                    decreases allowed@.len() - i,
                {
                    let ghost before = r@;
                    if i > 0 {
                        r.append("|");
                    }
                    r.append(allowed[i].as_str());
                    proof {
                        let t = keys.take(i as int + 1);
                        assert(t.drop_last() =~= keys.take(i as int));
                        assert(t.last() == allowed@[i as int]@);
                        if i == 0 {
                            assert(keys.take(0) =~= Seq::<Seq<char>>::empty());
                            assert(r@ =~= head + joined(t, "|"@));
                        } else {
                            assert(r@ =~= head + joined(t, "|"@));
                        }
                    }
                    i = i + 1;
                }
                assert(keys.take(allowed@.len() as int) =~= keys);
                r
            },
        }
    }
}

} // verus!
