//! Rendering a compiled template against a context.

use vstd::prelude::*;

use crate::context::{Content, FormatMap, MapCont};
use crate::number::{number_text, push_number};
use crate::template::{Error, FormatOptions, FormatString, Op, Piece};
use crate::text::{chars_of, decimal_digits, push_decimal, string_from_chars};

verus! {

/// The first `n` characters of `t`, or all of `t` when it is shorter.
pub open spec fn truncated(t: Seq<char>, n: nat) -> Seq<char> {
    if t.len() > n {
        t.take(n as int)
    } else {
        t
    }
}

/// `n` in decimal, with a leading zero below ten.
pub open spec fn two_digits(n: nat) -> Seq<char> {
    if n < 10 {
        seq!['0'] + decimal_digits(n)
    } else {
        decimal_digits(n)
    }
}

/// A value rendered with the modifiers of its placeholder.
pub open spec fn content_text(v: Content, o: FormatOptions) -> Seq<char> {
    match v {
        Content::Text(t) => match o.trunc {
            Some(n) => truncated(t, n as nat),
            None => t,
        },
        Content::Number(d) => number_text(
            d,
            o.unit,
            match o.significant_digits {
                Some(p) => p as nat,
                None => 0,
            },
        ),
        Content::Seconds(s) => two_digits(s as nat / 60) + seq![':'] + two_digits(s as nat % 60),
    }
}

/// The text of one piece; a slot whose key is missing gives nothing.
pub open spec fn piece_text(p: Piece, m: Map<Seq<char>, Content>) -> Seq<char> {
    match p {
        Piece::Text(t) => t,
        Piece::Slot(k, o) => if m.contains_key(k) {
            content_text(m[k], o)
        } else {
            seq![]
        },
    }
}

/// The text of the first `n` pieces.
pub open spec fn render_upto(t: Seq<Piece>, n: int, m: Map<Seq<char>, Content>) -> Seq<char>
    decreases n,
{
    if n <= 0 {
        seq![]
    } else {
        render_upto(t, n - 1, m) + piece_text(t[n - 1], m)
    }
}

/// The first key from piece `i` on that the context lacks.
pub open spec fn missing_from(t: Seq<Piece>, i: int, m: Map<Seq<char>, Content>) -> Option<
    Seq<char>,
>
    decreases t.len() - i,
{
    if i < 0 || i >= t.len() {
        None
    } else {
        match t[i] {
            Piece::Slot(k, _) if !m.contains_key(k) => Some(k),
            _ => missing_from(t, i + 1, m),
        }
    }
}

/// What rendering `t` against `m` gives: the text, or the first missing key.
pub open spec fn render_spec(t: Seq<Piece>, m: Map<Seq<char>, Content>) -> Result<
    Seq<char>,
    Seq<char>,
> {
    match missing_from(t, 0, m) {
        Some(k) => Err(k),
        None => Ok(render_upto(t, t.len() as int, m)),
    }
}

/// Whether `r` is what rendering should give by `render_spec`.
pub open spec fn render_outcome(
    r: Result<String, Error>,
    expected: Result<Seq<char>, Seq<char>>,
) -> bool {
    match expected {
        Ok(text) => r is Ok && r->Ok_0@ == text,
        Err(k) => r is Err && r->Err_0 is KeyNotInMap && r->Err_0->KeyNotInMap_0@ == k,
    }
}

fn push_two_digits(out: &mut Vec<char>, n: u64)
    ensures
        final(out)@ == old(out)@ + two_digits(n as nat),
{
    if n < 10 {
        out.push('0');
    }
    push_decimal(out, n);
    assert(final(out)@ =~= old(out)@ + two_digits(n as nat));
}

/// Appends `content_text(v@, o)` to `out`.
fn push_content(out: &mut Vec<char>, v: &MapCont, o: &FormatOptions)
    ensures
        final(out)@ == old(out)@ + content_text(v@, *o),
{
    let ghost pre = out@;
    match v {
        MapCont::Str(s) => {
            let chars = chars_of(s.as_str());
            let n = match o.trunc {
                Some(n) => if chars.len() > n {
                    n
                } else {
                    chars.len()
                },
                None => chars.len(),
            };
            let mut i: usize = 0;
            while i < n
                invariant
                    i <= n <= chars@.len(),
                    out@ == pre + chars@.take(i as int),
                decreases n - i,
            {
                out.push(chars[i]);
                i = i + 1;
                assert(out@ =~= pre + chars@.take(i as int));
            }
            assert(chars@.take(chars@.len() as int) =~= chars@);
        },
        MapCont::Number(d) => {
            let p = match o.significant_digits {
                Some(p) => p,
                None => 0,
            };
            push_number(out, d, o.unit, p);
        },
        MapCont::Duration(secs) => {
            push_two_digits(out, *secs / 60);
            out.push(':');
            push_two_digits(out, *secs % 60);
            assert(out@ =~= pre + content_text(v@, *o));
        },
    }
}

impl FormatString {
    /// Renders the template against `map`. Fails with the first key that
    /// `map` lacks, before any text is produced.
    pub fn fmt(&self, map: &FormatMap) -> (r: Result<String, Error>)
        ensures
            render_outcome(r, render_spec(self@, map@)),
    {
        let ghost t = self@;
        let ghost m = map@;
        let ops = &self.0;
        let mut i: usize = 0;
        while i < ops.len()
            invariant
                i <= ops@.len(),
                t == ops@.map_values(|o: Op| o@),
                t == self@,
                m == map@,
                missing_from(t, i as int, m) == missing_from(t, 0, m),
            decreases ops@.len() - i,
        {
            match &ops[i] {
                Op::FromMap { key, fmt_opt: _ } => {
                    if map.get(key.as_str()).is_none() {
                        assert(t[i as int] == ops@[i as int]@);
                        let k = key.clone();
                        return Err(Error::KeyNotInMap(k));
                    }
                },
                Op::Str(_) => {},
            }
            i = i + 1;
        }
        let mut out: Vec<char> = Vec::new();
        let mut j: usize = 0;
        while j < ops.len()
            invariant
                j <= ops@.len(),
                t == ops@.map_values(|o: Op| o@),
                m == map@,
                out@ == render_upto(t, j as int, m),
                t == self@,
                missing_from(t, 0, m) is None,
            decreases ops@.len() - j,
        {
            match &ops[j] {
                Op::Str(s) => {
                    let chars = chars_of(s.as_str());
                    let mut k: usize = 0;
                    let ghost pre = out@;
                    while k < chars.len()
                        invariant
                            k <= chars@.len(),
                            out@ == pre + chars@.take(k as int),
                        decreases chars@.len() - k,
                    {
                        out.push(chars[k]);
                        k = k + 1;
                        assert(out@ =~= pre + chars@.take(k as int));
                    }
                    assert(chars@.take(chars@.len() as int) =~= chars@);
                },
                Op::FromMap { key, fmt_opt } => {
                    match map.get(key.as_str()) {
                        Some(v) => push_content(&mut out, v, fmt_opt),
                        None => {},
                    }
                },
            }
            j = j + 1;
        }
        Ok(string_from_chars(&out))
    }
}

} // verus!
