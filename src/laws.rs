//! Properties that hold of every template, context and number.

use vstd::prelude::*;

use crate::context::Content;
use crate::number::{
    at_least, divide_step, fit, format_fixed_spec, frac_part, int_part, scale_from, unit_base,
    Decimal, Unit,
};
use crate::render::{content_text, missing_from, piece_text, render_spec, render_upto};
use crate::template::{
    glue, lemma_run_end, parse_at, parse_spec, run_end, FormatOptions, ParseFailure, Piece,
};
use crate::text::{decimal_digits, digit_char, is_ascii_digit, zeros};

verus! {

/// A template without braces compiles to its text alone, which it renders
/// to unchanged whatever the context.
pub proof fn lemma_literal_template(
    s: Seq<char>,
    allowed: Option<Seq<Seq<char>>>,
    m: Map<Seq<char>, Content>,
)
    requires
        forall|i: int| 0 <= i < s.len() ==> s[i] != '{' && s[i] != '}',
    ensures
        parse_spec(s, allowed) is Ok,
        render_spec(parse_spec(s, allowed)->Ok_0, m) == Ok::<Seq<char>, Seq<char>>(s),
{
    if s.len() == 0 {
        assert(s =~= Seq::<char>::empty());
        assert(parse_spec(s, allowed)->Ok_0 =~= Seq::<Piece>::empty());
        assert(missing_from(Seq::<Piece>::empty(), 0, m) is None);
        assert(render_upto(Seq::<Piece>::empty(), 0, m) == Seq::<char>::empty());
    } else {
        lemma_run_end(s, 0);
        assert(run_end(s, 0) == s.len());
        assert(parse_at(s, s.len() as int, allowed) == Ok::<Seq<Piece>, ParseFailure>(seq![]));
        assert(s.subrange(0, s.len() as int) =~= s);
        let t = seq![Piece::Text(s)];
        assert(parse_spec(s, allowed)->Ok_0 =~= t);
        assert(missing_from(t, 1, m) is None);
        assert(missing_from(t, 0, m) is None);
        assert(render_upto(t, 0, m) == Seq::<char>::empty());
        assert(render_upto(t, 1, m) =~= s);
    }
}

/// Truncating a text to `n` characters keeps its first `n` characters (all
/// of it when it is shorter), so at most `n`.
pub proof fn lemma_truncation_bound(t: Seq<char>, o: FormatOptions)
    requires
        o.trunc is Some,
    ensures
        content_text(Content::Text(t), o).len() <= o.trunc->Some_0,
        content_text(Content::Text(t), o) == t.take(
            if t.len() > o.trunc->Some_0 {
                o.trunc->Some_0 as int
            } else {
                t.len() as int
            },
        ),
{
    assert(t.take(t.len() as int) =~= t);
}

pub proof fn lemma_decimal_digits_are_digits(n: nat)
    ensures
        forall|i: int|
            0 <= i < decimal_digits(n).len() ==> is_ascii_digit(#[trigger] decimal_digits(n)[i]),
        decimal_digits(n).len() >= 1,
    decreases n,
{
    if n >= 10 {
        lemma_decimal_digits_are_digits(n / 10);
    }
    assert(is_ascii_digit(digit_char(n % 10)));
}

/// A number with `d` digits after the point has exactly one `.` when `d` is
/// positive, followed by exactly `d` characters, and none when `d` is zero.
pub proof fn lemma_fixed_point_shape(n: Decimal, d: nat)
    ensures
        d == 0 ==> forall|i: int|
            0 <= i < format_fixed_spec(n, d).len() ==> #[trigger] format_fixed_spec(n, d)[i] != '.',
        d > 0 ==> exists|p: int|
            0 <= p < format_fixed_spec(n, d).len() && #[trigger] format_fixed_spec(n, d)[p] == '.'
                && format_fixed_spec(n, d).len() == p + 1 + d && forall|i: int|
                0 <= i < format_fixed_spec(n, d).len() && i != p ==> format_fixed_spec(n, d)[i]
                    != '.',
{
    let m = n.mantissa as nat;
    let e = n.exponent as int;
    let r = format_fixed_spec(n, d);
    let sign: Seq<char> = if n.negative && m != 0 {
        seq!['-']
    } else {
        seq![]
    };
    let ip = int_part(m, e);
    let f = frac_part(m, e);
    let dd = decimal_digits(m);
    lemma_decimal_digits_are_digits(m);
    assert forall|i: int| 0 <= i < ip.len() implies #[trigger] ip[i] != '.' by {
        if m != 0 && e >= 0 && i >= dd.len() {
            assert(ip[i] == zeros(e as nat)[i - dd.len()]);
        } else if m != 0 && e >= 0 {
            assert(ip[i] == dd[i]);
            assert(is_ascii_digit(dd[i]));
        } else if m != 0 && dd.len() > -e {
            assert(ip[i] == dd[i]);
            assert(is_ascii_digit(dd[i]));
        }
    }
    assert forall|i: int| 0 <= i < f.len() implies #[trigger] f[i] != '.' by {
        if e < 0 && dd.len() > -e {
            assert(f[i] == dd[i + dd.len() + e]);
            assert(is_ascii_digit(dd[i + dd.len() + e]));
        } else if e < 0 {
            if i >= (-e - dd.len()) {
                assert(f[i] == dd[i - (-e - dd.len())]);
                assert(is_ascii_digit(dd[i - (-e - dd.len())]));
            }
        }
    }
    let g = fit(f, d);
    assert forall|i: int| 0 <= i < g.len() implies #[trigger] g[i] != '.' by {
        if f.len() < d && i >= f.len() {
            assert(g[i] == zeros((d - f.len()) as nat)[i - f.len()]);
        } else {
            assert(g[i] == f[i]);
        }
    }
    if d == 0 {
        assert(r =~= sign + ip);
    } else {
        let p = (sign.len() + ip.len()) as int;
        assert(r =~= sign + ip + (seq!['.'] + g));
        assert(r[p] == '.');
        assert(g.len() == d);
        assert forall|i: int| 0 <= i < r.len() && i != p implies r[i] != '.' by {
            if i < sign.len() {
            } else if i < p {
                assert(r[i] == ip[i - sign.len()]);
            } else {
                assert(r[i] == g[i - p - 1]);
            }
        }
    }
}

/// Rendering depends on nothing but the template and the context: equal
/// inputs give equal results.
pub proof fn lemma_render_deterministic(
    t: Seq<Piece>,
    m1: Map<Seq<char>, Content>,
    m2: Map<Seq<char>, Content>,
)
    requires
        m1 == m2,
    ensures
        render_spec(t, m1) == render_spec(t, m2),
{
}

proof fn lemma_missing_key_found(t: Seq<Piece>, i: int, x: Seq<char>, m: Map<Seq<char>, Content>)
    requires
        0 <= i,
        exists|j: int| i <= j < t.len() && (#[trigger] t[j]) is Slot && t[j]->Slot_0 == x,
        !m.contains_key(x),
        forall|j: int|
            0 <= j < t.len() && (#[trigger] t[j]) is Slot && t[j]->Slot_0 != x
                ==> m.contains_key(t[j]->Slot_0),
    ensures
        missing_from(t, i, m) == Some(x),
    decreases t.len() - i,
{
    match t[i] {
        Piece::Slot(k, _) => {
            if k != x {
                assert(m.contains_key(k));
                lemma_missing_key_found(t, i + 1, x, m);
            }
        },
        Piece::Text(_) => {
            lemma_missing_key_found(t, i + 1, x, m);
        },
    }
}

/// A template that reads key `x` fails on a context without `x`, with no
/// text, and names `x` when it is the only key missing.
pub proof fn lemma_missing_key(t: Seq<Piece>, x: Seq<char>, m: Map<Seq<char>, Content>)
    requires
        exists|j: int| 0 <= j < t.len() && (#[trigger] t[j]) is Slot && t[j]->Slot_0 == x,
        !m.contains_key(x),
    ensures
        render_spec(t, m) is Err,
        (forall|j: int|
            0 <= j < t.len() && (#[trigger] t[j]) is Slot && t[j]->Slot_0 != x
                ==> m.contains_key(t[j]->Slot_0)) ==> render_spec(t, m) == Err::<Seq<char>, Seq<char>>(
            x,
        ),
{
    lemma_missing_is_some(t, 0, x, m);
    if forall|j: int|
        0 <= j < t.len() && (#[trigger] t[j]) is Slot && t[j]->Slot_0 != x
            ==> m.contains_key(t[j]->Slot_0) {
        lemma_missing_key_found(t, 0, x, m);
    }
}

proof fn lemma_missing_is_some(t: Seq<Piece>, i: int, x: Seq<char>, m: Map<Seq<char>, Content>)
    requires
        0 <= i,
        exists|j: int| i <= j < t.len() && (#[trigger] t[j]) is Slot && t[j]->Slot_0 == x,
        !m.contains_key(x),
    ensures
        missing_from(t, i, m) is Some,
    decreases t.len() - i,
{
    match t[i] {
        Piece::Slot(k, _) => {
            if m.contains_key(k) {
                lemma_missing_is_some(t, i + 1, x, m);
            }
        },
        Piece::Text(_) => {
            lemma_missing_is_some(t, i + 1, x, m);
        },
    }
}

/// `w` with every brace doubled, the way a template writes literal braces.
pub open spec fn escape(w: Seq<char>) -> Seq<char>
    decreases w.len(),
{
    if w.len() == 0 {
        seq![]
    } else {
        (if w[0] == '{' || w[0] == '}' {
            seq![w[0], w[0]]
        } else {
            seq![w[0]]
        }) + escape(w.skip(1))
    }
}

proof fn lemma_escape_split(w: Seq<char>, k: int)
    requires
        0 <= k <= escape(w).len(),
        forall|j: int| 0 <= j < k ==> escape(w)[j] != '{' && escape(w)[j] != '}',
    ensures
        k <= w.len(),
        escape(w) == w.take(k) + escape(w.skip(k)),
    decreases k,
{
    if k == 0 {
        assert(w.skip(0) =~= w);
        assert(escape(w) =~= w.take(0) + escape(w));
    } else {
        assert(w.len() > 0);
        let rest = w.skip(1);
        assert(escape(w)[0] == w[0]);
        assert(escape(w) == seq![w[0]] + escape(rest));
        assert forall|j: int| 0 <= j < k - 1 implies escape(rest)[j] != '{' && escape(rest)[j]
            != '}' by {
            assert(escape(rest)[j] == escape(w)[j + 1]);
        }
        lemma_escape_split(rest, k - 1);
        assert(rest.skip(k - 1) =~= w.skip(k));
        assert(seq![w[0]] + rest.take(k - 1) =~= w.take(k));
        assert(escape(w) =~= w.take(k) + escape(w.skip(k)));
    }
}

proof fn lemma_missing_shift(p: Piece, v: Seq<Piece>, k: int, m: Map<Seq<char>, Content>)
    requires
        0 <= k,
    ensures
        missing_from(seq![p] + v, k + 1, m) == missing_from(v, k, m),
    decreases v.len() - k,
{
    if k < v.len() {
        assert((seq![p] + v)[k + 1] == v[k]);
        lemma_missing_shift(p, v, k + 1, m);
    }
}

proof fn lemma_render_prepend(p: Piece, v: Seq<Piece>, n: int, m: Map<Seq<char>, Content>)
    requires
        0 <= n <= v.len(),
    ensures
        render_upto(seq![p] + v, n + 1, m) == piece_text(p, m) + render_upto(v, n, m),
    decreases n,
{
    if n == 0 {
        assert(render_upto(seq![p] + v, 0, m) == Seq::<char>::empty());
        assert(render_upto(v, 0, m) == Seq::<char>::empty());
        assert((seq![p] + v)[0] == p);
        assert(render_upto(seq![p] + v, 1, m) =~= piece_text(p, m) + render_upto(v, 0, m));
    } else {
        lemma_render_prepend(p, v, n - 1, m);
        assert((seq![p] + v)[n] == v[n - 1]);
        assert(render_upto(seq![p] + v, n + 1, m) =~= piece_text(p, m) + render_upto(v, n, m));
    }
}

proof fn lemma_text_piece(x: Seq<char>, v: Seq<Piece>, w: Seq<char>, m: Map<Seq<char>, Content>)
    requires
        missing_from(v, 0, m) is None,
        render_upto(v, v.len() as int, m) == w,
    ensures
        missing_from(seq![Piece::Text(x)] + v, 0, m) is None,
        render_upto(seq![Piece::Text(x)] + v, v.len() + 1 as int, m) == x + w,
{
    lemma_missing_shift(Piece::Text(x), v, 0, m);
    assert((seq![Piece::Text(x)] + v)[0] == Piece::Text(x));
    lemma_render_prepend(Piece::Text(x), v, v.len() as int, m);
}

proof fn lemma_escaped_from(
    s: Seq<char>,
    i: int,
    w: Seq<char>,
    allowed: Option<Seq<Seq<char>>>,
    m: Map<Seq<char>, Content>,
)
    requires
        0 <= i <= s.len(),
        s.skip(i) == escape(w),
    ensures
        parse_at(s, i, allowed) is Ok,
        missing_from(parse_at(s, i, allowed)->Ok_0, 0, m) is None,
        render_upto(
            parse_at(s, i, allowed)->Ok_0,
            parse_at(s, i, allowed)->Ok_0.len() as int,
            m,
        ) == w,
    decreases s.len() - i,
{
    if w.len() == 0 {
        assert(s.skip(i).len() == 0);
        assert(parse_at(s, i, allowed)->Ok_0 =~= Seq::<Piece>::empty());
        assert(w =~= Seq::<char>::empty());
    } else if w[0] == '{' || w[0] == '}' {
        let b = w[0];
        assert(escape(w) == seq![b, b] + escape(w.skip(1)));
        assert(s.skip(i).len() > 1);
        assert(s[i] == s.skip(i)[0]);
        assert(s[i + 1] == s.skip(i)[1]);
        assert(s.skip(i + 2) =~= s.skip(i).skip(2));
        assert(s.skip(i).skip(2) =~= escape(w.skip(1)));
        lemma_escaped_from(s, i + 2, w.skip(1), allowed, m);
        let v = parse_at(s, i + 2, allowed)->Ok_0;
        assert(parse_at(s, i, allowed) == glue(
            seq![Piece::Text(seq![b])],
            parse_at(s, i + 2, allowed),
        ));
        lemma_text_piece(seq![b], v, w.skip(1), m);
        assert(seq![b] + w.skip(1) =~= w);
    } else {
        assert(escape(w) == seq![w[0]] + escape(w.skip(1)));
        assert(s.skip(i).len() > 0);
        assert(s[i] == s.skip(i)[0]);
        lemma_run_end(s, i);
        let r = run_end(s, i);
        let k = r - i;
        assert forall|j: int| 0 <= j < k implies escape(w)[j] != '{' && escape(w)[j] != '}' by {
            assert(escape(w)[j] == s[i + j]);
        }
        lemma_escape_split(w, k);
        assert(s.subrange(i, r) =~= w.take(k));
        assert(w.take(k).len() == k);
        assert(s.skip(r) =~= s.skip(i).skip(k));
        assert((w.take(k) + escape(w.skip(k))).skip(k) =~= escape(w.skip(k)));
        assert(s.skip(r) =~= escape(w.skip(k)));
        lemma_escaped_from(s, r, w.skip(k), allowed, m);
        let v = parse_at(s, r, allowed)->Ok_0;
        lemma_text_piece(w.take(k), v, w.skip(k), m);
        assert(w.take(k) + w.skip(k) =~= w);
    }
}

/// `{{` and `}}` render as `{` and `}` whatever the context: a text with
/// every brace doubled compiles, and renders back to the text.
pub proof fn lemma_escaped_text(
    w: Seq<char>,
    allowed: Option<Seq<Seq<char>>>,
    m: Map<Seq<char>, Content>,
)
    ensures
        parse_spec(escape(w), allowed) is Ok,
        render_spec(parse_spec(escape(w), allowed)->Ok_0, m) == Ok::<Seq<char>, Seq<char>>(w),
{
    assert(escape(w).skip(0) =~= escape(w));
    lemma_escaped_from(escape(w), 0, w, allowed, m);
}

/// Unit scaling stops at the first value below the base, or at the last
/// suffix; negative values are never scaled; SI scaling only moves the
/// decimal point, three places per step.
pub proof fn lemma_scale_stops(u: Unit, negative: bool, m: nat, e: int)
    ensures
        ({
            let (m2, e2, i) = scale_from(u, negative, m, e, 0);
            &&& i <= 5
            &&& i < 5 ==> negative || !at_least(m2, e2, unit_base(u))
            &&& negative ==> i == 0 && m2 == m && e2 == e
            &&& u == Unit::Si ==> m2 == m && e2 == e - 3 * i
        }),
{
    lemma_scale_from_steps(u, negative, m, e, 0);
}

proof fn lemma_scale_from_steps(u: Unit, negative: bool, m: nat, e: int, step: nat)
    requires
        step <= 5,
    ensures
        ({
            let (m2, e2, i) = scale_from(u, negative, m, e, step);
            &&& step <= i <= 5
            &&& i < 5 ==> negative || !at_least(m2, e2, unit_base(u))
            &&& negative ==> i == step && m2 == m && e2 == e
            &&& u == Unit::Si ==> m2 == m && e2 == e - 3 * (i - step)
        }),
    decreases 5 - step,
{
    if step < 5 && !negative && at_least(m, e, unit_base(u)) {
        let (m1, e1) = divide_step(u, m, e);
        lemma_scale_from_steps(u, negative, m1, e1, step + 1);
    }
}

} // verus!
