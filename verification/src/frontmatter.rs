//! Frontmatter: type-checking, extraction and rendering of the `--- … ---`
//! block against the schema's field declarations.
//!
//! A deliberately small YAML subset is supported, chosen so that rendering and
//! extraction invert each other: `key: scalar` lines, double-quoted scalars,
//! and flow lists `[a, b]`. Nested maps and block sequences are not supported.

use crate::doc::{fm_bounds, frontmatter_block};
use crate::error::{Problem, ProblemV, RenderErrV, RenderError, problem_is, problems_are, render_err_is};
use crate::json::{Json, JsonV, json_is, jsons_are, obj_insert, value_get};
use crate::parse::{CharClass, FieldSpecV, FieldTypeSpec, in_class};
use crate::schema::{FieldSchema, FieldType, SchemaOpts, regex_is_match};
use crate::text::{digit_char, lines_state, strip_cr, push_signed, signed_decimal, chars_of, find_char, index_of, is_ws, lines, lines_of, parse_i64, parse_i64_spec, push_char, push_chars, push_str, string_of, trim, trim_bounds, trimmed};
use vstd::string::StringSliceAdditionalSpecFns;
use vstd::utf8::encode_utf8;
use vstd::prelude::*;

verus! {

// ---- scalars ---------------------------------------------------------------------

/// The character a backslash escape stands for inside a quoted scalar.
pub open spec fn esc_char(c: char) -> char {
    if c == 'n' {
        '\n'
    } else if c == 't' {
        '\t'
    } else {
        c
    }
}

/// The inside of a quoted scalar with its backslash escapes resolved (a lone
/// trailing backslash is dropped).
pub open spec fn unescape_quoted(t: Seq<char>) -> Seq<char>
    decreases t.len(),
{
    if t.len() == 0 {
        Seq::empty()
    } else if t[0] == '\\' {
        if t.len() == 1 {
            Seq::empty()
        } else {
            seq![esc_char(t[1])] + unescape_quoted(t.skip(2))
        }
    } else {
        seq![t[0]] + unescape_quoted(t.skip(1))
    }
}

/// A scalar as read: trimmed; a double-quoted one is unquoted and unescaped.
pub open spec fn unquote_spec(s0: Seq<char>) -> Seq<char> {
    let s = trim(s0);
    if s.len() >= 2 && s[0] == '"' && s[s.len() - 1] == '"' {
        unescape_quoted(s.subrange(1, s.len() - 1))
    } else {
        s
    }
}

/// Strips and unescapes a double-quoted scalar; returns other input trimmed
/// (see [`unquote_spec`]).
pub fn unquote(s0: &[char]) -> (r: String)
    ensures
        r@ == unquote_spec(s0@),
{
    let s = trimmed(s0);
    let n = s.len();
    if n >= 2 && s[0] == '"' && s[n - 1] == '"' {
        let ghost t = s@.subrange(1, n - 1);
        let mut out = String::new();
        let mut i: usize = 1;
        assert(s@.subrange(1, n - 1).skip(0) =~= t);
        while i < n - 1
            invariant
                n == s@.len(),
                n >= 2,
                1 <= i <= n - 1 + 1,
                t == s@.subrange(1, n - 1),
                i <= n,
                unescape_quoted(t) == out@ + unescape_quoted(if i <= n - 1 { s@.subrange(i as int, n - 1) } else { Seq::empty() }),
            decreases n - i,
        {
            let ghost rest = s@.subrange(i as int, n - 1);
            let c = s[i];
            if c == '\\' {
                if i + 1 < n - 1 {
                    let d = s[i + 1];
                    let e = if d == 'n' {
                        '\n'
                    } else if d == 't' {
                        '\t'
                    } else {
                        d
                    };
                    push_char(&mut out, e);
                    assert(rest.skip(2) =~= if i + 2 <= n - 1 { s@.subrange(i + 2, n - 1) } else { Seq::empty() });
                    i = i + 2;
                } else {
                    assert(rest.len() == 1);
                    i = i + 1;
                }
            } else {
                push_char(&mut out, c);
                assert(rest.skip(1) =~= s@.subrange(i + 1, n - 1));
                i = i + 1;
            }
        }
        assert(out@ =~= unescape_quoted(t));
        out
    } else {
        string_of(s.as_slice())
    }
}

/// The characters that force a scalar to be quoted anywhere in it.
pub open spec fn quote_anywhere(c: char) -> bool {
    c == '\n' || c == '\r' || c == '"' || c == ',' || c == '[' || c == ']' || c == '#' || c == ':'
}

/// The characters that force a scalar to be quoted when it starts with them.
pub open spec fn quote_first(c: char) -> bool {
    c == '[' || c == '{' || c == '\'' || c == '>' || c == '|' || c == '&' || c == '*' || c == '!'
        || c == '%' || c == '@' || c == '`' || c == '-' || c == '?'
}

/// Whether a scalar would read back differently unquoted: it is empty, has
/// surrounding whitespace, holds a line break, quote, comma, bracket, `#` or
/// `:`, or starts with a YAML indicator.
pub open spec fn needs_quote_spec(s: Seq<char>) -> bool {
    ||| s.len() == 0
    ||| s != trim(s)
    ||| exists|i: int| 0 <= i < s.len() && quote_anywhere(#[trigger] s[i])
    ||| quote_first(s[0])
}

pub fn needs_quote(s: &[char]) -> (b: bool)
    ensures
        b == needs_quote_spec(s@),
{
    if s.len() == 0 {
        return true;
    }
    let t = trimmed(s);
    if t.len() != s.len() {
        return true;
    }
    let mut i: usize = 0;
    while i < t.len()
        invariant
            i <= t@.len(),
            t@.len() == s@.len(),
            t@ == trim(s@),
            s@.len() > 0,
            forall|j: int| 0 <= j < i ==> t@[j] == s@[j],
        decreases t@.len() - i,
    {
        if t[i] != s[i] {
            assert(t@[i as int] != s@[i as int]);
            assert(t@ != s@);
            return true;
        }
        i = i + 1;
    }
    assert(t@ =~= s@);
    let mut k: usize = 0;
    while k < s.len()
        invariant
            k <= s@.len(),
            forall|j: int| 0 <= j < k ==> !quote_anywhere(#[trigger] s@[j]),
        decreases s@.len() - k,
    {
        let c = s[k];
        if c == '\n' || c == '\r' || c == '"' || c == ',' || c == '[' || c == ']' || c == '#' || c == ':' {
            assert(quote_anywhere(s@[k as int]));
            return true;
        }
        k = k + 1;
    }
    let f = s[0];
    f == '[' || f == '{' || f == '\'' || f == '>' || f == '|' || f == '&' || f == '*' || f == '!'
        || f == '%' || f == '@' || f == '`' || f == '-' || f == '?'
}

/// The escaped form of one character inside a quoted scalar.
pub open spec fn esc_out(c: char) -> Seq<char> {
    if c == '\\' {
        seq!['\\', '\\']
    } else if c == '"' {
        seq!['\\', '"']
    } else if c == '\n' {
        seq!['\\', 'n']
    } else if c == '\t' {
        seq!['\\', 't']
    } else {
        seq![c]
    }
}

/// `s` with backslashes, quotes, newlines and tabs escaped.
pub open spec fn escape_quoted(s: Seq<char>) -> Seq<char>
    decreases s.len(),
{
    if s.len() == 0 {
        Seq::empty()
    } else {
        esc_out(s[0]) + escape_quoted(s.skip(1))
    }
}

/// A scalar as written: quoted and escaped when it would otherwise read back
/// differently, else as is.
pub open spec fn quote_scalar_spec(s: Seq<char>) -> Seq<char> {
    if needs_quote_spec(s) {
        seq!['"'] + escape_quoted(s) + seq!['"']
    } else {
        s
    }
}

/// Quotes a scalar if it would otherwise read back differently (see
/// [`quote_scalar_spec`]).
pub fn quote_scalar(s: &[char]) -> (r: String)
    ensures
        r@ == quote_scalar_spec(s@),
{
    if !needs_quote(s) {
        return string_of(s);
    }
    let mut out = String::new();
    push_char(&mut out, '"');
    let mut i: usize = 0;
    assert(s@.skip(0) =~= s@);
    while i < s.len()
        invariant
            i <= s@.len(),
            seq!['"'] + escape_quoted(s@) == out@ + escape_quoted(s@.skip(i as int)),
        decreases s@.len() - i,
    {
        let c = s[i];
        assert(s@.skip(i as int).skip(1) =~= s@.skip(i + 1));
        assert(s@.skip(i as int)[0] == c);
        if c == '\\' {
            push_char(&mut out, '\\');
            push_char(&mut out, '\\');
        } else if c == '"' {
            push_char(&mut out, '\\');
            push_char(&mut out, '"');
        } else if c == '\n' {
            push_char(&mut out, '\\');
            push_char(&mut out, 'n');
        } else if c == '\t' {
            push_char(&mut out, '\\');
            push_char(&mut out, 't');
        } else {
            push_char(&mut out, c);
        }
        i = i + 1;
    }
    push_char(&mut out, '"');
    assert(s@.skip(i as int).len() == 0);
    out
}

pub proof fn lemma_unescape_escape(s: Seq<char>)
    ensures
        unescape_quoted(escape_quoted(s)) == s,
    decreases s.len(),
{
    if s.len() > 0 {
        lemma_unescape_escape(s.skip(1));
        let e = escape_quoted(s);
        let r = escape_quoted(s.skip(1));
        assert(e == esc_out(s[0]) + r);
        if esc_out(s[0]).len() == 2 {
            assert(e.skip(2) =~= r);
        } else {
            assert(e.skip(1) =~= r);
        }
        assert(seq![s[0]] + s.skip(1) =~= s);
    }
}

/// A scalar written by [`quote_scalar`] reads back, through [`unquote`], as
/// the string that was written: the frontmatter codec is lossless on strings.
pub proof fn law_unquote_quote_scalar(s: Seq<char>)
    ensures
        unquote_spec(quote_scalar_spec(s)) == s,
{
    if needs_quote_spec(s) {
        let q = seq!['"'] + escape_quoted(s) + seq!['"'];
        assert(!is_ws(q[0]));
        assert(!is_ws(q[q.len() - 1]));
        crate::text::lemma_trim_no_ws_ends(q);
        assert(q.subrange(1, q.len() - 1) =~= escape_quoted(s));
        lemma_unescape_escape(s);
    } else {
        if s.len() >= 2 && s[0] == '"' {
            assert(quote_anywhere(s[0]));
        }
    }
}

// ---- dates -------------------------------------------------------------------

pub open spec fn dval(c: char) -> int {
    c as int - '0' as int
}

pub open spec fn is_leap(y: int) -> bool {
    y % 4 == 0 && (y % 100 != 0 || y % 400 == 0)
}

/// The days in month `m` of year `y` (0 for a month out of range).
pub open spec fn max_day(y: int, m: int) -> int {
    if m == 1 || m == 3 || m == 5 || m == 7 || m == 8 || m == 10 || m == 12 {
        31
    } else if m == 4 || m == 6 || m == 9 || m == 11 {
        30
    } else if m == 2 {
        if is_leap(y) { 29 } else { 28 }
    } else {
        0
    }
}

/// A `YYYY-MM-DD` calendar date: ten characters, digits but for the two
/// dashes, a month from 1 to 12 and a day that month has.
pub open spec fn is_date_spec(s: Seq<char>) -> bool {
    &&& s.len() == 10
    &&& s[4] == '-' && s[7] == '-'
    &&& forall|i: int| 0 <= i < 10 && i != 4 && i != 7 ==> crate::text::is_digit(#[trigger] s[i])
    &&& {
        let y = dval(s[0]) * 1000 + dval(s[1]) * 100 + dval(s[2]) * 10 + dval(s[3]);
        let m = dval(s[5]) * 10 + dval(s[6]);
        let d = dval(s[8]) * 10 + dval(s[9]);
        1 <= m <= 12 && 1 <= d <= max_day(y, m)
    }
}

/// The `YYYY-MM-DD` text of a year, a month and a day, each written with
/// its digits zero-padded to its width.
pub open spec fn date_text(y: nat, m: nat, d: nat) -> Seq<char> {
    seq![
        digit_char(y / 1000 % 10), digit_char(y / 100 % 10), digit_char(y / 10 % 10), digit_char(y % 10), '-',
        digit_char(m / 10 % 10), digit_char(m % 10), '-',
        digit_char(d / 10 % 10), digit_char(d % 10),
    ]
}

proof fn lemma_digit_value(k: nat)
    requires
        k < 10,
    ensures
        crate::text::is_digit(digit_char(k)),
        dval(digit_char(k)) == k,
{
}

proof fn lemma_char_digit(c: char)
    requires
        crate::text::is_digit(c),
    ensures
        0 <= dval(c) < 10,
        digit_char(dval(c) as nat) == c,
{
    assert(c == '0' || c == '1' || c == '2' || c == '3' || c == '4' || c == '5' || c == '6' || c == '7' || c == '8' || c == '9') by {
        assert('0' as int <= c as int <= '9' as int);
    }
}

/// The Gregorian calendar, month by month: for every year, month and day
/// written `YYYY-MM-DD`, the text is a date exactly when the month is 1 to
/// 12 and the day is from 1 to the month's length: every month has days 1
/// to 28; all but February have the 29th and 30th; February has the 29th
/// in a leap year (divisible by 4, and by 400 when divisible by 100); the
/// 31st is in January, March, May, July, August, October and December only.
pub proof fn law_calendar_dates(y: nat, m: nat, d: nat)
    requires
        y < 10000,
        m < 100,
        d < 100,
    ensures
        is_date_spec(date_text(y, m, d)) <==> (1 <= m <= 12 && 1 <= d && (
            d <= 28
            || (d <= 30 && m != 2)
            || (d == 29 && m == 2 && y % 4 == 0 && (y % 100 != 0 || y % 400 == 0))
            || (d == 31 && (m == 1 || m == 3 || m == 5 || m == 7 || m == 8 || m == 10 || m == 12)))),
{
    let s = date_text(y, m, d);
    lemma_digit_value(y / 1000 % 10);
    lemma_digit_value(y / 100 % 10);
    lemma_digit_value(y / 10 % 10);
    lemma_digit_value(y % 10);
    lemma_digit_value(m / 10 % 10);
    lemma_digit_value(m % 10);
    lemma_digit_value(d / 10 % 10);
    lemma_digit_value(d % 10);
    assert forall|i: int| 0 <= i < 10 && i != 4 && i != 7 implies crate::text::is_digit(#[trigger] s[i]) by {}
    let yv = dval(s[0]) * 1000 + dval(s[1]) * 100 + dval(s[2]) * 10 + dval(s[3]);
    assert(yv == y) by {
        assert(y / 1000 % 10 == y / 1000);
        assert(y == (y / 1000) * 1000 + (y / 100 % 10) * 100 + (y / 10 % 10) * 10 + y % 10) by (nonlinear_arith)
            requires
                y < 10000;
    }
    assert(dval(s[5]) * 10 + dval(s[6]) == m);
    assert(dval(s[8]) * 10 + dval(s[9]) == d);
}

/// Every date is written `YYYY-MM-DD`: its text is that of some year, month
/// and day.
pub proof fn law_date_is_written(s: Seq<char>)
    requires
        is_date_spec(s),
    ensures
        exists|y: nat, m: nat, d: nat| y < 10000 && m < 100 && d < 100 && s == #[trigger] date_text(y, m, d),
{
    let a = dval(s[0]);
    let b = dval(s[1]);
    let c = dval(s[2]);
    let e = dval(s[3]);
    assert(crate::text::is_digit(s[0]) && crate::text::is_digit(s[1]) && crate::text::is_digit(s[2]));
    assert(crate::text::is_digit(s[3]) && crate::text::is_digit(s[5]) && crate::text::is_digit(s[6]));
    assert(crate::text::is_digit(s[8]) && crate::text::is_digit(s[9]));
    lemma_char_digit(s[0]);
    lemma_char_digit(s[1]);
    lemma_char_digit(s[2]);
    lemma_char_digit(s[3]);
    lemma_char_digit(s[5]);
    lemma_char_digit(s[6]);
    lemma_char_digit(s[8]);
    lemma_char_digit(s[9]);
    let y = (a * 1000 + b * 100 + c * 10 + e) as nat;
    let m = (dval(s[5]) * 10 + dval(s[6])) as nat;
    let d = (dval(s[8]) * 10 + dval(s[9])) as nat;
    assert(y / 1000 % 10 == a && y / 100 % 10 == b && y / 10 % 10 == c && y % 10 == e) by (nonlinear_arith)
        requires
            0 <= a < 10, 0 <= b < 10, 0 <= c < 10, 0 <= e < 10,
            y == a * 1000 + b * 100 + c * 10 + e;
    assert(date_text(y, m, d) =~= s);
}

fn digit_val(c: char) -> (d: u32)
    requires
        crate::text::is_digit(c),
    ensures
        d == dval(c),
{
    (c as u32) - ('0' as u32)
}

pub fn is_date(s: &[char]) -> (b: bool)
    ensures
        b == is_date_spec(s@),
{
    if s.len() != 10 || s[4] != '-' || s[7] != '-' {
        return false;
    }
    let mut i: usize = 0;
    while i < 10
        invariant
            s@.len() == 10,
            i <= 10,
            forall|j: int| 0 <= j < i && j != 4 && j != 7 ==> crate::text::is_digit(#[trigger] s@[j]),
        decreases 10 - i,
    {
        if i != 4 && i != 7 && !('0' <= s[i] && s[i] <= '9') {
            assert(!crate::text::is_digit(s@[i as int]));
            return false;
        }
        i = i + 1;
    }
    assert(crate::text::is_digit(s@[0]) && crate::text::is_digit(s@[1]) && crate::text::is_digit(s@[2]));
    assert(crate::text::is_digit(s@[3]) && crate::text::is_digit(s@[5]) && crate::text::is_digit(s@[6]));
    assert(crate::text::is_digit(s@[8]) && crate::text::is_digit(s@[9]));
    let y = digit_val(s[0]) * 1000 + digit_val(s[1]) * 100 + digit_val(s[2]) * 10 + digit_val(s[3]);
    let m = digit_val(s[5]) * 10 + digit_val(s[6]);
    let d = digit_val(s[8]) * 10 + digit_val(s[9]);
    if m < 1 || m > 12 {
        return false;
    }
    let leap = y % 4 == 0 && (y % 100 != 0 || y % 400 == 0);
    let md: u32 = if m == 1 || m == 3 || m == 5 || m == 7 || m == 8 || m == 10 || m == 12 {
        31
    } else if m == 4 || m == 6 || m == 9 || m == 11 {
        30
    } else if leap {
        29
    } else {
        28
    };
    1 <= d && d <= md
}


// ---- flow lists ------------------------------------------------------------------

/// `[…]` with its brackets removed (when both are there).
pub open spec fn strip_brackets(v: Seq<char>) -> Seq<char> {
    if v.len() >= 2 && v[0] == '[' && v[v.len() - 1] == ']' {
        v.subrange(1, v.len() - 1)
    } else {
        v
    }
}

/// Splitting a flow list's inside from index `i`, with the elements so far
/// and the pending one: commas outside double quotes split; inside quotes a
/// backslash keeps the next character.
pub open spec fn flow_from(t: Seq<char>, i: int, out: Seq<Seq<char>>, cur: Seq<char>, inq: bool) -> (Seq<Seq<char>>, Seq<char>)
    decreases t.len() - i,
{
    if i < 0 || i >= t.len() {
        (out, cur)
    } else {
        let c = t[i];
        if c == '"' {
            flow_from(t, i + 1, out, cur.push('"'), !inq)
        } else if c == '\\' && inq {
            if i + 1 < t.len() {
                flow_from(t, i + 2, out, cur.push('\\').push(t[i + 1]), inq)
            } else {
                (out, cur.push('\\'))
            }
        } else if c == ',' && !inq {
            flow_from(t, i + 1, out.push(unquote_spec(trim(cur))), Seq::empty(), inq)
        } else {
            flow_from(t, i + 1, out, cur.push(c), inq)
        }
    }
}

/// The elements of a flow list `[a, b, "c, d"]`, unquoted.
pub open spec fn parse_flow_spec(v: Seq<char>) -> Seq<Seq<char>> {
    let t = trim(strip_brackets(v));
    if t.len() == 0 {
        Seq::empty()
    } else {
        let (o, c) = flow_from(t, 0, Seq::empty(), Seq::empty(), false);
        if trim(c).len() > 0 || o.len() > 0 {
            o.push(unquote_spec(trim(c)))
        } else {
            o
        }
    }
}

pub open spec fn strings_v(v: Seq<String>) -> Seq<Seq<char>> {
    v.map_values(|s: String| s@)
}

/// Splits a flow list into unquoted elements (see [`parse_flow_spec`]).
pub fn parse_flow(v: &[char]) -> (r: Vec<String>)
    ensures
        strings_v(r@) == parse_flow_spec(v@),
{
    let n = v.len();
    let inner: &[char] = if n >= 2 && v[0] == '[' && v[n - 1] == ']' {
        &v[1..n - 1]
    } else {
        v
    };
    assert(inner@ == strip_brackets(v@));
    let t = trimmed(inner);
    let mut out: Vec<String> = Vec::new();
    if t.len() == 0 {
        assert(strings_v(out@) =~= Seq::<Seq<char>>::empty());
        return out;
    }
    let mut cur: Vec<char> = Vec::new();
    let mut inq = false;
    let mut i: usize = 0;
    assert(strings_v(out@) =~= Seq::<Seq<char>>::empty());
    assert(cur@ =~= Seq::<char>::empty());
    while i < t.len()
        invariant
            i <= t@.len(),
            flow_from(t@, 0, Seq::empty(), Seq::empty(), false) == flow_from(t@, i as int, strings_v(out@), cur@, inq),
        decreases t@.len() - i,
    {
        let c = t[i];
        if c == '"' {
            inq = !inq;
            cur.push(c);
            i = i + 1;
        } else if c == '\\' && inq {
            if i + 1 < t.len() {
                cur.push(c);
                cur.push(t[i + 1]);
                i = i + 2;
            } else {
                cur.push(c);
                i = i + 1;
                assert(flow_from(t@, 0, Seq::empty(), Seq::empty(), false) == flow_from(t@, i as int, strings_v(out@), cur@, inq));
            }
        } else if c == ',' && !inq {
            let tc = trimmed(cur.as_slice());
            let u = unquote(tc.as_slice());
            let ghost before = strings_v(out@);
            out.push(u);
            assert(strings_v(out@) =~= before.push(unquote_spec(trim(cur@))));
            cur = Vec::new();
            i = i + 1;
        } else {
            cur.push(c);
            i = i + 1;
        }
    }
    let tc = trimmed(cur.as_slice());
    if tc.len() > 0 || out.len() > 0 {
        let u = unquote(tc.as_slice());
        let ghost before = strings_v(out@);
        out.push(u);
        assert(strings_v(out@) =~= before.push(unquote_spec(trim(cur@))));
    }
    out
}

// ---- raw entries ------------------------------------------------------------------

/// A frontmatter value before type coercion.
pub enum Raw {
    Scalar(String),
    List(Vec<String>),
}

pub enum RawV {
    Scalar(Seq<char>),
    List(Seq<Seq<char>>),
}

pub open spec fn raw_v(r: Raw) -> RawV {
    match r {
        Raw::Scalar(s) => RawV::Scalar(s@),
        Raw::List(v) => RawV::List(strings_v(v@)),
    }
}

/// The entry of one frontmatter line, if it is one: a non-blank line with a
/// `:`; the key is trimmed; an empty value is the empty scalar, one starting
/// with `[` a flow list, anything else an (unquoted) scalar.
pub open spec fn entry_of(line: Seq<char>) -> Seq<(Seq<char>, RawV)> {
    let t = trim(line);
    if t.len() == 0 {
        Seq::empty()
    } else {
        match index_of(t, ':') {
            None => Seq::empty(),
            Some(k) => {
                let key = trim(t.take(k));
                let v = trim(t.skip(k + 1));
                let raw = if v.len() == 0 {
                    RawV::Scalar(Seq::empty())
                } else if v[0] == '[' {
                    RawV::List(parse_flow_spec(v))
                } else {
                    RawV::Scalar(unquote_spec(v))
                };
                seq![(key, raw)]
            },
        }
    }
}

/// The entries of the frontmatter lines, in order.
pub open spec fn block_entries(ls: Seq<Seq<char>>) -> Seq<(Seq<char>, RawV)>
    decreases ls.len(),
{
    if ls.len() == 0 {
        Seq::empty()
    } else {
        block_entries(ls.drop_last()) + entry_of(ls[ls.len() - 1])
    }
}

pub open spec fn entries_v(es: Seq<(String, Raw)>) -> Seq<(Seq<char>, RawV)> {
    es.map_values(|e: (String, Raw)| (e.0@, raw_v(e.1)))
}

fn parse_entry(line: &[char]) -> (r: Option<(String, Raw)>)
    ensures
        match r {
            Some(e) => entry_of(line@) == seq![(e.0@, raw_v(e.1))],
            None => entry_of(line@).len() == 0,
        },
{
    let t = trimmed(line);
    if t.len() == 0 {
        return None;
    }
    let k = match find_char(t.as_slice(), ':') {
        None => return None,
        Some(k) => k,
    };
    let n = t.len();
    let key = trimmed(&t.as_slice()[0..k]);
    assert(t@.subrange(0, k as int) =~= t@.take(k as int));
    let v = trimmed(&t.as_slice()[k + 1..n]);
    assert(t@.subrange(k + 1, n as int) =~= t@.skip(k + 1));
    let raw = if v.len() == 0 {
        Raw::Scalar(String::new())
    } else if v[0] == '[' {
        Raw::List(parse_flow(v.as_slice()))
    } else {
        Raw::Scalar(unquote(v.as_slice()))
    };
    Some((string_of(key.as_slice()), raw))
}

/// The entries of a frontmatter block (see [`block_entries`]).
pub fn parse_block(inner: &[char]) -> (r: Vec<(String, Raw)>)
    ensures
        entries_v(r@) == block_entries(lines(inner@)),
{
    let ls = lines_of(inner);
    let ghost lv = lines(inner@);
    let mut out: Vec<(String, Raw)> = Vec::new();
    let mut i: usize = 0;
    while i < ls.len()
        invariant
            i <= ls@.len(),
            ls@.len() == lv.len(),
            forall|j: int| 0 <= j < ls@.len() ==> #[trigger] ls@[j]@ == lv[j],
            entries_v(out@) == block_entries(lv.take(i as int)),
        decreases ls@.len() - i,
    {
        assert(lv.take(i + 1).drop_last() =~= lv.take(i as int));
        assert(ls@[i as int]@ == lv[i as int]);
        let ghost before = entries_v(out@);
        match parse_entry(ls[i].as_slice()) {
            Some(e) => {
                out.push(e);
                assert(entries_v(out@) =~= before + entry_of(lv[i as int]));
            },
            None => {
                assert(entries_v(out@) =~= before + entry_of(lv[i as int]));
            },
        }
        i = i + 1;
    }
    assert(lv.take(i as int) =~= lv);
    out
}

// ---- type coercion ------------------------------------------------------------------

/// The declared type of a field, with regexes as their patterns.
pub open spec fn ftype_v(t: FieldType) -> FieldTypeSpec
    decreases t,
{
    match t {
        FieldType::Str => FieldTypeSpec::Str,
        FieldType::Int => FieldTypeSpec::Int,
        FieldType::Bool => FieldTypeSpec::Bool,
        FieldType::Date => FieldTypeSpec::Date,
        FieldType::Enum(v) => FieldTypeSpec::Enum(strings_v(v@)),
        FieldType::List(b) => FieldTypeSpec::List(Box::new(ftype_v(*b))),
        FieldType::Regex(r) => FieldTypeSpec::Re(r@),
    }
}

/// `vals` joined with `sep` between them.
pub open spec fn join_with(vals: Seq<Seq<char>>, sep: Seq<char>) -> Seq<char>
    decreases vals.len(),
{
    if vals.len() == 0 {
        Seq::empty()
    } else if vals.len() == 1 {
        vals[0]
    } else {
        join_with(vals.drop_last(), sep) + sep + vals[vals.len() - 1]
    }
}

/// A raw value checked against a declared type: the JSON value captured, or
/// why it does not conform.
pub open spec fn coerce_spec(raw: RawV, ty: FieldTypeSpec) -> Result<JsonV, Seq<char>>
    decreases ty, 0nat,
{
    match ty {
        FieldTypeSpec::Str => match raw {
            RawV::Scalar(s) => Ok(JsonV::Str(s)),
            RawV::List(_) => Err("expected a string, found a list"@),
        },
        FieldTypeSpec::Int => match raw {
            RawV::Scalar(s) => match parse_i64_spec(s) {
                Some(n) => Ok(JsonV::Int(n)),
                None => Err("is not an integer: `"@ + s + "`"@),
            },
            RawV::List(_) => Err("expected an integer, found a list"@),
        },
        FieldTypeSpec::Bool => match raw {
            RawV::Scalar(s) => if s == "true"@ {
                Ok(JsonV::Bool(true))
            } else if s == "false"@ {
                Ok(JsonV::Bool(false))
            } else {
                Err("is not a bool: `"@ + s + "`"@)
            },
            RawV::List(_) => Err("expected a bool, found a list"@),
        },
        FieldTypeSpec::Date => match raw {
            RawV::Scalar(s) => if is_date_spec(s) {
                Ok(JsonV::Str(s))
            } else {
                Err("is not a YYYY-MM-DD date: `"@ + s + "`"@)
            },
            RawV::List(_) => Err("expected a date, found a list"@),
        },
        FieldTypeSpec::Enum(vals) => match raw {
            RawV::Scalar(s) => if vals.contains(s) {
                Ok(JsonV::Str(s))
            } else {
                Err("`"@ + s + "` is not one of "@ + join_with(vals, ", "@))
            },
            RawV::List(_) => Err("expected an enum value, found a list"@),
        },
        FieldTypeSpec::Re(p) => match raw {
            RawV::Scalar(s) => if regex_is_match(p, s) {
                Ok(JsonV::Str(s))
            } else {
                Err("`"@ + s + "` does not match /"@ + p + "/"@)
            },
            RawV::List(_) => Err("expected a string, found a list"@),
        },
        FieldTypeSpec::List(inner) => {
            let items = match raw {
                RawV::List(it) => Some(it),
                RawV::Scalar(s) => if s.len() == 0 { Some(Seq::empty()) } else { None },
            };
            match items {
                None => Err("expected a list"@),
                Some(it) => match coerce_items(it, *inner) {
                    Ok(vs) => Ok(JsonV::Array(vs)),
                    Err(e) => Err(e),
                },
            }
        },
    }
}

/// The list elements coerced in order; the first failure wins.
pub open spec fn coerce_items(items: Seq<Seq<char>>, ty: FieldTypeSpec) -> Result<Seq<JsonV>, Seq<char>>
    decreases ty, items.len(),
{
    if items.len() == 0 {
        Ok(Seq::empty())
    } else {
        match coerce_items(items.drop_last(), ty) {
            Err(e) => Err(e),
            Ok(vs) => match coerce_spec(RawV::Scalar(items[items.len() - 1]), ty) {
                Ok(v) => Ok(vs.push(v)),
                Err(e) => Err(e),
            },
        }
    }
}

/// `vals` joined with `, `.
fn join_comma(vals: &Vec<String>) -> (r: String)
    ensures
        r@ == join_with(strings_v(vals@), ", "@),
{
    let ghost sv = strings_v(vals@);
    let mut out = String::new();
    let mut i: usize = 0;
    while i < vals.len()
        invariant
            i <= vals@.len(),
            sv == strings_v(vals@),
            out@ == join_with(sv.take(i as int), ", "@),
        decreases vals@.len() - i,
    {
        assert(sv.take(i + 1).drop_last() =~= sv.take(i as int));
        if i > 0 {
            push_str(&mut out, ", ");
        }
        push_str(&mut out, vals[i].as_str());
        proof {
            if i == 0 {
                assert(sv.take(1) =~= seq![sv[0]]);
            }
        }
        i = i + 1;
    }
    assert(sv.take(i as int) =~= sv);
    out
}

fn contains_str(vals: &Vec<String>, s: &String) -> (b: bool)
    ensures
        b == strings_v(vals@).contains(s@),
{
    let mut i: usize = 0;
    while i < vals.len()
        invariant
            i <= vals@.len(),
            forall|j: int| 0 <= j < i ==> vals@[j]@ != s@,
        decreases vals@.len() - i,
    {
        if vals[i] == *s {
            assert(strings_v(vals@)[i as int] == s@);
            return true;
        }
        i = i + 1;
    }
    assert forall|j: int| 0 <= j < strings_v(vals@).len() implies strings_v(vals@)[j] != s@ by {
        assert(strings_v(vals@)[j] == vals@[j]@);
    }
    false
}

fn msg3(a: &str, b: &str, c: &str) -> (r: String)
    ensures
        r@ == a@ + b@ + c@,
{
    let mut s = String::new();
    push_str(&mut s, a);
    push_str(&mut s, b);
    push_str(&mut s, c);
    s
}

pub(crate) fn msg(a: &str) -> (r: String)
    ensures
        r@ == a@,
{
    let mut s = String::new();
    push_str(&mut s, a);
    s
}

/// Checks a scalar against a scalar type (every type but a list).
fn coerce_scalar(s: &String, ty: &FieldType) -> (r: Result<Json, String>)
    requires
        !(ty is List),
    ensures
        match coerce_spec(RawV::Scalar(s@), ftype_v(*ty)) {
            Ok(v) => r matches Ok(j) && json_is(j, v),
            Err(m) => r matches Err(e) && e@ == m,
        },
{
    match ty {
        FieldType::Str => Ok(Json::Str(s.clone())),
        FieldType::Int => {
            let v = chars_of(s.as_str());
            match parse_i64(v.as_slice()) {
                Some(n) => Ok(Json::Int(n)),
                None => Err(msg3("is not an integer: `", s.as_str(), "`")),
            }
        },
        FieldType::Bool => {
            let v = chars_of(s.as_str());
            if crate::text::eq_str(v.as_slice(), "true") {
                Ok(Json::Bool(true))
            } else if crate::text::eq_str(v.as_slice(), "false") {
                Ok(Json::Bool(false))
            } else {
                Err(msg3("is not a bool: `", s.as_str(), "`"))
            }
        },
        FieldType::Date => {
            let v = chars_of(s.as_str());
            if is_date(v.as_slice()) {
                Ok(Json::Str(s.clone()))
            } else {
                Err(msg3("is not a YYYY-MM-DD date: `", s.as_str(), "`"))
            }
        },
        FieldType::Enum(vals) => {
            if contains_str(vals, s) {
                Ok(Json::Str(s.clone()))
            } else {
                let j = join_comma(vals);
                let mut m = msg3("`", s.as_str(), "` is not one of ");
                push_str(&mut m, j.as_str());
                Err(m)
            }
        },
        FieldType::Regex(re) => {
            if re.is_match(s.as_str()) {
                Ok(Json::Str(s.clone()))
            } else {
                let mut m = msg3("`", s.as_str(), "` does not match /");
                push_str(&mut m, re.as_str());
                push_str(&mut m, "/");
                Err(m)
            }
        },
        FieldType::List(_) => Err(String::new()),
    }
}

/// Checks a raw value against a declared type (see [`coerce_spec`]).
#[verifier::loop_isolation(false)]
pub fn coerce(raw: &Raw, ty: &FieldType) -> (r: Result<Json, String>)
    ensures
        match coerce_spec(raw_v(*raw), ftype_v(*ty)) {
            Ok(v) => r matches Ok(j) && json_is(j, v),
            Err(m) => r matches Err(e) && e@ == m,
        },
    decreases ty,
{
    match ty {
        FieldType::List(inner) => {
            let empty: Vec<String> = Vec::new();
            let items: &Vec<String> = match raw {
                Raw::List(items) => items,
                Raw::Scalar(s) => {
                    if s.as_str().is_empty() {
                        &empty
                    } else {
                        return Err(msg("expected a list"));
                    }
                },
            };
            let ghost iv = strings_v(items@);
            assert(match raw_v(*raw) {
                RawV::List(it) => it == iv,
                RawV::Scalar(s) => s.len() == 0 && iv =~= Seq::<Seq<char>>::empty(),
            });
            let mut arr: Vec<Json> = Vec::new();
            let ghost ity = ftype_v(**inner);
            let mut i: usize = 0;
            while i < items.len()
                invariant
                    i <= items@.len(),
                    iv == strings_v(items@),
                    ity == ftype_v(**inner),
                    coerce_items(iv.take(i as int), ity) matches Ok(vs) && jsons_are(arr@, vs),
                decreases items@.len() - i,
            {
                assert(iv.take(i + 1).drop_last() =~= iv.take(i as int));
                assert(iv.take(i + 1)[i as int] == items@[i as int]@);
                let ghost vs = coerce_items(iv.take(i as int), ity)->Ok_0;
                let it = Raw::Scalar(items[i].clone());
                let inner_ty: &FieldType = &**inner;
                match coerce(&it, inner_ty) {
                    Ok(j) => {
                        arr.push(j);
                        let ghost v = coerce_spec(RawV::Scalar(items@[i as int]@), ity)->Ok_0;
                        assert forall|k: int| 0 <= k < vs.len() + 1 implies json_is(#[trigger] arr@[k], vs.push(v)[k]) by {
                            if k < vs.len() {
                                assert(json_is(arr@[k], vs[k]));
                            }
                        }
                    },
                    Err(e) => {
                        proof {
                            assert(raw_v(it) == RawV::Scalar(iv[i as int]));
                            lemma_coerce_items_prefix_err(iv, i as int, ity);
                            assert(ftype_v(*ty) == FieldTypeSpec::List(Box::new(ity)));
                        }
                        return Err(e);
                    },
                }
                i = i + 1;
            }
            assert(iv.take(i as int) =~= iv);
            Ok(Json::Array(arr))
        },
        _ => match raw {
            Raw::Scalar(s) => coerce_scalar(s, ty),
            Raw::List(_) => match ty {
                FieldType::Str | FieldType::Regex(_) => Err(msg("expected a string, found a list")),
                FieldType::Int => Err(msg("expected an integer, found a list")),
                FieldType::Bool => Err(msg("expected a bool, found a list")),
                FieldType::Date => Err(msg("expected a date, found a list")),
                FieldType::Enum(_) => Err(msg("expected an enum value, found a list")),
                FieldType::List(_) => Err(String::new()),
            },
        },
    }
}

/// An error at element `i` (after a clean prefix) is the error of the whole
/// list.
pub proof fn lemma_coerce_items_prefix_err(items: Seq<Seq<char>>, i: int, ty: FieldTypeSpec)
    requires
        0 <= i < items.len(),
        coerce_items(items.take(i), ty) is Ok,
        coerce_spec(RawV::Scalar(items[i]), ty) is Err,
    ensures
        coerce_items(items, ty) == Err::<Seq<JsonV>, Seq<char>>(coerce_spec(RawV::Scalar(items[i]), ty)->Err_0),
    decreases items.len() - i,
{
    assert(items.take(i + 1).drop_last() =~= items.take(i));
    if i + 1 == items.len() {
        assert(items.take(i + 1) =~= items);
    } else {
        lemma_coerce_items_err_extends(items, i + 1, ty);
    }
}

/// Once a prefix fails, every longer prefix fails the same way.
pub proof fn lemma_coerce_items_err_extends(items: Seq<Seq<char>>, j: int, ty: FieldTypeSpec)
    requires
        0 <= j <= items.len(),
        coerce_items(items.take(j), ty) is Err,
    ensures
        coerce_items(items, ty) == coerce_items(items.take(j), ty),
    decreases items.len() - j,
{
    if j == items.len() {
        assert(items.take(j) =~= items);
    } else {
        assert(items.take(j + 1).drop_last() =~= items.take(j));
        lemma_coerce_items_err_extends(items, j + 1, ty);
    }
}


// ---- extraction ----------------------------------------------------------------------

/// A field declaration as values.
pub open spec fn field_v(f: FieldSchema) -> FieldSpecV {
    FieldSpecV { key: f.key@, alias: f.alias@, optional: f.optional, ty: ftype_v(f.ty) }
}

pub open spec fn fields_v(fs: Seq<FieldSchema>) -> Seq<FieldSpecV> {
    fs.map_values(|f: FieldSchema| field_v(f))
}

/// A frontmatter problem: under the given path segment, without a span.
pub open spec fn fm_problem_v(seg: Seq<char>, message: Seq<char>) -> ProblemV {
    ProblemV { path: seq![seg], message, span: None }
}

/// The value of the first entry with key `k`.
pub open spec fn raw_lookup(raw: Seq<(Seq<char>, RawV)>, k: Seq<char>) -> Option<RawV>
    decreases raw.len(),
{
    if raw.len() == 0 {
        None
    } else if raw[0].0 == k {
        Some(raw[0].1)
    } else {
        raw_lookup(raw.drop_first(), k)
    }
}

/// The declared fields checked in order against the entries: a missing
/// required key, or a value of the wrong type, is a problem; a conforming
/// value is captured under the field's alias into `obj`.
pub open spec fn fields_pass(fields: Seq<FieldSpecV>, raw: Seq<(Seq<char>, RawV)>, obj: Seq<(Seq<char>, JsonV)>)
    -> (Seq<ProblemV>, Seq<(Seq<char>, JsonV)>)
    decreases fields.len(),
{
    if fields.len() == 0 {
        (Seq::empty(), obj)
    } else {
        let (ps, o) = fields_pass(fields.drop_last(), raw, obj);
        let f = fields[fields.len() - 1];
        match raw_lookup(raw, f.key) {
            None => if f.optional {
                (ps, o)
            } else {
                (ps.push(fm_problem_v(f.alias, "missing required frontmatter key `"@ + f.key + "`"@)), o)
            },
            Some(val) => match coerce_spec(val, f.ty) {
                Ok(v) => (ps, obj_insert(o, f.alias, v)),
                Err(reason) => (ps.push(fm_problem_v(f.alias, "frontmatter key `"@ + f.key + "` "@ + reason)), o),
            },
        }
    }
}

/// Whether some field declares key `k`.
pub open spec fn declares(fields: Seq<FieldSpecV>, k: Seq<char>) -> bool {
    exists|i: int| 0 <= i < fields.len() && (#[trigger] fields[i]).key == k
}

/// A problem for each entry whose key no field declares.
pub open spec fn unknown_keys(raw: Seq<(Seq<char>, RawV)>, fields: Seq<FieldSpecV>) -> Seq<ProblemV>
    decreases raw.len(),
{
    if raw.len() == 0 {
        Seq::empty()
    } else {
        let ps = unknown_keys(raw.drop_last(), fields);
        let k = raw[raw.len() - 1].0;
        if declares(fields, k) {
            ps
        } else {
            ps.push(fm_problem_v(k, "unexpected frontmatter key `"@ + k + "`"@))
        }
    }
}

/// Whether declared field `f` is satisfied by the entries: present with a
/// value of its type, or absent and optional.
pub open spec fn field_ok(f: FieldSpecV, raw: Seq<(Seq<char>, RawV)>) -> bool {
    match raw_lookup(raw, f.key) {
        None => f.optional,
        Some(val) => coerce_spec(val, f.ty) is Ok,
    }
}

/// Frontmatter fields are checked one by one: one problem for each declared
/// field that is missing while required, or holds a value not of its type,
/// and none for the others; so the fields pass clean exactly when every one
/// is satisfied.
pub proof fn law_fields_problems(fields: Seq<FieldSpecV>, raw: Seq<(Seq<char>, RawV)>, obj: Seq<(Seq<char>, JsonV)>)
    ensures
        fields_pass(fields, raw, obj).0.len() == fields.filter(|f: FieldSpecV| !field_ok(f, raw)).len(),
        fields_pass(fields, raw, obj).0.len() == 0 <==> forall|i: int| 0 <= i < fields.len() ==> field_ok(#[trigger] fields[i], raw),
    decreases fields.len(),
{
    let pred = |f: FieldSpecV| !field_ok(f, raw);
    if fields.len() == 0 {
        assert(fields.filter(pred) =~= Seq::<FieldSpecV>::empty());
    } else {
        let init = fields.drop_last();
        law_fields_problems(init, raw, obj);
        assert(init.push(fields.last()) =~= fields);
        init.lemma_filter_push(fields.last(), pred);
        if fields_pass(fields, raw, obj).0.len() == 0 {
            assert forall|i: int| 0 <= i < fields.len() implies field_ok(#[trigger] fields[i], raw) by {
                if i < init.len() {
                    assert(init[i] == fields[i]);
                    assert(field_ok(init[i], raw));
                }
            }
        }
        if forall|i: int| 0 <= i < fields.len() ==> field_ok(#[trigger] fields[i], raw) {
            assert forall|i: int| 0 <= i < init.len() implies field_ok(#[trigger] init[i], raw) by {
                assert(init[i] == fields[i]);
            }
            assert(field_ok(fields[fields.len() - 1], raw));
        }
    }
}

/// A closed frontmatter reports one problem for each entry whose key no
/// field declares, and none for the others.
pub proof fn law_unknown_keys(raw: Seq<(Seq<char>, RawV)>, fields: Seq<FieldSpecV>)
    ensures
        unknown_keys(raw, fields).len() == raw.filter(|e: (Seq<char>, RawV)| !declares(fields, e.0)).len(),
    decreases raw.len(),
{
    let pred = |e: (Seq<char>, RawV)| !declares(fields, e.0);
    if raw.len() == 0 {
        assert(raw.filter(pred) =~= Seq::<(Seq<char>, RawV)>::empty());
    } else {
        let init = raw.drop_last();
        law_unknown_keys(init, fields);
        assert(init.push(raw.last()) =~= raw);
        init.lemma_filter_push(raw.last(), pred);
    }
}

/// The text of a document's frontmatter block (empty without one).
pub open spec fn fm_text(md: Seq<u8>) -> Seq<char> {
    match fm_bounds(md) {
        Some((a, b, _)) => vstd::utf8::decode_utf8(md.subrange(a, b)),
        None => Seq::empty(),
    }
}

/// Frontmatter checking: with no declared fields, nothing; else the fields'
/// problems and captures, then (for a closed frontmatter) the undeclared keys.
pub open spec fn fm_extract_spec(fields: Seq<FieldSpecV>, md: Seq<u8>, open: bool, obj: Seq<(Seq<char>, JsonV)>)
    -> (Seq<ProblemV>, Seq<(Seq<char>, JsonV)>)
{
    if fields.len() == 0 {
        (Seq::empty(), obj)
    } else {
        let raw = block_entries(lines(fm_text(md)));
        let (ps, o) = fields_pass(fields, raw, obj);
        (if open { ps } else { ps + unknown_keys(raw, fields) }, o)
    }
}

/// A problem under one path segment, without a span.
pub fn fm_problem(seg: &str, message: String) -> (p: Problem)
    ensures
        problem_is(p, fm_problem_v(seg@, message@)),
{
    let mut path: Vec<String> = Vec::new();
    path.push(msg(seg));
    assert(path@.map_values(|s: String| s@) =~= seq![seg@]);
    Problem { path, message, span: None }
}

fn raw_find(raw: &Vec<(String, Raw)>, k: &String) -> (r: Option<usize>)
    ensures
        match raw_lookup(entries_v(raw@), k@) {
            None => r is None,
            Some(v) => r matches Some(i) && i < raw@.len() && raw_v(raw@[i as int].1) == v,
        },
{
    let ghost ev = entries_v(raw@);
    let mut i: usize = 0;
    assert(ev.skip(0) =~= ev);
    while i < raw.len()
        invariant
            i <= raw@.len(),
            ev == entries_v(raw@),
            raw_lookup(ev, k@) == raw_lookup(ev.skip(i as int), k@),
        decreases raw@.len() - i,
    {
        assert(ev.skip(i as int)[0] == ev[i as int]);
        if raw[i].0 == *k {
            return Some(i);
        }
        assert(ev.skip(i as int).drop_first() =~= ev.skip(i + 1));
        i = i + 1;
    }
    None
}

fn declares_key(fields: &Vec<FieldSchema>, k: &String) -> (b: bool)
    ensures
        b == declares(fields_v(fields@), k@),
{
    let mut i: usize = 0;
    while i < fields.len()
        invariant
            i <= fields@.len(),
            forall|j: int| 0 <= j < i ==> fields@[j].key@ != k@,
        decreases fields@.len() - i,
    {
        if fields[i].key == *k {
            assert(fields_v(fields@)[i as int].key == k@);
            return true;
        }
        i = i + 1;
    }
    assert forall|j: int| 0 <= j < fields_v(fields@).len() implies (#[trigger] fields_v(fields@)[j]).key != k@ by {
        assert(fields_v(fields@)[j] == field_v(fields@[j]));
    }
    false
}

/// Type-checks a document's frontmatter against the declared fields,
/// appending problems and capturing conforming values into the object `out`
/// (see [`fm_extract_spec`]).
pub fn extract_frontmatter(fields: &Vec<FieldSchema>, md: &str, opts: SchemaOpts, problems: &mut Vec<Problem>, out: &mut Json)
    ensures
        forall|obj: Seq<(Seq<char>, JsonV)>, ps0: Seq<ProblemV>|
            #![trigger json_is(*old(out), JsonV::Object(obj)), problems_are(old(problems)@, ps0)]
            json_is(*old(out), JsonV::Object(obj)) && problems_are(old(problems)@, ps0) ==> {
                let (ps, o) = fm_extract_spec(fields_v(fields@), md.spec_bytes(), opts.frontmatter_open, obj);
                json_is(*final(out), JsonV::Object(o)) && problems_are(final(problems)@, ps0 + ps)
            },
        *old(out) is Object ==> *final(out) is Object,
{
    if fields.len() == 0 {
        assert forall|obj: Seq<(Seq<char>, JsonV)>, ps0: Seq<ProblemV>|
            #![trigger json_is(*old(out), JsonV::Object(obj)), problems_are(old(problems)@, ps0)]
            json_is(*old(out), JsonV::Object(obj)) && problems_are(old(problems)@, ps0) implies {
                let (ps, o) = fm_extract_spec(fields_v(fields@), md.spec_bytes(), opts.frontmatter_open, obj);
                json_is(*final(out), JsonV::Object(o)) && problems_are(final(problems)@, ps0 + ps)
            } by {
            assert(ps0 + Seq::<ProblemV>::empty() =~= ps0);
        }
        return;
    }
    let text: Vec<char> = match frontmatter_block(md) {
        Some(inner) => chars_of(inner),
        None => Vec::new(),
    };
    assert(text@ == fm_text(md.spec_bytes()));
    let raw = parse_block(text.as_slice());
    let ghost rv = entries_v(raw@);
    let ghost fv = fields_v(fields@);
    let ghost p_start = problems@;
    let ghost out_start = *out;
    let mut i: usize = 0;
    while i < fields.len()
        invariant
            i <= fields@.len(),
            fv == fields_v(fields@),
            rv == entries_v(raw@),
            rv == block_entries(lines(fm_text(md.spec_bytes()))),
            p_start == old(problems)@,
            out_start == *old(out),
            *old(out) is Object ==> *out is Object,
            forall|obj: Seq<(Seq<char>, JsonV)>, ps0: Seq<ProblemV>|
                #![trigger json_is(out_start, JsonV::Object(obj)), problems_are(p_start, ps0)]
                json_is(out_start, JsonV::Object(obj)) && problems_are(p_start, ps0) ==> {
                    let (ps, o) = fields_pass(fv.take(i as int), rv, obj);
                    json_is(*out, JsonV::Object(o)) && problems_are(problems@, ps0 + ps)
                },
        decreases fields@.len() - i,
    {
        let f = &fields[i];
        assert(fv.take(i + 1).drop_last() =~= fv.take(i as int));
        assert(fv.take(i + 1)[i as int] == field_v(fields@[i as int]));
        let ghost pb = problems@;
        let ghost ob = *out;
        match raw_find(&raw, &f.key) {
            None => {
                if !f.optional {
                    let m = msg3("missing required frontmatter key `", f.key.as_str(), "`");
                    problems.push(fm_problem(f.alias.as_str(), m));
                }
            },
            Some(k) => {
                match coerce(&raw[k].1, &f.ty) {
                    Ok(v) => {
                        out.insert(f.alias.clone(), v);
                    },
                    Err(reason) => {
                        let mut m = msg3("frontmatter key `", f.key.as_str(), "` ");
                        push_str(&mut m, reason.as_str());
                        problems.push(fm_problem(f.alias.as_str(), m));
                    },
                }
            },
        }
        proof {
            assert forall|obj: Seq<(Seq<char>, JsonV)>, ps0: Seq<ProblemV>|
                #![trigger json_is(out_start, JsonV::Object(obj)), problems_are(p_start, ps0)]
                json_is(out_start, JsonV::Object(obj)) && problems_are(p_start, ps0) implies {
                    let (ps, o) = fields_pass(fv.take(i + 1), rv, obj);
                    json_is(*out, JsonV::Object(o)) && problems_are(problems@, ps0 + ps)
                } by {
                let (ps1, o1) = fields_pass(fv.take(i as int), rv, obj);
                assert(json_is(ob, JsonV::Object(o1)) && problems_are(pb, ps0 + ps1));
                let (ps2, o2) = fields_pass(fv.take(i + 1), rv, obj);
                if problems@.len() > pb.len() {
                    assert(ps2 == ps1.push(ps2[ps2.len() - 1]));
                    assert(ps0 + ps2 =~= (ps0 + ps1).push(ps2[ps2.len() - 1]));
                } else {
                    assert(ps2 == ps1);
                }
            }
        }
        i = i + 1;
    }
    assert(fv.take(i as int) =~= fv);
    if !opts.frontmatter_open {
        let mut j: usize = 0;
        while j < raw.len()
            invariant
                j <= raw@.len(),
                fv == fields_v(fields@),
                rv == entries_v(raw@),
                p_start == old(problems)@,
                out_start == *old(out),
                forall|obj: Seq<(Seq<char>, JsonV)>, ps0: Seq<ProblemV>|
                    #![trigger json_is(out_start, JsonV::Object(obj)), problems_are(p_start, ps0)]
                    json_is(out_start, JsonV::Object(obj)) && problems_are(p_start, ps0) ==> {
                        let (ps, o) = fields_pass(fv, rv, obj);
                        json_is(*out, JsonV::Object(o)) && problems_are(problems@, ps0 + ps + unknown_keys(rv.take(j as int), fv))
                    },
            decreases raw@.len() - j,
        {
            let ghost before = problems@;
            assert(rv.take(j + 1).drop_last() =~= rv.take(j as int));
            assert(rv.take(j + 1)[j as int] == rv[j as int]);
            assert(rv[j as int].0 == raw@[j as int].0@);
            let d = declares_key(fields, &raw[j].0);
            if !d {
                let m = msg3("unexpected frontmatter key `", raw[j].0.as_str(), "`");
                problems.push(fm_problem(raw[j].0.as_str(), m));
            }
            proof {
                assert forall|obj: Seq<(Seq<char>, JsonV)>, ps0: Seq<ProblemV>|
                    #![trigger json_is(out_start, JsonV::Object(obj)), problems_are(p_start, ps0)]
                    json_is(out_start, JsonV::Object(obj)) && problems_are(p_start, ps0) implies {
                        let (ps, o) = fields_pass(fv, rv, obj);
                        json_is(*out, JsonV::Object(o)) && problems_are(problems@, ps0 + ps + unknown_keys(rv.take(j + 1), fv))
                    } by {
                    let (ps, o) = fields_pass(fv, rv, obj);
                    let u0 = unknown_keys(rv.take(j as int), fv);
                    let u1 = unknown_keys(rv.take(j + 1), fv);
                    assert(problems_are(before, ps0 + ps + u0));
                    if !d {
                        assert(u1 == u0.push(u1[u1.len() - 1]));
                        assert(ps0 + ps + u1 =~= (ps0 + ps + u0).push(u1[u1.len() - 1]));
                    } else {
                        assert(u1 == u0);
                    }
                }
            }
            j = j + 1;
        }
        proof {
            assert(rv.take(j as int) =~= rv);
            assert forall|obj: Seq<(Seq<char>, JsonV)>, ps0: Seq<ProblemV>|
                #![trigger json_is(out_start, JsonV::Object(obj)), problems_are(p_start, ps0)]
                json_is(out_start, JsonV::Object(obj)) && problems_are(p_start, ps0) implies {
                    let (ps, o) = fm_extract_spec(fields_v(fields@), md.spec_bytes(), opts.frontmatter_open, obj);
                    json_is(*final(out), JsonV::Object(o)) && problems_are(final(problems)@, ps0 + ps)
                } by {
                let (ps1, o1) = fields_pass(fv, rv, obj);
                assert(ps0 + (ps1 + unknown_keys(rv, fv)) =~= ps0 + ps1 + unknown_keys(rv, fv));
            }
        }
    }
}


// ---- rendering -------------------------------------------------------------------------

/// A value written as a frontmatter value of the declared type, or why it
/// cannot be.
pub open spec fn rv_spec(key: Seq<char>, v: JsonV, ty: FieldTypeSpec) -> Result<Seq<char>, RenderErrV>
    decreases ty, 0nat,
{
    match ty {
        FieldTypeSpec::Str | FieldTypeSpec::Date | FieldTypeSpec::Re(_) => match v {
            JsonV::Str(s) => Ok(quote_scalar_spec(s)),
            _ => Err(RenderErrV::WrongType(key, "string"@)),
        },
        FieldTypeSpec::Int => match v {
            JsonV::Int(n) => Ok(signed_decimal(n as int)),
            _ => Err(RenderErrV::WrongType(key, "integer"@)),
        },
        FieldTypeSpec::Bool => match v {
            JsonV::Bool(b) => Ok(if b { "true"@ } else { "false"@ }),
            _ => Err(RenderErrV::WrongType(key, "bool"@)),
        },
        FieldTypeSpec::Enum(vals) => match v {
            JsonV::Str(s) => if vals.contains(s) {
                Ok(quote_scalar_spec(s))
            } else {
                Err(RenderErrV::InvalidFrontmatter(key, "`"@ + s + "` is not one of "@ + join_with(vals, ", "@)))
            },
            _ => Err(RenderErrV::WrongType(key, "string"@)),
        },
        FieldTypeSpec::List(inner) => match v {
            JsonV::Array(arr) => match rv_items(key, arr, *inner) {
                Ok(parts) => Ok("["@ + join_with(parts, ", "@) + "]"@),
                Err(e) => Err(e),
            },
            _ => Err(RenderErrV::WrongType(key, "array"@)),
        },
    }
}

/// The elements of a list written in order; the first failure wins.
pub open spec fn rv_items(key: Seq<char>, arr: Seq<JsonV>, ty: FieldTypeSpec) -> Result<Seq<Seq<char>>, RenderErrV>
    decreases ty, arr.len(),
{
    if arr.len() == 0 {
        Ok(Seq::empty())
    } else {
        match rv_items(key, arr.drop_last(), ty) {
            Err(e) => Err(e),
            Ok(ps) => match rv_spec(key, arr[arr.len() - 1], ty) {
                Ok(p) => Ok(ps.push(p)),
                Err(e) => Err(e),
            },
        }
    }
}

pub proof fn lemma_rv_items_err_extends(key: Seq<char>, arr: Seq<JsonV>, j: int, ty: FieldTypeSpec)
    requires
        0 <= j <= arr.len(),
        rv_items(key, arr.take(j), ty) is Err,
    ensures
        rv_items(key, arr, ty) == rv_items(key, arr.take(j), ty),
    decreases arr.len() - j,
{
    if j == arr.len() {
        assert(arr.take(j) =~= arr);
    } else {
        assert(arr.take(j + 1).drop_last() =~= arr.take(j));
        lemma_rv_items_err_extends(key, arr, j + 1, ty);
    }
}

fn wrong_type(key: &str, expected: &'static str) -> (e: RenderError)
    ensures
        render_err_is(e, RenderErrV::WrongType(key@, expected@)),
{
    RenderError::WrongType { field: msg(key), expected }
}

/// Writes a value as a frontmatter value of the declared type (see
/// [`rv_spec`]).
#[verifier::loop_isolation(false)]
pub fn render_value(key: &str, v: &Json, ty: &FieldType) -> (r: Result<String, RenderError>)
    ensures
        forall|jv: JsonV| #[trigger] json_is(*v, jv) ==> match rv_spec(key@, jv, ftype_v(*ty)) {
            Ok(t) => r matches Ok(s) && s@ == t,
            Err(e) => r matches Err(re) && render_err_is(re, e),
        },
    decreases ty,
{
    match ty {
        FieldType::Str | FieldType::Date | FieldType::Regex(_) => match v {
            Json::Str(s) => {
                let c = chars_of(s.as_str());
                Ok(quote_scalar(c.as_slice()))
            },
            _ => Err(wrong_type(key, "string")),
        },
        FieldType::Int => match v {
            Json::Int(n) => {
                let mut s = String::new();
                push_signed(&mut s, *n);
                Ok(s)
            },
            _ => Err(wrong_type(key, "integer")),
        },
        FieldType::Bool => match v {
            Json::Bool(b) => Ok(if *b { msg("true") } else { msg("false") }),
            _ => Err(wrong_type(key, "bool")),
        },
        FieldType::Enum(vals) => match v {
            Json::Str(s) => {
                if contains_str(vals, s) {
                    let c = chars_of(s.as_str());
                    Ok(quote_scalar(c.as_slice()))
                } else {
                    let j = join_comma(vals);
                    let mut m = msg3("`", s.as_str(), "` is not one of ");
                    push_str(&mut m, j.as_str());
                    Err(RenderError::InvalidFrontmatter { key: msg(key), reason: m })
                }
            },
            _ => Err(wrong_type(key, "string")),
        },
        FieldType::List(inner) => match v {
            Json::Array(arr) => {
                let inner_ty: &FieldType = &**inner;
                let ghost ity = ftype_v(*inner_ty);
                let mut parts: Vec<String> = Vec::new();
                let mut i: usize = 0;
                assert(strings_v(parts@) =~= Seq::<Seq<char>>::empty());
                assert forall|jv: JsonV| #[trigger] json_is(*v, jv) implies (jv matches JsonV::Array(av) &&
                    rv_items(key@, av.take(0), ity) == Ok::<Seq<Seq<char>>, RenderErrV>(strings_v(parts@))) by {
                    if let JsonV::Array(av) = jv {
                        assert(av.take(0) =~= Seq::<JsonV>::empty());
                    }
                }
                while i < arr.len()
                    invariant
                        i <= arr@.len(),
                        forall|jv: JsonV| #[trigger] json_is(*v, jv) ==> (jv matches JsonV::Array(av) &&
                            rv_items(key@, av.take(i as int), ity) == Ok::<Seq<Seq<char>>, RenderErrV>(strings_v(parts@))),
                    decreases arr@.len() - i,
                {
                    let ghost pv = strings_v(parts@);
                    match render_value(key, &arr[i], inner_ty) {
                        Ok(t) => {
                            parts.push(t);
                            proof {
                                assert forall|jv: JsonV| #[trigger] json_is(*v, jv) implies (jv matches JsonV::Array(av) &&
                                    rv_items(key@, av.take(i + 1), ity) == Ok::<Seq<Seq<char>>, RenderErrV>(strings_v(parts@))) by {
                                    if let JsonV::Array(av) = jv {
                                        assert(json_is(arr@[i as int], av[i as int]));
                                        assert(av.take(i + 1).drop_last() =~= av.take(i as int));
                                        assert(av.take(i + 1)[i as int] == av[i as int]);
                                        assert(strings_v(parts@) =~= pv.push(t@));
                                    }
                                }
                            }
                        },
                        Err(e) => {
                            proof {
                                assert forall|jv: JsonV| #[trigger] json_is(*v, jv) implies match rv_spec(key@, jv, ftype_v(*ty)) {
                                    Ok(t) => false,
                                    Err(x) => render_err_is(e, x),
                                } by {
                                    if let JsonV::Array(av) = jv {
                                        assert(json_is(arr@[i as int], av[i as int]));
                                        assert(av.take(i + 1).drop_last() =~= av.take(i as int));
                                        assert(av.take(i + 1)[i as int] == av[i as int]);
                                        lemma_rv_items_err_extends(key@, av, i + 1, ity);
                                    }
                                }
                            }
                            return Err(e);
                        },
                    }
                    i = i + 1;
                }
                let j = join_comma(&parts);
                let mut out = msg("[");
                push_str(&mut out, j.as_str());
                push_str(&mut out, "]");
                proof {
                    assert forall|jv: JsonV| #[trigger] json_is(*v, jv) implies (jv matches JsonV::Array(av) && av.take(i as int) == av) by {
                        if let JsonV::Array(av) = jv {
                            assert(av.take(i as int) =~= av);
                        }
                    }
                }
                Ok(out)
            },
            _ => Err(wrong_type(key, "array")),
        },
    }
}

/// The frontmatter lines of the declared fields written from `data` (a
/// missing or `null` value is skipped for an optional field and an error for
/// a required one).
pub open spec fn fm_lines(fields: Seq<FieldSpecV>, data: JsonV) -> Result<Seq<char>, RenderErrV>
    decreases fields.len(),
{
    if fields.len() == 0 {
        Ok(Seq::empty())
    } else {
        match fm_lines(fields.drop_last(), data) {
            Err(e) => Err(e),
            Ok(acc) => {
                let f = fields[fields.len() - 1];
                match value_get(data, f.alias) {
                    Some(v) if !(v is Null) => match rv_spec(f.key, v, f.ty) {
                        Ok(t) => Ok(acc + f.key + ": "@ + t + "\n"@),
                        Err(e) => Err(e),
                    },
                    _ => if f.optional {
                        Ok(acc)
                    } else {
                        Err(RenderErrV::MissingField(f.alias))
                    },
                }
            },
        }
    }
}

/// The frontmatter block written from `data` (fences and a blank line
/// after), or nothing when no field is declared.
pub open spec fn fm_render_spec(fields: Seq<FieldSpecV>, data: JsonV) -> Result<Seq<char>, RenderErrV> {
    if fields.len() == 0 {
        Ok(Seq::empty())
    } else {
        match fm_lines(fields, data) {
            Ok(body) => Ok("---\n"@ + body + "---\n\n"@),
            Err(e) => Err(e),
        }
    }
}

pub proof fn lemma_fm_lines_err_extends(fields: Seq<FieldSpecV>, data: JsonV, j: int)
    requires
        0 <= j <= fields.len(),
        fm_lines(fields.take(j), data) is Err,
    ensures
        fm_lines(fields, data) == fm_lines(fields.take(j), data),
    decreases fields.len() - j,
{
    if j == fields.len() {
        assert(fields.take(j) =~= fields);
    } else {
        assert(fields.take(j + 1).drop_last() =~= fields.take(j));
        lemma_fm_lines_err_extends(fields, data, j + 1);
    }
}

/// Writes the frontmatter block (see [`fm_render_spec`]).
pub fn render_frontmatter(fields: &Vec<FieldSchema>, data: &Json) -> (r: Result<String, RenderError>)
    ensures
        forall|dv: JsonV| #[trigger] json_is(*data, dv) ==> match fm_render_spec(fields_v(fields@), dv) {
            Ok(t) => r matches Ok(s) && s@ == t,
            Err(e) => r matches Err(re) && render_err_is(re, e),
        },
{
    if fields.len() == 0 {
        return Ok(String::new());
    }
    let ghost fv = fields_v(fields@);
    let mut out = msg("---\n");
    let mut i: usize = 0;
    while i < fields.len()
        invariant
            i <= fields@.len(),
            fv == fields_v(fields@),
            forall|dv: JsonV| #[trigger] json_is(*data, dv) ==>
                (fm_lines(fv.take(i as int), dv) matches Ok(acc) && out@ == "---\n"@ + acc),
        decreases fields@.len() - i,
    {
        let f = &fields[i];
        assert(fv.take(i + 1).drop_last() =~= fv.take(i as int));
        assert(fv.take(i + 1)[i as int] == field_v(fields@[i as int]));
        let ghost before = out@;
        let v = data.get(f.alias.as_str());
        let present = match v {
            Some(j) => match j {
                Json::Null => false,
                _ => true,
            },
            None => false,
        };
        if present {
            let j = v.unwrap();
            match render_value(f.key.as_str(), j, &f.ty) {
                Ok(t) => {
                    push_str(&mut out, f.key.as_str());
                    push_str(&mut out, ": ");
                    push_str(&mut out, t.as_str());
                    push_str(&mut out, "\n");
                },
                Err(e) => {
                    proof {
                        assert forall|dv: JsonV| #[trigger] json_is(*data, dv) implies match fm_render_spec(fields_v(fields@), dv) {
                            Ok(t) => false,
                            Err(x) => render_err_is(e, x),
                        } by {
                            lemma_fm_lines_err_extends(fv, dv, i + 1);
                        }
                    }
                    return Err(e);
                },
            }
        } else if !f.optional {
            let e = RenderError::MissingField(f.alias.clone());
            proof {
                assert forall|dv: JsonV| #[trigger] json_is(*data, dv) implies match fm_render_spec(fields_v(fields@), dv) {
                    Ok(t) => false,
                    Err(x) => render_err_is(e, x),
                } by {
                    lemma_fm_lines_err_extends(fv, dv, i + 1);
                }
            }
            return Err(e);
        }
        proof {
            assert forall|dv: JsonV| #[trigger] json_is(*data, dv) implies
                (fm_lines(fv.take(i + 1), dv) matches Ok(acc) && out@ == "---\n"@ + acc) by {
                let acc0 = fm_lines(fv.take(i as int), dv)->Ok_0;
                assert(before == "---\n"@ + acc0);
                if present {
                    assert(out@ =~= "---\n"@ + (acc0 + f.key@ + ": "@ + rv_spec(f.key@, value_get(dv, f.alias@)->Some_0, ftype_v(f.ty))->Ok_0 + "\n"@));
                }
            }
        }
        i = i + 1;
    }
    push_str(&mut out, "---\n\n");
    proof {
        assert(fv.take(i as int) =~= fv);
    }
    Ok(out)
}

/// A value of the declared type to scaffold a required key with.
pub open spec fn placeholder_spec(ty: FieldTypeSpec) -> Seq<char> {
    match ty {
        FieldTypeSpec::Str => "\"\""@,
        FieldTypeSpec::Int => "0"@,
        FieldTypeSpec::Bool => "false"@,
        FieldTypeSpec::Date => "1970-01-01"@,
        FieldTypeSpec::Enum(vals) => if vals.len() > 0 { vals[0] } else { Seq::empty() },
        FieldTypeSpec::List(_) => "[]"@,
        FieldTypeSpec::Re(_) => "\"\""@,
    }
}

/// What a scaffold writes for a required field reads back as a value of
/// the field's type: the line `key: placeholder` is one entry, under that
/// key, and checking it against the type succeeds. So a scaffold's
/// frontmatter validates. A regex type is left out (no one value matches
/// every regex), and so is an enum whose first value would not read back as
/// itself (one starting with `[`, or quoted).
pub proof fn law_placeholder_fits_its_type(key: Seq<char>, ty: FieldTypeSpec)
    requires
        forall|i: int| 0 <= i < key.len() ==> in_class(#[trigger] key[i], CharClass::KeyChar),
        !(ty is Re),
        ty matches FieldTypeSpec::Enum(vals) ==> vals.len() > 0 && vals[0].len() > 0 && !is_ws(vals[0][0])
            && !is_ws(vals[0][vals[0].len() - 1]) && vals[0][0] != '[' && unquote_spec(vals[0]) == vals[0],
    ensures
        entry_of(key + ": "@ + placeholder_spec(ty)).len() == 1,
        entry_of(key + ": "@ + placeholder_spec(ty))[0].0 == key,
        coerce_spec(entry_of(key + ": "@ + placeholder_spec(ty))[0].1, ty) is Ok,
{
    let t = placeholder_spec(ty);
    reveal_strlit("\"\"");
    reveal_strlit("0");
    reveal_strlit("false");
    reveal_strlit("1970-01-01");
    reveal_strlit("[]");
    match ty {
        FieldTypeSpec::Enum(vals) => {
            lemma_entry_written(key, t);
            assert(vals[0] == vals[0]);
            assert(vals.contains(vals[0]));
        },
        FieldTypeSpec::Int => {
            lemma_entry_written(key, t);
            crate::text::lemma_trim_no_ws_ends(t);
            assert(unquote_spec(t) == t);
            assert(t.len() == 1 && t[0] == '0');
            assert(crate::text::digits_value(t) == Some(0nat));
            assert(crate::text::parse_i64_spec(t) == Some(0i64));
        },
        FieldTypeSpec::Bool => {
            lemma_entry_written(key, t);
            crate::text::lemma_trim_no_ws_ends(t);
            assert(unquote_spec(t) == t);
        },
        FieldTypeSpec::Date => {
            lemma_entry_written(key, t);
            crate::text::lemma_trim_no_ws_ends(t);
            assert(unquote_spec(t) == t);
            law_calendar_dates(1970, 1, 1);
            assert(date_text(1970, 1, 1) =~= t);
        },
        FieldTypeSpec::List(_) => {
            lemma_entry_written(key, t);
            assert(strip_brackets(t) =~= Seq::<char>::empty());
            assert(trim(Seq::<char>::empty()).len() == 0) by {
                crate::text::lemma_trim_len(Seq::<char>::empty());
            }
            assert(parse_flow_spec(t) =~= Seq::<Seq<char>>::empty());
        },
        _ => {
            lemma_entry_written(key, t);
        },
    }
}

/// A type-valid placeholder for scaffolding a required key (a regex has no
/// universal value and gets the empty string).
pub fn placeholder(ty: &FieldType) -> (r: String)
    ensures
        r@ == placeholder_spec(ftype_v(*ty)),
{
    match ty {
        FieldType::Str => msg("\"\""),
        FieldType::Int => msg("0"),
        FieldType::Bool => msg("false"),
        FieldType::Date => msg("1970-01-01"),
        FieldType::Enum(vals) => if vals.len() > 0 {
            vals[0].clone()
        } else {
            String::new()
        },
        FieldType::List(_) => msg("[]"),
        FieldType::Regex(_) => msg("\"\""),
    }
}

// ---- reading back what was written ----------------------------------------------------

/// A piece of a flow list as written: plain text holding no quote and no
/// comma, or a double-quoted scalar with its quotes and backslashes escaped.
pub open spec fn flow_part(p: Seq<char>) -> bool {
    ||| forall|j: int| 0 <= j < p.len() ==> p[j] != '"' && p[j] != ','
    ||| exists|s: Seq<char>| p == seq!['"'] + escape_quoted(s) + seq!['"']
}

/// A written piece: a flow part, not empty, without whitespace at its ends.
pub open spec fn written_part(p: Seq<char>) -> bool {
    &&& flow_part(p)
    &&& p.len() > 0
    &&& !is_ws(p[0])
    &&& !is_ws(p[p.len() - 1])
}

proof fn lemma_flow_plain(t: Seq<char>, i: int, out: Seq<Seq<char>>, cur: Seq<char>, p: Seq<char>)
    requires
        0 <= i,
        i + p.len() <= t.len(),
        t.subrange(i, i + p.len()) == p,
        forall|j: int| 0 <= j < p.len() ==> p[j] != '"' && p[j] != ',',
    ensures
        flow_from(t, i, out, cur, false) == flow_from(t, i + p.len(), out, cur + p, false),
    decreases p.len(),
{
    if p.len() == 0 {
        assert(cur + p =~= cur);
    } else {
        assert(t[i] == p[0]);
        let q = p.drop_first();
        assert(t.subrange(i + 1, i + 1 + q.len()) =~= q);
        lemma_flow_plain(t, i + 1, out, cur.push(p[0]), q);
        assert(cur.push(p[0]) + q =~= cur + p);
    }
}

proof fn lemma_flow_escaped(t: Seq<char>, i: int, out: Seq<Seq<char>>, cur: Seq<char>, s: Seq<char>)
    requires
        0 <= i,
        i + escape_quoted(s).len() < t.len(),
        t.subrange(i, i + escape_quoted(s).len()) == escape_quoted(s),
    ensures
        flow_from(t, i, out, cur, true) == flow_from(t, i + escape_quoted(s).len(), out, cur + escape_quoted(s), true),
    decreases s.len(),
{
    let e = escape_quoted(s);
    if s.len() == 0 {
        assert(cur + e =~= cur);
    } else {
        let h = esc_out(s[0]);
        let r = escape_quoted(s.skip(1));
        assert(e == h + r);
        assert(t[i] == e[0]);
        let w = t.subrange(i, i + e.len());
        assert(w == e);
        assert(t[i] == w[0]);
        if h.len() == 2 {
            assert(t[i + 1] == w[1]);
            assert(t.subrange(i + 2, i + 2 + r.len()) =~= w.subrange(2, w.len() as int));
            assert(e.subrange(2, e.len() as int) =~= r);
            lemma_flow_escaped(t, i + 2, out, cur.push('\\').push(h[1]), s.skip(1));
            assert(cur.push('\\').push(h[1]) + r =~= cur + e);
        } else {
            assert(t.subrange(i + 1, i + 1 + r.len()) =~= w.subrange(1, w.len() as int));
            assert(e.subrange(1, e.len() as int) =~= r);
            lemma_flow_escaped(t, i + 1, out, cur.push(s[0]), s.skip(1));
            assert(cur.push(s[0]) + r =~= cur + e);
        }
    }
}

proof fn lemma_flow_part(t: Seq<char>, i: int, out: Seq<Seq<char>>, cur: Seq<char>, p: Seq<char>)
    requires
        0 <= i,
        i + p.len() <= t.len(),
        t.subrange(i, i + p.len()) == p,
        flow_part(p),
    ensures
        flow_from(t, i, out, cur, false) == flow_from(t, i + p.len(), out, cur + p, false),
{
    if forall|j: int| 0 <= j < p.len() ==> p[j] != '"' && p[j] != ',' {
        lemma_flow_plain(t, i, out, cur, p);
    } else {
        let s = choose|s: Seq<char>| p == seq!['"'] + escape_quoted(s) + seq!['"'];
        let e = escape_quoted(s);
        let w = t.subrange(i, i + p.len());
        assert(w == p);
        assert(t[i] == w[0]);
        assert(t[i] == '"');
        assert(t.subrange(i + 1, i + 1 + e.len()) =~= w.subrange(1, 1 + e.len() as int));
        assert(p.subrange(1, 1 + e.len() as int) =~= e);
        lemma_flow_escaped(t, i + 1, out, cur.push('"'), s);
        assert(t[i + 1 + e.len()] == w[1 + e.len() as int]);
        assert(t[i + 1 + e.len()] == '"');
        assert(cur.push('"') + e + seq!['"'] =~= cur + p);
        assert((cur.push('"') + e).push('"') =~= cur + p);
    }
}

proof fn lemma_join_prefix(parts: Seq<Seq<char>>, k: int, sep: Seq<char>)
    requires
        1 <= k <= parts.len(),
    ensures
        join_with(parts.take(k), sep).len() <= join_with(parts, sep).len(),
        join_with(parts, sep).take(join_with(parts.take(k), sep).len() as int) == join_with(parts.take(k), sep),
    decreases parts.len() - k,
{
    if k == parts.len() {
        assert(parts.take(k) =~= parts);
    } else {
        lemma_join_prefix(parts, k + 1, sep);
        let q = parts.take(k + 1);
        assert(q.drop_last() =~= parts.take(k));
        let jk = join_with(parts.take(k), sep);
        let jk1 = join_with(q, sep);
        assert(jk1 == jk + sep + parts[k]);
        assert(jk1.take(jk.len() as int) =~= jk);
    }
}

proof fn lemma_flow_join(parts: Seq<Seq<char>>, k: int)
    requires
        1 <= k <= parts.len(),
        forall|i: int| 0 <= i < parts.len() ==> written_part(#[trigger] parts[i]),
    ensures
        flow_from(join_with(parts, ", "@), 0, Seq::empty(), Seq::empty(), false) == flow_from(
            join_with(parts, ", "@),
            join_with(parts.take(k), ", "@).len() as int,
            parts.take(k - 1).map_values(|p: Seq<char>| unquote_spec(p)),
            if k == 1 { parts[0] } else { seq![' '] + parts[k - 1] },
            false,
        ),
    decreases k,
{
    let t = join_with(parts, ", "@);
    reveal_strlit(", ");
    lemma_join_prefix(parts, k, ", "@);
    if k == 1 {
        let p0 = parts[0];
        assert(parts.take(1) =~= seq![p0]);
        assert(join_with(parts.take(1), ", "@) == p0);
        assert(t.subrange(0, p0.len() as int) =~= t.take(p0.len() as int));
        lemma_flow_part(t, 0, Seq::empty(), Seq::empty(), p0);
        assert(Seq::<char>::empty() + p0 =~= p0);
        assert(parts.take(0).map_values(|p: Seq<char>| unquote_spec(p)) =~= Seq::<Seq<char>>::empty());
    } else {
        lemma_flow_join(parts, k - 1);
        let jp = join_with(parts.take(k - 1), ", "@);
        let jk = join_with(parts.take(k), ", "@);
        let q = parts.take(k);
        assert(q.drop_last() =~= parts.take(k - 1));
        assert(jk == jp + ", "@ + parts[k - 1]);
        assert(", "@ =~= seq![',', ' ']);
        let pos = jp.len() as int;
        let pk = parts[k - 1];
        assert(t.take(jk.len() as int) == jk);
        assert(t[pos] == jk[pos]);
        assert(t[pos] == ',');
        assert(t[pos + 1] == jk[pos + 1]);
        assert(t[pos + 1] == ' ');
        assert(t.subrange(pos + 2, pos + 2 + pk.len()) =~= jk.subrange(pos + 2, pos + 2 + pk.len()));
        assert(jk.subrange(pos + 2, pos + 2 + pk.len()) =~= pk);
        let outs = parts.take(k - 2).map_values(|p: Seq<char>| unquote_spec(p));
        let prev = parts[k - 2];
        let cur: Seq<char> = if k - 1 == 1 { parts[0] } else { seq![' '] + prev };
        assert(written_part(prev));
        if k - 1 == 1 {
            crate::text::lemma_trim_no_ws_ends(prev);
        } else {
            crate::text::lemma_trim_space_prefix(prev);
        }
        assert(trim(cur) == prev);
        let outs2 = outs.push(unquote_spec(prev));
        assert(outs2 =~= parts.take(k - 1).map_values(|p: Seq<char>| unquote_spec(p)));
        assert(flow_from(t, pos, outs, cur, false) == flow_from(t, pos + 1, outs2, Seq::empty(), false));
        assert(flow_from(t, pos + 1, outs2, Seq::empty(), false) == flow_from(t, pos + 2, outs2, seq![' '], false)) by {
            assert(Seq::<char>::empty().push(' ') =~= seq![' ']);
        }
        lemma_flow_part(t, pos + 2, outs2, seq![' '], pk);
        assert(pos + 2 + pk.len() == jk.len());
    }
}

/// A flow list written from pieces reads back, piece by piece, as the
/// pieces unquoted.
pub proof fn lemma_parse_flow_written(parts: Seq<Seq<char>>)
    requires
        forall|i: int| 0 <= i < parts.len() ==> written_part(#[trigger] parts[i]),
    ensures
        parse_flow_spec("["@ + join_with(parts, ", "@) + "]"@) == parts.map_values(|p: Seq<char>| unquote_spec(p)),
{
    reveal_strlit("[");
    reveal_strlit("]");
    let t = join_with(parts, ", "@);
    let v = "["@ + t + "]"@;
    assert(v.subrange(1, v.len() - 1) =~= t);
    assert(strip_brackets(v) == t);
    if parts.len() == 0 {
        assert(t.len() == 0);
        assert(trim(t) =~= Seq::<char>::empty());
        assert(parts.map_values(|p: Seq<char>| unquote_spec(p)) =~= Seq::<Seq<char>>::empty());
    } else {
        let n = parts.len() as int;
        lemma_join_prefix(parts, 1, ", "@);
        assert(parts.take(1) =~= seq![parts[0]]);
        assert(join_with(parts.take(1), ", "@) == parts[0]);
        assert(written_part(parts[0]));
        assert(t[0] == parts[0][0]);
        assert(written_part(parts[n - 1]));
        assert(t.len() > 0);
        assert(t[t.len() - 1] == parts[n - 1][parts[n - 1].len() - 1]);
        crate::text::lemma_trim_no_ws_ends(t);
        lemma_flow_join(parts, n);
        assert(parts.take(n) =~= parts);
        let last = parts[n - 1];
        let cur: Seq<char> = if n == 1 { parts[0] } else { seq![' '] + last };
        if n == 1 {
            crate::text::lemma_trim_no_ws_ends(last);
        } else {
            crate::text::lemma_trim_space_prefix(last);
        }
        assert(trim(cur) == last);
        assert(parts.take(n - 1).map_values(|p: Seq<char>| unquote_spec(p)).push(unquote_spec(last)) =~= parts.map_values(
            |p: Seq<char>| unquote_spec(p),
        ));
    }
}

/// What a value must satisfy beyond what writing it checks: a date is a
/// calendar date, a regex-typed string matches its pattern, and a list's
/// elements fit its element type.
pub open spec fn value_fits(v: JsonV, ty: FieldTypeSpec) -> bool
    decreases ty,
{
    match ty {
        FieldTypeSpec::Date => v matches JsonV::Str(s) && is_date_spec(s),
        FieldTypeSpec::Re(p) => v matches JsonV::Str(s) && regex_is_match(p, s),
        FieldTypeSpec::List(inner) => v matches JsonV::Array(a) && forall|i: int| 0 <= i < a.len() ==> value_fits(#[trigger] a[i], *inner),
        _ => true,
    }
}

proof fn lemma_quoted_written(s: Seq<char>)
    ensures
        written_part(quote_scalar_spec(s)),
        quote_scalar_spec(s)[0] != '[',
        unquote_spec(quote_scalar_spec(s)) == s,
{
    law_unquote_quote_scalar(s);
    let t = quote_scalar_spec(s);
    if needs_quote_spec(s) {
        assert(t[0] == '"');
        assert(t[t.len() - 1] == '"');
        assert(flow_part(t));
    } else {
        assert(s.len() > 0);
        assert(trim(s) == s);
        crate::text::lemma_trimmed_ends(s);
        assert forall|j: int| 0 <= j < s.len() implies s[j] != '"' && s[j] != ',' by {
            if s[j] == '"' || s[j] == ',' {
                assert(quote_anywhere(s[j]));
            }
        }
        if s[0] == '[' {
            assert(quote_anywhere(s[0]));
        }
    }
}

proof fn lemma_scalar_written(key: Seq<char>, v: JsonV, ty: FieldTypeSpec)
    requires
        !(ty is List),
        rv_spec(key, v, ty) is Ok,
        value_fits(v, ty),
    ensures
        written_part(rv_spec(key, v, ty)->Ok_0),
        rv_spec(key, v, ty)->Ok_0[0] != '[',
        coerce_spec(RawV::Scalar(unquote_spec(rv_spec(key, v, ty)->Ok_0)), ty) == Ok::<JsonV, Seq<char>>(v),
{
    let t = rv_spec(key, v, ty)->Ok_0;
    match ty {
        FieldTypeSpec::Int => {
            let n = v->Int_0;
            crate::text::lemma_parse_signed(n);
            if n < 0 {
                crate::text::lemma_decimal((-n) as nat);
                let d = decimal_of_neg(n);
                assert(t == seq!['-'] + d);
                assert(t[t.len() - 1] == d[d.len() - 1]);
                assert(crate::text::is_digit(d[d.len() - 1]));
                assert forall|j: int| 0 <= j < t.len() implies t[j] != '"' && t[j] != ',' by {
                    if j > 0 {
                        assert(t[j] == d[j - 1]);
                        assert(crate::text::is_digit(d[j - 1]));
                    }
                }
            } else {
                crate::text::lemma_decimal(n as nat);
                assert(crate::text::is_digit(t[0]));
                assert(crate::text::is_digit(t[t.len() - 1]));
                assert forall|j: int| 0 <= j < t.len() implies t[j] != '"' && t[j] != ',' by {
                    assert(crate::text::is_digit(t[j]));
                }
            }
            crate::text::lemma_trim_no_ws_ends(t);
            assert(unquote_spec(t) == t);
        },
        FieldTypeSpec::Bool => {
            reveal_strlit("true");
            reveal_strlit("false");
            crate::text::lemma_trim_no_ws_ends(t);
            assert(unquote_spec(t) == t);
        },
        _ => {
            let s = v->Str_0;
            lemma_quoted_written(s);
        },
    }
}

spec fn decimal_of_neg(n: i64) -> Seq<char> {
    crate::text::decimal((-n) as nat)
}

proof fn lemma_items_written(key: Seq<char>, arr: Seq<JsonV>, ty: FieldTypeSpec)
    requires
        !(ty is List),
        rv_items(key, arr, ty) is Ok,
        forall|i: int| 0 <= i < arr.len() ==> value_fits(#[trigger] arr[i], ty),
    ensures
        rv_items(key, arr, ty)->Ok_0.len() == arr.len(),
        forall|i: int| 0 <= i < arr.len() ==> written_part(#[trigger] rv_items(key, arr, ty)->Ok_0[i]),
        coerce_items(rv_items(key, arr, ty)->Ok_0.map_values(|p: Seq<char>| unquote_spec(p)), ty) == Ok::<Seq<JsonV>, Seq<char>>(arr),
    decreases arr.len(),
{
    if arr.len() > 0 {
        let a0 = arr.drop_last();
        assert forall|i: int| 0 <= i < a0.len() implies value_fits(#[trigger] a0[i], ty) by {
            assert(a0[i] == arr[i]);
        }
        lemma_items_written(key, a0, ty);
        let ps = rv_items(key, a0, ty)->Ok_0;
        let last = arr[arr.len() - 1];
        lemma_scalar_written(key, last, ty);
        let plast = rv_spec(key, last, ty)->Ok_0;
        let all = rv_items(key, arr, ty)->Ok_0;
        assert(all == ps.push(plast));
        assert forall|i: int| 0 <= i < arr.len() implies written_part(#[trigger] all[i]) by {
            if i < a0.len() {
                assert(all[i] == ps[i]);
            }
        }
        let items = all.map_values(|p: Seq<char>| unquote_spec(p));
        assert(items.drop_last() =~= ps.map_values(|p: Seq<char>| unquote_spec(p)));
        assert(items[items.len() - 1] == unquote_spec(plast));
        assert(coerce_items(items.drop_last(), ty) == Ok::<Seq<JsonV>, Seq<char>>(a0));
        assert(coerce_spec(RawV::Scalar(items[items.len() - 1]), ty) == Ok::<JsonV, Seq<char>>(last));
        assert(items.len() > 0);
        assert(coerce_items(items, ty) == Ok::<Seq<JsonV>, Seq<char>>(a0.push(last)));
        assert(a0.push(last) =~= arr);
    } else {
        assert(rv_items(key, arr, ty)->Ok_0.map_values(|p: Seq<char>| unquote_spec(p)) =~= Seq::<Seq<char>>::empty());
        assert(arr =~= Seq::<JsonV>::empty());
    }
}

proof fn lemma_entry_written(key: Seq<char>, t: Seq<char>)
    requires
        forall|i: int| 0 <= i < key.len() ==> in_class(#[trigger] key[i], CharClass::KeyChar),
        t.len() > 0,
        !is_ws(t[0]),
        !is_ws(t[t.len() - 1]),
    ensures
        entry_of(key + ": "@ + t) == seq![(
            key,
            if t[0] == '[' { RawV::List(parse_flow_spec(t)) } else { RawV::Scalar(unquote_spec(t)) },
        )],
{
    reveal_strlit(": ");
    let line = key + ": "@ + t;
    let k = key.len() as int;
    assert(line[k] == ':');
    assert(line[line.len() - 1] == t[t.len() - 1]);
    if k > 0 {
        assert(line[0] == key[0]);
        assert(in_class(key[0], CharClass::KeyChar));
    }
    crate::text::lemma_trim_no_ws_ends(line);
    assert forall|j: int| 0 <= j < k implies line[j] != ':' by {
        assert(line[j] == key[j]);
        assert(in_class(key[j], CharClass::KeyChar));
    }
    crate::text::lemma_index_of_char(line, ':', k);
    assert(line.take(k) =~= key);
    if k > 0 {
        assert(in_class(key[0], CharClass::KeyChar));
        assert(in_class(key[k - 1], CharClass::KeyChar));
        crate::text::lemma_trim_no_ws_ends(key);
    } else {
        assert(trim(key) =~= key);
    }
    assert(line.skip(k + 1) =~= seq![' '] + t);
    crate::text::lemma_trim_space_prefix(t);
}

/// A frontmatter line written for a value that fits its declared type reads
/// back as that value: the line's entry has the key, and checking its raw
/// value against the type captures the value written. (Keys are runs of
/// `[A-Za-z0-9_]`, and list types hold scalars, as the schema parser
/// ensures.)
pub proof fn law_frontmatter_line_round_trip(key: Seq<char>, v: JsonV, ty: FieldTypeSpec)
    requires
        forall|i: int| 0 <= i < key.len() ==> in_class(#[trigger] key[i], CharClass::KeyChar),
        ty matches FieldTypeSpec::List(inner) ==> !(*inner is List),
        value_fits(v, ty),
        rv_spec(key, v, ty) is Ok,
    ensures
        entry_of(key + ": "@ + rv_spec(key, v, ty)->Ok_0).len() == 1,
        entry_of(key + ": "@ + rv_spec(key, v, ty)->Ok_0)[0].0 == key,
        coerce_spec(entry_of(key + ": "@ + rv_spec(key, v, ty)->Ok_0)[0].1, ty) == Ok::<JsonV, Seq<char>>(v),
{
    let t = rv_spec(key, v, ty)->Ok_0;
    match ty {
        FieldTypeSpec::List(inner) => {
            let arr = v->Array_0;
            let ity = *inner;
            assert forall|i: int| 0 <= i < arr.len() implies value_fits(#[trigger] arr[i], ity) by {}
            lemma_items_written(key, arr, ity);
            let parts = rv_items(key, arr, ity)->Ok_0;
            assert(t == "["@ + join_with(parts, ", "@) + "]"@);
            lemma_parse_flow_written(parts);
            reveal_strlit("[");
            reveal_strlit("]");
            assert(t[0] == '[');
            assert(t[t.len() - 1] == ']');
            lemma_entry_written(key, t);
        },
        _ => {
            lemma_scalar_written(key, v, ty);
            lemma_entry_written(key, t);
        },
    }
}

// ---- reading back a written block ------------------------------------------------------

/// The UTF-8 encoding of one character: an ASCII character is its own byte;
/// every byte of a longer encoding is at least `0x80`.
proof fn lemma_encode_char(c: char)
    ensures
        (c as u32) < 0x80 ==> vstd::utf8::encode_scalar(c as u32) == seq![(c as u32) as u8],
        (c as u32) >= 0x80 ==> forall|j: int| 0 <= j < vstd::utf8::encode_scalar(c as u32).len()
            ==> #[trigger] vstd::utf8::encode_scalar(c as u32)[j] >= 0x80,
        vstd::utf8::encode_scalar(c as u32).len() > 0,
{
    vstd::utf8::char_is_scalar(c);
    let u = c as u32;
    if u < 0x80 {
        assert((u & 0x7F) as u8 == u as u8) by (bit_vector)
            requires
                u < 0x80u32,
        ;
    } else {
        assert(forall|x: u8| #[trigger] (0xC0u8 | x) >= 0x80u8) by (bit_vector);
        assert(forall|x: u8| #[trigger] (0xE0u8 | x) >= 0x80u8) by (bit_vector);
        assert(forall|x: u8| #[trigger] (0xF0u8 | x) >= 0x80u8) by (bit_vector);
        assert(forall|x: u8| #[trigger] (0x80u8 | x) >= 0x80u8) by (bit_vector);
    }
}

/// Characters other than an ASCII `b` encode to bytes other than `b`.
proof fn lemma_encode_avoids(s: Seq<char>, b: u8)
    requires
        b < 0x80,
        forall|i: int| 0 <= i < s.len() ==> (#[trigger] s[i]) as u32 != b as u32,
    ensures
        forall|j: int| 0 <= j < encode_utf8(s).len() ==> #[trigger] encode_utf8(s)[j] != b,
    decreases s.len(),
{
    if s.len() > 0 {
        lemma_encode_char(s[0]);
        let r = s.drop_first();
        assert forall|i: int| 0 <= i < r.len() implies (#[trigger] r[i]) as u32 != b as u32 by {
            assert(r[i] == s[i + 1]);
        }
        lemma_encode_avoids(r, b);
        let h = vstd::utf8::encode_scalar(s[0] as u32);
        assert(encode_utf8(s) == h + encode_utf8(r));
        assert forall|j: int| 0 <= j < encode_utf8(s).len() implies #[trigger] encode_utf8(s)[j] != b by {
            if j < h.len() {
                assert(encode_utf8(s)[j] == h[j]);
            } else {
                assert(encode_utf8(s)[j] == encode_utf8(r)[j - h.len()]);
            }
        }
    }
}

/// ASCII characters encode to their own bytes.
proof fn lemma_encode_ascii(s: Seq<char>)
    requires
        forall|i: int| 0 <= i < s.len() ==> (#[trigger] s[i] as u32) < 0x80,
    ensures
        encode_utf8(s) == s.map_values(|c: char| (c as u32) as u8),
    decreases s.len(),
{
    if s.len() > 0 {
        lemma_encode_char(s[0]);
        let r = s.drop_first();
        assert forall|i: int| 0 <= i < r.len() implies (#[trigger] r[i] as u32) < 0x80 by {
            assert(r[i] == s[i + 1]);
        }
        lemma_encode_ascii(r);
        assert(s.map_values(|c: char| (c as u32) as u8) =~= seq![(s[0] as u32) as u8] + r.map_values(|c: char| (c as u32) as u8));
    } else {
        assert(s.map_values(|c: char| (c as u32) as u8) =~= Seq::<u8>::empty());
    }
}

/// Whether a field has a value to write: present and not `null`.
pub open spec fn has_value(data: JsonV, f: FieldSpecV) -> bool {
    value_get(data, f.alias) matches Some(v) && !(v is Null)
}

/// The value a field is written from.
pub open spec fn field_value(data: JsonV, f: FieldSpecV) -> JsonV {
    value_get(data, f.alias)->Some_0
}

/// The lines the frontmatter writer writes: `key: value` for each declared
/// field that has a value, in declaration order.
pub open spec fn written_lines(fields: Seq<FieldSpecV>, data: JsonV) -> Seq<Seq<char>>
    decreases fields.len(),
{
    if fields.len() == 0 {
        Seq::empty()
    } else {
        let f = fields.last();
        let prev = written_lines(fields.drop_last(), data);
        if has_value(data, f) {
            prev.push(f.key + ": "@ + rv_spec(f.key, field_value(data, f), f.ty)->Ok_0)
        } else {
            prev
        }
    }
}

/// Lines, each followed by a newline.
pub open spec fn nl_terminated(ls: Seq<Seq<char>>) -> Seq<char>
    decreases ls.len(),
{
    if ls.len() == 0 {
        Seq::empty()
    } else {
        nl_terminated(ls.drop_last()) + ls.last() + "\n"@
    }
}

/// Lines joined by newlines.
pub open spec fn join_nl(ls: Seq<Seq<char>>) -> Seq<char>
    decreases ls.len(),
{
    if ls.len() == 0 {
        Seq::empty()
    } else if ls.len() == 1 {
        ls[0]
    } else {
        join_nl(ls.drop_last()) + "\n"@ + ls.last()
    }
}

/// The object the written values make: each field that has a value, under
/// its alias, in declaration order.
pub open spec fn written_values(fields: Seq<FieldSpecV>, data: JsonV) -> Seq<(Seq<char>, JsonV)>
    decreases fields.len(),
{
    if fields.len() == 0 {
        Seq::empty()
    } else {
        let f = fields.last();
        let prev = written_values(fields.drop_last(), data);
        if has_value(data, f) {
            obj_insert(prev, f.alias, field_value(data, f))
        } else {
            prev
        }
    }
}

pub(crate) proof fn lemma_fm_lines_written(fields: Seq<FieldSpecV>, data: JsonV)
    requires
        fm_lines(fields, data) is Ok,
    ensures
        fm_lines(fields, data)->Ok_0 == nl_terminated(written_lines(fields, data)),
        forall|i: int| 0 <= i < fields.len() ==> #[trigger] fields[i].optional || has_value(data, fields[i]),
        forall|i: int| 0 <= i < fields.len() && has_value(data, #[trigger] fields[i]) ==>
            rv_spec(fields[i].key, field_value(data, fields[i]), fields[i].ty) is Ok,
    decreases fields.len(),
{
    if fields.len() > 0 {
        let p = fields.drop_last();
        lemma_fm_lines_written(p, data);
        let f = fields.last();
        assert forall|i: int| 0 <= i < fields.len() implies #[trigger] fields[i].optional || has_value(data, fields[i]) by {
            if i < p.len() {
                assert(fields[i] == p[i]);
            }
        }
        assert forall|i: int| 0 <= i < fields.len() && has_value(data, #[trigger] fields[i]) implies
            rv_spec(fields[i].key, field_value(data, fields[i]), fields[i].ty) is Ok by {
            if i < p.len() {
                assert(fields[i] == p[i]);
            }
        }
        if has_value(data, f) {
            let t = rv_spec(f.key, field_value(data, f), f.ty)->Ok_0;
            let acc = fm_lines(p, data)->Ok_0;
            let ls = written_lines(fields, data);
            assert(ls.drop_last() =~= written_lines(p, data));
            assert(acc + f.key + ": "@ + t + "\n"@ =~= nl_terminated(written_lines(p, data)) + (f.key + ": "@ + t) + "\n"@);
        }
    }
}

proof fn lemma_lines_state_append(a: Seq<char>, b: Seq<char>)
    requires
        forall|j: int| 0 <= j < b.len() ==> b[j] != '\n',
    ensures
        lines_state(a + b) == (lines_state(a).0, lines_state(a).1 + b),
    decreases b.len(),
{
    if b.len() == 0 {
        assert(a + b =~= a);
        assert(lines_state(a).1 + b =~= lines_state(a).1);
    } else {
        let c = b.drop_last();
        lemma_lines_state_append(a, c);
        assert((a + b).drop_last() =~= a + c);
        assert((a + b).last() == b.last());
        assert(b.last() == b[b.len() - 1]);
        assert((lines_state(a).1 + c).push(b.last()) =~= lines_state(a).1 + b);
    }
}

/// Lines without a newline, none empty or ending in `\r`, joined by
/// newlines, split back into themselves.
proof fn lemma_lines_join(ls: Seq<Seq<char>>)
    requires
        ls.len() >= 1,
        forall|i: int| 0 <= i < ls.len() ==> no_nl(#[trigger] ls[i]) && ls[i].len() > 0 && ls[i].last() != '\r',
    ensures
        lines_state(join_nl(ls)) == (ls.drop_last(), ls.last()),
        crate::text::lines(join_nl(ls)) == ls,
    decreases ls.len(),
{
    reveal_strlit("\n");
    let l = ls.last();
    assert(no_nl(ls[ls.len() - 1]));
    if ls.len() == 1 {
        lemma_lines_state_append(Seq::empty(), l);
        assert(Seq::<char>::empty() + l =~= l);
        assert(Seq::<char>::empty() + l =~= l);
        assert(ls.drop_last() =~= Seq::<Seq<char>>::empty());
    } else {
        let d = ls.drop_last();
        assert forall|i: int| 0 <= i < d.len() implies no_nl(#[trigger] d[i]) && d[i].len() > 0 && d[i].last() != '\r' by {
            assert(d[i] == ls[i]);
        }
        lemma_lines_join(d);
        let jd = join_nl(d);
        let withnl = jd + "\n"@;
        assert("\n"@ =~= seq!['\n']);
        assert(withnl.drop_last() =~= jd);
        assert(withnl.last() == '\n');
        assert(d.last() == d[d.len() - 1]);
        assert(strip_cr(d.last()) == d.last());
        assert(lines_state(withnl) == (d.drop_last().push(d.last()), Seq::<char>::empty()));
        assert(d.drop_last().push(d.last()) =~= d);
        lemma_lines_state_append(withnl, l);
        assert(join_nl(ls) == withnl + l);
        assert(Seq::<char>::empty() + l =~= l);
    }
    assert(ls.drop_last().push(ls.last()) =~= ls);
}

/// A string without a newline.
pub open spec fn no_nl(l: Seq<char>) -> bool {
    forall|j: int| 0 <= j < l.len() ==> l[j] != '\n'
}

pub(crate) proof fn lemma_nl_split(ls: Seq<Seq<char>>, k: int)
    requires
        0 <= k <= ls.len(),
    ensures
        nl_terminated(ls) == nl_terminated(ls.take(k)) + nl_terminated(ls.skip(k)),
    decreases ls.len(),
{
    if k == ls.len() {
        assert(ls.take(k) =~= ls);
        assert(ls.skip(k) =~= Seq::<Seq<char>>::empty());
        assert(nl_terminated(ls) + Seq::<char>::empty() =~= nl_terminated(ls));
    } else {
        let d = ls.drop_last();
        lemma_nl_split(d, k);
        assert(d.take(k) =~= ls.take(k));
        let sk = ls.skip(k);
        assert(sk.drop_last() =~= d.skip(k));
        assert(sk.last() == ls.last());
        assert(nl_terminated(ls.take(k)) + nl_terminated(ls.skip(k)) =~= nl_terminated(d.take(k)) + nl_terminated(d.skip(k)) + ls.last() + "\n"@);
    }
}

proof fn lemma_nl_join(ls: Seq<Seq<char>>)
    requires
        ls.len() >= 1,
    ensures
        nl_terminated(ls) == join_nl(ls) + "\n"@,
    decreases ls.len(),
{
    if ls.len() == 1 {
        assert(ls.drop_last() =~= Seq::<Seq<char>>::empty());
        assert(nl_terminated(ls.drop_last()) =~= Seq::<char>::empty());
        assert(join_nl(ls) == ls[0]);
        assert(ls.last() == ls[0]);
        assert(nl_terminated(ls) == nl_terminated(ls.drop_last()) + ls.last() + "\n"@);
        assert(nl_terminated(ls) =~= join_nl(ls) + "\n"@);
    } else {
        lemma_nl_join(ls.drop_last());
        assert(nl_terminated(ls) =~= join_nl(ls) + "\n"@);
    }
}

/// A written line: no newline in it, not empty, its last character not
/// whitespace, and a `:` somewhere in it.
pub open spec fn line_shape(l: Seq<char>) -> bool {
    &&& no_nl(l)
    &&& l.len() > 0
    &&& !is_ws(l[l.len() - 1])
    &&& exists|k: int| 0 <= k < l.len() && l[k] == ':'
}

proof fn lemma_line_not_fence(l: Seq<char>)
    requires
        line_shape(l),
    ensures
        !crate::doc::is_fence(encode_utf8(l)),
        forall|j: int| 0 <= j < encode_utf8(l).len() ==> #[trigger] encode_utf8(l)[j] != 10u8,
{
    let e = encode_utf8(l);
    assert forall|i: int| 0 <= i < l.len() implies (#[trigger] l[i]) as u32 != 10u8 as u32 by {
        if (l[i] as u32) == 10u32 {
            vstd::utf8::char_u32_cast(l[i], 10u32);
            assert(l[i] == '\n');
        }
    }
    lemma_encode_avoids(l, 10u8);
    let k = choose|k: int| 0 <= k < l.len() && l[k] == ':';
    let a = l.take(k);
    let m = seq![':'];
    let z = l.skip(k + 1);
    assert(l =~= a + (m + z));
    crate::matcher::lemma_encode_concat(a, m + z);
    crate::matcher::lemma_encode_concat(m, z);
    lemma_encode_ascii(m);
    assert(m.map_values(|c: char| (c as u32) as u8) =~= seq![58u8]);
    assert(e[encode_utf8(a).len() as int] == 58u8);
    let c = l[l.len() - 1];
    let d = l.drop_last();
    assert(l =~= d + seq![c]);
    crate::matcher::lemma_encode_concat(d, seq![c]);
    lemma_encode_char(c);
    assert(encode_utf8(seq![c]) =~= vstd::utf8::encode_scalar(c as u32) + encode_utf8(seq![c].drop_first()));
    assert(encode_utf8(seq![c].drop_first()) =~= Seq::<u8>::empty());
    assert(c != '\r');
    assert(e[e.len() - 1] != 13u8);
    assert(crate::doc::trim_cr(e) == e);
}

proof fn lemma_nl_front(ls: Seq<Seq<char>>)
    requires
        ls.len() >= 1,
    ensures
        encode_utf8(nl_terminated(ls)) == encode_utf8(ls[0]) + seq![10u8] + encode_utf8(nl_terminated(ls.skip(1))),
{
    let l0 = ls[0];
    let ls1 = ls.skip(1);
    lemma_nl_split(ls, 1);
    assert(ls.take(1) =~= seq![l0]);
    assert(seq![l0].drop_last() =~= Seq::<Seq<char>>::empty());
    assert(nl_terminated(seq![l0].drop_last()) =~= Seq::<char>::empty());
    reveal_strlit("\n");
    assert("\n"@ =~= seq!['\n']);
    assert(nl_terminated(seq![l0]) =~= l0 + seq!['\n']);
    lemma_encode_ascii(seq!['\n']);
    assert(seq!['\n'].map_values(|c: char| (c as u32) as u8) =~= seq![10u8]);
    crate::matcher::lemma_encode_concat(l0, seq!['\n']);
    crate::matcher::lemma_encode_concat(l0 + seq!['\n'], nl_terminated(ls1));
}

proof fn lemma_close_line(b: Seq<u8>, pos: int, l: Seq<char>)
    requires
        line_shape(l),
        0 <= pos,
        pos + encode_utf8(l).len() < b.len(),
        b.subrange(pos, pos + encode_utf8(l).len()) == encode_utf8(l),
        b[pos + encode_utf8(l).len()] == 10u8,
    ensures
        crate::doc::fm_close(b, pos) == crate::doc::fm_close(b, pos + encode_utf8(l).len() + 1),
{
    let e = encode_utf8(l);
    let rest = b.skip(pos);
    crate::doc::lemma_byte_index(rest, 10u8);
    lemma_line_not_fence(l);
    assert forall|j: int| 0 <= j < e.len() implies rest[j] != 10u8 by {
        assert(rest[j] == b.subrange(pos, pos + e.len())[j]);
    }
    assert(rest[e.len() as int] == 10u8);
    assert(crate::doc::byte_index(rest, 10u8) == Some(e.len() as int));
    assert(rest.take(e.len() as int) =~= e);
}

proof fn lemma_close_skips(b: Seq<u8>, p: Seq<u8>, ls: Seq<Seq<char>>, tail: Seq<u8>)
    requires
        forall|i: int| 0 <= i < ls.len() ==> line_shape(#[trigger] ls[i]),
        b == p + encode_utf8(nl_terminated(ls)) + tail,
        tail.len() >= 4,
        tail[0] == 45u8 && tail[1] == 45u8 && tail[2] == 45u8 && tail[3] == 10u8,
    ensures
        crate::doc::fm_close(b, p.len() as int) == Some((
            (p.len() + encode_utf8(nl_terminated(ls)).len()) as int,
            (p.len() + encode_utf8(nl_terminated(ls)).len() + 4) as int,
        )),
    decreases ls.len(),
{
    let pos = p.len() as int;
    if ls.len() == 0 {
        let rest = b.skip(pos);
        crate::doc::lemma_byte_index(rest, 10u8);
        assert(nl_terminated(ls) =~= Seq::<char>::empty());
        assert(encode_utf8(Seq::<char>::empty()) =~= Seq::<u8>::empty());
        assert(rest =~= tail);
        assert(rest[3] == 10u8);
        assert(crate::doc::byte_index(rest, 10u8) == Some(3int));
        assert(rest.take(3) =~= seq![45u8, 45u8, 45u8]);
        assert(crate::doc::trim_cr(rest.take(3)) == rest.take(3));
    } else {
        let l0 = ls[0];
        let ls1 = ls.skip(1);
        lemma_nl_front(ls);
        let e0 = encode_utf8(l0);
        let p2 = p + e0 + seq![10u8];
        assert(b =~= p2 + encode_utf8(nl_terminated(ls1)) + tail);
        assert(b.subrange(pos, pos + e0.len()) =~= e0);
        assert(b[pos + e0.len()] == 10u8);
        lemma_close_line(b, pos, l0);
        assert forall|i: int| 0 <= i < ls1.len() implies line_shape(#[trigger] ls1[i]) by {
            assert(ls1[i] == ls[i + 1]);
        }
        lemma_close_skips(b, p2, ls1, tail);
    }
}

/// The text of a frontmatter block written as a fence, newline-terminated
/// lines and a closing fence line, at the head of any document, is those
/// lines joined by newlines.
pub proof fn lemma_fm_text_written(ls: Seq<Seq<char>>, rest: Seq<char>)
    requires
        forall|i: int| 0 <= i < ls.len() ==> line_shape(#[trigger] ls[i]),
    ensures
        fm_text(encode_utf8("---\n"@ + nl_terminated(ls) + "---\n"@ + rest)) == join_nl(ls),
{
    reveal_strlit("---\n");
    let h = "---\n"@;
    let nl = nl_terminated(ls);
    assert(h =~= seq!['-', '-', '-', '\n']);
    lemma_encode_ascii(h);
    let eh = encode_utf8(h);
    assert(eh =~= seq![45u8, 45u8, 45u8, 10u8]);
    let doc = h + nl + h + rest;
    assert(doc =~= h + (nl + (h + rest)));
    crate::matcher::lemma_encode_concat(h, nl + (h + rest));
    crate::matcher::lemma_encode_concat(nl, h + rest);
    crate::matcher::lemma_encode_concat(h, rest);
    let en = encode_utf8(nl);
    let tail = eh + encode_utf8(rest);
    let b = encode_utf8(doc);
    assert(b =~= eh + en + tail);
    crate::doc::lemma_byte_index(b, 10u8);
    assert(b[3] == 10u8);
    assert(crate::doc::byte_index(b, 10u8) == Some(3int));
    assert(b.take(3) =~= seq![45u8, 45u8, 45u8]);
    assert(crate::doc::trim_cr(b.take(3)) == b.take(3));
    lemma_close_skips(b, eh, ls, tail);
    let pm: int = 4 + en.len() as int;
    assert(crate::doc::fm_bounds(b) == Some((4int, if pm > 4 { pm - 1 } else { 4int }, pm + 4)));
    if ls.len() == 0 {
        assert(nl =~= Seq::<char>::empty());
        assert(b.subrange(4, 4) =~= Seq::<u8>::empty());
        assert(vstd::utf8::decode_utf8(Seq::<u8>::empty()) =~= Seq::<char>::empty()) by {
            vstd::utf8::encode_utf8_decode_utf8(Seq::<char>::empty());
        }
    } else {
        lemma_nl_join(ls);
        reveal_strlit("\n");
        assert("\n"@ =~= seq!['\n']);
        assert(nl == join_nl(ls) + seq!['\n']);
        lemma_encode_ascii(seq!['\n']);
        assert(seq!['\n'].map_values(|c: char| (c as u32) as u8) =~= seq![10u8]);
        crate::matcher::lemma_encode_concat(join_nl(ls), seq!['\n']);
        let ej = encode_utf8(join_nl(ls));
        assert(en == ej + seq![10u8]);
        assert(b.subrange(4, pm - 1) =~= ej);
        vstd::utf8::encode_utf8_decode_utf8(join_nl(ls));
    }
}

proof fn lemma_escape_no_nl(s: Seq<char>)
    ensures
        no_nl(escape_quoted(s)),
    decreases s.len(),
{
    if s.len() > 0 {
        lemma_escape_no_nl(s.skip(1));
        let h = esc_out(s[0]);
        let e = escape_quoted(s);
        assert(e == h + escape_quoted(s.skip(1)));
        assert forall|j: int| 0 <= j < e.len() implies e[j] != '\n' by {
            if j >= h.len() {
                assert(e[j] == escape_quoted(s.skip(1))[j - h.len()]);
            }
        }
    }
}

proof fn lemma_join_no_nl(parts: Seq<Seq<char>>)
    requires
        forall|i: int| 0 <= i < parts.len() ==> no_nl(#[trigger] parts[i]),
    ensures
        no_nl(join_with(parts, ", "@)),
    decreases parts.len(),
{
    reveal_strlit(", ");
    if parts.len() > 1 {
        let d = parts.drop_last();
        assert forall|i: int| 0 <= i < d.len() implies no_nl(#[trigger] d[i]) by {
            assert(d[i] == parts[i]);
        }
        lemma_join_no_nl(d);
        assert(no_nl(parts[parts.len() - 1]));
    } else if parts.len() == 1 {
        assert(no_nl(parts[0]));
    }
}

/// The value text written for a value that fits its type: a written piece
/// (a bracketed list for a list type) without a newline.
proof fn lemma_written_text(key: Seq<char>, v: JsonV, ty: FieldTypeSpec)
    requires
        ty matches FieldTypeSpec::List(inner) ==> !(*inner is List),
        value_fits(v, ty),
        rv_spec(key, v, ty) is Ok,
    ensures
        rv_spec(key, v, ty)->Ok_0.len() > 0,
        !is_ws(rv_spec(key, v, ty)->Ok_0[0]),
        !is_ws(rv_spec(key, v, ty)->Ok_0[rv_spec(key, v, ty)->Ok_0.len() - 1]),
        no_nl(rv_spec(key, v, ty)->Ok_0),
{
    let t = rv_spec(key, v, ty)->Ok_0;
    match ty {
        FieldTypeSpec::List(inner) => {
            let arr = v->Array_0;
            let ity = *inner;
            assert forall|i: int| 0 <= i < arr.len() implies value_fits(#[trigger] arr[i], ity) by {}
            lemma_items_written(key, arr, ity);
            let parts = rv_items(key, arr, ity)->Ok_0;
            assert forall|i: int| 0 <= i < parts.len() implies no_nl(#[trigger] parts[i]) by {
                lemma_items_at(key, arr, ity, i);
                lemma_part_no_nl(key, arr[i], ity);
            }
            lemma_join_no_nl(parts);
            reveal_strlit("[");
            reveal_strlit("]");
            let j = join_with(parts, ", "@);
            assert(t == "["@ + j + "]"@);
            assert forall|k: int| 0 <= k < t.len() implies t[k] != '\n' by {
                if 0 < k < t.len() - 1 {
                    assert(t[k] == j[k - 1]);
                }
            }
        },
        _ => {
            lemma_scalar_written(key, v, ty);
            lemma_part_no_nl(key, v, ty);
        },
    }
}

proof fn lemma_part_no_nl(key: Seq<char>, v: JsonV, ty: FieldTypeSpec)
    requires
        !(ty is List),
        rv_spec(key, v, ty) is Ok,
    ensures
        no_nl(rv_spec(key, v, ty)->Ok_0),
{
    let t = rv_spec(key, v, ty)->Ok_0;
    match ty {
        FieldTypeSpec::Int => {
            let n = v->Int_0;
            if n < 0 {
                crate::text::lemma_decimal((-n) as nat);
                let d = decimal_of_neg(n);
                assert forall|j: int| 0 <= j < t.len() implies t[j] != '\n' by {
                    if j > 0 {
                        assert(t[j] == d[j - 1]);
                        assert(crate::text::is_digit(d[j - 1]));
                    }
                }
            } else {
                crate::text::lemma_decimal(n as nat);
                assert forall|j: int| 0 <= j < t.len() implies t[j] != '\n' by {
                    assert(crate::text::is_digit(t[j]));
                }
            }
        },
        FieldTypeSpec::Bool => {
            reveal_strlit("true");
            reveal_strlit("false");
        },
        _ => {
            let s = v->Str_0;
            if needs_quote_spec(s) {
                lemma_escape_no_nl(s);
                let e = escape_quoted(s);
                assert forall|j: int| 0 <= j < t.len() implies t[j] != '\n' by {
                    if 0 < j < t.len() - 1 {
                        assert(t[j] == e[j - 1]);
                    }
                }
            } else {
                assert forall|j: int| 0 <= j < s.len() implies s[j] != '\n' by {
                    if s[j] == '\n' {
                        assert(quote_anywhere(s[j]));
                    }
                }
            }
        },
    }
}

proof fn lemma_items_at(key: Seq<char>, arr: Seq<JsonV>, ty: FieldTypeSpec, i: int)
    requires
        rv_items(key, arr, ty) is Ok,
        0 <= i < arr.len(),
    ensures
        rv_spec(key, arr[i], ty) is Ok,
        rv_items(key, arr, ty)->Ok_0.len() == arr.len(),
        rv_items(key, arr, ty)->Ok_0[i] == rv_spec(key, arr[i], ty)->Ok_0,
    decreases arr.len(),
{
    let d = arr.drop_last();
    if i < arr.len() - 1 {
        lemma_items_at(key, d, ty, i);
        assert(d[i] == arr[i]);
    } else if arr.len() > 1 {
        lemma_items_at(key, d, ty, 0);
    }
}

/// A field the writer can write so that it reads back: its key is a run of
/// `[A-Za-z0-9_]` and a list type holds scalars (as the schema parser
/// ensures).
pub open spec fn field_writable(f: FieldSpecV) -> bool {
    &&& forall|i: int| 0 <= i < f.key.len() ==> in_class(#[trigger] f.key[i], CharClass::KeyChar)
    &&& (f.ty matches FieldTypeSpec::List(inner) ==> !(*inner is List))
}

/// The line written for a field.
pub open spec fn wline(data: JsonV, f: FieldSpecV) -> Seq<char> {
    f.key + ": "@ + rv_spec(f.key, field_value(data, f), f.ty)->Ok_0
}

proof fn lemma_wline(data: JsonV, f: FieldSpecV)
    requires
        field_writable(f),
        has_value(data, f),
        value_fits(field_value(data, f), f.ty),
        rv_spec(f.key, field_value(data, f), f.ty) is Ok,
    ensures
        line_shape(wline(data, f)),
        wline(data, f)[0] != '#',
        entry_of(wline(data, f)) == seq![(f.key, entry_of(wline(data, f))[0].1)],
        coerce_spec(entry_of(wline(data, f))[0].1, f.ty) == Ok::<JsonV, Seq<char>>(field_value(data, f)),
{
    let v = field_value(data, f);
    let t = rv_spec(f.key, v, f.ty)->Ok_0;
    law_frontmatter_line_round_trip(f.key, v, f.ty);
    lemma_written_text(f.key, v, f.ty);
    reveal_strlit(": ");
    let l = wline(data, f);
    let k = f.key.len() as int;
    assert(l[k] == ':');
    assert(l[l.len() - 1] == t[t.len() - 1]);
    assert forall|j: int| 0 <= j < l.len() implies l[j] != '\n' by {
        if j < k {
            assert(l[j] == f.key[j]);
            assert(in_class(f.key[j], CharClass::KeyChar));
        } else if j >= k + 2 {
            assert(l[j] == t[j - k - 2]);
        }
    }
    let en = entry_of(l);
    assert(en =~= seq![(f.key, en[0].1)]);
    if k > 0 {
        assert(l[0] == f.key[0]);
        assert(in_class(f.key[0], CharClass::KeyChar));
    }
}

proof fn lemma_raw_lookup_push(a: Seq<(Seq<char>, RawV)>, e: (Seq<char>, RawV), k: Seq<char>)
    ensures
        raw_lookup(a.push(e), k) == match raw_lookup(a, k) {
            Some(x) => Some(x),
            None => if e.0 == k { Some(e.1) } else { None },
        },
    decreases a.len(),
{
    if a.len() > 0 {
        assert(a.push(e)[0] == a[0]);
        assert(a.push(e).drop_first() =~= a.drop_first().push(e));
        lemma_raw_lookup_push(a.drop_first(), e, k);
    } else {
        let q = a.push(e);
        assert(q.len() == 1);
        assert(q[0] == e);
        assert(q.drop_first() =~= Seq::<(Seq<char>, RawV)>::empty());
        assert(raw_lookup(q.drop_first(), k) is None);
        assert(raw_lookup(a, k) is None);
    }
}

proof fn lemma_raw_lookup_absent(a: Seq<(Seq<char>, RawV)>, k: Seq<char>)
    requires
        forall|j: int| 0 <= j < a.len() ==> (#[trigger] a[j]).0 != k,
    ensures
        raw_lookup(a, k) is None,
    decreases a.len(),
{
    if a.len() > 0 {
        let r = a.drop_first();
        assert(a[0].0 != k);
        assert forall|j: int| 0 <= j < r.len() implies (#[trigger] r[j]).0 != k by {
            assert(r[j] == a[j + 1]);
        }
        lemma_raw_lookup_absent(r, k);
    }
}

/// The facts the checker needs of the written block's entries.
pub open spec fn entries_read_back(fields: Seq<FieldSpecV>, data: JsonV, raws: Seq<(Seq<char>, RawV)>) -> bool {
    &&& forall|j: int| 0 <= j < raws.len() ==> declares(fields, #[trigger] raws[j].0)
    &&& forall|i: int| 0 <= i < fields.len() && has_value(data, #[trigger] fields[i]) ==>
        (raw_lookup(raws, fields[i].key) matches Some(r) && coerce_spec(r, fields[i].ty) == Ok::<JsonV, Seq<char>>(field_value(data, fields[i])))
    &&& forall|i: int| 0 <= i < fields.len() && !has_value(data, #[trigger] fields[i]) ==> raw_lookup(raws, fields[i].key) is None
}

pub(crate) proof fn lemma_written_entries(fields: Seq<FieldSpecV>, data: JsonV)
    requires
        forall|i: int| 0 <= i < fields.len() ==> field_writable(#[trigger] fields[i]),
        forall|i: int, j: int| 0 <= i < j < fields.len() ==> #[trigger] fields[i].key != #[trigger] fields[j].key,
        forall|i: int| 0 <= i < fields.len() && has_value(data, #[trigger] fields[i]) ==>
            value_fits(field_value(data, fields[i]), fields[i].ty) && rv_spec(fields[i].key, field_value(data, fields[i]), fields[i].ty) is Ok,
    ensures
        entries_read_back(fields, data, block_entries(written_lines(fields, data))),
        forall|j: int| 0 <= j < written_lines(fields, data).len() ==> line_shape(#[trigger] written_lines(fields, data)[j])
            && written_lines(fields, data)[j][0] != '#',
    decreases fields.len(),
{
    if fields.len() > 0 {
        let n = fields.len() as int;
        let d = fields.drop_last();
        let f = fields[n - 1];
        assert(fields.last() == f);
        assert forall|i: int| 0 <= i < d.len() implies field_writable(#[trigger] d[i]) by {
            assert(d[i] == fields[i]);
        }
        assert forall|i: int, j: int| 0 <= i < j < d.len() implies #[trigger] d[i].key != #[trigger] d[j].key by {
            assert(d[i] == fields[i] && d[j] == fields[j]);
        }
        assert forall|i: int| 0 <= i < d.len() && has_value(data, #[trigger] d[i]) implies
            value_fits(field_value(data, d[i]), d[i].ty) && rv_spec(d[i].key, field_value(data, d[i]), d[i].ty) is Ok by {
            assert(d[i] == fields[i]);
        }
        lemma_written_entries(d, data);
        let lsd = written_lines(d, data);
        let rd = block_entries(lsd);
        let ls = written_lines(fields, data);
        let raws = block_entries(ls);
        assert forall|j: int| 0 <= j < rd.len() implies (#[trigger] rd[j]).0 != f.key by {
            assert(declares(d, rd[j].0));
            let i = choose|i: int| 0 <= i < d.len() && (#[trigger] d[i]).key == rd[j].0;
            assert(d[i] == fields[i]);
        }
        lemma_raw_lookup_absent(rd, f.key);
        if has_value(data, f) {
            lemma_wline(data, f);
            let l = wline(data, f);
            let r = entry_of(l)[0].1;
            assert(ls == lsd.push(l));
            assert(ls.drop_last() =~= lsd);
            assert(raws == rd + entry_of(l));
            assert(raws =~= rd.push((f.key, r)));
            assert forall|j: int| 0 <= j < ls.len() implies line_shape(#[trigger] ls[j]) && ls[j][0] != '#' by {
                if j < lsd.len() {
                    assert(ls[j] == lsd[j]);
                }
            }
            assert forall|j: int| 0 <= j < raws.len() implies declares(fields, #[trigger] raws[j].0) by {
                if j < rd.len() {
                    assert(raws[j] == rd[j]);
                    assert(declares(d, rd[j].0));
                    let i = choose|i: int| 0 <= i < d.len() && (#[trigger] d[i]).key == rd[j].0;
                    assert(fields[i] == d[i]);
                } else {
                    assert(fields[n - 1].key == raws[j].0);
                }
            }
            assert forall|i: int| 0 <= i < fields.len() && has_value(data, #[trigger] fields[i]) implies
                (raw_lookup(raws, fields[i].key) matches Some(x) && coerce_spec(x, fields[i].ty) == Ok::<JsonV, Seq<char>>(field_value(data, fields[i]))) by {
                lemma_raw_lookup_push(rd, (f.key, r), fields[i].key);
                if i < n - 1 {
                    assert(fields[i] == d[i]);
                }
            }
            assert forall|i: int| 0 <= i < fields.len() && !has_value(data, #[trigger] fields[i]) implies raw_lookup(raws, fields[i].key) is None by {
                lemma_raw_lookup_push(rd, (f.key, r), fields[i].key);
                assert(i < n - 1);
                assert(fields[i] == d[i]);
            }
        } else {
            assert(ls == lsd);
            assert forall|j: int| 0 <= j < raws.len() implies declares(fields, #[trigger] raws[j].0) by {
                assert(declares(d, rd[j].0));
                let i = choose|i: int| 0 <= i < d.len() && (#[trigger] d[i]).key == rd[j].0;
                assert(fields[i] == d[i]);
            }
            assert forall|i: int| 0 <= i < fields.len() && has_value(data, #[trigger] fields[i]) implies
                (raw_lookup(raws, fields[i].key) matches Some(x) && coerce_spec(x, fields[i].ty) == Ok::<JsonV, Seq<char>>(field_value(data, fields[i]))) by {
                assert(i < n - 1);
                assert(fields[i] == d[i]);
            }
            assert forall|i: int| 0 <= i < fields.len() && !has_value(data, #[trigger] fields[i]) implies raw_lookup(raws, fields[i].key) is None by {
                if i < n - 1 {
                    assert(fields[i] == d[i]);
                }
            }
        }
    }
}

proof fn lemma_fields_pass_written(fields: Seq<FieldSpecV>, data: JsonV, raws: Seq<(Seq<char>, RawV)>, j: int)
    requires
        0 <= j <= fields.len(),
        entries_read_back(fields, data, raws),
        forall|i: int| 0 <= i < fields.len() ==> #[trigger] fields[i].optional || has_value(data, fields[i]),
    ensures
        fields_pass(fields.take(j), raws, Seq::empty()) == (Seq::<ProblemV>::empty(), written_values(fields.take(j), data)),
    decreases j,
{
    if j > 0 {
        lemma_fields_pass_written(fields, data, raws, j - 1);
        let q = fields.take(j);
        assert(q.drop_last() =~= fields.take(j - 1));
        assert(q.last() == fields[j - 1]);
        assert(fields[j - 1].optional || has_value(data, fields[j - 1]));
    }
}

proof fn lemma_unknown_none(fields: Seq<FieldSpecV>, raws: Seq<(Seq<char>, RawV)>)
    requires
        forall|j: int| 0 <= j < raws.len() ==> declares(fields, #[trigger] raws[j].0),
    ensures
        unknown_keys(raws, fields) == Seq::<ProblemV>::empty(),
    decreases raws.len(),
{
    if raws.len() > 0 {
        let d = raws.drop_last();
        assert forall|j: int| 0 <= j < d.len() implies declares(fields, #[trigger] d[j].0) by {
            assert(d[j] == raws[j]);
        }
        lemma_unknown_none(fields, d);
        assert(declares(fields, raws[raws.len() - 1].0));
    }
}

/// A frontmatter block of the lines the writer writes, between fences, at
/// the head of a document, reads back as the written values.
pub proof fn lemma_block_reads_back(fields: Seq<FieldSpecV>, data: JsonV, rest: Seq<char>, open: bool)
    requires
        fields.len() > 0,
        forall|i: int| 0 <= i < fields.len() ==> field_writable(#[trigger] fields[i]),
        forall|i: int, j: int| 0 <= i < j < fields.len() ==> #[trigger] fields[i].key != #[trigger] fields[j].key,
        forall|i: int| 0 <= i < fields.len() && has_value(data, #[trigger] fields[i]) ==> value_fits(field_value(data, fields[i]), fields[i].ty),
        fm_lines(fields, data) is Ok,
    ensures
        fm_extract_spec(fields, encode_utf8("---\n"@ + nl_terminated(written_lines(fields, data)) + "---\n"@ + rest), open, Seq::empty())
            == (Seq::<ProblemV>::empty(), written_values(fields, data)),
{
    lemma_fm_lines_written(fields, data);
    lemma_written_entries(fields, data);
    let ls = written_lines(fields, data);
    lemma_fm_text_written(ls, rest);
    if ls.len() >= 1 {
        assert forall|i: int| 0 <= i < ls.len() implies no_nl(#[trigger] ls[i]) && ls[i].len() > 0 && ls[i].last() != '\r' by {
            assert(line_shape(ls[i]));
            assert(ls[i].last() == ls[i][ls[i].len() - 1]);
        }
        lemma_lines_join(ls);
    } else {
        assert(join_nl(ls) =~= Seq::<char>::empty());
        assert(crate::text::lines(Seq::<char>::empty()) =~= ls);
    }
    let raws = block_entries(ls);
    lemma_fields_pass_written(fields, data, raws, fields.len() as int);
    assert(fields.take(fields.len() as int) =~= fields);
    lemma_unknown_none(fields, raws);
    assert(Seq::<ProblemV>::empty() + Seq::<ProblemV>::empty() =~= Seq::<ProblemV>::empty());
}

/// The frontmatter block the writer writes for `data`, at the head of any
/// document, reads back through frontmatter checking with no problem, and
/// captures each written value under its field's alias: what is written is
/// what is read. (Field keys are distinct runs of `[A-Za-z0-9_]` and list
/// types hold scalars, as the schema parser ensures; every written value fits
/// its type, as a date or a pattern asks and the writer does not check.)
pub proof fn law_frontmatter_round_trip(fields: Seq<FieldSpecV>, data: JsonV, rest: Seq<char>, open: bool)
    requires
        forall|i: int| 0 <= i < fields.len() ==> field_writable(#[trigger] fields[i]),
        forall|i: int, j: int| 0 <= i < j < fields.len() ==> #[trigger] fields[i].key != #[trigger] fields[j].key,
        forall|i: int| 0 <= i < fields.len() && has_value(data, #[trigger] fields[i]) ==> value_fits(field_value(data, fields[i]), fields[i].ty),
        fm_render_spec(fields, data) is Ok,
    ensures
        fm_extract_spec(fields, encode_utf8(fm_render_spec(fields, data)->Ok_0 + rest), open, Seq::empty())
            == (Seq::<ProblemV>::empty(), written_values(fields, data)),
{
    if fields.len() > 0 {
        lemma_fm_lines_written(fields, data);
        let nl = nl_terminated(written_lines(fields, data));
        assert(fm_render_spec(fields, data)->Ok_0 + rest == "---\n"@ + nl + "---\n\n"@ + rest);
        reveal_strlit("---\n");
        reveal_strlit("---\n\n");
        reveal_strlit("\n");
        assert("---\n"@ + nl + "---\n\n"@ + rest =~= "---\n"@ + nl + "---\n"@ + ("\n"@ + rest));
        lemma_block_reads_back(fields, data, "\n"@ + rest, open);
    }
}

} // verus!
