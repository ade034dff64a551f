//! Parser: DSL source to [`Schema`]. Line-oriented; headings nest by level and
//! lists/prose nest by indentation.

use crate::error::SchemaError;
use crate::schema::{Card, card_allows, is_omittable, is_repeated, FieldSchema, FieldType, Head, ListStyle, Match, Node, Regexp, Schema, SchemaOpts, aliases_ok, fm_aliases, heading_level, levels_ok, list_group, lists_ok, nests_within, regex_compiles, regex_error, schema_wf};
use crate::text::{decimal, lines, lines_of, lemma_last_index_of, lemma_trim_len, eq_str, find_char, index_of, last_index_of, rfind_char, lemma_index_of, extend_chars, chars_of, digits_value, is_alnum, is_digit, is_lower, is_upper, is_whitespace, is_ws, parse_u32, parse_u32_spec, push_chars, push_str, skip_ws, starts_with, string_of, trim, trim_bounds, trim_start, trimmed};
use vstd::prelude::*;

verus! {

// ---- description / comment splitting -------------------------------------

/// The first index `>= k` where the two-character token `c1 c2` starts,
/// skipping the character after each backslash; `None` when the scan runs
/// out (the token must end before the last character).
pub open spec fn find_token(s: Seq<char>, k: int, c1: char, c2: char) -> Option<int>
    decreases s.len() - k,
{
    if k < 0 || k + 1 >= s.len() {
        None
    } else if s[k] == '\\' {
        find_token(s, k + 2, c1, c2)
    } else if s[k] == c1 && s[k + 1] == c2 {
        Some(k)
    } else {
        find_token(s, k + 1, c1, c2)
    }
}

fn find_token_exec(s: &[char], c1: char, c2: char) -> (r: Option<usize>)
    ensures
        match r {
            Some(k) => find_token(s@, 0, c1, c2) == Some(k as int) && k + 1 < s@.len(),
            None => find_token(s@, 0, c1, c2) is None,
        },
{
    let mut k: usize = 0;
    loop
        invariant
            find_token(s@, k as int, c1, c2) == find_token(s@, 0, c1, c2),
            k <= s@.len() + 1,
        decreases s@.len() + 2 - k,
    {
        if k >= s.len() || k + 1 >= s.len() {
            return None;
        }
        if s[k] == '\\' {
            k = k + 2;
        } else if s[k] == c1 && s[k + 1] == c2 {
            return Some(k);
        } else {
            k = k + 1;
        }
    }
}

/// `s` with every non-overlapping occurrence of `pat` (scanning left to
/// right) replaced by `rep` (`str::replace`).
pub open spec fn replace_all(s: Seq<char>, pat: Seq<char>, rep: Seq<char>) -> Seq<char>
    decreases s.len(),
{
    if s.len() == 0 || pat.len() == 0 {
        s
    } else if starts_with(s, pat) {
        rep + replace_all(s.skip(pat.len() as int), pat, rep)
    } else {
        seq![s[0]] + replace_all(s.drop_first(), pat, rep)
    }
}

fn replace_exec(s: &[char], pat: &[char], rep: &[char]) -> (r: Vec<char>)
    requires
        pat@.len() > 0,
    ensures
        r@ == replace_all(s@, pat@, rep@),
{
    let mut out: Vec<char> = Vec::new();
    let mut i: usize = 0;
    assert(s@.skip(0) =~= s@);
    assert(out@ + replace_all(s@, pat@, rep@) =~= replace_all(s@, pat@, rep@));
    while i < s.len()
        invariant
            i <= s@.len(),
            pat@.len() > 0,
            out@ + replace_all(s@.skip(i as int), pat@, rep@) == replace_all(s@, pat@, rep@),
        decreases s@.len() - i,
    {
        let ghost rest = s@.skip(i as int);
        if crate::text::has_prefix(&s[i..s.len()], pat) {
            assert(s@.subrange(i as int, s@.len() as int) =~= rest);
            extend_chars(&mut out, rep);
            assert(rest.skip(pat@.len() as int) =~= s@.skip(i + pat@.len()));
            i = i + pat.len();
        } else {
            assert(s@.subrange(i as int, s@.len() as int) =~= rest);
            out.push(s[i]);
            assert(rest.drop_first() =~= s@.skip(i + 1));
            i = i + 1;
        }
    }
    assert(s@.skip(i as int) =~= Seq::<char>::empty());
    out
}


/// Splits a schema line into its content and an optional `<? … ?>`
/// description: the first unescaped `<?` opens it, the next unescaped `?>`
/// closes it (else the line end); the content is what stands before and
/// after; `\?>` and `\\` in the description are unescaped and it is trimmed.
pub open spec fn split_desc_spec(line: Seq<char>) -> (Seq<char>, Option<Seq<char>>) {
    match find_token(line, 0, '<', '?') {
        None => (line, None),
        Some(open) => {
            let before = line.take(open);
            let after = line.skip(open + 2);
            let raw = match find_token(after, 0, '?', '>') {
                Some(c) => after.take(c),
                None => after,
            };
            let tail = match find_token(after, 0, '?', '>') {
                Some(c) => after.skip(c + 2),
                None => Seq::empty(),
            };
            let desc = replace_all(
                replace_all(raw, seq!['\\', '?', '>'], seq!['?', '>']),
                seq!['\\', '\\'],
                seq!['\\'],
            );
            (before + tail, Some(trim(desc)))
        },
    }
}

fn split_desc(line: &[char]) -> (r: (Vec<char>, Option<Vec<char>>))
    ensures
        r.0@ == split_desc_spec(line@).0,
        match split_desc_spec(line@).1 {
            None => r.1 is None,
            Some(d) => r.1 matches Some(rd) && rd@ == d,
        },
{
    match find_token_exec(line, '<', '?') {
        None => (vstd::slice::slice_to_vec(line), None),
        Some(open) => {
            let n = line.len();
            assert(open + 1 < n);
            let before = &line[0..open];
            let after = &line[open + 2..n];
            assert(before@ =~= line@.take(open as int));
            assert(after@ =~= line@.skip(open + 2));
            let (raw, tail): (&[char], &[char]) = match find_token_exec(after, '?', '>') {
                Some(c) => {
                    assert(after@.subrange(0, c as int) =~= after@.take(c as int));
                    assert(after@.subrange(c + 2, after@.len() as int) =~= after@.skip(c + 2));
                    (&after[0..c], &after[c + 2..after.len()])
                },
                None => (after, &after[0..0]),
            };
            assert(after@.subrange(0, 0) =~= Seq::<char>::empty());
            let p1: [char; 3] = ['\\', '?', '>'];
            let q1: [char; 2] = ['?', '>'];
            let p2: [char; 2] = ['\\', '\\'];
            let q2: [char; 1] = ['\\'];
            assert(p1@ =~= seq!['\\', '?', '>']);
            assert(q1@ =~= seq!['?', '>']);
            assert(p2@ =~= seq!['\\', '\\']);
            assert(q2@ =~= seq!['\\']);
            let d1 = replace_exec(raw, &p1, &q1);
            let d2 = replace_exec(d1.as_slice(), &p2, &q2);
            let d3 = trimmed(d2.as_slice());
            assert(raw@ == match find_token(after@, 0, '?', '>') {
                Some(c) => after@.take(c),
                None => after@,
            });
            let mut content = vstd::slice::slice_to_vec(before);
            extend_chars(&mut content, tail);
            (content, Some(d3))
        },
    }
}

// ---- indentation ---------------------------------------------------------

/// Leading indentation of `s` as a visual column count, continuing from
/// column `col` at index `i`: a space adds one, a tab advances to the next
/// multiple of 4, anything else stops. Returns `(columns, index)`.
pub open spec fn indent_scan(s: Seq<char>, i: int, col: nat) -> (nat, int)
    decreases s.len() - i,
{
    if i < 0 || i >= s.len() {
        (col, s.len() as int)
    } else if s[i] == ' ' {
        indent_scan(s, i + 1, col + 1)
    } else if s[i] == '\t' {
        indent_scan(s, i + 1, (col + 4 - col % 4) as nat)
    } else {
        (col, i)
    }
}

/// `(indent, rest)` of a line: its visual indentation and the text after it.
pub open spec fn measure_indent_spec(s: Seq<char>) -> (nat, Seq<char>) {
    let (col, i) = indent_scan(s, 0, 0);
    (col, s.skip(i))
}

fn measure_indent(s: &[char]) -> (r: (usize, usize))
    ensures
        r.0 as nat == if measure_indent_spec(s@).0 <= usize::MAX {
            measure_indent_spec(s@).0
        } else {
            usize::MAX as nat
        },
        r.1 <= s@.len(),
        s@.skip(r.1 as int) == measure_indent_spec(s@).1,
{
    let mut col: u128 = 0;
    let mut i: usize = 0;
    while i < s.len() && (s[i] == ' ' || s[i] == '\t')
        invariant
            i <= s@.len(),
            col <= 4 * i,
            indent_scan(s@, i as int, col as nat) == indent_scan(s@, 0, 0),
        decreases s@.len() - i,
    {
        if s[i] == ' ' {
            col = col + 1;
        } else {
            col = col + 4 - (col % 4);
        }
        i = i + 1;
    }
    assert(indent_scan(s@, i as int, col as nat) == (col as nat, i as int));
    let c: usize = if col > usize::MAX as u128 { usize::MAX } else { col as usize };
    (c, i)
}

// ---- character classes ------------------------------------------------------

/// A character class used to measure a leading run.
pub enum CharClass {
    Hash,
    Digit,
    Alpha,
    /// `[a-z0-9_]`: an alias character.
    NameChar,
    /// `[A-Za-z0-9_]`: a frontmatter key character.
    KeyChar,
}

pub open spec fn in_class(c: char, cls: CharClass) -> bool {
    match cls {
        CharClass::Hash => c == '#',
        CharClass::Digit => is_digit(c),
        CharClass::Alpha => is_lower(c) || is_upper(c),
        CharClass::NameChar => is_lower(c) || is_digit(c) || c == '_',
        CharClass::KeyChar => is_alnum(c) || c == '_',
    }
}

/// The length of the leading run of `s` in the class.
pub open spec fn lead_len(s: Seq<char>, cls: CharClass) -> nat
    decreases s.len(),
{
    if s.len() > 0 && in_class(s[0], cls) {
        1 + lead_len(s.drop_first(), cls)
    } else {
        0
    }
}

pub proof fn lemma_lead_len_bound(s: Seq<char>, cls: CharClass)
    ensures
        lead_len(s, cls) <= s.len(),
    decreases s.len(),
{
    if s.len() > 0 && in_class(s[0], cls) {
        lemma_lead_len_bound(s.drop_first(), cls);
    }
}

fn class_test(c: char, cls: &CharClass) -> (b: bool)
    ensures
        b == in_class(c, *cls),
{
    match cls {
        CharClass::Hash => c == '#',
        CharClass::Digit => '0' <= c && c <= '9',
        CharClass::Alpha => ('a' <= c && c <= 'z') || ('A' <= c && c <= 'Z'),
        CharClass::NameChar => ('a' <= c && c <= 'z') || ('0' <= c && c <= '9') || c == '_',
        CharClass::KeyChar => ('a' <= c && c <= 'z') || ('A' <= c && c <= 'Z') || ('0' <= c && c
            <= '9') || c == '_',
    }
}

pub(crate) fn lead_len_exec(s: &[char], cls: CharClass) -> (n: usize)
    ensures
        n == lead_len(s@, cls),
        n <= s@.len(),
{
    let mut i: usize = 0;
    assert(s@.skip(0) =~= s@);
    while i < s.len() && class_test(s[i], &cls)
        invariant
            i <= s@.len(),
            lead_len(s@, cls) == i + lead_len(s@.skip(i as int), cls),
        decreases s@.len() - i,
    {
        assert(s@.skip(i as int).drop_first() =~= s@.skip(i + 1));
        i = i + 1;
    }
    i
}

// ---- body markers ----------------------------------------------------------

/// The kind of a body line's leading marker.
pub enum MarkerKind {
    Heading(u8),
    Bullet,
    Ordered,
    Checklist,
    Prose,
}

/// Detects a body line's leading marker; returns the kind and the head text
/// after it (leading whitespace removed).
pub open spec fn detect_marker_spec(s: Seq<char>) -> Option<(MarkerKind, Seq<char>)> {
    if starts_with(s, seq!['-', ' ', '[', ' ', ']']) {
        Some((MarkerKind::Checklist, trim_start(s.skip(5))))
    } else if s.len() > 0 && s[0] == '#' {
        let level = lead_len(s, CharClass::Hash);
        let after = s.skip(level as int);
        if 1 <= level <= 6 && (after.len() == 0 || after[0] == ' ') {
            Some((MarkerKind::Heading(level as u8), trim_start(after)))
        } else {
            None
        }
    } else if starts_with(s, seq!['-', ' ']) {
        Some((MarkerKind::Bullet, trim_start(s.skip(2))))
    } else if s == seq!['-'] {
        Some((MarkerKind::Bullet, Seq::empty()))
    } else if lead_len(s, CharClass::Digit) > 0 && lead_len(s, CharClass::Digit) < s.len()
        && s[lead_len(s, CharClass::Digit) as int] == '.' {
        Some((MarkerKind::Ordered, trim_start(s.skip(lead_len(s, CharClass::Digit) as int + 1))))
    } else if s.len() > 0 && s[0] == '>' {
        Some((MarkerKind::Prose, trim_start(s.skip(1))))
    } else {
        None
    }
}

proof fn lemma_hash_run(l: nat, t: Seq<char>)
    requires
        t.len() == 0 || t[0] != '#',
    ensures
        lead_len(Seq::new(l, |i: int| '#') + t, CharClass::Hash) == l,
    decreases l,
{
    let s = Seq::new(l, |i: int| '#') + t;
    if l == 0 {
        assert(s =~= t);
    } else {
        assert(s[0] == '#');
        assert(s.drop_first() =~= Seq::new((l - 1) as nat, |i: int| '#') + t);
        lemma_hash_run((l - 1) as nat, t);
    }
}

/// A schema heading line: a run of one to six `#`, then a space (or the
/// end), marks a heading of that level, its head being the rest with
/// leading whitespace removed; seven or more `#` mark nothing.
pub proof fn law_heading_marker(l: nat, t: Seq<char>)
    requires
        l >= 1,
        t.len() == 0 || t[0] == ' ',
    ensures
        detect_marker_spec(Seq::new(l, |i: int| '#') + t)
            == if l <= 6 { Some((MarkerKind::Heading(l as u8), trim_start(t))) } else { None },
{
    let s = Seq::new(l, |i: int| '#') + t;
    lemma_hash_run(l, t);
    assert(s[0] == '#');
    assert(!starts_with(s, seq!['-', ' ', '[', ' ', ']'])) by {
        if s.len() >= 5 {
            assert(s.take(5)[0] == '#');
        }
    }
    assert(s.skip(l as int) =~= t);
}

/// A schema list or prose line: `- [ ] ` marks a checklist, `- ` (not
/// followed by a box) a bullet list, digits and `.` an ordered list, and `>`
/// prose; the head is what follows, leading whitespace removed.
pub proof fn law_list_markers(n: nat, t: Seq<char>)
    ensures
        detect_marker_spec(seq!['-', ' ', '[', ' ', ']'] + t) == Some((MarkerKind::Checklist, trim_start(t))),
        t.len() == 0 || t[0] != '[' ==> detect_marker_spec(seq!['-', ' '] + t) == Some((MarkerKind::Bullet, trim_start(t))),
        detect_marker_spec(crate::text::decimal(n) + seq!['.'] + t) == Some((MarkerKind::Ordered, trim_start(t))),
        detect_marker_spec(seq!['>'] + t) == Some((MarkerKind::Prose, trim_start(t))),
{
    let c = seq!['-', ' ', '[', ' ', ']'] + t;
    assert(c.take(5) =~= seq!['-', ' ', '[', ' ', ']']);
    assert(c.skip(5) =~= t);
    let b = seq!['-', ' '] + t;
    assert(b.take(2) =~= seq!['-', ' ']);
    assert(b.skip(2) =~= t);
    if t.len() == 0 || t[0] != '[' {
        if b.len() >= 5 {
            assert(b.take(5)[2] == b[2]);
        }
    }
    let d = crate::text::decimal(n);
    let o = d + seq!['.'] + t;
    crate::text::lemma_decimal_token(n);
    lemma_digit_run(d, seq!['.'] + t);
    assert(o =~= d + (seq!['.'] + t));
    assert(o[d.len() as int] == '.');
    assert(o.skip(d.len() as int + 1) =~= t);
    assert(is_digit(o[0]));
    if o.len() >= 5 {
        assert(o.take(5)[0] == o[0]);
    }
    if o.len() >= 2 {
        assert(o.take(2)[0] == o[0]);
    }
    let p = seq!['>'] + t;
    assert(p.skip(1) =~= t);
    if p.len() >= 5 {
        assert(p.take(5)[0] == '>');
    }
    if p.len() >= 2 {
        assert(p.take(2)[0] == '>');
    }
}

proof fn lemma_digit_run(d: Seq<char>, t: Seq<char>)
    requires
        forall|i: int| 0 <= i < d.len() ==> is_digit(#[trigger] d[i]),
        t.len() > 0 && !is_digit(t[0]),
    ensures
        lead_len(d + t, CharClass::Digit) == d.len(),
    decreases d.len(),
{
    if d.len() == 0 {
        assert(d + t =~= t);
    } else {
        assert((d + t)[0] == d[0]);
        assert((d + t).drop_first() =~= d.drop_first() + t);
        lemma_digit_run(d.drop_first(), t);
    }
}

fn trim_start_from(s: &[char], lo: usize) -> (r: usize)
    requires
        lo <= s@.len(),
    ensures
        lo <= r <= s@.len(),
        s@.skip(r as int) == trim_start(s@.skip(lo as int)),
{
    let r = skip_ws(s, lo, s.len());
    assert(s@.subrange(r as int, s@.len() as int) =~= s@.skip(r as int));
    assert(s@.subrange(lo as int, s@.len() as int) =~= s@.skip(lo as int));
    r
}

/// Returns the marker kind and the index where the head text starts.
fn detect_marker(s: &[char]) -> (r: Option<(MarkerKind, usize)>)
    ensures
        match detect_marker_spec(s@) {
            None => r is None,
            Some((k, h)) => r matches Some((rk, i)) && rk == k && i <= s@.len() && s@.skip(
                i as int,
            ) == h,
        },
{
    if crate::text::has_prefix(s, &['-', ' ', '[', ' ', ']']) {
        assert(seq!['-', ' ', '[', ' ', ']'] =~= [ '-', ' ', '[', ' ', ']']@);
        return Some((MarkerKind::Checklist, trim_start_from(s, 5)));
    }
    assert(seq!['-', ' ', '[', ' ', ']'] =~= [ '-', ' ', '[', ' ', ']']@);
    if s.len() > 0 && s[0] == '#' {
        let level = lead_len_exec(s, CharClass::Hash);
        if 1 <= level && level <= 6 && (level == s.len() || s[level] == ' ') {
            return Some((MarkerKind::Heading(level as u8), trim_start_from(s, level)));
        }
        return None;
    }
    assert(seq!['-', ' '] =~= ['-', ' ']@);
    if crate::text::has_prefix(s, &['-', ' ']) {
        return Some((MarkerKind::Bullet, trim_start_from(s, 2)));
    }
    if s.len() == 1 && s[0] == '-' {
        assert(s@ =~= seq!['-']);
        return Some((MarkerKind::Bullet, 1));
    }
    assert(s@.len() == 1 ==> s@[0] != '-' ==> s@ != seq!['-']);
    let digits = lead_len_exec(s, CharClass::Digit);
    if digits > 0 && digits < s.len() && s[digits] == '.' {
        return Some((MarkerKind::Ordered, trim_start_from(s, digits + 1)));
    }
    if s.len() > 0 && s[0] == '>' {
        return Some((MarkerKind::Prose, trim_start_from(s, 1)));
    }
    None
}


// ---- head: cardinality and name ---------------------------------------------

/// A `{m}`, `{m,}` or `{m,n}` range at the start of `s` (which begins with
/// `{`); on anything else the cardinality is `Required` and nothing is
/// consumed. Returns the card and the index where the rest begins.
pub open spec fn parse_range_spec(s: Seq<char>) -> (Card, int) {
    match index_of(s, '}') {
        None => (Card::Required, 0),
        Some(close) => {
            let body = s.subrange(1, close);
            let min_s = match index_of(body, ',') {
                Some(k) => trim(body.take(k)),
                None => trim(body),
            };
            match parse_u32_spec(min_s) {
                None => (Card::Required, 0),
                Some(min) => match index_of(body, ',') {
                    None => (Card::Range(min, Some(min)), close + 1),
                    Some(k) => {
                        let m = trim(body.skip(k + 1));
                        if m.len() == 0 {
                            (Card::Range(min, None), close + 1)
                        } else {
                            match parse_u32_spec(m) {
                                Some(v) => (Card::Range(min, Some(v)), close + 1),
                                None => (Card::Required, 0),
                            }
                        }
                    },
                },
            }
        },
    }
}

/// The cardinality leading a node head, and the index where the rest begins.
pub open spec fn parse_card_spec(s: Seq<char>) -> (Card, int) {
    if s.len() == 0 {
        (Card::Required, 0)
    } else if s[0] == '+' {
        (Card::Plus, 1)
    } else if s[0] == '*' {
        (Card::Star, 1)
    } else if s[0] == '?' {
        (Card::Optional, 1)
    } else if s[0] == '{' {
        parse_range_spec(s)
    } else {
        (Card::Required, 0)
    }
}

/// A decimal count has no comma nor closing brace.
proof fn lemma_count_chars(n: nat)
    ensures
        forall|i: int| 0 <= i < decimal(n).len() ==> #[trigger] decimal(n)[i] != ',' && decimal(n)[i] != '}',
        index_of(decimal(n), ',') is None,
        index_of(decimal(n), '}') is None,
{
    crate::text::lemma_decimal_token(n);
    lemma_index_of(decimal(n), ',');
    lemma_index_of(decimal(n), '}');
}

/// The first `}` of `{` + `body` + `}` + `rest`, for a body without one, is
/// the one after the body.
proof fn lemma_close_after(body: Seq<char>, rest: Seq<char>)
    requires
        forall|i: int| 0 <= i < body.len() ==> body[i] != '}',
    ensures
        index_of(seq!['{'] + body + seq!['}'] + rest, '}') == Some(body.len() as int + 1),
        (seq!['{'] + body + seq!['}'] + rest).subrange(1, body.len() as int + 1) == body,
{
    let s = seq!['{'] + body + seq!['}'] + rest;
    assert forall|j: int| 0 <= j < body.len() + 1 implies s[j] != '}' by {
        if j > 0 {
            assert(s[j] == body[j - 1]);
        }
    }
    crate::text::lemma_index_of_char(s, '}', body.len() as int + 1);
    assert(s.subrange(1, body.len() as int + 1) =~= body);
}

/// An exact cardinality: `{m}` reads as the range from `m` to `m` (exactly
/// `m` repetitions), whatever follows the brace, and the head goes on after
/// it.
pub proof fn law_card_exact(m: u32, rest: Seq<char>)
    ensures
        parse_range_spec(seq!['{'] + decimal(m as nat) + seq!['}'] + rest)
            == (Card::Range(m, Some(m)), decimal(m as nat).len() as int + 2),
{
    let d = decimal(m as nat);
    crate::text::lemma_decimal_token(m as nat);
    lemma_count_chars(m as nat);
    lemma_close_after(d, rest);
}

/// An open cardinality: `{m,}` reads as at least `m` repetitions, with no
/// upper bound.
pub proof fn law_card_at_least(m: u32, rest: Seq<char>)
    ensures
        parse_range_spec(seq!['{'] + decimal(m as nat) + seq![','] + seq!['}'] + rest)
            == (Card::Range(m, None), decimal(m as nat).len() as int + 3),
{
    let d = decimal(m as nat);
    let body = d + seq![','];
    crate::text::lemma_decimal_token(m as nat);
    lemma_count_chars(m as nat);
    assert forall|i: int| 0 <= i < body.len() implies body[i] != '}' by {
        if i < d.len() {
            assert(body[i] == d[i]);
        }
    }
    lemma_close_after(body, rest);
    assert(seq!['{'] + d + seq![','] + seq!['}'] + rest =~= seq!['{'] + body + seq!['}'] + rest);
    crate::text::lemma_index_of_char(body, ',', d.len() as int);
    assert(body.take(d.len() as int) =~= d);
    assert(body.skip(d.len() as int + 1) =~= Seq::<char>::empty());
    assert(trim(Seq::<char>::empty()).len() == 0) by {
        lemma_trim_len(Seq::<char>::empty());
    }
}

/// A bounded cardinality: `{m,n}` reads as from `m` to `n` repetitions.
#[verifier::spinoff_prover]
#[verifier::rlimit(80)]
pub proof fn law_card_between(m: u32, n: u32, rest: Seq<char>)
    ensures
        parse_range_spec(seq!['{'] + decimal(m as nat) + seq![','] + decimal(n as nat) + seq!['}'] + rest)
            == (Card::Range(m, Some(n)), decimal(m as nat).len() + decimal(n as nat).len() + 3int),
{
    let d = decimal(m as nat);
    let e = decimal(n as nat);
    let body = d + seq![','] + e;
    crate::text::lemma_decimal_token(m as nat);
    crate::text::lemma_decimal_token(n as nat);
    lemma_count_chars(m as nat);
    lemma_count_chars(n as nat);
    assert forall|i: int| 0 <= i < body.len() implies body[i] != '}' by {
        if i < d.len() {
            assert(body[i] == d[i]);
        } else if i > d.len() {
            assert(body[i] == e[i - d.len() - 1]);
        }
    }
    lemma_close_after(body, rest);
    assert(seq!['{'] + d + seq![','] + e + seq!['}'] + rest =~= seq!['{'] + body + seq!['}'] + rest);
    assert forall|j: int| 0 <= j < d.len() implies body[j] != ',' by {
        assert(body[j] == d[j]);
    }
    crate::text::lemma_index_of_char(body, ',', d.len() as int);
    assert(body.take(d.len() as int) =~= d);
    assert(body.skip(d.len() as int + 1) =~= e);
    let s = seq!['{'] + body + seq!['}'] + rest;
    assert(index_of(s, '}') == Some(body.len() as int + 1));
    assert(s.subrange(1, body.len() as int + 1) == body);
    assert(index_of(body, ',') == Some(d.len() as int));
    assert(trim(body.take(d.len() as int)) == d);
    assert(parse_u32_spec(d) == Some(m));
    assert(trim(body.skip(d.len() as int + 1)) == e);
    assert(e.len() > 0);
    assert(parse_u32_spec(e) == Some(n));
}

/// The data shape each cardinality marker gives: `+`, `*` and any `{…}`
/// range capture an array, `?` and no marker a single value; and a node may
/// be left out exactly when its cardinality allows zero.
pub proof fn law_card_shapes(m: u32, n: u32, rest: Seq<char>, card: Card)
    ensures
        is_repeated(parse_card_spec(seq!['+'] + rest).0),
        is_repeated(parse_card_spec(seq!['*'] + rest).0),
        !is_repeated(parse_card_spec(seq!['?'] + rest).0),
        rest.len() == 0 || (rest[0] != '+' && rest[0] != '*' && rest[0] != '?' && rest[0] != '{')
            ==> parse_card_spec(rest).0 == Card::Required,
        !is_repeated(Card::Required),
        is_repeated(parse_card_spec(seq!['{'] + decimal(m as nat) + seq!['}'] + rest).0),
        is_repeated(parse_card_spec(seq!['{'] + decimal(m as nat) + seq![','] + seq!['}'] + rest).0),
        is_repeated(parse_card_spec(seq!['{'] + decimal(m as nat) + seq![','] + decimal(n as nat) + seq!['}'] + rest).0),
        is_omittable(card) <==> card_allows(card, 0),
{
    assert((seq!['+'] + rest)[0] == '+');
    assert((seq!['*'] + rest)[0] == '*');
    assert((seq!['?'] + rest)[0] == '?');
    assert((seq!['{'] + decimal(m as nat) + seq!['}'] + rest)[0] == '{');
    assert((seq!['{'] + decimal(m as nat) + seq![','] + seq!['}'] + rest)[0] == '{');
    assert((seq!['{'] + decimal(m as nat) + seq![','] + decimal(n as nat) + seq!['}'] + rest)[0] == '{');
    law_card_exact(m, rest);
    law_card_at_least(m, rest);
    law_card_between(m, n, rest);
}

/// What each cardinality marker admits, from its text to the counts it
/// allows: `+` one or more, `*` any number, `?` at most one, `{m}` exactly
/// `m`, `{m,}` at least `m`, `{m,n}` from `m` to `n`.
pub proof fn law_card_counts(m: u32, n: u32, c: nat, rest: Seq<char>)
    ensures
        card_allows(parse_card_spec(seq!['+'] + rest).0, c) <==> c >= 1,
        card_allows(parse_card_spec(seq!['*'] + rest).0, c),
        card_allows(parse_card_spec(seq!['?'] + rest).0, c) <==> c <= 1,
        card_allows(parse_card_spec(seq!['{'] + decimal(m as nat) + seq!['}'] + rest).0, c) <==> c == m,
        card_allows(parse_card_spec(seq!['{'] + decimal(m as nat) + seq![','] + seq!['}'] + rest).0, c) <==> c >= m,
        card_allows(parse_card_spec(seq!['{'] + decimal(m as nat) + seq![','] + decimal(n as nat) + seq!['}'] + rest).0, c)
            <==> m <= c <= n,
{
    assert((seq!['+'] + rest)[0] == '+');
    assert((seq!['*'] + rest)[0] == '*');
    assert((seq!['?'] + rest)[0] == '?');
    assert((seq!['{'] + decimal(m as nat) + seq!['}'] + rest)[0] == '{');
    assert((seq!['{'] + decimal(m as nat) + seq![','] + seq!['}'] + rest)[0] == '{');
    assert((seq!['{'] + decimal(m as nat) + seq![','] + decimal(n as nat) + seq!['}'] + rest)[0] == '{');
    law_card_exact(m, rest);
    law_card_at_least(m, rest);
    law_card_between(m, n, rest);
}

fn parse_range(s: &[char]) -> (r: (Card, usize))
    requires
        s@.len() > 0,
        s@[0] == '{',
    ensures
        r.0 == parse_range_spec(s@).0,
        r.1 as int == parse_range_spec(s@).1,
        r.1 <= s@.len(),
{
    let close = match find_char(s, '}') {
        None => return (Card::Required, 0),
        Some(c) => c,
    };
    let n = s.len();
    assert(close < n);
    let body = &s[1..close];
    assert(body@ =~= s@.subrange(1, close as int));
    let (min_lo, min_hi, comma) = match find_char(body, ',') {
        Some(k) => {
            proof { lemma_index_of(body@, ','); }
            let (a, b) = trim_bounds(body, 0, k);
            assert(body@.subrange(0, k as int) =~= body@.take(k as int));
            (a, b, Some(k))
        },
        None => {
            let (a, b) = trim_bounds(body, 0, body.len());
            assert(body@.subrange(0, body@.len() as int) =~= body@);
            (a, b, None)
        },
    };
    let min = match parse_u32(&body[min_lo..min_hi]) {
        None => return (Card::Required, 0),
        Some(m) => m,
    };
    match comma {
        None => (Card::Range(min, Some(min)), close + 1),
        Some(k) => {
            let (a, b) = trim_bounds(body, k + 1, body.len());
            assert(body@.subrange(k + 1, body@.len() as int) =~= body@.skip(k + 1));
            if a == b {
                (Card::Range(min, None), close + 1)
            } else {
                match parse_u32(&body[a..b]) {
                    Some(v) => (Card::Range(min, Some(v)), close + 1),
                    None => (Card::Required, 0),
                }
            }
        },
    }
}

fn parse_card(s: &[char]) -> (r: (Card, usize))
    ensures
        r.0 == parse_card_spec(s@).0,
        r.1 as int == parse_card_spec(s@).1,
        r.1 <= s@.len(),
{
    if s.len() == 0 {
        (Card::Required, 0)
    } else if s[0] == '+' {
        (Card::Plus, 1)
    } else if s[0] == '*' {
        (Card::Star, 1)
    } else if s[0] == '?' {
        (Card::Optional, 1)
    } else if s[0] == '{' {
        parse_range(s)
    } else {
        (Card::Required, 0)
    }
}

/// An `@name` at the start of `s`: the alias (a non-empty `[a-z0-9_]` run)
/// and the index where the rest begins; no alias consumes nothing.
pub open spec fn parse_name_spec(s: Seq<char>) -> (Option<Seq<char>>, int) {
    if s.len() > 0 && s[0] == '@' {
        let end = lead_len(s.skip(1), CharClass::NameChar);
        if end == 0 {
            (None, 0)
        } else {
            (Some(s.subrange(1, 1 + end as int)), 1 + end as int)
        }
    } else {
        (None, 0)
    }
}

proof fn lemma_class_run(d: Seq<char>, t: Seq<char>, cls: CharClass)
    requires
        forall|i: int| 0 <= i < d.len() ==> in_class(#[trigger] d[i], cls),
        t.len() == 0 || !in_class(t[0], cls),
    ensures
        lead_len(d + t, cls) == d.len(),
    decreases d.len(),
{
    if d.len() == 0 {
        assert(d + t =~= t);
    } else {
        assert((d + t)[0] == d[0]);
        assert((d + t).drop_first() =~= d.drop_first() + t);
        lemma_class_run(d.drop_first(), t, cls);
    }
}

/// An alias: `@` and a run of `[a-z0-9_]` names the node by that run (the
/// rest of the head begins after it); `@` with no such run, or no `@`,
/// names nothing and takes nothing.
pub proof fn law_alias_name(name: Seq<char>, rest: Seq<char>)
    requires
        forall|i: int| 0 <= i < name.len() ==> in_class(#[trigger] name[i], CharClass::NameChar),
        rest.len() == 0 || !in_class(rest[0], CharClass::NameChar),
    ensures
        parse_name_spec(seq!['@'] + name + rest)
            == if name.len() > 0 { (Some(name), name.len() as int + 1) } else { (None::<Seq<char>>, 0int) },
        rest.len() == 0 || rest[0] != '@' ==> parse_name_spec(rest) == (None::<Seq<char>>, 0int),
{
    let s = seq!['@'] + name + rest;
    assert(s.skip(1) =~= name + rest);
    lemma_class_run(name, rest, CharClass::NameChar);
    assert(s.subrange(1, 1 + name.len() as int) =~= name);
}

fn parse_name(s: &[char]) -> (r: (Option<Vec<char>>, usize))
    ensures
        r.1 as int == parse_name_spec(s@).1,
        r.1 <= s@.len(),
        match parse_name_spec(s@).0 {
            None => r.0 is None,
            Some(n) => r.0 matches Some(v) && v@ == n,
        },
{
    if s.len() > 0 && s[0] == '@' {
        let rest = &s[1..s.len()];
        assert(rest@ =~= s@.skip(1));
        let end = lead_len_exec(rest, CharClass::NameChar);
        if end == 0 {
            (None, 0)
        } else {
            let name = vstd::slice::slice_to_vec(&s[1..1 + end]);
            (Some(name), 1 + end)
        }
    } else {
        (None, 0)
    }
}

// ---- labels ------------------------------------------------------------------

/// Backslash escapes resolved: `\x` is `x`; a trailing lone `\` is dropped.
pub open spec fn unescape_spec(s: Seq<char>) -> Seq<char>
    decreases s.len(),
{
    if s.len() == 0 {
        s
    } else if s[0] == '\\' {
        if s.len() >= 2 {
            seq![s[1]] + unescape_spec(s.skip(2))
        } else {
            Seq::empty()
        }
    } else {
        seq![s[0]] + unescape_spec(s.drop_first())
    }
}

fn unescape(s: &[char]) -> (r: Vec<char>)
    ensures
        r@ == unescape_spec(s@),
{
    let mut out: Vec<char> = Vec::new();
    let mut i: usize = 0;
    assert(s@.skip(0) =~= s@);
    assert(out@ + unescape_spec(s@) =~= unescape_spec(s@));
    while i < s.len()
        invariant
            i <= s@.len(),
            out@ + unescape_spec(s@.skip(i as int)) == unescape_spec(s@),
        decreases s@.len() - i,
    {
        let ghost rest = s@.skip(i as int);
        if s[i] == '\\' {
            if i + 1 < s.len() {
                out.push(s[i + 1]);
                assert(rest.skip(2) =~= s@.skip(i + 2));
                i = i + 2;
            } else {
                assert(s@.skip(i + 1) =~= Seq::<char>::empty());
                i = i + 1;
            }
        } else {
            out.push(s[i]);
            assert(rest.drop_first() =~= s@.skip(i + 1));
            i = i + 1;
        }
    }
    assert(s@.skip(i as int) =~= Seq::<char>::empty());
    out
}

/// The first index `>= k` of `c`, skipping the character after each
/// backslash.
pub open spec fn find_unescaped(s: Seq<char>, k: int, c: char) -> Option<int>
    decreases s.len() + 2 - k,
{
    if k < 0 || k >= s.len() {
        None
    } else if s[k] == '\\' {
        find_unescaped(s, k + 2, c)
    } else if s[k] == c {
        Some(k)
    } else {
        find_unescaped(s, k + 1, c)
    }
}

fn find_unescaped_exec(s: &[char], c: char) -> (r: Option<usize>)
    ensures
        match r {
            Some(k) => find_unescaped(s@, 0, c) == Some(k as int) && k < s@.len(),
            None => find_unescaped(s@, 0, c) is None,
        },
{
    let mut k: usize = 0;
    loop
        invariant
            find_unescaped(s@, k as int, c) == find_unescaped(s@, 0, c),
            k <= s@.len() + 1,
        decreases s@.len() + 2 - k,
    {
        if k >= s.len() {
            return None;
        }
        if s[k] == '\\' {
            if k + 1 >= s.len() {
                assert(find_unescaped(s@, k + 2, c) is None);
                return None;
            }
            k = k + 2;
        } else if s[k] == c {
            return Some(k);
        } else {
            k = k + 1;
        }
    }
}

/// The pattern of a `/pattern/flags` regex written at the start of `s`:
/// the text up to the closing unescaped `/` (or the end), with a run of ASCII
/// letters after it folded into a leading `(?flags)` group.
pub open spec fn parse_regex_spec(s: Seq<char>) -> Seq<char> {
    let body = s.skip(1);
    match find_unescaped(body, 0, '/') {
        None => body,
        Some(end) => {
            let pat = body.take(end);
            let after = body.skip(end + 1);
            let fl = lead_len(after, CharClass::Alpha);
            if fl == 0 {
                pat
            } else {
                seq!['(', '?'] + after.take(fl as int) + seq![')'] + pat
            }
        },
    }
}

fn parse_regex(s: &[char]) -> (r: Vec<char>)
    requires
        s@.len() > 0,
    ensures
        r@ == parse_regex_spec(s@),
{
    let body = &s[1..s.len()];
    let bn = body.len();
    assert(body@ =~= s@.skip(1));
    match find_unescaped_exec(body, '/') {
        None => vstd::slice::slice_to_vec(body),
        Some(end) => {
            let pat = &body[0..end];
            let after = &body[end + 1..bn];
            assert(pat@ =~= body@.take(end as int));
            assert(after@ =~= body@.skip(end + 1));
            let fl = lead_len_exec(after, CharClass::Alpha);
            if fl == 0 {
                vstd::slice::slice_to_vec(pat)
            } else {
                let mut out: Vec<char> = Vec::new();
                out.push('(');
                out.push('?');
                extend_chars(&mut out, &after[0..fl]);
                out.push(')');
                extend_chars(&mut out, pat);
                assert(after@.subrange(0, fl as int) =~= after@.take(fl as int));
                assert(out@ =~= seq!['(', '?'] + after@.take(fl as int) + seq![')'] + pat@);
                out
            }
        },
    }
}

/// A label as written: none, a literal, or a regex pattern.
pub enum LabelSpec {
    NoLabel,
    Lit(Seq<char>),
    Re(Seq<char>),
}

/// How a node's label text reads: empty after trimming is no label; a
/// leading `/` is a regex; a leading `"` quotes a literal up to the last `"`;
/// anything else is a literal. Literals are backslash-unescaped.
pub open spec fn parse_label_spec(s0: Seq<char>) -> LabelSpec {
    let s = trim(s0);
    if s.len() == 0 {
        LabelSpec::NoLabel
    } else if s[0] == '/' {
        LabelSpec::Re(parse_regex_spec(s))
    } else if s[0] == '"' {
        let rest = s.skip(1);
        let lit = match last_index_of(rest, '"') {
            Some(k) => rest.take(k),
            None => rest,
        };
        LabelSpec::Lit(unescape_spec(lit))
    } else {
        LabelSpec::Lit(unescape_spec(s))
    }
}

proof fn lemma_unescape_plain(t: Seq<char>)
    requires
        forall|i: int| 0 <= i < t.len() ==> t[i] != '\\',
    ensures
        unescape_spec(t) == t,
    decreases t.len(),
{
    if t.len() > 0 {
        lemma_unescape_plain(t.drop_first());
        assert(seq![t[0]] + t.drop_first() =~= t);
    }
}

proof fn lemma_find_plain(t: Seq<char>, rest: Seq<char>, c: char, k: int)
    requires
        0 <= k <= t.len(),
        c != '\\',
        forall|i: int| 0 <= i < t.len() ==> t[i] != '\\' && t[i] != c,
    ensures
        find_unescaped(t + seq![c] + rest, k, c) == Some(t.len() as int),
    decreases t.len() - k,
{
    let s = t + seq![c] + rest;
    if k < t.len() {
        assert(s[k] == t[k]);
        lemma_find_plain(t, rest, c, k + 1);
    } else {
        assert(s[k] == c);
    }
}

/// How a node's label reads: a bare literal (no backslash, not starting
/// with `/` or `"`, no whitespace at its ends) is that literal; a literal in
/// double quotes (holding no quote nor backslash) is the quoted text; `/p/`
/// (a pattern holding no `/` nor backslash, no flags) is the regex `p`; a
/// backslash keeps the character after it; blank is no label.
pub proof fn law_label_forms(t: Seq<char>, c: char, rest: Seq<char>)
    requires
        forall|i: int| 0 <= i < t.len() ==> t[i] != '\\' && t[i] != '"' && t[i] != '/',
    ensures
        t.len() > 0 && !is_ws(t[0]) && !is_ws(t[t.len() - 1]) ==> parse_label_spec(t) == LabelSpec::Lit(t),
        parse_label_spec(seq!['"'] + t + seq!['"']) == LabelSpec::Lit(t),
        parse_label_spec(seq!['/'] + t + seq!['/']) == LabelSpec::Re(t),
        unescape_spec(seq!['\\', c] + rest) == seq![c] + unescape_spec(rest),
        trim(rest).len() == 0 ==> parse_label_spec(rest) == LabelSpec::NoLabel,
{
    lemma_unescape_plain(t);
    if t.len() > 0 && !is_ws(t[0]) && !is_ws(t[t.len() - 1]) {
        crate::text::lemma_trim_no_ws_ends(t);
    }
    let q = seq!['"'] + t + seq!['"'];
    crate::text::lemma_trim_no_ws_ends(q);
    assert(q.skip(1) =~= t + seq!['"']);
    crate::text::lemma_last_index_of(q.skip(1), '"');
    assert(last_index_of(t + seq!['"'], '"') == Some(t.len() as int)) by {
        assert((t + seq!['"']).last() == '"');
    }
    assert((t + seq!['"']).take(t.len() as int) =~= t);
    let r = seq!['/'] + t + seq!['/'];
    crate::text::lemma_trim_no_ws_ends(r);
    assert(r.skip(1) =~= t + seq!['/'] + Seq::<char>::empty());
    lemma_find_plain(t, Seq::empty(), '/', 0);
    assert((t + seq!['/'] + Seq::<char>::empty()).take(t.len() as int) =~= t);
    assert((t + seq!['/'] + Seq::<char>::empty()).skip(t.len() as int + 1) =~= Seq::<char>::empty());
    let e = seq!['\\', c] + rest;
    assert(e.skip(2) =~= rest);
}

/// Whether `m` is the compiled form of the label `l`.
pub open spec fn label_is(m: Option<Match>, l: LabelSpec) -> bool {
    match l {
        LabelSpec::NoLabel => m is None,
        LabelSpec::Lit(t) => m matches Some(Match::Literal(x)) && x@ == t,
        LabelSpec::Re(p) => m matches Some(Match::Regex(r)) && r@ == p,
    }
}

/// The regex pattern of a label, if it is one.
pub open spec fn label_regex(l: LabelSpec) -> Option<Seq<char>> {
    match l {
        LabelSpec::Re(p) => Some(p),
        _ => None,
    }
}

/// `prefix ++ text`, as a new string.
fn message(prefix: &str, text: &[char], suffix: &str) -> (s: String)
    ensures
        s@ == prefix@ + text@ + suffix@,
{
    let mut s = String::new();
    push_str(&mut s, prefix);
    push_chars(&mut s, text);
    push_str(&mut s, suffix);
    s
}

/// `a ++ b`, as a new string.
fn join2(a: &str, b: &str) -> (s: String)
    ensures
        s@ == a@ + b@,
{
    let mut s = String::new();
    push_str(&mut s, a);
    push_str(&mut s, b);
    s
}

fn parse_label(s0: &[char], line: usize, col: usize) -> (r: Result<Option<Match>, SchemaError>)
    ensures
        match r {
            Ok(m) => label_is(m, parse_label_spec(s0@)) && match label_regex(
                parse_label_spec(s0@),
            ) {
                Some(p) => regex_compiles(p),
                None => true,
            },
            Err(e) => {
                &&& e.line == line
                &&& e.col == col
                &&& label_regex(parse_label_spec(s0@)) matches Some(p)
                &&& !regex_compiles(p)
                &&& e.message@ == "invalid regex label: "@ + regex_error(p)
            },
        },
{
    let s = trimmed(s0);
    if s.len() == 0 {
        return Ok(None);
    }
    if s[0] == '/' {
        let pat = parse_regex(s.as_slice());
        return match Regexp::new(string_of(pat.as_slice())) {
            Ok(re) => Ok(Some(Match::Regex(re))),
            Err(e) => {
                let m = join2("invalid regex label: ", e.as_str());
                Err(SchemaError::new(line, col, m))
            },
        };
    }
    if s[0] == '"' {
        let rest = &s.as_slice()[1..s.len()];
        assert(rest@ =~= s@.skip(1));
        let lit: &[char] = match rfind_char(rest, '"') {
            Some(k) => {
                assert(rest@.subrange(0, k as int) =~= rest@.take(k as int));
                &rest[0..k]
            },
            None => rest,
        };
        let u = unescape(lit);
        assert(lit@ == match last_index_of(rest@, '"') {
            Some(k) => rest@.take(k),
            None => rest@,
        });
        let out = string_of(u.as_slice());
        assert(label_is(Some(Match::Literal(out)), parse_label_spec(s0@)));
        return Ok(Some(Match::Literal(out)));
    }
    let u = unescape(s.as_slice());
    Ok(Some(Match::Literal(string_of(u.as_slice()))))
}


// ---- directives --------------------------------------------------------------

/// A `%key = value` directive (the text after `%`) applied to `opts`, or the
/// error message.
pub open spec fn apply_directive_spec(rest: Seq<char>, opts: SchemaOpts) -> Result<SchemaOpts, Seq<char>> {
    match index_of(rest, '=') {
        None => Err("directive needs `key = value`"@),
        Some(k) => {
            let key = trim(rest.take(k));
            let v = trim(rest.skip(k + 1));
            if key == "ordered"@ && v == "true"@ {
                Ok(SchemaOpts { ordered: true, ..opts })
            } else if key == "ordered"@ && v == "false"@ {
                Ok(SchemaOpts { ordered: false, ..opts })
            } else if key == "strict"@ && v == "true"@ {
                Ok(SchemaOpts { strict: true, ..opts })
            } else if key == "strict"@ && v == "false"@ {
                Ok(SchemaOpts { strict: false, ..opts })
            } else if key == "frontmatter"@ && v == "open"@ {
                Ok(SchemaOpts { frontmatter_open: true, ..opts })
            } else if key == "frontmatter"@ && v == "closed"@ {
                Ok(SchemaOpts { frontmatter_open: false, ..opts })
            } else {
                Err("unknown directive `%"@ + rest + "`"@)
            }
        },
    }
}

fn apply_directive(rest: &[char], line: usize, opts: SchemaOpts) -> (r: Result<SchemaOpts, SchemaError>)
    ensures
        match apply_directive_spec(rest@, opts) {
            Ok(o) => r == Ok::<SchemaOpts, SchemaError>(o),
            Err(m) => r matches Err(e) && e.line == line && e.col == 1 && e.message@ == m,
        },
{
    let k = match find_char(rest, '=') {
        None => {
            let mut m = String::new();
            push_str(&mut m, "directive needs `key = value`");
            return Err(SchemaError::new(line, 1, m));
        },
        Some(k) => k,
    };
    let n = rest.len();
    let key = trimmed(&rest[0..k]);
    let v = trimmed(&rest[k + 1..n]);
    assert(rest@.subrange(0, k as int) =~= rest@.take(k as int));
    assert(rest@.subrange(k + 1, rest@.len() as int) =~= rest@.skip(k + 1));
    let mut o = opts;
    if eq_str(&key, "ordered") && eq_str(&v, "true") {
        o.ordered = true;
    } else if eq_str(&key, "ordered") && eq_str(&v, "false") {
        o.ordered = false;
    } else if eq_str(&key, "strict") && eq_str(&v, "true") {
        o.strict = true;
    } else if eq_str(&key, "strict") && eq_str(&v, "false") {
        o.strict = false;
    } else if eq_str(&key, "frontmatter") && eq_str(&v, "open") {
        o.frontmatter_open = true;
    } else if eq_str(&key, "frontmatter") && eq_str(&v, "closed") {
        o.frontmatter_open = false;
    } else {
        return Err(SchemaError::new(line, 1, message("unknown directive `%", rest, "`")));
    }
    Ok(o)
}

// ---- frontmatter fields ---------------------------------------------------------

/// The value type a frontmatter field declares, with regexes as patterns.
pub enum FieldTypeSpec {
    Str,
    Int,
    Bool,
    Date,
    Enum(Seq<Seq<char>>),
    List(Box<FieldTypeSpec>),
    Re(Seq<char>),
}

/// A type parse error: a message, or the pattern of a regex type or label
/// that does not compile.
pub enum TypeErr {
    Msg(Seq<char>),
    BadRegex(Seq<char>),
    BadLabel(Seq<char>),
}

/// Whether `t` is the compiled form of the declared type `s`.
pub open spec fn type_is(t: FieldType, s: FieldTypeSpec) -> bool
    decreases s,
{
    match s {
        FieldTypeSpec::Str => t is Str,
        FieldTypeSpec::Int => t is Int,
        FieldTypeSpec::Bool => t is Bool,
        FieldTypeSpec::Date => t is Date,
        FieldTypeSpec::Enum(vals) => t matches FieldType::Enum(v) && v@.len() == vals.len() && forall|
            i: int,
        | 0 <= i < vals.len() ==> #[trigger] v@[i]@ == vals[i],
        FieldTypeSpec::List(inner) => t matches FieldType::List(b) && type_is(*b, *inner),
        FieldTypeSpec::Re(p) => t matches FieldType::Regex(r) && r@ == p,
    }
}

/// `enum(…)` values: the comma-separated pieces of `s`, trimmed, empty ones
/// dropped. Returns the finished values and the pending piece.
pub open spec fn enum_state(s: Seq<char>) -> (Seq<Seq<char>>, Seq<char>)
    decreases s.len(),
{
    if s.len() == 0 {
        (Seq::empty(), Seq::empty())
    } else {
        let (done, cur) = enum_state(s.drop_last());
        if s.last() == ',' {
            (if trim(cur).len() > 0 { done.push(trim(cur)) } else { done }, Seq::empty())
        } else {
            (done, cur.push(s.last()))
        }
    }
}

pub open spec fn enum_values(s: Seq<char>) -> Seq<Seq<char>> {
    let (done, cur) = enum_state(s);
    if trim(cur).len() > 0 {
        done.push(trim(cur))
    } else {
        done
    }
}

fn enum_values_exec(s: &[char]) -> (r: Vec<String>)
    ensures
        r@.len() == enum_values(s@).len(),
        forall|i: int| 0 <= i < r@.len() ==> #[trigger] r@[i]@ == enum_values(s@)[i],
{
    let mut done: Vec<String> = Vec::new();
    let mut cur: Vec<char> = Vec::new();
    let mut i: usize = 0;
    while i < s.len()
        invariant
            i <= s@.len(),
            done@.len() == enum_state(s@.take(i as int)).0.len(),
            forall|k: int|
                0 <= k < done@.len() ==> #[trigger] done@[k]@ == enum_state(s@.take(i as int)).0[k],
            cur@ == enum_state(s@.take(i as int)).1,
        decreases s@.len() - i,
    {
        assert(s@.take(i + 1).drop_last() =~= s@.take(i as int));
        if s[i] == ',' {
            let t = trimmed(cur.as_slice());
            if t.len() > 0 {
                done.push(string_of(t.as_slice()));
            }
            cur = Vec::new();
        } else {
            cur.push(s[i]);
        }
        i = i + 1;
    }
    assert(s@.take(i as int) =~= s@);
    let t = trimmed(cur.as_slice());
    if t.len() > 0 {
        done.push(string_of(t.as_slice()));
    }
    done
}

/// Reads a frontmatter type (`string`, `int`, `bool`, `date`, `enum(…)`,
/// `[T]` with a non-list `T` and nothing after the `]`, or `/regex/`).
pub open spec fn parse_field_type_spec(s: Seq<char>) -> Result<FieldTypeSpec, TypeErr>
    decreases s.len(),
{
    if s == "string"@ {
        Ok(FieldTypeSpec::Str)
    } else if s == "int"@ {
        Ok(FieldTypeSpec::Int)
    } else if s == "bool"@ {
        Ok(FieldTypeSpec::Bool)
    } else if s == "date"@ {
        Ok(FieldTypeSpec::Date)
    } else if starts_with(s, "enum("@) && s.len() >= 6 && s.last() == ')' {
        Ok(FieldTypeSpec::Enum(enum_values(s.subrange(5, s.len() - 1))))
    } else if s.len() > 0 && s[0] == '[' {
        let inner = s.skip(1);
        match last_index_of(inner, ']') {
            None => Err(TypeErr::Msg("list type missing `]`"@)),
            Some(close) => {
                let trailing = trim(inner.skip(close + 1));
                if trailing.len() > 0 {
                    Err(TypeErr::Msg("unexpected `"@ + trailing + "` after list type"@))
                } else {
                    let elem_src = trim(inner.take(close));
                    proof {
                        lemma_trim_len(inner.take(close));
                        lemma_last_index_of(inner, ']');
                    }
                    match parse_field_type_spec(elem_src) {
                        Err(e) => Err(e),
                        Ok(elem) => if elem is List {
                            Err(TypeErr::Msg("nested list types (`[[T]]`) are not supported"@))
                        } else {
                            Ok(FieldTypeSpec::List(Box::new(elem)))
                        },
                    }
                }
            },
        }
    } else if s.len() > 0 && s[0] == '/' {
        if regex_compiles(parse_regex_spec(s)) {
            Ok(FieldTypeSpec::Re(parse_regex_spec(s)))
        } else {
            Err(TypeErr::BadRegex(parse_regex_spec(s)))
        }
    } else {
        Err(TypeErr::Msg("unknown type `"@ + s + "`"@))
    }
}

/// The error a schema line gets for a type error (`col` 1); a bad regex type
/// carries the regex crate's message after `invalid regex type: `.
pub open spec fn type_err_is(e: SchemaError, t: TypeErr, line: usize) -> bool {
    &&& e.line == line
    &&& e.col == 1
    &&& match t {
        TypeErr::Msg(m) => e.message@ == m,
        TypeErr::BadRegex(p) => e.message@ == "invalid regex type: "@ + regex_error(p),
        TypeErr::BadLabel(p) => e.message@ == "invalid regex label: "@ + regex_error(p),
    }
}

/// One list level around an element type's parse: a list of it, unless it
/// is itself a list.
pub open spec fn list_of(r: Result<FieldTypeSpec, TypeErr>) -> Result<FieldTypeSpec, TypeErr> {
    match r {
        Err(e) => Err(e),
        Ok(elem) => if elem is List {
            Err(TypeErr::Msg("nested list types (`[[T]]`) are not supported"@))
        } else {
            Ok(FieldTypeSpec::List(Box::new(elem)))
        },
    }
}

/// `k` list levels around an element type's parse, innermost first.
pub open spec fn lists_of(k: nat, r: Result<FieldTypeSpec, TypeErr>) -> Result<FieldTypeSpec, TypeErr>
    decreases k,
{
    if k == 0 {
        r
    } else {
        lists_of((k - 1) as nat, list_of(r))
    }
}

proof fn lemma_lists_of_err(k: nat, e: TypeErr)
    ensures
        lists_of(k, Err(e)) == Err::<FieldTypeSpec, TypeErr>(e),
    decreases k,
{
    if k > 0 {
        lemma_lists_of_err((k - 1) as nat, e);
    }
}

proof fn lemma_lists_of_ok(k: nat, t: FieldTypeSpec)
    requires
        !(t is List),
    ensures
        k == 1 ==> lists_of(k, Ok(t)) == Ok::<FieldTypeSpec, TypeErr>(FieldTypeSpec::List(Box::new(t))),
        k >= 2 ==> lists_of(k, Ok(t)) == Err::<FieldTypeSpec, TypeErr>(TypeErr::Msg("nested list types (`[[T]]`) are not supported"@)),
    decreases k,
{
    if k == 1 {
        assert(lists_of(k, Ok(t)) == lists_of(0, list_of(Ok(t))));
    }
    if k >= 2 {
        let l = FieldTypeSpec::List(Box::new(t));
        assert(list_of(Ok(t)) == Ok::<FieldTypeSpec, TypeErr>(l));
        assert(lists_of(k, Ok(t)) == lists_of((k - 1) as nat, Ok(l)));
        assert(lists_of((k - 1) as nat, Ok(l)) == lists_of((k - 2) as nat, list_of(Ok(l))));
        assert(list_of(Ok(l)) == Err::<FieldTypeSpec, TypeErr>(TypeErr::Msg("nested list types (`[[T]]`) are not supported"@)));
        lemma_lists_of_err((k - 2) as nat, TypeErr::Msg("nested list types (`[[T]]`) are not supported"@));
    }
}

/// Reads a frontmatter type (see [`parse_field_type_spec`]). The list levels
/// are peeled off in a loop over bounds within `s`, so a deeply bracketed
/// type needs neither deep recursion nor a copy per level: each level scans
/// only characters that no other level scans.
fn parse_field_type(s: &[char], line: usize) -> (r: Result<FieldType, SchemaError>)
    ensures
        match parse_field_type_spec(s@) {
            Ok(t) => r matches Ok(ft) && type_is(ft, t),
            Err(te) => r matches Err(e) && type_err_is(e, te, line),
        },
{
    let mut lo: usize = 0;
    let mut hi: usize = s.len();
    let mut k: usize = 0;
    assert(s@.subrange(0, s@.len() as int) =~= s@);
    while lo < hi && s[lo] == '['
        invariant
            lo <= hi <= s@.len(),
            k + (hi - lo) <= s@.len(),
            parse_field_type_spec(s@) == lists_of(k as nat, parse_field_type_spec(s@.subrange(lo as int, hi as int))),
        decreases hi - lo,
    {
        let ghost cur = s@.subrange(lo as int, hi as int);
        proof {
            reveal_strlit("string");
            reveal_strlit("int");
            reveal_strlit("bool");
            reveal_strlit("date");
            reveal_strlit("enum(");
            assert(cur[0] == '[');
            assert(cur != "string"@ && cur != "int"@ && cur != "bool"@ && cur != "date"@);
            if starts_with(cur, "enum("@) {
                assert(cur.take(5)[0] == cur[0]);
            }
        }
        let inner = &s[lo + 1..hi];
        assert(inner@ =~= cur.skip(1));
        let close = match rfind_char(inner, ']') {
            None => {
                let mut m = String::new();
                push_str(&mut m, "list type missing `]`");
                proof { lemma_lists_of_err(k as nat, TypeErr::Msg("list type missing `]`"@)); }
                return Err(SchemaError::new(line, 1, m));
            },
            Some(c) => c,
        };
        let at = lo + 1 + close;
        let (ta, tb) = trim_bounds(s, at + 1, hi);
        assert(s@.subrange(at + 1, hi as int) =~= inner@.skip(close + 1));
        if ta < tb {
            let trailing = &s[ta..tb];
            assert(trailing@ =~= s@.subrange(ta as int, tb as int));
            proof {
                lemma_lists_of_err(k as nat, TypeErr::Msg("unexpected `"@ + trailing@ + "` after list type"@));
            }
            return Err(SchemaError::new(line, 1, message("unexpected `", trailing, "` after list type")));
        }
        assert(s@.subrange(ta as int, tb as int) =~= Seq::<char>::empty());
        let (ea, eb) = trim_bounds(s, lo + 1, at);
        assert(s@.subrange(lo + 1, at as int) =~= inner@.take(close as int));
        proof {
            lemma_trim_len(inner@.take(close as int));
            assert(parse_field_type_spec(cur) == list_of(parse_field_type_spec(s@.subrange(ea as int, eb as int))));
        }
        k = k + 1;
        lo = ea;
        hi = eb;
    }
    let cur = &s[lo..hi];
    assert(cur@ =~= s@.subrange(lo as int, hi as int));
    let base = parse_base_type(cur, line);
    let ghost bs = parse_field_type_spec(cur@);
    match base {
        Err(e) => {
            proof {
                lemma_lists_of_err(k as nat, bs->Err_0);
            }
            Err(e)
        },
        Ok(elem) => {
            proof { lemma_lists_of_ok(k as nat, bs->Ok_0); }
            if k == 0 {
                Ok(elem)
            } else if k == 1 {
                Ok(FieldType::List(Box::new(elem)))
            } else {
                let mut m = String::new();
                push_str(&mut m, "nested list types (`[[T]]`) are not supported");
                Err(SchemaError::new(line, 1, m))
            }
        },
    }
}

/// A frontmatter type that is not a list type (see [`parse_field_type_spec`]).
fn parse_base_type(s: &[char], line: usize) -> (r: Result<FieldType, SchemaError>)
    requires
        !(s@.len() > 0 && s@[0] == '['),
    ensures
        match parse_field_type_spec(s@) {
            Ok(t) => r matches Ok(ft) && type_is(ft, t) && !(t is List),
            Err(te) => r matches Err(e) && type_err_is(e, te, line),
        },
{
    if eq_str(s, "string") {
        return Ok(FieldType::Str);
    }
    if eq_str(s, "int") {
        return Ok(FieldType::Int);
    }
    if eq_str(s, "bool") {
        return Ok(FieldType::Bool);
    }
    if eq_str(s, "date") {
        return Ok(FieldType::Date);
    }
    let ep: [char; 5] = ['e', 'n', 'u', 'm', '('];
    assert(ep@ =~= "enum("@) by { reveal_strlit("enum("); }
    if crate::text::has_prefix(s, &ep) && s.len() >= 6 && s[s.len() - 1] == ')' {
        let vals = enum_values_exec(&s[5..s.len() - 1]);
        proof {
            let vs = enum_values(s@.subrange(5, s@.len() - 1));
            assert(type_is(FieldType::Enum(vals), FieldTypeSpec::Enum(vs)));
        }
        return Ok(FieldType::Enum(vals));
    }
    if s.len() > 0 && s[0] == '/' {
        let pat = parse_regex(s);
        return match Regexp::new(string_of(pat.as_slice())) {
            Ok(re) => Ok(FieldType::Regex(re)),
            Err(e) => {
                let m = join2("invalid regex type: ", e.as_str());
                Err(SchemaError::new(line, 1, m))
            },
        };
    }
    Err(SchemaError::new(line, 1, message("unknown type `", s, "`")))
}


/// A frontmatter field as declared: key, alias, optionality and type.
pub struct FieldSpecV {
    pub key: Seq<char>,
    pub alias: Seq<char>,
    pub optional: bool,
    pub ty: FieldTypeSpec,
}

/// Reads a `key[?] [@alias]: type` line.
pub open spec fn parse_field_spec(content: Seq<char>) -> Result<FieldSpecV, TypeErr> {
    match index_of(content, ':') {
        None => Err(TypeErr::Msg("frontmatter field needs `key: type`"@)),
        Some(k) => {
            let left = trim(content.take(k));
            let ty_src = content.skip(k + 1);
            let key_end = lead_len(left, CharClass::KeyChar);
            if key_end == 0 {
                Err(TypeErr::Msg("frontmatter field needs a key"@))
            } else {
                let key = left.take(key_end as int);
                let r0 = trim_start(left.skip(key_end as int));
                let optional = r0.len() > 0 && r0[0] == '?';
                let r1 = if optional { trim_start(r0.skip(1)) } else { r0 };
                if r1.len() > 0 && r1[0] == '@' && trim(r1.skip(1)).len() == 0 {
                    Err(TypeErr::Msg("empty `@alias` on frontmatter key"@))
                } else {
                    let alias = if r1.len() > 0 && r1[0] == '@' { trim(r1.skip(1)) } else { key };
                    match parse_field_type_spec(trim(ty_src)) {
                        Err(e) => Err(e),
                        Ok(ty) => Ok(FieldSpecV { key, alias, optional, ty }),
                    }
                }
            }
        },
    }
}

/// Whether `f` is the field `v` with description `desc`.
pub open spec fn field_is(f: FieldSchema, v: FieldSpecV, desc: Option<Seq<char>>) -> bool {
    &&& f.key@ == v.key
    &&& f.alias@ == v.alias
    &&& f.optional == v.optional
    &&& type_is(f.ty, v.ty)
    &&& opt_view(f.desc) == desc
}

/// The view of an optional string.
pub open spec fn opt_view(o: Option<String>) -> Option<Seq<char>> {
    match o {
        Some(s) => Some(s@),
        None => None,
    }
}

fn parse_field(content: &[char], line: usize, desc: Option<String>) -> (r: Result<FieldSchema, SchemaError>)
    ensures
        match parse_field_spec(content@) {
            Ok(v) => r matches Ok(f) && field_is(f, v, opt_view(desc)),
            Err(te) => r matches Err(e) && type_err_is(e, te, line),
        },
{
    let k = match find_char(content, ':') {
        None => {
            let mut m = String::new();
            push_str(&mut m, "frontmatter field needs `key: type`");
            return Err(SchemaError::new(line, 1, m));
        },
        Some(k) => k,
    };
    let left = trimmed(&content[0..k]);
    assert(content@.subrange(0, k as int) =~= content@.take(k as int));
    let cn = content.len();
    let ty_src = &content[k + 1..cn];
    assert(ty_src@ =~= content@.skip(k + 1));
    let key_end = lead_len_exec(left.as_slice(), CharClass::KeyChar);
    if key_end == 0 {
        let mut m = String::new();
        push_str(&mut m, "frontmatter field needs a key");
        return Err(SchemaError::new(line, 1, m));
    }
    let key = string_of(&left.as_slice()[0..key_end]);
    assert(left@.subrange(0, key_end as int) =~= left@.take(key_end as int));
    let a0 = trim_start_from(left.as_slice(), key_end);
    let optional = a0 < left.len() && left[a0] == '?';
    let a1 = if optional { trim_start_from(left.as_slice(), a0 + 1) } else { a0 };
    proof {
        if optional {
            assert(left@.skip(a0 as int).skip(1) =~= left@.skip(a0 + 1));
        }
    }
    let alias = if a1 < left.len() && left[a1] == '@' {
        let al = trimmed(&left.as_slice()[a1 + 1..left.len()]);
        assert(left@.subrange(a1 + 1, left@.len() as int) =~= left@.skip(a1 as int).skip(1));
        if al.len() == 0 {
            let mut m = String::new();
            push_str(&mut m, "empty `@alias` on frontmatter key");
            return Err(SchemaError::new(line, 1, m));
        }
        string_of(al.as_slice())
    } else {
        key.clone()
    };
    let ts = trimmed(ty_src);
    let ty = parse_field_type(ts.as_slice(), line)?;
    Ok(FieldSchema { key, alias, optional, ty, desc })
}


// ---- body nodes ----------------------------------------------------------------

/// A body line as written: marker kind, cardinality, alias and label.
pub struct NodeHeadV {
    pub kind: MarkerKind,
    pub card: Card,
    pub name: Option<Seq<char>>,
    pub label: LabelSpec,
}

/// Reads a body line (after its indentation): marker, then a glued
/// cardinality and `@name`, then the label. `None` for an unrecognized marker.
pub open spec fn parse_node_spec(content: Seq<char>) -> Option<NodeHeadV> {
    match detect_marker_spec(content) {
        None => None,
        Some((kind, head)) => {
            let (card, i) = parse_card_spec(head);
            let rest = head.skip(i);
            let (name, j) = parse_name_spec(rest);
            let label = parse_label_spec(trim(rest.skip(j)));
            Some(NodeHeadV { kind, card, name, label })
        },
    }
}

/// The pattern of a heading with no label: any title.
pub open spec fn any_title() -> Seq<char> {
    seq!['.', '*']
}

/// The regex a node line needs compiled, if any (a regex label, or the
/// any-title pattern of an unlabeled heading).
pub open spec fn node_regex(h: NodeHeadV) -> Option<Seq<char>> {
    match h.label {
        LabelSpec::Re(p) => Some(p),
        LabelSpec::NoLabel => if h.kind is Heading { Some(any_title()) } else { None },
        _ => None,
    }
}

/// Whether `n` is the childless node the line `h` (with description `desc`)
/// describes.
pub open spec fn node_is(n: Node, h: NodeHeadV, desc: Option<Seq<char>>) -> bool {
    &&& node_head_is(n, h, desc)
    &&& n.children_of().len() == 0
}

/// Whether `n` is the node the line `h` (with description `desc`) describes,
/// whatever its children.
pub open spec fn node_head_is(n: Node, h: NodeHeadV, desc: Option<Seq<char>>) -> bool {
    &&& n.head_of().card == h.card
    &&& opt_view(n.head_of().name) == h.name
    &&& opt_view(n.head_of().desc) == desc
    &&& match h.kind {
        MarkerKind::Heading(l) => n matches Node::Heading { level, title, .. } && level == l && match h.label {
            LabelSpec::NoLabel => title matches Match::Regex(r) && r@ == any_title(),
            _ => label_is(Some(title), h.label),
        },
        MarkerKind::Prose => n matches Node::Prose { text, .. } && label_is(text, h.label),
        MarkerKind::Bullet => n matches Node::List { style, item, .. } && style == ListStyle::Bullet && label_is(item, h.label),
        MarkerKind::Ordered => n matches Node::List { style, item, .. } && style == ListStyle::Ordered && label_is(item, h.label),
        MarkerKind::Checklist => n matches Node::List { style, item, .. } && style == ListStyle::Checklist && label_is(item, h.label),
    }
}

fn parse_node(content: &[char], desc: Option<String>, line: usize, col: usize) -> (r: Result<Node, SchemaError>)
    ensures
        match parse_node_spec(content@) {
            None => r matches Err(e) && e.line == line && e.col == col
                && e.message@ == "unrecognized marker: `"@ + content@ + "`"@,
            Some(h) => match node_regex(h) {
                Some(p) if !regex_compiles(p) => r matches Err(e) && e.line == line && e.col == col
                    && e.message@ == "invalid regex label: "@ + regex_error(p),
                _ => r matches Ok(n) && node_is(n, h, opt_view(desc)),
            },
        },
{
    let (kind, hs) = match detect_marker(content) {
        None => return Err(SchemaError::new(line, col, message("unrecognized marker: `", content, "`"))),
        Some(x) => x,
    };
    let head_src = &content[hs..content.len()];
    assert(head_src@ =~= content@.skip(hs as int));
    let (card, i) = parse_card(head_src);
    let rest = &head_src[i..head_src.len()];
    assert(rest@ =~= head_src@.skip(i as int));
    let (name_v, j) = parse_name(rest);
    let lab_src = &rest[j..rest.len()];
    assert(lab_src@ =~= rest@.skip(j as int));
    let lab_t = trimmed(lab_src);
    let label = parse_label(lab_t.as_slice(), line, col)?;
    let name = match name_v {
        Some(v) => Some(string_of(v.as_slice())),
        None => None,
    };
    let head = Head { name, card, desc };
    match kind {
        MarkerKind::Heading(level) => {
            let title = match label {
                Some(m) => m,
                None => {
                    let mut src = String::new();
                    push_str(&mut src, ".*");
                    proof { reveal_strlit(".*"); }
                    assert(src@ =~= any_title());
                    match Regexp::new(src) {
                        Ok(re) => Match::Regex(re),
                        Err(e) => {
                            let m = join2("invalid regex label: ", e.as_str());
                            return Err(SchemaError::new(line, col, m));
                        },
                    }
                },
            };
            Ok(Node::Heading { level, title, head, children: Vec::new() })
        },
        MarkerKind::Prose => Ok(Node::Prose { text: label, head }),
        MarkerKind::Bullet => Ok(Node::List { style: ListStyle::Bullet, item: label, head, children: Vec::new() }),
        MarkerKind::Ordered => Ok(Node::List { style: ListStyle::Ordered, item: label, head, children: Vec::new() }),
        MarkerKind::Checklist => Ok(Node::List { style: ListStyle::Checklist, item: label, head, children: Vec::new() }),
    }
}


// ---- tree assembly ---------------------------------------------------------------

/// What tree assembly needs of a body line: its indentation, line number,
/// heading level (if a heading) and whether it is prose.
#[derive(Clone, Copy)]
pub struct FlatInfo {
    pub indent: usize,
    pub line: usize,
    pub level: Option<u8>,
    pub prose: bool,
}

/// The container a node is placed in: the root, a heading of some level, or
/// an indentation column.
#[derive(Clone, Copy)]
pub enum Scope {
    Root,
    Heading(u8),
    Indent(usize),
}

/// Whether a line nests in the scope: everything nests at the root; under a
/// heading of level `p`, any non-heading and any heading deeper than `p`;
/// under an indentation column, any line indented further.
pub open spec fn contained(scope: Scope, f: FlatInfo) -> bool {
    match scope {
        Scope::Root => true,
        Scope::Heading(p) => match f.level {
            Some(l) => l > p,
            None => true,
        },
        Scope::Indent(p) => f.indent > p,
    }
}

/// The scope a line opens for its children: headings nest by level, other
/// lines by indentation.
pub open spec fn scope_of(f: FlatInfo) -> Scope {
    match f.level {
        Some(l) => Scope::Heading(l),
        None => Scope::Indent(f.indent),
    }
}

/// One assembled node: the index of its line and its children.
pub struct ITreeV {
    pub idx: nat,
    pub children: Seq<ITreeV>,
}

/// Where the run of siblings starting at `pos` in `scope` ends.
pub open spec fn forest_end(flat: Seq<FlatInfo>, pos: int, scope: Scope) -> int
    decreases flat.len() - pos, 1int,
{
    if pos < 0 || pos >= flat.len() || !contained(scope, flat[pos]) {
        pos
    } else {
        let e = subtree_end(flat, pos);
        if e <= pos || e > flat.len() {
            pos
        } else {
            forest_end(flat, e, scope)
        }
    }
}

/// Where the subtree of line `i` (the line and its descendants) ends.
pub open spec fn subtree_end(flat: Seq<FlatInfo>, i: int) -> int
    decreases flat.len() - i, 0int,
{
    if i < 0 || i >= flat.len() {
        i + 1
    } else {
        forest_end(flat, i + 1, scope_of(flat[i]))
    }
}

/// The sibling trees starting at `pos` in `scope`: each line contained in
/// the scope starts a tree of the lines nested under it.
pub open spec fn forest_v(flat: Seq<FlatInfo>, pos: int, scope: Scope) -> Seq<ITreeV>
    decreases flat.len() - pos, 1int,
{
    if pos < 0 || pos >= flat.len() || !contained(scope, flat[pos]) {
        Seq::empty()
    } else {
        let e = subtree_end(flat, pos);
        if e <= pos || e > flat.len() {
            Seq::empty()
        } else {
            seq![tree_v(flat, pos)] + forest_v(flat, e, scope)
        }
    }
}

/// The tree of line `i`.
pub open spec fn tree_v(flat: Seq<FlatInfo>, i: int) -> ITreeV
    decreases flat.len() - i, 0int,
{
    if i < 0 || i >= flat.len() {
        ITreeV { idx: 0, children: Seq::empty() }
    } else {
        ITreeV { idx: i as nat, children: forest_v(flat, i + 1, scope_of(flat[i])) }
    }
}

/// The deepest nesting the parser accepts.
pub open spec fn max_depth() -> nat {
    128
}

/// The first assembly error in the siblings starting at `pos`, as a line
/// number and message: nesting deeper than [`max_depth`], or a line nested
/// under a prose line.
pub open spec fn forest_err(flat: Seq<FlatInfo>, pos: int, scope: Scope, depth: nat) -> Option<(nat, Seq<char>)>
    decreases flat.len() - pos, 1int,
{
    if depth > max_depth() {
        Some((if 0 <= pos < flat.len() { flat[pos].line as nat } else { 0 }, "schema nesting is too deep"@))
    } else if pos < 0 || pos >= flat.len() || !contained(scope, flat[pos]) {
        None
    } else {
        match tree_err(flat, pos, depth) {
            Some(e) => Some(e),
            None => {
                let e = subtree_end(flat, pos);
                if e <= pos || e > flat.len() {
                    None
                } else {
                    forest_err(flat, e, scope, depth)
                }
            },
        }
    }
}

pub open spec fn tree_err(flat: Seq<FlatInfo>, i: int, depth: nat) -> Option<(nat, Seq<char>)>
    decreases flat.len() - i, 0int,
{
    if i < 0 || i >= flat.len() {
        None
    } else {
        match forest_err(flat, i + 1, scope_of(flat[i]), depth + 1) {
            Some(e) => Some(e),
            None => if flat[i].prose && forest_v(flat, i + 1, scope_of(flat[i])).len() > 0 {
                Some((flat[i + 1].line as nat, "a `>` prose node cannot have child nodes"@))
            } else {
                None
            },
        }
    }
}

pub proof fn lemma_forest_end_bounds(flat: Seq<FlatInfo>, pos: int, scope: Scope)
    requires
        0 <= pos <= flat.len(),
    ensures
        pos <= forest_end(flat, pos, scope) <= flat.len(),
    decreases flat.len() - pos, 1int,
{
    if pos < flat.len() && contained(scope, flat[pos]) {
        lemma_subtree_end_bounds(flat, pos);
        let e = subtree_end(flat, pos);
        lemma_forest_end_bounds(flat, e, scope);
    }
}

pub proof fn lemma_subtree_end_bounds(flat: Seq<FlatInfo>, i: int)
    requires
        0 <= i < flat.len(),
    ensures
        i < subtree_end(flat, i) <= flat.len(),
    decreases flat.len() - i, 0int,
{
    lemma_forest_end_bounds(flat, i + 1, scope_of(flat[i]));
}

/// An assembled tree: the index of a body line and the trees nested under it.
pub struct ITree {
    pub idx: usize,
    pub children: Vec<ITree>,
}

/// Whether `t` is the tree `v`.
pub open spec fn itree_is(t: ITree, v: ITreeV) -> bool
    decreases v,
{
    &&& t.idx == v.idx
    &&& t.children@.len() == v.children.len()
    &&& forall|k: int| 0 <= k < v.children.len() ==> itree_is(#[trigger] t.children@[k], v.children[k])
}

pub open spec fn itrees_are(ts: Seq<ITree>, vs: Seq<ITreeV>) -> bool {
    &&& ts.len() == vs.len()
    &&& forall|k: int| 0 <= k < vs.len() ==> itree_is(#[trigger] ts[k], vs[k])
}

fn contained_exec(scope: Scope, f: FlatInfo) -> (b: bool)
    ensures
        b == contained(scope, f),
{
    match scope {
        Scope::Root => true,
        Scope::Heading(p) => match f.level {
            Some(l) => l > p,
            None => true,
        },
        Scope::Indent(p) => f.indent > p,
    }
}

fn scope_of_exec(f: FlatInfo) -> (s: Scope)
    ensures
        s == scope_of(f),
{
    match f.level {
        Some(l) => Scope::Heading(l),
        None => Scope::Indent(f.indent),
    }
}

/// Assembles the siblings starting at `pos` in `scope` at nesting `depth`;
/// returns them and the position after them.
fn build_forest(flat: &Vec<FlatInfo>, pos: usize, scope: Scope, depth: usize) -> (r: Result<(Vec<ITree>, usize), SchemaError>)
    requires
        pos <= flat@.len(),
        depth <= max_depth() + 1,
    ensures
        match forest_err(flat@, pos as int, scope, depth as nat) {
            Some((line, m)) => r matches Err(e) && e.line == line && e.col == 1 && e.message@ == m,
            None => r matches Ok((ts, end)) && itrees_are(ts@, forest_v(flat@, pos as int, scope))
                && end == forest_end(flat@, pos as int, scope),
        },
    decreases flat@.len() - pos,
{
    if depth > 128 {
        let line = if pos < flat.len() { flat[pos].line } else { 0 };
        let mut m = String::new();
        push_str(&mut m, "schema nesting is too deep");
        return Err(SchemaError::new(line, 1, m));
    }
    let ghost f = flat@;
    let mut out: Vec<ITree> = Vec::new();
    let mut cur = pos;
    while cur < flat.len() && contained_exec(scope, flat[cur])
        invariant
            f == flat@,
            pos <= cur <= flat@.len(),
            depth <= max_depth(),
            forest_err(f, pos as int, scope, depth as nat) == forest_err(f, cur as int, scope, depth as nat),
            forest_end(f, pos as int, scope) == forest_end(f, cur as int, scope),
            itrees_are(out@, forest_v(f, pos as int, scope).take(out@.len() as int)),
            forest_v(f, pos as int, scope) == forest_v(f, pos as int, scope).take(out@.len() as int) + forest_v(f, cur as int, scope),
        decreases flat@.len() - cur,
    {
        proof { lemma_subtree_end_bounds(f, cur as int); }
        let p = cur;
        let kids = build_forest(flat, p + 1, scope_of_exec(flat[p]), depth + 1);
        proof {
            assert(forest_err(f, cur as int, scope, depth as nat) == match tree_err(f, cur as int, depth as nat) {
                Some(e) => Some(e),
                None => forest_err(f, subtree_end(f, cur as int), scope, depth as nat),
            });
            assert(subtree_end(f, cur as int) == forest_end(f, cur + 1, scope_of(f[cur as int])));
        }
        let (children, end) = match kids {
            Err(e) => return Err(e),
            Ok(x) => x,
        };
        if flat[p].prose && children.len() > 0 {
            let mut m = String::new();
            push_str(&mut m, "a `>` prose node cannot have child nodes");
            return Err(SchemaError::new(flat[p + 1].line, 1, m));
        }
        assert(tree_err(f, cur as int, depth as nat) is None);
        let ghost before = forest_v(f, pos as int, scope).take(out@.len() as int);
        out.push(ITree { idx: p, children });
        proof {
            assert(forest_v(f, cur as int, scope) == seq![tree_v(f, cur as int)] + forest_v(f, end as int, scope));
            assert(forest_v(f, pos as int, scope).take(out@.len() as int) =~= before.push(tree_v(f, cur as int)));
            assert(forest_v(f, pos as int, scope) =~= forest_v(f, pos as int, scope).take(out@.len() as int) + forest_v(f, end as int, scope));
        }
        cur = end;
    }
    proof {
        assert(forest_v(f, cur as int, scope) =~= Seq::<ITreeV>::empty());
        assert(forest_v(f, pos as int, scope).take(out@.len() as int) =~= forest_v(f, pos as int, scope));
    }
    Ok((out, cur))
}


// ---- scope checks ------------------------------------------------------------------

/// The alias a body line captures under: its `@name`, else the slug of a
/// literal heading title.
pub open spec fn head_alias(h: NodeHeadV) -> Option<Seq<char>> {
    match h.name {
        Some(n) => Some(n),
        None => match h.kind {
            MarkerKind::Heading(_) => match h.label {
                LabelSpec::Lit(t) => Some(crate::schema::slug_spec(t)),
                _ => None,
            },
            _ => None,
        },
    }
}

/// The marker family of a list line: `-` bullets and checklists share one,
/// ordered lists have their own; other lines have none.
pub open spec fn head_group(h: NodeHeadV) -> Option<u8> {
    match h.kind {
        MarkerKind::Bullet | MarkerKind::Checklist => Some(0u8),
        MarkerKind::Ordered => Some(1u8),
        _ => None,
    }
}

/// The strings of a vector, as sequences.
pub open spec fn views(v: Seq<String>) -> Seq<Seq<char>> {
    v.map_values(|s: String| s@)
}

/// The first alias clash in the siblings `ts` (and, in turn, in each one's
/// children, which form a scope of their own): the line and alias of a node
/// whose alias is already in `seen` or taken by an earlier sibling.
pub open spec fn unique_err(al: Seq<Option<Seq<char>>>, ln: Seq<usize>, ts: Seq<ITreeV>, seen: Seq<Seq<char>>) -> Option<(nat, Seq<char>)>
    decreases ts,
{
    if ts.len() == 0 {
        None
    } else {
        let t = ts[0];
        let a = al[t.idx as int];
        if a is Some && seen.contains(a->0) {
            Some((ln[t.idx as int] as nat, a->0))
        } else {
            let seen2 = match a {
                Some(x) => seen.push(x),
                None => seen,
            };
            match unique_err(al, ln, t.children, Seq::empty()) {
                Some(e) => Some(e),
                None => unique_err(al, ln, ts.drop_first(), seen2),
            }
        }
    }
}

fn contains_string(v: &Vec<String>, a: &String) -> (b: bool)
    ensures
        b == views(v@).contains(a@),
{
    let mut i: usize = 0;
    while i < v.len()
        invariant
            i <= v@.len(),
            forall|k: int| 0 <= k < i ==> v@[k]@ != a@,
        decreases v@.len() - i,
    {
        if v[i] == *a {
            assert(views(v@)[i as int] == a@);
            return true;
        }
        i = i + 1;
    }
    assert forall|k: int| 0 <= k < views(v@).len() implies views(v@)[k] != a@ by {
        assert(views(v@)[k] == v@[k]@);
    }
    false
}

fn check_unique(
    ts: &Vec<ITree>,
    Ghost(vs): Ghost<Seq<ITreeV>>,
    aliases: &Vec<Option<String>>,
    lines: &Vec<usize>,
    seen: &mut Vec<String>,
) -> (r: Result<(), SchemaError>)
    requires
        itrees_are(ts@, vs),
        forall|k: int| 0 <= k < vs.len() ==> #[trigger] vs[k].idx < aliases@.len() && vs[k].idx < lines@.len(),
        all_in_range(vs, aliases@.len()),
        aliases@.len() == lines@.len(),
    ensures
        match unique_err(aliases@.map_values(|o: Option<String>| opt_view(o)), lines@, vs, views(old(seen)@)) {
            Some((l, a)) => r matches Err(e) && e.line == l && e.col == 1
                && e.message@ == "duplicate capture alias `"@ + a + "` in this scope"@,
            None => r is Ok,
        },
    decreases vs,
{
    let ghost al = aliases@.map_values(|o: Option<String>| opt_view(o));
    let mut i: usize = 0;
    assert(vs.skip(0) =~= vs);
    while i < ts.len()
        invariant
            itrees_are(ts@, vs),
            all_in_range(vs, aliases@.len()),
            aliases@.len() == lines@.len(),
            al == aliases@.map_values(|o: Option<String>| opt_view(o)),
            i <= ts@.len(),
            unique_err(al, lines@, vs, views(old(seen)@)) == unique_err(al, lines@, vs.skip(i as int), views(seen@)),
        decreases ts@.len() - i,
    {
        let ghost rest = vs.skip(i as int);
        let t = &ts[i];
        assert(itree_is(ts@[i as int], vs[i as int]));
        assert(rest[0] == vs[i as int]);
        let idx = t.idx;
        assert(al[idx as int] == opt_view(aliases@[idx as int]));
        let ghost seen_before = views(seen@);
        match &aliases[idx] {
            Some(a) => {
                if contains_string(seen, a) {
                    let mut m = String::new();
                    push_str(&mut m, "duplicate capture alias `");
                    push_str(&mut m, a.as_str());
                    push_str(&mut m, "` in this scope");
                    return Err(SchemaError::new(lines[idx], 1, m));
                }
                seen.push(a.clone());
                assert(views(seen@) =~= seen_before.push(a@));
            },
            None => {},
        }
        let ghost seen_after = views(seen@);
        assert(seen_after == match al[idx as int] {
            Some(x) => seen_before.push(x),
            None => seen_before,
        });
        let mut fresh: Vec<String> = Vec::new();
        assert(views(fresh@) =~= Seq::<Seq<char>>::empty());
        assert(all_in_range(vs[i as int].children, aliases@.len()));
        check_unique(&t.children, Ghost(vs[i as int].children), aliases, lines, &mut fresh)?;
        assert(rest.drop_first() =~= vs.skip(i + 1));
        i = i + 1;
    }
    assert(vs.skip(i as int) =~= Seq::<ITreeV>::empty());
    Ok(())
}

/// Every index in the trees is below `n`.
pub open spec fn all_in_range(vs: Seq<ITreeV>, n: nat) -> bool
    decreases vs,
{
    forall|k: int| 0 <= k < vs.len() ==> #[trigger] vs[k].idx < n && all_in_range(vs[k].children, n)
}


/// The first pair of adjacent sibling lists of one marker family, by line
/// (searching each node's children before its later siblings).
pub open spec fn adjacent_err(gr: Seq<Option<u8>>, ln: Seq<usize>, ts: Seq<ITreeV>, prev: Option<u8>) -> Option<nat>
    decreases ts,
{
    if ts.len() == 0 {
        None
    } else {
        let t = ts[0];
        let g = gr[t.idx as int];
        if prev is Some && g is Some && prev->0 == g->0 {
            Some(ln[t.idx as int] as nat)
        } else {
            match adjacent_err(gr, ln, t.children, None) {
                Some(l) => Some(l),
                None => adjacent_err(gr, ln, ts.drop_first(), g),
            }
        }
    }
}

fn check_adjacent(
    ts: &Vec<ITree>,
    Ghost(vs): Ghost<Seq<ITreeV>>,
    groups: &Vec<Option<u8>>,
    lines: &Vec<usize>,
    prev0: Option<u8>,
) -> (r: Result<(), SchemaError>)
    requires
        itrees_are(ts@, vs),
        all_in_range(vs, groups@.len()),
        groups@.len() == lines@.len(),
    ensures
        match adjacent_err(groups@, lines@, vs, prev0) {
            Some(l) => r matches Err(e) && e.line == l && e.col == 1
                && e.message@ == "adjacent lists of the same marker cannot be told apart in a document; separate them with a heading or prose"@,
            None => r is Ok,
        },
    decreases vs,
{
    let mut prev = prev0;
    let mut i: usize = 0;
    assert(vs.skip(0) =~= vs);
    while i < ts.len()
        invariant
            itrees_are(ts@, vs),
            all_in_range(vs, groups@.len()),
            groups@.len() == lines@.len(),
            i <= ts@.len(),
            adjacent_err(groups@, lines@, vs, prev0) == adjacent_err(groups@, lines@, vs.skip(i as int), prev),
        decreases ts@.len() - i,
    {
        let ghost rest = vs.skip(i as int);
        let t = &ts[i];
        assert(itree_is(ts@[i as int], vs[i as int]));
        assert(rest[0] == vs[i as int]);
        let g = groups[t.idx];
        match (prev, g) {
            (Some(p), Some(q)) => {
                if p == q {
                    let mut m = String::new();
                    push_str(&mut m, "adjacent lists of the same marker cannot be told apart in a document; separate them with a heading or prose");
                    return Err(SchemaError::new(lines[t.idx], 1, m));
                }
            },
            _ => {},
        }
        prev = g;
        assert(all_in_range(vs[i as int].children, groups@.len()));
        check_adjacent(&t.children, Ghost(vs[i as int].children), groups, lines, None)?;
        assert(rest.drop_first() =~= vs.skip(i + 1));
        i = i + 1;
    }
    assert(vs.skip(i as int) =~= Seq::<ITreeV>::empty());
    Ok(())
}

// ---- assembly of the final nodes -------------------------------------------------

/// Whether `n` is the node built for tree `t`: the node its line describes,
/// with the nodes built for its child trees as children.
pub open spec fn node_built(n: Node, t: ITreeV, hs: Seq<NodeHeadV>, ds: Seq<Option<Seq<char>>>) -> bool
    decreases t,
{
    &&& node_head_is(n, hs[t.idx as int], ds[t.idx as int])
    &&& n.children_of().len() == t.children.len()
    &&& forall|k: int| 0 <= k < t.children.len() ==> node_built(#[trigger] n.children_of()[k], t.children[k], hs, ds)
}

fn clone_opt_string(o: &Option<String>) -> (r: Option<String>)
    ensures
        opt_view(r) == opt_view(*o),
{
    match o {
        Some(s) => Some(s.clone()),
        None => None,
    }
}

fn clone_match(m: &Match) -> (r: Match)
    ensures
        forall|l: LabelSpec| label_is(Some(*m), l) ==> #[trigger] label_is(Some(r), l),
        m is Regex ==> (r is Regex && r->Regex_0@ == m->Regex_0@),
{
    match m {
        Match::Literal(s) => Match::Literal(s.clone()),
        Match::Regex(re) => Match::Regex(re.clone()),
    }
}

fn clone_opt_match(m: &Option<Match>) -> (r: Option<Match>)
    ensures
        forall|l: LabelSpec| label_is(*m, l) ==> #[trigger] label_is(r, l),
{
    match m {
        Some(x) => Some(clone_match(x)),
        None => None,
    }
}

fn clone_head(h: &Head) -> (r: Head)
    ensures
        r.card == h.card,
        opt_view(r.name) == opt_view(h.name),
        opt_view(r.desc) == opt_view(h.desc),
{
    Head { name: clone_opt_string(&h.name), card: h.card, desc: clone_opt_string(&h.desc) }
}

/// `n` with `kids` as its children (prose keeps none).
fn with_children(n: &Node, kids: Vec<Node>) -> (r: Node)
    ensures
        forall|h: NodeHeadV, d: Option<Seq<char>>| node_head_is(*n, h, d) ==> #[trigger] node_head_is(r, h, d),
        !(n is Prose) ==> r.children_of() == kids@,
        n is Prose ==> r.children_of().len() == 0,
{
    match n {
        Node::Heading { level, title, head, .. } => Node::Heading {
            level: *level,
            title: clone_match(title),
            head: clone_head(head),
            children: kids,
        },
        Node::List { style, item, head, .. } => Node::List {
            style: *style,
            item: clone_opt_match(item),
            head: clone_head(head),
            children: kids,
        },
        Node::Prose { text, head } => Node::Prose { text: clone_opt_match(text), head: clone_head(head) },
    }
}

fn assemble(
    ts: &Vec<ITree>,
    Ghost(vs): Ghost<Seq<ITreeV>>,
    nodes: &Vec<Node>,
    Ghost(hs): Ghost<Seq<NodeHeadV>>,
    Ghost(ds): Ghost<Seq<Option<Seq<char>>>>,
) -> (r: Vec<Node>)
    requires
        itrees_are(ts@, vs),
        all_in_range(vs, nodes@.len()),
        hs.len() == nodes@.len(),
        ds.len() == nodes@.len(),
        forall|i: int| 0 <= i < nodes@.len() ==> node_is(#[trigger] nodes@[i], hs[i], ds[i]),
        no_prose_parent(vs, hs),
    ensures
        r@.len() == vs.len(),
        forall|k: int| 0 <= k < vs.len() ==> node_built(#[trigger] r@[k], vs[k], hs, ds),
    decreases vs,
{
    let mut out: Vec<Node> = Vec::new();
    let mut i: usize = 0;
    while i < ts.len()
        invariant
            itrees_are(ts@, vs),
            all_in_range(vs, nodes@.len()),
            hs.len() == nodes@.len(),
            ds.len() == nodes@.len(),
            forall|i: int| 0 <= i < nodes@.len() ==> node_is(#[trigger] nodes@[i], hs[i], ds[i]),
            no_prose_parent(vs, hs),
            i <= ts@.len(),
            out@.len() == i,
            forall|k: int| 0 <= k < i ==> node_built(#[trigger] out@[k], vs[k], hs, ds),
        decreases ts@.len() - i,
    {
        let t = &ts[i];
        assert(itree_is(ts@[i as int], vs[i as int]));
        assert(all_in_range(vs[i as int].children, nodes@.len()));
        assert(no_prose_parent(vs[i as int].children, hs));
        let kids = assemble(&t.children, Ghost(vs[i as int].children), nodes, Ghost(hs), Ghost(ds));
        let idx = t.idx;
        assert(node_is(nodes@[idx as int], hs[idx as int], ds[idx as int]));
        let n = with_children(&nodes[idx], kids);
        proof {
            let v = vs[i as int];
            assert(node_head_is(n, hs[v.idx as int], ds[v.idx as int]));
            if nodes@[idx as int] is Prose {
                assert(v.children.len() == 0);
            }
            assert(node_built(n, v, hs, ds));
        }
        out.push(n);
        i = i + 1;
    }
    out
}

/// No prose line has child trees.
pub open spec fn no_prose_parent(vs: Seq<ITreeV>, hs: Seq<NodeHeadV>) -> bool
    decreases vs,
{
    forall|k: int| #![trigger vs[k]] 0 <= k < vs.len() ==> (hs[vs[k].idx as int].kind is Prose ==> vs[k].children.len() == 0)
        && no_prose_parent(vs[k].children, hs)
}


// ---- phases ----------------------------------------------------------------------

/// A located parse error: line, column and what went wrong.
pub struct ErrV {
    pub line: nat,
    pub col: nat,
    pub kind: TypeErr,
}

pub open spec fn err_is(e: SchemaError, v: ErrV) -> bool {
    &&& e.line == v.line
    &&& e.col == v.col
    &&& match v.kind {
        TypeErr::Msg(m) => e.message@ == m,
        TypeErr::BadRegex(p) => e.message@ == "invalid regex type: "@ + regex_error(p),
        TypeErr::BadLabel(p) => e.message@ == "invalid regex label: "@ + regex_error(p),
    }
}

pub open spec fn default_opts() -> SchemaOpts {
    SchemaOpts { ordered: true, strict: true, frontmatter_open: false }
}

/// The leading `%`-directive lines (blank and comment-only lines skipped),
/// applied in order: the options and the index of the first other line.
pub open spec fn directive_phase(ls: Seq<Seq<char>>, i: int, opts: SchemaOpts) -> Result<(SchemaOpts, int), ErrV>
    decreases ls.len() - i,
{
    if i < 0 || i >= ls.len() {
        Ok((opts, i))
    } else {
        let t = trim(split_desc_spec(ls[i]).0);
        if t.len() == 0 {
            directive_phase(ls, i + 1, opts)
        } else if t[0] == '%' {
            match apply_directive_spec(t.skip(1), opts) {
                Err(m) => Err(ErrV { line: (i + 1) as nat, col: 1, kind: TypeErr::Msg(m) }),
                Ok(o) => directive_phase(ls, i + 1, o),
            }
        } else {
            Ok((opts, i))
        }
    }
}

/// The lines of a frontmatter block from `j` (after the opening `---`):
/// each non-blank line is a field with its description, until the closing
/// `---`; returns the fields and the index after the close.
pub open spec fn fm_phase(ls: Seq<Seq<char>>, j: int) -> Result<(Seq<(FieldSpecV, Option<Seq<char>>, nat)>, int), ErrV>
    decreases ls.len() - j,
{
    if j < 0 || j >= ls.len() {
        Err(ErrV { line: ls.len(), col: 1, kind: TypeErr::Msg("unterminated frontmatter (missing `---`)"@) })
    } else {
        let (content, desc) = split_desc_spec(ls[j]);
        if trim(content) == "---"@ {
            Ok((Seq::empty(), j + 1))
        } else if trim(content).len() == 0 {
            fm_phase(ls, j + 1)
        } else {
            match parse_field_spec(content) {
                Err(te) => Err(ErrV { line: (j + 1) as nat, col: 1, kind: te }),
                Ok(f) => match fm_phase(ls, j + 1) {
                    Err(e) => Err(e),
                    Ok((fs, end)) => Ok((seq![(f, desc, (j + 1) as nat)] + fs, end)),
                },
            }
        }
    }
}

/// `n`, capped at `usize::MAX`.
pub open spec fn sat(n: nat) -> nat {
    if n <= usize::MAX { n } else { usize::MAX as nat }
}

/// A body line: indentation, line number, what it declares, description.
pub struct FlatEntryV {
    pub indent: nat,
    pub line: nat,
    pub head: NodeHeadV,
    pub desc: Option<Seq<char>>,
}

/// The body lines from `j` on: every non-blank line must be a node line.
pub open spec fn flat_phase(ls: Seq<Seq<char>>, j: int) -> Result<Seq<FlatEntryV>, ErrV>
    decreases ls.len() - j,
{
    if j < 0 || j >= ls.len() {
        Ok(Seq::empty())
    } else {
        let (content, desc) = split_desc_spec(ls[j]);
        let (ind, rest) = measure_indent_spec(content);
        let indent = sat(ind);
        let col = sat(indent + 1);
        if trim(rest).len() == 0 {
            flat_phase(ls, j + 1)
        } else {
            match parse_node_spec(rest) {
                None => Err(ErrV { line: (j + 1) as nat, col, kind: TypeErr::Msg("unrecognized marker: `"@ + rest + "`"@) }),
                Some(h) => if node_regex(h) is Some && !regex_compiles(node_regex(h)->0) {
                    Err(ErrV { line: (j + 1) as nat, col, kind: TypeErr::BadLabel(node_regex(h)->0) })
                } else {
                    match flat_phase(ls, j + 1) {
                        Err(e) => Err(e),
                        Ok(t) => Ok(seq![FlatEntryV { indent, line: (j + 1) as nat, head: h, desc }] + t),
                    }
                },
            }
        }
    }
}

fn directives(lines: &Vec<Vec<char>>, Ghost(ls): Ghost<Seq<Seq<char>>>) -> (r: Result<(SchemaOpts, usize), SchemaError>)
    requires
        lines@.len() == ls.len(),
        forall|k: int| 0 <= k < ls.len() ==> #[trigger] lines@[k]@ == ls[k],
    ensures
        match directive_phase(ls, 0, default_opts()) {
            Ok((o, i)) => r matches Ok((ro, ri)) && ro == o && ri == i && ri <= ls.len(),
            Err(e) => r matches Err(re) && err_is(re, e),
        },
{
    let mut opts = SchemaOpts::default();
    let mut i: usize = 0;
    while i < lines.len()
        invariant
            lines@.len() == ls.len(),
            forall|k: int| 0 <= k < ls.len() ==> #[trigger] lines@[k]@ == ls[k],
            i <= ls.len(),
            directive_phase(ls, 0, default_opts()) == directive_phase(ls, i as int, opts),
        decreases ls.len() - i,
    {
        assert(lines@[i as int]@ == ls[i as int]);
        let (content, _) = split_desc(lines[i].as_slice());
        let (a, b) = trim_bounds(content.as_slice(), 0, content.len());
        assert(content@.subrange(0, content@.len() as int) =~= content@);
        if a == b {
            i = i + 1;
        } else if content[a] == '%' {
            let d = &content.as_slice()[a + 1..b];
            assert(d@ =~= content@.subrange(a as int, b as int).skip(1));
            opts = match apply_directive(d, i + 1, opts) {
                Ok(o) => o,
                Err(e) => return Err(e),
            };
            i = i + 1;
        } else {
            return Ok((opts, i));
        }
    }
    Ok((opts, i))
}

/// The trees `vs` nest at most `d` levels deep, their own level counted.
pub open spec fn trees_nest(vs: Seq<ITreeV>, d: nat) -> bool
    decreases vs,
{
    vs.len() > 0 ==> d > 0 && forall|k: int| 0 <= k < vs.len() ==> trees_nest(#[trigger] vs[k].children, (d - 1) as nat)
}

/// In the trees `vs`, each line's children are contained in the scope the
/// line opens.
pub open spec fn trees_scoped(vs: Seq<ITreeV>, flat: Seq<FlatInfo>) -> bool
    decreases vs,
{
    forall|k: int| 0 <= k < vs.len() ==> (#[trigger] vs[k]).idx < flat.len()
        && (forall|j: int| 0 <= j < vs[k].children.len() ==> contained(scope_of(flat[vs[k].idx as int]), flat[(#[trigger] vs[k].children[j]).idx as int]))
        && trees_scoped(vs[k].children, flat)
}

/// Every tree of the siblings from `pos` in `scope` is the tree of a line
/// contained in `scope`.
pub proof fn lemma_forest_contained(flat: Seq<FlatInfo>, pos: int, scope: Scope)
    requires
        0 <= pos,
    ensures
        forall|k: int| 0 <= k < forest_v(flat, pos, scope).len() ==> {
            let t = #[trigger] forest_v(flat, pos, scope)[k];
            &&& pos <= t.idx < flat.len()
            &&& contained(scope, flat[t.idx as int])
            &&& t == tree_v(flat, t.idx as int)
        },
    decreases flat.len() - pos,
{
    if pos < flat.len() && contained(scope, flat[pos]) {
        let e = subtree_end(flat, pos);
        if e > pos && e <= flat.len() {
            lemma_forest_contained(flat, e, scope);
            let f = forest_v(flat, pos, scope);
            let rest = forest_v(flat, e, scope);
            assert(f == seq![tree_v(flat, pos)] + rest);
            assert forall|k: int| 0 <= k < f.len() implies {
                let t = #[trigger] f[k];
                &&& pos <= t.idx < flat.len()
                &&& contained(scope, flat[t.idx as int])
                &&& t == tree_v(flat, t.idx as int)
            } by {
                if k > 0 {
                    assert(f[k] == rest[k - 1]);
                }
            }
        }
    }
}

/// The trees of the siblings from `pos` keep each line's children in the
/// scope that line opens.
pub proof fn lemma_forest_scoped(flat: Seq<FlatInfo>, pos: int, scope: Scope)
    requires
        0 <= pos,
    ensures
        trees_scoped(forest_v(flat, pos, scope), flat),
    decreases flat.len() - pos,
{
    let f = forest_v(flat, pos, scope);
    lemma_forest_contained(flat, pos, scope);
    assert forall|k: int| 0 <= k < f.len() implies (#[trigger] f[k]).idx < flat.len()
        && (forall|j: int| 0 <= j < f[k].children.len() ==> contained(scope_of(flat[f[k].idx as int]), flat[(#[trigger] f[k].children[j]).idx as int]))
        && trees_scoped(f[k].children, flat) by {
        let i = f[k].idx as int;
        assert(f[k] == tree_v(flat, i));
        assert(f[k].children == forest_v(flat, i + 1, scope_of(flat[i])));
        lemma_forest_contained(flat, i + 1, scope_of(flat[i]));
        lemma_forest_scoped(flat, i + 1, scope_of(flat[i]));
    }
}

/// Siblings with no assembly error at nesting `depth` nest at most
/// `max_depth() - depth` levels deep.
pub proof fn lemma_forest_nest(flat: Seq<FlatInfo>, pos: int, scope: Scope, depth: nat)
    requires
        0 <= pos,
        forest_err(flat, pos, scope, depth) is None,
    ensures
        depth <= max_depth(),
        trees_nest(forest_v(flat, pos, scope), (max_depth() - depth) as nat),
    decreases flat.len() - pos, 1int,
{
    if pos < flat.len() && contained(scope, flat[pos]) {
        let e = subtree_end(flat, pos);
        lemma_tree_nest(flat, pos, depth);
        if e > pos && e <= flat.len() {
            lemma_forest_nest(flat, e, scope, depth);
            let f = forest_v(flat, pos, scope);
            let rest = forest_v(flat, e, scope);
            assert(f == seq![tree_v(flat, pos)] + rest);
            assert forall|k: int| 0 <= k < f.len() implies trees_nest(#[trigger] f[k].children, (max_depth() - depth - 1) as nat) by {
                if k > 0 {
                    assert(f[k] == rest[k - 1]);
                }
            }
        }
    }
}

pub proof fn lemma_tree_nest(flat: Seq<FlatInfo>, i: int, depth: nat)
    requires
        0 <= i < flat.len(),
        tree_err(flat, i, depth) is None,
    ensures
        depth < max_depth(),
        trees_nest(tree_v(flat, i).children, (max_depth() - depth - 1) as nat),
    decreases flat.len() - i, 0int,
{
    lemma_forest_nest(flat, i + 1, scope_of(flat[i]), depth + 1);
}

/// Nodes built from trees that nest at most `d` levels deep do too.
pub proof fn lemma_nodes_nest(ts: Seq<ITreeV>, ns: Seq<Node>, hs: Seq<NodeHeadV>, ds: Seq<Option<Seq<char>>>, d: nat)
    requires
        trees_nest(ts, d),
        ns.len() == ts.len(),
        forall|k: int| 0 <= k < ts.len() ==> node_built(#[trigger] ns[k], ts[k], hs, ds),
    ensures
        nests_within(ns, d),
    decreases ts,
{
    if ts.len() > 0 {
        assert forall|k: int| 0 <= k < ns.len() implies match #[trigger] ns[k] {
            Node::Heading { children, .. } => nests_within(children@, (d - 1) as nat),
            Node::List { children, .. } => nests_within(children@, (d - 1) as nat),
            Node::Prose { .. } => true,
        } by {
            let t = ts[k];
            let n = ns[k];
            assert(node_built(n, t, hs, ds));
            assert(trees_nest(t.children, (d - 1) as nat));
            let kids = n.children_of();
            assert forall|j: int| 0 <= j < t.children.len() implies node_built(#[trigger] kids[j], t.children[j], hs, ds) by {}
            lemma_nodes_nest(t.children, kids, hs, ds, (d - 1) as nat);
        }
    }
}

/// Nodes built from trees whose lines keep their children in scope keep a
/// heading's child headings at greater levels.
pub proof fn lemma_nodes_levels(ts: Seq<ITreeV>, ns: Seq<Node>, hs: Seq<NodeHeadV>, ds: Seq<Option<Seq<char>>>, flat: Seq<FlatInfo>)
    requires
        trees_scoped(ts, flat),
        ns.len() == ts.len(),
        forall|k: int| 0 <= k < ts.len() ==> node_built(#[trigger] ns[k], ts[k], hs, ds),
        hs.len() == flat.len(),
        forall|i: int| 0 <= i < flat.len() ==> (#[trigger] flat[i]).level == match hs[i].kind {
            MarkerKind::Heading(l) => Some(l),
            _ => None::<u8>,
        },
    ensures
        levels_ok(ns),
    decreases ts,
{
    assert forall|k: int| 0 <= k < ns.len() implies match #[trigger] ns[k] {
        Node::Heading { level, children, .. } => (forall|j: int| 0 <= j < children@.len() ==> match heading_level(#[trigger] children@[j]) {
            Some(l) => l > level,
            None => true,
        }) && levels_ok(children@),
        Node::List { children, .. } => levels_ok(children@),
        Node::Prose { .. } => true,
    } by {
        let t = ts[k];
        let n = ns[k];
        assert(node_built(n, t, hs, ds));
        assert(flat[t.idx as int].level == match hs[t.idx as int].kind {
            MarkerKind::Heading(l) => Some(l),
            _ => None::<u8>,
        });
        let kids = n.children_of();
        assert forall|j: int| 0 <= j < t.children.len() implies node_built(#[trigger] kids[j], t.children[j], hs, ds) by {}
        lemma_nodes_levels(t.children, kids, hs, ds, flat);
        assert forall|j: int| 0 <= j < kids.len() implies match heading_level(#[trigger] kids[j]) {
            Some(l) => match n {
                Node::Heading { level, .. } => l > level,
                _ => true,
            },
            None => true,
        } by {
            let c = t.children[j];
            assert(trees_scoped(t.children, flat));
            assert(c.idx < flat.len());
            assert(node_built(kids[j], c, hs, ds));
            assert(contained(scope_of(flat[t.idx as int]), flat[c.idx as int]));
            assert(flat[c.idx as int].level == match hs[c.idx as int].kind {
                MarkerKind::Heading(l) => Some(l),
                _ => None::<u8>,
            });
        }
    }
}

fn frontmatter_fields(lines: &Vec<Vec<char>>, Ghost(ls): Ghost<Seq<Seq<char>>>, start: usize) -> (r: Result<(Vec<FieldSchema>, Vec<usize>, usize), SchemaError>)
    requires
        lines@.len() == ls.len(),
        forall|k: int| 0 <= k < ls.len() ==> #[trigger] lines@[k]@ == ls[k],
        start <= ls.len(),
    ensures
        match fm_phase(ls, start as int) {
            Ok((fs, end)) => r matches Ok((rf, rl, re)) && re == end && re <= ls.len() && rf@.len() == fs.len()
                && rl@.len() == fs.len()
                && (forall|k: int| 0 <= k < fs.len() ==> field_is(#[trigger] rf@[k], fs[k].0, fs[k].1))
                && forall|k: int| 0 <= k < fs.len() ==> #[trigger] rl@[k] == fs[k].2,
            Err(e) => r matches Err(re) && err_is(re, e),
        },
{
    let mut out: Vec<FieldSchema> = Vec::new();
    let mut lns: Vec<usize> = Vec::new();
    let mut j = start;
    loop
        invariant
            lines@.len() == ls.len(),
            forall|k: int| 0 <= k < ls.len() ==> #[trigger] lines@[k]@ == ls[k],
            start <= j <= ls.len(),
            match fm_phase(ls, start as int) {
                Ok((fs, end)) => fm_phase(ls, j as int) matches Ok((fs2, end2)) && end2 == end
                    && fs == fs.take(out@.len() as int) + fs2 && out@.len() <= fs.len()
                    && lns@.len() == out@.len()
                    && (forall|k: int| 0 <= k < out@.len() ==> field_is(#[trigger] out@[k], fs[k].0, fs[k].1))
                    && forall|k: int| 0 <= k < out@.len() ==> #[trigger] lns@[k] == fs[k].2,
                Err(e) => fm_phase(ls, j as int) == Err::<(Seq<(FieldSpecV, Option<Seq<char>>, nat)>, int), ErrV>(e),
            },
        decreases ls.len() - j,
    {
        if j >= lines.len() {
            let mut m = String::new();
            push_str(&mut m, "unterminated frontmatter (missing `---`)");
            return Err(SchemaError::new(lines.len(), 1, m));
        }
        assert(lines@[j as int]@ == ls[j as int]);
        let (content, desc) = split_desc(lines[j].as_slice());
        let t = trimmed(content.as_slice());
        if eq_str(t.as_slice(), "---") {
            proof {
                match fm_phase(ls, start as int) {
                    Ok((fs, end)) => { assert(fs.take(out@.len() as int) =~= fs); },
                    Err(e) => {},
                }
            }
            return Ok((out, lns, j + 1));
        }
        if t.len() > 0 {
            let d = match desc {
                Some(v) => Some(string_of(v.as_slice())),
                None => None,
            };
            let f = match parse_field(content.as_slice(), j + 1, d) {
                Ok(f) => f,
                Err(e) => return Err(e),
            };
            proof {
                match fm_phase(ls, start as int) {
                    Ok((fs, end)) => {
                        let (fs2, _) = fm_phase(ls, j as int)->Ok_0;
                        let (fs3, _) = fm_phase(ls, j + 1)->Ok_0;
                        assert(fs2 == seq![fs2[0]] + fs3);
                        assert(fs.take(out@.len() as int + 1) =~= fs.take(out@.len() as int).push(fs2[0]));
                        assert(fs =~= fs.take(out@.len() as int + 1) + fs3);
                    },
                    Err(e) => {},
                }
            }
            out.push(f);
            lns.push(j + 1);
        }
        j = j + 1;
    }
}

fn body_lines(lines: &Vec<Vec<char>>, Ghost(ls): Ghost<Seq<Seq<char>>>, start: usize)
    -> (r: Result<(Vec<FlatInfo>, Vec<Node>), SchemaError>)
    requires
        lines@.len() == ls.len(),
        forall|k: int| 0 <= k < ls.len() ==> #[trigger] lines@[k]@ == ls[k],
        start <= ls.len(),
    ensures
        match flat_phase(ls, start as int) {
            Ok(es) => r matches Ok((fl, ns)) && fl@.len() == es.len() && ns@.len() == es.len()
                && forall|k: int| 0 <= k < es.len() ==> entry_is(#[trigger] fl@[k], ns@[k], es[k]),
            Err(e) => r matches Err(re) && err_is(re, e),
        },
{
    let mut fl: Vec<FlatInfo> = Vec::new();
    let mut ns: Vec<Node> = Vec::new();
    let mut j = start;
    while j < lines.len()
        invariant
            lines@.len() == ls.len(),
            forall|k: int| 0 <= k < ls.len() ==> #[trigger] lines@[k]@ == ls[k],
            start <= j <= ls.len(),
            fl@.len() == ns@.len(),
            match flat_phase(ls, start as int) {
                Ok(es) => flat_phase(ls, j as int) matches Ok(es2) && es == es.take(fl@.len() as int) + es2
                    && fl@.len() <= es.len()
                    && forall|k: int| 0 <= k < fl@.len() ==> entry_is(#[trigger] fl@[k], ns@[k], es[k]),
                Err(e) => flat_phase(ls, j as int) == Err::<Seq<FlatEntryV>, ErrV>(e),
            },
        decreases ls.len() - j,
    {
        assert(lines@[j as int]@ == ls[j as int]);
        let (content, desc) = split_desc(lines[j].as_slice());
        let (ind, rs) = measure_indent(content.as_slice());
        let rest = &content.as_slice()[rs..content.len()];
        assert(rest@ =~= content@.skip(rs as int));
        let (a, b) = trim_bounds(rest, 0, rest.len());
        assert(rest@.subrange(0, rest@.len() as int) =~= rest@);
        if a < b {
            let col = if ind == usize::MAX { usize::MAX } else { ind + 1 };
            let d = match desc {
                Some(v) => Some(string_of(v.as_slice())),
                None => None,
            };
            let node = match parse_node(rest, d, j + 1, col) {
                Ok(n) => n,
                Err(e) => return Err(e),
            };
            let level = match &node {
                Node::Heading { level, .. } => Some(*level),
                _ => None,
            };
            let prose = match &node {
                Node::Prose { .. } => true,
                _ => false,
            };
            let info = FlatInfo { indent: ind, line: j + 1, level, prose };
            proof {
                match flat_phase(ls, start as int) {
                    Ok(es) => {
                        let es2 = flat_phase(ls, j as int)->Ok_0;
                        let es3 = flat_phase(ls, j + 1)->Ok_0;
                        assert(es2 == seq![es2[0]] + es3);
                        assert(es.take(fl@.len() as int + 1) =~= es.take(fl@.len() as int).push(es2[0]));
                        assert(es =~= es.take(fl@.len() as int + 1) + es3);
                        assert(entry_is(info, node, es2[0]));
                    },
                    Err(e) => {},
                }
            }
            fl.push(info);
            ns.push(node);
        }
        j = j + 1;
    }
    proof {
        match flat_phase(ls, start as int) {
            Ok(es) => { assert(es.take(fl@.len() as int) =~= es); },
            Err(e) => {},
        }
    }
    Ok((fl, ns))
}

/// Whether the tree-assembly facts and the node of a body line match the
/// entry `e`.
pub open spec fn entry_is(f: FlatInfo, n: Node, e: FlatEntryV) -> bool {
    &&& f.indent == e.indent
    &&& f.line == e.line
    &&& f.prose == (e.head.kind is Prose)
    &&& f.level == match e.head.kind {
        MarkerKind::Heading(l) => Some(l),
        _ => None::<u8>,
    }
    &&& node_is(n, e.head, e.desc)
}


/// What tree assembly reads of a body line.
pub open spec fn info_of(e: FlatEntryV) -> FlatInfo {
    FlatInfo {
        indent: e.indent as usize,
        line: e.line as usize,
        level: match e.head.kind {
            MarkerKind::Heading(l) => Some(l),
            _ => None::<u8>,
        },
        prose: e.head.kind is Prose,
    }
}

/// Whether line `i` opens a frontmatter block (`---`, descriptions aside).
pub open spec fn fm_opens(ls: Seq<Seq<char>>, i: int) -> bool {
    0 <= i < ls.len() && trim(split_desc_spec(ls[i]).0) == "---"@
}

/// The index of the first alias at or after `i` that an earlier one already
/// took.
pub open spec fn first_dup(al: Seq<Seq<char>>, i: int) -> Option<int>
    decreases al.len() - i,
{
    if i < 0 || i >= al.len() {
        None
    } else if al.take(i).contains(al[i]) {
        Some(i)
    } else {
        first_dup(al, i + 1)
    }
}

/// A parsed schema as read from its source: the options, the frontmatter
/// fields with their descriptions, the body lines and the trees they form.
pub struct SchemaV {
    pub opts: SchemaOpts,
    pub fields: Seq<(FieldSpecV, Option<Seq<char>>, nat)>,
    pub entries: Seq<FlatEntryV>,
    pub forest: Seq<ITreeV>,
}

pub open spec fn field_aliases(fields: Seq<(FieldSpecV, Option<Seq<char>>, nat)>) -> Seq<Seq<char>> {
    fields.map_values(|f: (FieldSpecV, Option<Seq<char>>, nat)| f.0.alias)
}

pub open spec fn entry_heads(es: Seq<FlatEntryV>) -> Seq<NodeHeadV> {
    es.map_values(|e: FlatEntryV| e.head)
}

pub open spec fn entry_descs(es: Seq<FlatEntryV>) -> Seq<Option<Seq<char>>> {
    es.map_values(|e: FlatEntryV| e.desc)
}

pub open spec fn entry_lines(es: Seq<FlatEntryV>) -> Seq<usize> {
    es.map_values(|e: FlatEntryV| e.line as usize)
}

/// The checks that follow tree assembly, in order: frontmatter aliases are
/// distinct; in each scope no two nodes (nor, at the top, a node and a
/// frontmatter field) share a capture alias; no two adjacent sibling lists
/// share a marker family.
pub open spec fn scope_checks(v: SchemaV) -> Result<SchemaV, ErrV> {
    let fa = field_aliases(v.fields);
    let hs = entry_heads(v.entries);
    let ln = entry_lines(v.entries);
    match first_dup(fa, 0) {
        Some(d) => Err(ErrV { line: v.fields[d].2, col: 1, kind: TypeErr::Msg("duplicate frontmatter alias `"@ + fa[d] + "`"@) }),
        None => match unique_err(hs.map_values(|h: NodeHeadV| head_alias(h)), ln, v.forest, fa) {
            Some((l, a)) => Err(ErrV { line: l, col: 1, kind: TypeErr::Msg("duplicate capture alias `"@ + a + "` in this scope"@) }),
            None => match adjacent_err(hs.map_values(|h: NodeHeadV| head_group(h)), ln, v.forest, None) {
                Some(l) => Err(ErrV {
                    line: l,
                    col: 1,
                    kind: TypeErr::Msg("adjacent lists of the same marker cannot be told apart in a document; separate them with a heading or prose"@),
                }),
                None => Ok(v),
            },
        },
    }
}

/// The schema `src` describes, or the first error in it: the leading
/// directives, an optional frontmatter block, then the body lines, nested
/// into trees and checked.
pub open spec fn parse_spec(src: Seq<char>) -> Result<SchemaV, ErrV> {
    let ls = lines(src);
    match directive_phase(ls, 0, default_opts()) {
        Err(e) => Err(e),
        Ok((opts, i)) => {
            let fm = if fm_opens(ls, i) { fm_phase(ls, i + 1) } else { Ok((Seq::empty(), i)) };
            match fm {
                Err(e) => Err(e),
                Ok((fields, j)) => match flat_phase(ls, j) {
                    Err(e) => Err(e),
                    Ok(es) => {
                        let flat = es.map_values(|e: FlatEntryV| info_of(e));
                        match forest_err(flat, 0, Scope::Root, 0) {
                            Some((l, m)) => Err(ErrV { line: l, col: 1, kind: TypeErr::Msg(m) }),
                            None => scope_checks(SchemaV { opts, fields, entries: es, forest: forest_v(flat, 0, Scope::Root) }),
                        }
                    },
                },
            }
        },
    }
}

/// Whether `s` is the schema `v`.
pub open spec fn schema_is(s: Schema, v: SchemaV) -> bool {
    &&& s.opts == v.opts
    &&& s.frontmatter@.len() == v.fields.len()
    &&& forall|k: int| 0 <= k < v.fields.len() ==> field_is(#[trigger] s.frontmatter@[k], v.fields[k].0, v.fields[k].1)
    &&& s.body@.len() == v.forest.len()
    &&& forall|k: int| 0 <= k < v.forest.len() ==> node_built(#[trigger] s.body@[k], v.forest[k], entry_heads(v.entries), entry_descs(v.entries))
}

pub proof fn lemma_forest_range(flat: Seq<FlatInfo>, pos: int, scope: Scope)
    requires
        0 <= pos,
    ensures
        all_in_range(forest_v(flat, pos, scope), flat.len()),
    decreases flat.len() - pos, 1int,
{
    if pos < flat.len() && contained(scope, flat[pos]) {
        let e = subtree_end(flat, pos);
        if e > pos && e <= flat.len() {
            lemma_tree_range(flat, pos);
            lemma_forest_range(flat, e, scope);
            let f = forest_v(flat, pos, scope);
            let rest = forest_v(flat, e, scope);
            assert(f == seq![tree_v(flat, pos)] + rest);
            assert forall|k: int| 0 <= k < f.len() implies #[trigger] f[k].idx < flat.len() && all_in_range(f[k].children, flat.len()) by {
                if k > 0 {
                    assert(f[k] == rest[k - 1]);
                }
            }
        }
    }
}

pub proof fn lemma_tree_range(flat: Seq<FlatInfo>, i: int)
    requires
        0 <= i < flat.len(),
    ensures
        tree_v(flat, i).idx == i,
        all_in_range(tree_v(flat, i).children, flat.len()),
    decreases flat.len() - i, 0int,
{
    lemma_forest_range(flat, i + 1, scope_of(flat[i]));
}

pub proof fn lemma_no_prose(flat: Seq<FlatInfo>, hs: Seq<NodeHeadV>, pos: int, scope: Scope, depth: nat)
    requires
        0 <= pos,
        hs.len() == flat.len(),
        forall|k: int| 0 <= k < flat.len() ==> #[trigger] flat[k].prose == (hs[k].kind is Prose),
        forest_err(flat, pos, scope, depth) is None,
    ensures
        no_prose_parent(forest_v(flat, pos, scope), hs),
    decreases flat.len() - pos, 1int,
{
    if pos < flat.len() && contained(scope, flat[pos]) {
        let e = subtree_end(flat, pos);
        if e > pos && e <= flat.len() {
            lemma_tree_no_prose(flat, hs, pos, depth);
            lemma_forest_range(flat, e, scope);
            lemma_no_prose(flat, hs, e, scope, depth);
            let f = forest_v(flat, pos, scope);
            let rest = forest_v(flat, e, scope);
            assert(f == seq![tree_v(flat, pos)] + rest);
            assert forall|k: int| #![trigger f[k]] 0 <= k < f.len() implies (hs[f[k].idx as int].kind is Prose ==> f[k].children.len() == 0)
                && no_prose_parent(f[k].children, hs) by {
                if k > 0 {
                    assert(f[k] == rest[k - 1]);
                }
            }
        }
    }
}

pub proof fn lemma_tree_no_prose(flat: Seq<FlatInfo>, hs: Seq<NodeHeadV>, i: int, depth: nat)
    requires
        0 <= i < flat.len(),
        hs.len() == flat.len(),
        forall|k: int| 0 <= k < flat.len() ==> #[trigger] flat[k].prose == (hs[k].kind is Prose),
        tree_err(flat, i, depth) is None,
    ensures
        tree_v(flat, i).idx == i,
        hs[i].kind is Prose ==> tree_v(flat, i).children.len() == 0,
        no_prose_parent(tree_v(flat, i).children, hs),
    decreases flat.len() - i, 0int,
{
    assert(flat[i].prose == (hs[i].kind is Prose));
    lemma_no_prose(flat, hs, i + 1, scope_of(flat[i]), depth + 1);
}

/// Whether line `l` is a `---` fence (descriptions aside).
fn is_fence(l: &Vec<char>) -> (b: bool)
    ensures
        b == (trim(split_desc_spec(l@).0) == "---"@),
{
    let (content, _) = split_desc(l.as_slice());
    let t = trimmed(content.as_slice());
    eq_str(t.as_slice(), "---")
}

/// The marker family of a list node (see [`head_group`]).
fn node_group(n: &Node) -> (g: Option<u8>)
    ensures
        forall|h: NodeHeadV, d: Option<Seq<char>>| #[trigger] node_head_is(*n, h, d) ==> g == head_group(h),
{
    match n {
        Node::List { style, .. } => Some(list_marker_group(*style)),
        _ => None,
    }
}

/// The marker family of a list style: `-` bullets and checklists share one
/// (`0`), ordered lists have their own (`1`).
pub fn list_marker_group(style: ListStyle) -> (g: u8)
    ensures
        g == (if style == ListStyle::Ordered { 1u8 } else { 0u8 }),
{
    match style {
        ListStyle::Bullet | ListStyle::Checklist => 0,
        ListStyle::Ordered => 1,
    }
}

pub proof fn lemma_alias_of_head(n: Node, h: NodeHeadV, d: Option<Seq<char>>)
    requires
        node_head_is(n, h, d),
    ensures
        n.alias() == head_alias(h),
{
}

pub proof fn lemma_group_of_head(n: Node, h: NodeHeadV, d: Option<Seq<char>>)
    requires
        node_head_is(n, h, d),
    ensures
        list_group(n) == head_group(h),
{
}

pub proof fn lemma_first_dup(fa: Seq<Seq<char>>, i: int)
    requires
        0 <= i <= fa.len(),
        first_dup(fa, i) is None,
    ensures
        forall|p: int, q: int| 0 <= p < q < fa.len() && i <= q ==> fa[p] != fa[q],
    decreases fa.len() - i,
{
    if i < fa.len() {
        lemma_first_dup(fa, i + 1);
        assert forall|p: int| 0 <= p < i implies fa[p] != fa[i] by {
            assert(fa.take(i)[p] == fa[p]);
        }
    }
}

/// No alias clash found in the trees `ts` means the nodes built from them
/// keep capture aliases unique in every scope.
pub proof fn lemma_unique_ok(
    al: Seq<Option<Seq<char>>>,
    ln: Seq<usize>,
    ts: Seq<ITreeV>,
    seen: Seq<Seq<char>>,
    ns: Seq<Node>,
    hs: Seq<NodeHeadV>,
    ds: Seq<Option<Seq<char>>>,
)
    requires
        unique_err(al, ln, ts, seen) is None,
        ns.len() == ts.len(),
        forall|k: int| 0 <= k < ts.len() ==> node_built(#[trigger] ns[k], ts[k], hs, ds),
        all_in_range(ts, hs.len()),
        al == hs.map_values(|h: NodeHeadV| head_alias(h)),
    ensures
        aliases_ok(ns, seen),
    decreases ts,
{
    if ts.len() > 0 {
        let t = ts[0];
        let n = ns[0];
        assert(node_built(n, t, hs, ds));
        assert(t.idx < hs.len());
        lemma_alias_of_head(n, hs[t.idx as int], ds[t.idx as int]);
        let a = al[t.idx as int];
        assert(n.alias() == a);
        let seen2 = match a {
            Some(x) => seen.push(x),
            None => seen,
        };
        let kids = n.children_of();
        assert(all_in_range(t.children, hs.len()));
        assert forall|k: int| 0 <= k < t.children.len() implies node_built(#[trigger] kids[k], t.children[k], hs, ds) by {}
        lemma_unique_ok(al, ln, t.children, Seq::empty(), kids, hs, ds);
        let rest = ts.drop_first();
        let nrest = ns.drop_first();
        assert forall|k: int| 0 <= k < rest.len() implies node_built(#[trigger] nrest[k], rest[k], hs, ds) by {
            assert(node_built(ns[k + 1], ts[k + 1], hs, ds));
        }
        assert forall|k: int| 0 <= k < rest.len() implies #[trigger] rest[k].idx < hs.len() && all_in_range(rest[k].children, hs.len()) by {
            assert(ts[k + 1].idx < hs.len());
        }
        lemma_unique_ok(al, ln, rest, seen2, nrest, hs, ds);
        assert forall|i: int| 0 <= i < ns.len() && (#[trigger] ns[i].alias()) is Some implies !seen.contains(ns[i].alias()->0) by {
            if i > 0 {
                assert(ns[i] == nrest[i - 1]);
                if seen.contains(ns[i].alias()->0) {
                    let w = choose|w: int| 0 <= w < seen.len() && seen[w] == ns[i].alias()->0;
                    assert(seen2[w] == seen[w]);
                }
            }
        }
        assert forall|i: int, j: int| 0 <= i < j < ns.len() && (#[trigger] ns[i].alias()) is Some implies ns[i].alias() != #[trigger] ns[j].alias() by {
            assert(ns[j] == nrest[j - 1]);
            if i == 0 {
                assert(seen2[seen.len() as int] == a->0);
            } else {
                assert(ns[i] == nrest[i - 1]);
            }
        }
        assert forall|k: int| 0 <= k < ns.len() implies match #[trigger] ns[k] {
            Node::Heading { children, .. } => aliases_ok(children@, Seq::empty()),
            Node::List { children, .. } => aliases_ok(children@, Seq::empty()),
            Node::Prose { .. } => true,
        } by {
            if k > 0 {
                assert(ns[k] == nrest[k - 1]);
            }
        }
    }
}

/// No adjacent same-family lists found in the trees `ts` means none in the
/// nodes built from them; `prev` is the family of the sibling before them.
pub proof fn lemma_lists_ok(
    gr: Seq<Option<u8>>,
    ln: Seq<usize>,
    ts: Seq<ITreeV>,
    prev: Option<u8>,
    ns: Seq<Node>,
    hs: Seq<NodeHeadV>,
    ds: Seq<Option<Seq<char>>>,
)
    requires
        adjacent_err(gr, ln, ts, prev) is None,
        ns.len() == ts.len(),
        forall|k: int| 0 <= k < ts.len() ==> node_built(#[trigger] ns[k], ts[k], hs, ds),
        all_in_range(ts, hs.len()),
        gr == hs.map_values(|h: NodeHeadV| head_group(h)),
    ensures
        lists_ok(ns),
        ns.len() > 0 && prev is Some && list_group(ns[0]) is Some ==> list_group(ns[0]) != prev,
    decreases ts,
{
    if ts.len() > 0 {
        let t = ts[0];
        let n = ns[0];
        assert(node_built(n, t, hs, ds));
        assert(t.idx < hs.len());
        lemma_group_of_head(n, hs[t.idx as int], ds[t.idx as int]);
        let g = gr[t.idx as int];
        assert(list_group(n) == g);
        let kids = n.children_of();
        assert(all_in_range(t.children, hs.len()));
        assert forall|k: int| 0 <= k < t.children.len() implies node_built(#[trigger] kids[k], t.children[k], hs, ds) by {}
        lemma_lists_ok(gr, ln, t.children, None, kids, hs, ds);
        let rest = ts.drop_first();
        let nrest = ns.drop_first();
        assert forall|k: int| 0 <= k < rest.len() implies node_built(#[trigger] nrest[k], rest[k], hs, ds) by {
            assert(node_built(ns[k + 1], ts[k + 1], hs, ds));
        }
        assert forall|k: int| 0 <= k < rest.len() implies #[trigger] rest[k].idx < hs.len() && all_in_range(rest[k].children, hs.len()) by {
            assert(ts[k + 1].idx < hs.len());
        }
        lemma_lists_ok(gr, ln, rest, g, nrest, hs, ds);
        assert forall|i: int| 0 <= i < ns.len() - 1 && (#[trigger] list_group(ns[i])) is Some implies list_group(ns[i]) != list_group(ns[i + 1]) by {
            assert(ns[i + 1] == nrest[i]);
            if i > 0 {
                assert(ns[i] == nrest[i - 1]);
            }
        }
        assert forall|k: int| 0 <= k < ns.len() implies match #[trigger] ns[k] {
            Node::Heading { children, .. } => lists_ok(children@),
            Node::List { children, .. } => lists_ok(children@),
            Node::Prose { .. } => true,
        } by {
            if k > 0 {
                assert(ns[k] == nrest[k - 1]);
            }
        }
    }
}

/// A schema that passed the scope checks has distinct frontmatter aliases,
/// unique capture aliases in each scope and no adjacent same-family lists.
pub proof fn lemma_checks_wf(s: Schema, v: SchemaV)
    requires
        scope_checks(v) is Ok,
        schema_is(s, v),
        all_in_range(v.forest, v.entries.len()),
    ensures
        forall|i: int, j: int| 0 <= i < j < fm_aliases(s).len() ==> #[trigger] fm_aliases(s)[i] != #[trigger] fm_aliases(s)[j],
        aliases_ok(s.body@, fm_aliases(s)),
        lists_ok(s.body@),
{
    let fa = field_aliases(v.fields);
    let hs = entry_heads(v.entries);
    let ds = entry_descs(v.entries);
    assert(fm_aliases(s) =~= fa) by {
        assert forall|k: int| 0 <= k < fa.len() implies #[trigger] fm_aliases(s)[k] == fa[k] by {
            assert(field_is(s.frontmatter@[k], v.fields[k].0, v.fields[k].1));
        }
    }
    lemma_first_dup(fa, 0);
    lemma_unique_ok(hs.map_values(|h: NodeHeadV| head_alias(h)), entry_lines(v.entries), v.forest, fa, s.body@, hs, ds);
    lemma_lists_ok(hs.map_values(|h: NodeHeadV| head_group(h)), entry_lines(v.entries), v.forest, None, s.body@, hs, ds);
}

proof fn lemma_lead_len_class(s: Seq<char>, cls: CharClass)
    ensures
        lead_len(s, cls) <= s.len(),
        forall|i: int| 0 <= i < lead_len(s, cls) ==> in_class(#[trigger] s[i], cls),
    decreases s.len(),
{
    if s.len() > 0 && in_class(s[0], cls) {
        lemma_lead_len_class(s.drop_first(), cls);
        assert forall|i: int| 0 <= i < lead_len(s, cls) implies in_class(#[trigger] s[i], cls) by {
            if i > 0 {
                assert(s[i] == s.drop_first()[i - 1]);
            }
        }
    }
}

proof fn lemma_field_spec_writable(content: Seq<char>)
    requires
        parse_field_spec(content) is Ok,
    ensures
        crate::frontmatter::field_writable(parse_field_spec(content)->Ok_0),
{
    let k = index_of(content, ':')->Some_0;
    let left = trim(content.take(k));
    let key_end = lead_len(left, CharClass::KeyChar);
    lemma_lead_len_class(left, CharClass::KeyChar);
    let key = left.take(key_end as int);
    assert forall|i: int| 0 <= i < key.len() implies in_class(#[trigger] key[i], CharClass::KeyChar) by {
        assert(key[i] == left[i]);
    }
}

proof fn lemma_fm_phase_writable(ls: Seq<Seq<char>>, j: int)
    requires
        fm_phase(ls, j) is Ok,
    ensures
        forall|i: int| 0 <= i < fm_phase(ls, j)->Ok_0.0.len() ==> crate::frontmatter::field_writable(#[trigger] fm_phase(ls, j)->Ok_0.0[i].0),
    decreases ls.len() - j,
{
    if 0 <= j < ls.len() {
        let (content, desc) = split_desc_spec(ls[j]);
        if trim(content) == "---"@ {
        } else if trim(content).len() == 0 {
            lemma_fm_phase_writable(ls, j + 1);
        } else {
            lemma_field_spec_writable(content);
            lemma_fm_phase_writable(ls, j + 1);
            let f = parse_field_spec(content)->Ok_0;
            let fs = fm_phase(ls, j + 1)->Ok_0.0;
            let all = seq![(f, desc, (j + 1) as nat)] + fs;
            assert forall|i: int| 0 <= i < all.len() implies crate::frontmatter::field_writable(#[trigger] all[i].0) by {
                if i > 0 {
                    assert(all[i] == fs[i - 1]);
                }
            }
        }
    }
}

proof fn lemma_type_is_ftype(t: FieldType, s: FieldTypeSpec)
    requires
        type_is(t, s),
    ensures
        crate::frontmatter::ftype_v(t) == s,
    decreases s,
{
    match s {
        FieldTypeSpec::Enum(vals) => {
            let v = t->Enum_0;
            assert(crate::frontmatter::strings_v(v@) =~= vals);
        },
        FieldTypeSpec::List(inner) => {
            let b = t->List_0;
            lemma_type_is_ftype(*b, *inner);
        },
        _ => {},
    }
}

/// Every frontmatter field of a parsed schema can be written so that it
/// reads back: its key is a run of `[A-Za-z0-9_]`, and a list type holds
/// scalars.
pub proof fn law_parsed_fields_writable(src: Seq<char>, s: Schema)
    requires
        parse_spec(src) is Ok,
        schema_is(s, parse_spec(src)->Ok_0),
    ensures
        forall|k: int| 0 <= k < crate::frontmatter::fields_v(s.frontmatter@).len() ==>
            crate::frontmatter::field_writable(#[trigger] crate::frontmatter::fields_v(s.frontmatter@)[k]),
{
    let v = parse_spec(src)->Ok_0;
    let ls = lines(src);
    let (opts, i) = directive_phase(ls, 0, default_opts())->Ok_0;
    if fm_opens(ls, i) {
        lemma_fm_phase_writable(ls, i + 1);
    }
    let fv = crate::frontmatter::fields_v(s.frontmatter@);
    assert forall|k: int| 0 <= k < fv.len() implies crate::frontmatter::field_writable(#[trigger] fv[k]) by {
        assert(field_is(s.frontmatter@[k], v.fields[k].0, v.fields[k].1));
        lemma_type_is_ftype(s.frontmatter@[k].ty, v.fields[k].0.ty);
        assert(fv[k] == crate::frontmatter::field_v(s.frontmatter@[k]));
        assert(fv[k] == v.fields[k].0);
    }
}

/// Parse a schema from DSL source.
///
/// Phases: leading `%`-directives, an optional `--- … ---` frontmatter block,
/// then the body. Fails with a located [`SchemaError`] on a malformed
/// directive, field, or marker; an invalid regex label or type; a schema line
/// indented under a `>` prose node; two nodes sharing a capture alias in one
/// scope; or two adjacent sibling lists of one marker family.
pub fn parse_schema(src: &str) -> (r: Result<Schema, SchemaError>)
    ensures
        match parse_spec(src@) {
            Ok(v) => r matches Ok(s) && schema_is(s, v),
            Err(e) => r matches Err(re) && err_is(re, e),
        },
        r matches Ok(s) ==> schema_wf(s),
        r matches Ok(s) ==> forall|k: int| 0 <= k < crate::frontmatter::fields_v(s.frontmatter@).len() ==>
            crate::frontmatter::field_writable(#[trigger] crate::frontmatter::fields_v(s.frontmatter@)[k]),
{
    let cs = chars_of(src);
    let ln = lines_of(cs.as_slice());
    let ghost ls = lines(src@);
    let (opts, i) = directives(&ln, Ghost(ls))?;
    let ghost fmv = if fm_opens(ls, i as int) {
        fm_phase(ls, i + 1)
    } else {
        Ok((Seq::<(FieldSpecV, Option<Seq<char>>, nat)>::empty(), i as int))
    };
    let (fields, flines, j) = if i < ln.len() && is_fence(&ln[i]) {
        assert(ln@[i as int]@ == ls[i as int]);
        frontmatter_fields(&ln, Ghost(ls), i + 1)?
    } else {
        proof {
            if i < ln.len() {
                assert(ln@[i as int]@ == ls[i as int]);
            }
        }
        (Vec::new(), Vec::new(), i)
    };
    let ghost fs = fmv->Ok_0.0;
    assert(fmv is Ok && fmv->Ok_0.1 == j && fields@.len() == fs.len());
    assert(forall|k: int| 0 <= k < fs.len() ==> field_is(#[trigger] fields@[k], fs[k].0, fs[k].1));
    assert(flines@.len() == fs.len() && forall|k: int| 0 <= k < fs.len() ==> #[trigger] flines@[k] == fs[k].2);
    let (flat, nodes) = body_lines(&ln, Ghost(ls), j)?;
    let ghost es = flat_phase(ls, j as int)->Ok_0;
    let ghost fl = es.map_values(|e: FlatEntryV| info_of(e));
    let ghost hs = entry_heads(es);
    let ghost ds = entry_descs(es);
    assert(flat@ =~= fl) by {
        assert forall|k: int| 0 <= k < fl.len() implies flat@[k] == #[trigger] fl[k] by {
            assert(entry_is(flat@[k], nodes@[k], es[k]));
        }
    }
    let (trees, _) = build_forest(&flat, 0, Scope::Root, 0)?;
    let ghost forest = forest_v(fl, 0, Scope::Root);
    assert(parse_spec(src@) == scope_checks(SchemaV { opts, fields: fs, entries: es, forest }));
    proof {
        lemma_forest_range(fl, 0, Scope::Root);
        assert forall|k: int| 0 <= k < fl.len() implies #[trigger] fl[k].prose == (hs[k].kind is Prose) by {}
        lemma_no_prose(fl, hs, 0, Scope::Root, 0);
    }

    // frontmatter aliases are distinct
    let ghost fa = field_aliases(fs);
    assert forall|q: int| 0 <= q < fa.len() implies #[trigger] fa[q] == fields@[q].alias@ by {
        assert(field_is(fields@[q], fs[q].0, fs[q].1));
    }
    let mut seen: Vec<String> = Vec::new();
    let mut k: usize = 0;
    while k < fields.len()
        invariant
            0 <= k <= fields@.len(),
            fa.len() == fields@.len(),
            forall|q: int| 0 <= q < fa.len() ==> #[trigger] fa[q] == fields@[q].alias@,
            views(seen@) == fa.take(k as int),
            first_dup(fa, 0) == first_dup(fa, k as int),
            fa == field_aliases(fs),
            flines@.len() == fs.len(),
            forall|q: int| 0 <= q < fs.len() ==> #[trigger] flines@[q] == fs[q].2,
            parse_spec(src@) == scope_checks(SchemaV { opts, fields: fs, entries: es, forest }),
        decreases fields@.len() - k,
    {
        assert(fa[k as int] == fields@[k as int].alias@);
        if contains_string(&seen, &fields[k].alias) {
            let mut m = String::new();
            push_str(&mut m, "duplicate frontmatter alias `");
            push_str(&mut m, fields[k].alias.as_str());
            push_str(&mut m, "`");
            assert(first_dup(fa, k as int) == Some(k as int));
            assert(flines@[k as int] == fs[k as int].2);
            return Err(SchemaError::new(flines[k], 1, m));
        }
        let ghost before = views(seen@);
        seen.push(fields[k].alias.clone());
        assert(views(seen@) =~= before.push(fields@[k as int].alias@));
        assert(fa.take(k + 1) =~= fa.take(k as int).push(fa[k as int]));
        k = k + 1;
    }

    assert(views(seen@) =~= fa);
    assert(first_dup(fa, 0) is None);
    // per-node capture aliases, marker families and line numbers
    let mut aliases: Vec<Option<String>> = Vec::new();
    let mut groups: Vec<Option<u8>> = Vec::new();
    let mut lns: Vec<usize> = Vec::new();
    let mut q: usize = 0;
    while q < nodes.len()
        invariant
            q <= nodes@.len(),
            nodes@.len() == flat@.len(),
            flat@ == fl,
            fl.len() == es.len(),
            hs == entry_heads(es),
            ds == entry_descs(es),
            forall|p: int| 0 <= p < es.len() ==> entry_is(#[trigger] flat@[p], nodes@[p], es[p]),
            aliases@.len() == q,
            groups@.len() == q,
            lns@.len() == q,
            forall|p: int| 0 <= p < q ==> opt_view(#[trigger] aliases@[p]) == head_alias(hs[p]),
            forall|p: int| 0 <= p < q ==> #[trigger] groups@[p] == head_group(hs[p]),
            forall|p: int| 0 <= p < q ==> #[trigger] lns@[p] == entry_lines(es)[p],
        decreases nodes@.len() - q,
    {
        assert(entry_is(flat@[q as int], nodes@[q as int], es[q as int]));
        assert(hs[q as int] == es[q as int].head);
        assert(ds[q as int] == es[q as int].desc);
        assert(node_head_is(nodes@[q as int], hs[q as int], ds[q as int]));
        proof { lemma_alias_of_head(nodes@[q as int], hs[q as int], ds[q as int]); }
        let a = nodes[q].capture_alias();
        assert(opt_view(a) == head_alias(hs[q as int]));
        aliases.push(a);
        groups.push(node_group(&nodes[q]));
        lns.push(flat[q].line);
        q = q + 1;
    }
    assert(aliases@.map_values(|o: Option<String>| opt_view(o)) =~= hs.map_values(|h: NodeHeadV| head_alias(h)));
    assert(groups@ =~= hs.map_values(|h: NodeHeadV| head_group(h)));
    assert(lns@ =~= entry_lines(es));
    check_unique(&trees, Ghost(forest), &aliases, &lns, &mut seen)?;
    check_adjacent(&trees, Ghost(forest), &groups, &lns, None)?;
    assert forall|p: int| 0 <= p < nodes@.len() implies node_is(#[trigger] nodes@[p], hs[p], ds[p]) by {
        assert(entry_is(flat@[p], nodes@[p], es[p]));
    }
    let body = assemble(&trees, Ghost(forest), &nodes, Ghost(hs), Ghost(ds));
    let s = Schema { opts, frontmatter: fields, body };
    proof {
        lemma_checks_wf(s, SchemaV { opts, fields: fs, entries: es, forest });
        assert(forest_err(fl, 0, Scope::Root, 0) is None);
        lemma_forest_nest(fl, 0, Scope::Root, 0);
        lemma_nodes_nest(forest, body@, hs, ds, max_depth());
        lemma_forest_scoped(fl, 0, Scope::Root);
        assert forall|i: int| 0 <= i < fl.len() implies (#[trigger] fl[i]).level == match hs[i].kind {
            MarkerKind::Heading(l) => Some(l),
            _ => None::<u8>,
        } by {}
        lemma_nodes_levels(forest, body@, hs, ds, fl);
        law_parsed_fields_writable(src@, s);
    }
    Ok(s)
}

} // verus!
