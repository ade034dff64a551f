//! Rendering: `scaffold` (schema to starter document) and `render` (data to
//! document), and the inline escaper shared with `edit`.

use crate::doc::sat_add;
use crate::error::{RenderErrV, RenderError, render_err_is};
use crate::error::ProblemV;
use crate::frontmatter::{field_v, field_value, field_writable, fields_v, fm_extract_spec, fm_render_spec, has_value, lemma_nl_split, nl_terminated, placeholder, placeholder_spec, render_frontmatter, value_fits, written_lines, written_values};
use vstd::utf8::encode_utf8;
use crate::parse::FieldSpecV;
use crate::json::{Json, JsonV, json_is, value_get};
use crate::parse::{CharClass, lead_len, lead_len_exec};
use crate::schema::{Card, ListStyle, Match, Node, Schema, is_omittable, is_repeated, omitted, repeated};
use crate::text::{chars_of, is_whitespace, is_ws, lines, lines_of, lines_state, strip_cr, push_char, push_chars, push_str};
use vstd::prelude::*;

verus! {

// ---- emitting list items --------------------------------------------------------------

/// `n` copies of `c`.
pub open spec fn run_of(c: char, n: nat) -> Seq<char> {
    Seq::new(n, |_i: int| c)
}

/// Appends `n` copies of `c`.
fn push_run(out: &mut String, c: char, n: usize)
    ensures
        final(out)@ == old(out)@ + run_of(c, n as nat),
{
    let mut i: usize = 0;
    while i < n
        invariant
            i <= n,
            out@ == old(out)@ + run_of(c, i as nat),
        decreases n - i,
    {
        push_char(out, c);
        i = i + 1;
        assert(out@ =~= old(out)@ + run_of(c, i as nat));
    }
}

/// The column at which an item's content starts after its marker: where child
/// blocks must be indented to nest under it.
pub open spec fn content_offset(style: ListStyle) -> usize {
    match style {
        ListStyle::Ordered => 3,
        _ => 2,
    }
}

/// The content offset of a list style (see [`content_offset`]).
pub fn list_content_offset(style: ListStyle) -> (r: usize)
    ensures
        r == content_offset(style),
{
    match style {
        ListStyle::Ordered => 3,
        ListStyle::Bullet | ListStyle::Checklist => 2,
    }
}

/// The marker an item of `style` is written with.
pub open spec fn marker(style: ListStyle, checked: Option<bool>) -> Seq<char> {
    match style {
        ListStyle::Bullet => "- "@,
        ListStyle::Ordered => "1. "@,
        ListStyle::Checklist => if checked == Some(true) { "- [x] "@ } else { "- [ ] "@ },
    }
}

/// A checklist item is written `- ` and a box that the document reader
/// reads back as the item's state: `[x] ` when checked, `[ ] ` otherwise,
/// whatever text follows.
pub proof fn law_checklist_marker_reads_back(checked: Option<bool>, rest: Seq<char>)
    ensures
        marker(ListStyle::Checklist, checked).take(2) == "- "@,
        crate::doc::checkbox_spec(marker(ListStyle::Checklist, checked).skip(2) + rest)
            == (Some(checked == Some(true)), 4usize),
{
    reveal_strlit("- [x] ");
    reveal_strlit("- [ ] ");
    reveal_strlit("- ");
    let m = marker(ListStyle::Checklist, checked);
    assert(m.take(2) =~= "- "@);
    let b = m.skip(2) + rest;
    assert(b[0] == '[' && b[2] == ']' && b[3] == ' ');
    assert(b[1] == if checked == Some(true) { 'x' } else { ' ' });
}

/// One list item line: the indent, the marker, the label prefix and the text.
pub open spec fn item_line(indent: usize, style: ListStyle, checked: Option<bool>, prefix: Seq<char>, text: Seq<char>) -> Seq<char> {
    run_of(' ', indent as nat) + marker(style, checked) + prefix + text + "\n"@
}

/// Appends one list item line (see [`item_line`]).
pub fn emit_item(out: &mut String, indent: usize, style: ListStyle, checked: Option<bool>, label_prefix: &str, text: &str)
    ensures
        final(out)@ == old(out)@ + item_line(indent, style, checked, label_prefix@, text@),
{
    push_run(out, ' ', indent);
    match style {
        ListStyle::Bullet => push_str(out, "- "),
        ListStyle::Ordered => push_str(out, "1. "),
        ListStyle::Checklist => {
            let x = match checked {
                Some(b) => b,
                None => false,
            };
            if x {
                push_str(out, "- [x] ");
            } else {
                push_str(out, "- [ ] ");
            }
        },
    }
    push_str(out, label_prefix);
    push_str(out, text);
    push_str(out, "\n");
}

// ---- block normalization --------------------------------------------------------------

/// A line of whitespace only (`str::trim` leaves nothing).
pub open spec fn is_blank(l: Seq<char>) -> bool {
    forall|i: int| 0 <= i < l.len() ==> is_ws(#[trigger] l[i])
}

fn blank(l: &[char]) -> (b: bool)
    ensures
        b == is_blank(l@),
{
    let mut i: usize = 0;
    while i < l.len()
        invariant
            i <= l@.len(),
            forall|j: int| 0 <= j < i ==> is_ws(#[trigger] l@[j]),
        decreases l@.len() - i,
    {
        if !is_whitespace(l[i]) {
            return false;
        }
        i = i + 1;
    }
    true
}

/// A top-level ATX heading line: one to six `#` and a space.
pub open spec fn is_heading_line_spec(l: Seq<char>) -> bool {
    let h = lead_len(l, CharClass::Hash) as int;
    1 <= h <= 6 && h < l.len() && l[h] == ' '
}

/// Whether `line` is a top-level ATX heading (see [`is_heading_line_spec`]).
/// Captured text is escaped before it is written, so a value that merely
/// starts with `#` is never one.
pub fn is_heading_line(line: &[char]) -> (b: bool)
    ensures
        b == is_heading_line_spec(line@),
{
    let h = lead_len_exec(line, CharClass::Hash);
    1 <= h && h <= 6 && h < line.len() && line[h] == ' '
}

/// One step of block normalization: a blank line is kept (as an empty line)
/// only after a non-blank one; a heading gets an empty line before it (after a
/// non-blank line) and any line after a heading is preceded by one.
pub open spec fn norm_push(acc: Seq<Seq<char>>, line: Seq<char>) -> Seq<Seq<char>> {
    if is_blank(line) {
        if acc.len() == 0 || is_blank(acc.last()) {
            acc
        } else {
            acc.push(Seq::empty())
        }
    } else {
        let after_heading = acc.len() > 0 && is_heading_line_spec(acc.last());
        let before_heading = is_heading_line_spec(line) && acc.len() > 0 && !is_blank(acc.last());
        if after_heading || before_heading {
            acc.push(Seq::empty()).push(line)
        } else {
            acc.push(line)
        }
    }
}

/// The lines after normalization steps over `ls`.
pub open spec fn norm_fold(ls: Seq<Seq<char>>) -> Seq<Seq<char>>
    decreases ls.len(),
{
    if ls.len() == 0 {
        Seq::empty()
    } else {
        norm_push(norm_fold(ls.drop_last()), ls.last())
    }
}

/// `ls` without its trailing blank lines.
pub open spec fn drop_trailing_blanks(ls: Seq<Seq<char>>) -> Seq<Seq<char>>
    decreases ls.len(),
{
    if ls.len() > 0 && is_blank(ls.last()) {
        drop_trailing_blanks(ls.drop_last())
    } else {
        ls
    }
}

/// The lines joined with `\n` between them.
pub open spec fn join_lines(ls: Seq<Seq<char>>) -> Seq<char>
    decreases ls.len(),
{
    if ls.len() == 0 {
        Seq::empty()
    } else if ls.len() == 1 {
        ls[0]
    } else {
        join_lines(ls.drop_last()) + "\n"@ + ls.last()
    }
}

/// Well-formed block separation: the normalized lines joined, with one
/// trailing newline when anything is left.
pub open spec fn normalize_spec(s: Seq<char>) -> Seq<char> {
    let j = join_lines(drop_trailing_blanks(norm_fold(lines(s))));
    if j.len() == 0 { j } else { j + "\n"@ }
}

/// Normalizes block separation so the output is well-formed prose markdown:
/// one blank line around every heading, never two blank lines in a row, and
/// exactly one trailing newline (see [`normalize_spec`]). Only column-0
/// headings and runs of blank lines are rewritten; indented lines pass
/// through untouched.
pub fn normalize_blocks(out: &mut String)
    ensures
        final(out)@ == normalize_spec(old(out)@),
{
    let v = chars_of(out.as_str());
    let ls = lines_of(v.as_slice());
    let ghost lv = lines(v@);
    let mut acc: Vec<Vec<char>> = Vec::new();
    let mut i: usize = 0;
    while i < ls.len()
        invariant
            i <= ls@.len(),
            ls@.len() == lv.len(),
            forall|k: int| 0 <= k < ls@.len() ==> #[trigger] ls@[k]@ == lv[k],
            acc@.len() == norm_fold(lv.take(i as int)).len(),
            forall|k: int| 0 <= k < acc@.len() ==> #[trigger] acc@[k]@ == norm_fold(lv.take(i as int))[k],
        decreases ls@.len() - i,
    {
        let ghost before = norm_fold(lv.take(i as int));
        assert(lv.take(i + 1).drop_last() =~= lv.take(i as int));
        assert(lv.take(i + 1).last() == lv[i as int]);
        let line = &ls[i];
        let n = acc.len();
        assert(n > 0 ==> acc@[n - 1]@ == before.last());
        if blank(line.as_slice()) {
            if n == 0 || blank(acc[n - 1].as_slice()) {
            } else {
                acc.push(Vec::new());
                assert(acc@[n as int]@ =~= Seq::<char>::empty());
            }
        } else {
            let after_heading = n > 0 && is_heading_line(acc[n - 1].as_slice());
            let before_heading = is_heading_line(line.as_slice()) && n > 0 && !blank(acc[n - 1].as_slice());
            if after_heading || before_heading {
                acc.push(Vec::new());
                assert(acc@[n as int]@ =~= Seq::<char>::empty());
            }
            acc.push(line.clone());
        }
        i = i + 1;
    }
    assert(lv.take(i as int) =~= lv);
    let ghost folded = norm_fold(lv);
    let mut m = acc.len();
    assert(folded.take(m as int) =~= folded);
    while m > 0 && blank(acc[m - 1].as_slice())
        invariant
            m <= acc@.len(),
            acc@.len() == folded.len(),
            forall|k: int| 0 <= k < acc@.len() ==> #[trigger] acc@[k]@ == folded[k],
            drop_trailing_blanks(folded.take(m as int)) == drop_trailing_blanks(folded),
        decreases m,
    {
        assert(folded.take(m as int).drop_last() =~= folded.take(m - 1));
        m = m - 1;
    }
    let ghost kept = folded.take(m as int);
    assert(drop_trailing_blanks(kept) == kept);
    let mut r = String::new();
    let mut k: usize = 0;
    while k < m
        invariant
            k <= m <= acc@.len(),
            kept.len() == m,
            forall|j: int| 0 <= j < m ==> #[trigger] kept[j] == acc@[j]@,
            r@ == join_lines(kept.take(k as int)),
        decreases m - k,
    {
        assert(kept.take(k + 1).drop_last() =~= kept.take(k as int));
        if k > 0 {
            push_str(&mut r, "\n");
        }
        push_chars(&mut r, acc[k].as_slice());
        k = k + 1;
        proof {
            if k == 1 {
                assert(r@ =~= join_lines(kept.take(k as int)));
            }
        }
    }
    assert(kept.take(k as int) =~= kept);
    if !r.as_str().is_empty() {
        push_str(&mut r, "\n");
    }
    *out = r;
}

/// The inline-active markdown characters, escaped wherever they stand.
pub open spec fn esc_always(c: char) -> bool {
    c == '\\' || c == '`' || c == '*' || c == '_' || c == '[' || c == ']' || c == '<' || c == '>'
        || c == '&' || c == '~' || c == '|' || c == '!'
}

/// The block markers, escaped when they lead the value.
pub open spec fn esc_first(c: char) -> bool {
    c == '#' || c == '-' || c == '+' || c == '='
}

/// The position of the `.` or `)` of a leading ordered-list marker (digits
/// then `.` or `)`), if the value starts with one.
pub open spec fn lead_ord(s: Seq<char>) -> Option<int> {
    let d = lead_len(s, CharClass::Digit) as int;
    if d > 0 && d < s.len() && (s[d] == '.' || s[d] == ')') {
        Some(d)
    } else {
        None
    }
}

/// Whether the character at `k` gets a backslash.
pub open spec fn esc_at(s: Seq<char>, k: int) -> bool {
    esc_always(s[k]) || (k == 0 && esc_first(s[k])) || lead_ord(s) == Some(k)
}

/// The escaped characters from `k` on.
pub open spec fn esc_from(s: Seq<char>, k: int) -> Seq<char>
    decreases s.len() - k,
{
    if k < 0 || k >= s.len() {
        Seq::empty()
    } else {
        (if esc_at(s, k) { seq!['\\', s[k]] } else { seq![s[k]] }) + esc_from(s, k + 1)
    }
}

/// Captured text escaped so that re-parsing yields it back: a backslash
/// before each inline-active character, before a block marker that leads
/// the value, and before the `.`/`)` of a leading ordered-list marker.
pub open spec fn esc_inline_spec(s: Seq<char>) -> Seq<char> {
    esc_from(s, 0)
}

/// ASCII punctuation: the characters a markdown backslash escape applies to.
pub open spec fn is_ascii_punct(c: char) -> bool {
    ||| '!' <= c && c <= '/'
    ||| ':' <= c && c <= '@'
    ||| '[' <= c && c <= '`'
    ||| '{' <= c && c <= '~'
}

/// Text as markdown reads its backslash escapes: a backslash before ASCII
/// punctuation stands for that character; any other character stands for
/// itself.
pub open spec fn md_unescape(t: Seq<char>) -> Seq<char>
    decreases t.len(),
{
    if t.len() == 0 {
        Seq::empty()
    } else if t[0] == '\\' && t.len() > 1 && is_ascii_punct(t[1]) {
        seq![t[1]] + md_unescape(t.skip(2))
    } else {
        seq![t[0]] + md_unescape(t.skip(1))
    }
}

proof fn lemma_unescape_esc_from(s: Seq<char>, k: int)
    requires
        0 <= k <= s.len(),
    ensures
        md_unescape(esc_from(s, k)) == s.skip(k),
    decreases s.len() - k,
{
    if k == s.len() {
        assert(s.skip(k) =~= Seq::<char>::empty());
    } else {
        lemma_unescape_esc_from(s, k + 1);
        let rest = esc_from(s, k + 1);
        assert(s.skip(k) =~= seq![s[k]] + s.skip(k + 1));
        if esc_at(s, k) {
            let t = seq!['\\', s[k]] + rest;
            assert(is_ascii_punct(s[k]));
            assert(t.skip(2) =~= rest);
        } else {
            let t = seq![s[k]] + rest;
            assert(t.skip(1) =~= rest);
        }
    }
}

/// Reading the backslash escapes back undoes [`esc_inline_spec`]: every
/// character it escapes is ASCII punctuation, and every backslash of the
/// text is itself escaped, so no escape is read where none was written.
pub proof fn law_unescape_esc_inline(s: Seq<char>)
    ensures
        md_unescape(esc_inline_spec(s)) == s,
{
    lemma_unescape_esc_from(s, 0);
    assert(s.skip(0) =~= s);
}

/// Escapes captured text (see [`esc_inline_spec`]).
pub fn esc_inline(s: &str) -> (r: String)
    ensures
        r@ == esc_inline_spec(s@),
{
    let v = chars_of(s);
    let n = v.len();
    let d = lead_len_exec(v.as_slice(), CharClass::Digit);
    let lo: Option<usize> = if d > 0 && d < n && (v[d] == '.' || v[d] == ')') { Some(d) } else { None };
    assert(lo matches Some(x) ==> lead_ord(v@) == Some(x as int));
    assert(lo is None ==> lead_ord(v@) is None);
    let mut out = String::new();
    let mut i: usize = 0;
    while i < n
        invariant
            i <= n,
            n == v@.len(),
            v@ == s@,
            lo matches Some(x) ==> lead_ord(v@) == Some(x as int),
            lo is None ==> lead_ord(v@) is None,
            esc_from(v@, 0) == out@ + esc_from(v@, i as int),
        decreases n - i,
    {
        let c = v[i];
        let always = c == '\\' || c == '`' || c == '*' || c == '_' || c == '[' || c == ']' || c == '<' || c == '>'
            || c == '&' || c == '~' || c == '|' || c == '!';
        let first = i == 0 && (c == '#' || c == '-' || c == '+' || c == '=');
        let ord = match lo {
            Some(x) => x == i,
            None => false,
        };
        if always || first || ord {
            push_char(&mut out, '\\');
        }
        push_char(&mut out, c);
        assert(esc_at(v@, i as int) == (always || first || ord));
        i = i + 1;
    }
    out
}

/// A line without a newline in it.
pub open spec fn no_newline(l: Seq<char>) -> bool {
    forall|j: int| 0 <= j < l.len() ==> l[j] != '\n'
}

/// Well-formed block separation of a sequence of lines: none holds a
/// newline, the first is not blank, no two blank lines are adjacent, and a
/// heading line has a blank line before it (unless it is first) and after
/// it (unless it is last).
pub open spec fn blocks_shaped(r: Seq<Seq<char>>) -> bool {
    &&& forall|i: int| 0 <= i < r.len() ==> no_newline(#[trigger] r[i])
    &&& r.len() > 0 ==> !is_blank(r[0])
    &&& forall|i: int| 0 <= i < r.len() - 1 ==> !(is_blank(#[trigger] r[i]) && is_blank(r[i + 1]))
    &&& forall|i: int| 0 <= i < r.len() && #[trigger] is_heading_line_spec(r[i]) ==>
        (i > 0 ==> is_blank(r[i - 1])) && (i + 1 < r.len() ==> is_blank(r[i + 1]))
}

proof fn lemma_lines_state_no_newline(s: Seq<char>)
    ensures
        forall|i: int| 0 <= i < lines_state(s).0.len() ==> no_newline(#[trigger] lines_state(s).0[i]),
        no_newline(lines_state(s).1),
    decreases s.len(),
{
    if s.len() > 0 {
        lemma_lines_state_no_newline(s.drop_last());
        let (done, cur) = lines_state(s.drop_last());
        if s.last() != '\n' {
            assert(no_newline(cur.push(s.last())));
        } else {
            assert(no_newline(strip_cr(cur)));
            assert(no_newline(Seq::<char>::empty()));
            let d = done.push(strip_cr(cur));
            assert forall|i: int| 0 <= i < d.len() implies no_newline(#[trigger] d[i]) by {
                if i < done.len() {
                    assert(d[i] == done[i]);
                }
            }
        }
    }
}

proof fn lemma_lines_no_newline(s: Seq<char>)
    ensures
        forall|i: int| 0 <= i < lines(s).len() ==> no_newline(#[trigger] lines(s)[i]),
{
    lemma_lines_state_no_newline(s);
    let (done, cur) = lines_state(s);
    if cur.len() > 0 {
        let d = done.push(cur);
        assert forall|i: int| 0 <= i < d.len() implies no_newline(#[trigger] d[i]) by {
            if i < done.len() {
                assert(d[i] == done[i]);
            }
        }
    }
}

proof fn lemma_heading_not_blank(l: Seq<char>)
    requires
        is_heading_line_spec(l),
    ensures
        !is_blank(l),
{
    let h = lead_len(l, CharClass::Hash) as int;
    assert(l[h] == ' ');
    assert(l[0] == '#');
    assert(!is_ws(l[0]));
}

proof fn lemma_norm_push_shaped(acc: Seq<Seq<char>>, line: Seq<char>)
    requires
        blocks_shaped(acc),
        no_newline(line),
    ensures
        blocks_shaped(norm_push(acc, line)),
{
    let r = norm_push(acc, line);
    let e = Seq::<char>::empty();
    assert(no_newline(e));
    assert(is_blank(e));
    assert(!is_heading_line_spec(e));
    if is_heading_line_spec(line) {
        lemma_heading_not_blank(line);
    }
    if acc.len() > 0 && is_heading_line_spec(acc.last()) {
        lemma_heading_not_blank(acc.last());
    }
    assert forall|i: int| 0 <= i < r.len() implies no_newline(#[trigger] r[i]) by {
        if i < acc.len() {
            assert(r[i] == acc[i]);
        }
    }
    assert forall|i: int| 0 <= i < r.len() - 1 implies !(is_blank(#[trigger] r[i]) && is_blank(r[i + 1])) by {
        if i + 1 < acc.len() {
            assert(r[i] == acc[i] && r[i + 1] == acc[i + 1]);
        } else if i < acc.len() {
            assert(r[i] == acc[i]);
        }
    }
    assert forall|i: int| 0 <= i < r.len() && #[trigger] is_heading_line_spec(r[i]) implies
        (i > 0 ==> is_blank(r[i - 1])) && (i + 1 < r.len() ==> is_blank(r[i + 1])) by {
        if i < acc.len() {
            assert(r[i] == acc[i]);
            if i > 0 {
                assert(r[i - 1] == acc[i - 1]);
            }
            if i + 1 < acc.len() {
                assert(r[i + 1] == acc[i + 1]);
            }
        } else if i > 0 && i - 1 < acc.len() {
            assert(r[i - 1] == acc[i - 1]);
        }
    }
}

proof fn lemma_norm_fold_shaped(ls: Seq<Seq<char>>)
    requires
        forall|i: int| 0 <= i < ls.len() ==> no_newline(#[trigger] ls[i]),
    ensures
        blocks_shaped(norm_fold(ls)),
    decreases ls.len(),
{
    if ls.len() > 0 {
        let p = ls.drop_last();
        assert forall|i: int| 0 <= i < p.len() implies no_newline(#[trigger] p[i]) by {
            assert(p[i] == ls[i]);
        }
        lemma_norm_fold_shaped(p);
        lemma_norm_push_shaped(norm_fold(p), ls.last());
    }
}

proof fn lemma_drop_trailing_shaped(ls: Seq<Seq<char>>)
    requires
        blocks_shaped(ls),
    ensures
        blocks_shaped(drop_trailing_blanks(ls)),
        drop_trailing_blanks(ls).len() > 0 ==> !is_blank(drop_trailing_blanks(ls).last()),
    decreases ls.len(),
{
    if ls.len() > 0 && is_blank(ls.last()) {
        let p = ls.drop_last();
        assert forall|i: int| 0 <= i < p.len() - 1 implies !(is_blank(#[trigger] p[i]) && is_blank(p[i + 1])) by {
            assert(p[i] == ls[i] && p[i + 1] == ls[i + 1]);
        }
        assert forall|i: int| 0 <= i < p.len() && #[trigger] is_heading_line_spec(p[i]) implies
            (i > 0 ==> is_blank(p[i - 1])) && (i + 1 < p.len() ==> is_blank(p[i + 1])) by {
            assert(p[i] == ls[i]);
            if i > 0 {
                assert(p[i - 1] == ls[i - 1]);
            }
            if i + 1 < p.len() {
                assert(p[i + 1] == ls[i + 1]);
            }
        }
        lemma_drop_trailing_shaped(p);
    }
}

proof fn lemma_join_last(r: Seq<Seq<char>>)
    requires
        r.len() > 0,
        r.last().len() > 0,
    ensures
        join_lines(r).len() > 0,
        join_lines(r).last() == r.last().last(),
    decreases r.len(),
{
}

/// Block normalization leaves well-formed block separation: the output is
/// nothing, or lines joined by newlines with one final newline, where no
/// line holds a newline, the first and last lines are not blank, no two
/// blank lines are adjacent, and every heading line has a blank line before
/// it (unless first) and after it (unless last); a non-empty output ends
/// with exactly one newline.
pub proof fn law_normalize_shape(s: Seq<char>)
    ensures
        ({
            let r = drop_trailing_blanks(norm_fold(lines(s)));
            &&& normalize_spec(s) == (if r.len() == 0 { Seq::empty() } else { join_lines(r) + "\n"@ })
            &&& blocks_shaped(r)
            &&& r.len() > 0 ==> !is_blank(r.last())
        }),
        normalize_spec(s).len() > 0 ==> normalize_spec(s).len() >= 2 && normalize_spec(s).last() == '\n'
            && normalize_spec(s)[normalize_spec(s).len() - 2] != '\n',
{
    lemma_lines_no_newline(s);
    lemma_norm_fold_shaped(lines(s));
    lemma_drop_trailing_shaped(norm_fold(lines(s)));
    let r = drop_trailing_blanks(norm_fold(lines(s)));
    reveal_strlit("\n");
    if r.len() > 0 {
        assert(!is_blank(r.last()));
        assert(r.last().len() > 0);
        lemma_join_last(r);
        assert(no_newline(r[r.len() - 1]));
        let j = join_lines(r);
        assert((j + "\n"@)[j.len() - 1] == j.last());
    } else {
        assert(join_lines(r).len() == 0);
    }
}

// ---- rendering data --------------------------------------------------------------------

/// `#` repeated `level` times.
pub open spec fn hashes(level: u8) -> Seq<char> {
    run_of('#', level as nat)
}

/// The member `key` of a scope, or `null` when there is none.
pub open spec fn member(scope: JsonV, key: Seq<char>) -> JsonV {
    match value_get(scope, key) {
        Some(v) => v,
        None => JsonV::Null,
    }
}

/// A `null` value for a node: nothing when the node may be omitted, else a
/// missing field.
pub open spec fn absent(card: Card, key: Seq<char>) -> Result<Seq<char>, RenderErrV> {
    if is_omittable(card) {
        Ok(Seq::empty())
    } else {
        Err(RenderErrV::MissingField(key))
    }
}

/// The title a heading is written with: the schema literal as it stands, or
/// for a regex heading the escaped `title` member of its value (empty when
/// absent or `null`).
pub open spec fn title_spec(title: Match, v: JsonV, key: Seq<char>) -> Result<Seq<char>, RenderErrV> {
    match title {
        Match::Literal(s) => Ok(s@),
        Match::Regex(_) => match value_get(v, "title"@) {
            Some(JsonV::Str(s)) => Ok(esc_inline_spec(s)),
            None => Ok(Seq::empty()),
            Some(JsonV::Null) => Ok(Seq::empty()),
            Some(_) => Err(RenderErrV::WrongType(key + ".title"@, "string"@)),
        },
    }
}

/// The label a literal item label puts before each item's text.
pub open spec fn label_prefix(item: Option<Match>) -> Seq<char> {
    match item {
        Some(Match::Literal(l)) => l@ + " "@,
        _ => Seq::empty(),
    }
}

/// The `checked` member of an item value, when it is a boolean.
pub open spec fn checked_of(v: JsonV) -> Option<bool> {
    match value_get(v, "checked"@) {
        Some(JsonV::Bool(b)) => Some(b),
        _ => None,
    }
}

/// The text and checkbox state of one item value: a bare string, or an
/// object with an optional string `text` and an optional boolean `checked`.
pub open spec fn item_fields_spec(v: JsonV, key: Seq<char>) -> Result<(Seq<char>, Option<bool>), RenderErrV> {
    match v {
        JsonV::Str(s) => Ok((s, None)),
        JsonV::Object(_) => match value_get(v, "text"@) {
            Some(JsonV::Str(s)) => Ok((s, checked_of(v))),
            None => Ok((Seq::empty(), checked_of(v))),
            Some(_) => Err(RenderErrV::WrongType(key, "string"@)),
        },
        _ => Err(RenderErrV::WrongType(key, "string"@)),
    }
}

/// The item values of a list value: an array as it stands, or a lone string
/// as one item.
pub open spec fn as_items_spec(v: JsonV, key: Seq<char>) -> Result<Seq<JsonV>, RenderErrV> {
    match v {
        JsonV::Array(a) => Ok(a),
        JsonV::Str(_) => Ok(seq![v]),
        _ => Err(RenderErrV::WrongType(key, "array or string"@)),
    }
}

/// A paragraph node written from its value.
pub open spec fn rn_prose(card: Card, key: Seq<char>, v: JsonV) -> Result<Seq<char>, RenderErrV> {
    match v {
        JsonV::Null => absent(card, key),
        JsonV::Str(s) => Ok(esc_inline_spec(s) + "\n"@ + "\n"@),
        _ => Err(RenderErrV::WrongType(key, "string"@)),
    }
}

/// The first `k` nodes of a scope written from the scope's value; each
/// captured node reads the member under its alias, an uncaptured one writes
/// nothing. The first failure wins.
pub open spec fn rn_nodes(ns: Seq<Node>, k: int, scope: JsonV, indent: usize) -> Result<Seq<char>, RenderErrV>
    decreases ns, 0int, k,
{
    if k <= 0 || k > ns.len() {
        Ok(Seq::empty())
    } else {
        match rn_nodes(ns, k - 1, scope, indent) {
            Err(e) => Err(e),
            Ok(acc) => match ns[k - 1].alias() {
                None => Ok(acc),
                Some(key) => match rn_node(ns[k - 1], key, member(scope, key), indent) {
                    Ok(t) => Ok(acc + t),
                    Err(e) => Err(e),
                },
            },
        }
    }
}

/// One node written from its value.
pub open spec fn rn_node(n: Node, key: Seq<char>, v: JsonV, indent: usize) -> Result<Seq<char>, RenderErrV>
    decreases n, 0int, 0int,
{
    match n {
        Node::Heading { level, title, head, children } => rn_heading(level, title, head.card, children@, key, v),
        Node::List { style, item, head, children } => rn_list(style, item, head.card, children@, key, v, indent),
        Node::Prose { head, .. } => rn_prose(head.card, key, v),
    }
}

/// A heading node: one section per array element when repeated, else one.
pub open spec fn rn_heading(level: u8, title: Match, card: Card, cs: Seq<Node>, key: Seq<char>, v: JsonV) -> Result<Seq<char>, RenderErrV>
    decreases cs, 3int, 0int,
{
    if v is Null {
        absent(card, key)
    } else if is_repeated(card) {
        match v {
            JsonV::Array(arr) => rn_sections(level, title, cs, key, arr, arr.len() as int),
            _ => Err(RenderErrV::WrongType(key, "array"@)),
        }
    } else {
        rn_section(level, title, cs, key, v)
    }
}

/// One section: the heading line, the children written from the section's
/// value, and a blank line.
pub open spec fn rn_section(level: u8, title: Match, cs: Seq<Node>, key: Seq<char>, v: JsonV) -> Result<Seq<char>, RenderErrV>
    decreases cs, 1int, 0int,
{
    match title_spec(title, v, key) {
        Err(e) => Err(e),
        Ok(t) => match rn_nodes(cs, cs.len() as int, v, 0) {
            Err(e) => Err(e),
            Ok(body) => Ok(hashes(level) + " "@ + t + "\n"@ + body + "\n"@),
        },
    }
}

/// The sections of the first `m` elements of a repeated heading's array.
pub open spec fn rn_sections(level: u8, title: Match, cs: Seq<Node>, key: Seq<char>, arr: Seq<JsonV>, m: int) -> Result<Seq<char>, RenderErrV>
    decreases cs, 1int, m,
{
    if m <= 0 || m > arr.len() {
        Ok(Seq::empty())
    } else {
        match rn_sections(level, title, cs, key, arr, m - 1) {
            Err(e) => Err(e),
            Ok(acc) => match rn_section(level, title, cs, key, arr[m - 1]) {
                Ok(t) => Ok(acc + t),
                Err(e) => Err(e),
            },
        }
    }
}

/// A list node: nothing for `null` when the node may be omitted, else its
/// items (see [`rn_list_items`]); a top-level list ends with a blank line.
pub open spec fn rn_list(style: ListStyle, item: Option<Match>, card: Card, cs: Seq<Node>, key: Seq<char>, v: JsonV, indent: usize) -> Result<Seq<char>, RenderErrV>
    decreases cs, 3int, 0int,
{
    if v is Null {
        absent(card, key)
    } else {
        match rn_list_items(style, item, card, cs, key, v, indent) {
            Ok(t) => Ok(if indent == 0 { t + "\n"@ } else { t }),
            Err(e) => Err(e),
        }
    }
}

/// The items of a non-null list value: a lone item for a single-valued
/// childless non-checklist list, else one item per element (a lone string
/// being one element), each followed by its children indented under it.
pub open spec fn rn_list_items(style: ListStyle, item: Option<Match>, card: Card, cs: Seq<Node>, key: Seq<char>, v: JsonV, indent: usize) -> Result<Seq<char>, RenderErrV>
    decreases cs, 2int, 0int,
{
    let prefix = label_prefix(item);
    let scalar = (card == Card::Required || card == Card::Optional) && cs.len() == 0 && style != ListStyle::Checklist;
    if scalar {
        match v {
            JsonV::Str(s) => Ok(item_line(indent, style, None, prefix, esc_inline_spec(s))),
            _ => Err(RenderErrV::WrongType(key, "string"@)),
        }
    } else {
        match as_items_spec(v, key) {
            Err(e) => Err(e),
            Ok(arr) => rn_items(style, prefix, cs, key, arr, arr.len() as int, indent),
        }
    }
}

/// One item of a list: its line, then its children written from the item's
/// value and indented under its content.
pub open spec fn rn_item(style: ListStyle, prefix: Seq<char>, cs: Seq<Node>, key: Seq<char>, v: JsonV, indent: usize) -> Result<Seq<char>, RenderErrV>
    decreases cs, 1int, 0int,
{
    match item_fields_spec(v, key) {
        Err(e) => Err(e),
        Ok((text, checked)) => match rn_nodes(cs, cs.len() as int, v, sat_add(indent as int, content_offset(style) as int)) {
            Err(e) => Err(e),
            Ok(body) => Ok(item_line(indent, style, checked, prefix, esc_inline_spec(text)) + body),
        },
    }
}

/// The items of the first `m` elements of a list value.
pub open spec fn rn_items(style: ListStyle, prefix: Seq<char>, cs: Seq<Node>, key: Seq<char>, arr: Seq<JsonV>, m: int, indent: usize) -> Result<Seq<char>, RenderErrV>
    decreases cs, 1int, m,
{
    if m <= 0 || m > arr.len() {
        Ok(Seq::empty())
    } else {
        match rn_items(style, prefix, cs, key, arr, m - 1, indent) {
            Err(e) => Err(e),
            Ok(acc) => match rn_item(style, prefix, cs, key, arr[m - 1], indent) {
                Ok(t) => Ok(acc + t),
                Err(e) => Err(e),
            },
        }
    }
}

proof fn lemma_nodes_err(ns: Seq<Node>, j: int, k: int, scope: JsonV, indent: usize)
    requires
        0 <= j <= k <= ns.len(),
        rn_nodes(ns, j, scope, indent) is Err,
    ensures
        rn_nodes(ns, k, scope, indent) == rn_nodes(ns, j, scope, indent),
    decreases k - j,
{
    if k > j {
        lemma_nodes_err(ns, j, k - 1, scope, indent);
    }
}

proof fn lemma_sections_err(level: u8, title: Match, cs: Seq<Node>, key: Seq<char>, arr: Seq<JsonV>, j: int, k: int)
    requires
        0 <= j <= k <= arr.len(),
        rn_sections(level, title, cs, key, arr, j) is Err,
    ensures
        rn_sections(level, title, cs, key, arr, k) == rn_sections(level, title, cs, key, arr, j),
    decreases k - j,
{
    if k > j {
        lemma_sections_err(level, title, cs, key, arr, j, k - 1);
    }
}

proof fn lemma_items_err(style: ListStyle, prefix: Seq<char>, cs: Seq<Node>, key: Seq<char>, arr: Seq<JsonV>, j: int, k: int, indent: usize)
    requires
        0 <= j <= k <= arr.len(),
        rn_items(style, prefix, cs, key, arr, j, indent) is Err,
    ensures
        rn_items(style, prefix, cs, key, arr, k, indent) == rn_items(style, prefix, cs, key, arr, j, indent),
    decreases k - j,
{
    if k > j {
        lemma_items_err(style, prefix, cs, key, arr, j, k - 1, indent);
    }
}


/// Two renderings one after the other: both texts joined, or the first
/// error.
pub open spec fn joined(a: Result<Seq<char>, RenderErrV>, b: Result<Seq<char>, RenderErrV>) -> Result<Seq<char>, RenderErrV> {
    match a {
        Err(e) => Err(e),
        Ok(x) => match b {
            Err(e) => Err(e),
            Ok(y) => Ok(x + y),
        },
    }
}

proof fn lemma_sections_prefix(level: u8, title: Match, cs: Seq<Node>, key: Seq<char>, a: Seq<JsonV>, b: Seq<JsonV>, k: int)
    requires
        0 <= k <= a.len(),
    ensures
        rn_sections(level, title, cs, key, a + b, k) == rn_sections(level, title, cs, key, a, k),
    decreases k,
{
    if k > 0 {
        lemma_sections_prefix(level, title, cs, key, a, b, k - 1);
        assert((a + b)[k - 1] == a[k - 1]);
    }
}

proof fn lemma_sections_append(level: u8, title: Match, cs: Seq<Node>, key: Seq<char>, a: Seq<JsonV>, b: Seq<JsonV>, m: int)
    requires
        0 <= m <= b.len(),
    ensures
        rn_sections(level, title, cs, key, a + b, a.len() + m)
            == joined(rn_sections(level, title, cs, key, a, a.len() as int), rn_sections(level, title, cs, key, b, m)),
    decreases m,
{
    if m == 0 {
        lemma_sections_prefix(level, title, cs, key, a, b, a.len() as int);
        if let Ok(x) = rn_sections(level, title, cs, key, a, a.len() as int) {
            assert(x + Seq::<char>::empty() =~= x);
        }
    } else {
        lemma_sections_append(level, title, cs, key, a, b, m - 1);
        assert((a + b)[a.len() + m - 1] == b[m - 1]);
        if let Ok(x) = rn_sections(level, title, cs, key, a, a.len() as int) {
            if let Ok(y) = rn_sections(level, title, cs, key, b, m - 1) {
                if let Ok(t) = rn_section(level, title, cs, key, b[m - 1]) {
                    assert(x + y + t =~= x + (y + t));
                }
            }
        }
    }
}

/// A repeated heading writes one section per element, in order: the
/// rendering of the elements of `a` then `b` is the rendering of `a`'s
/// followed by that of `b`'s (or the first error).
pub proof fn law_repeated_heading_joins(level: u8, title: Match, card: Card, cs: Seq<Node>, key: Seq<char>, a: Seq<JsonV>, b: Seq<JsonV>)
    requires
        is_repeated(card),
    ensures
        rn_heading(level, title, card, cs, key, JsonV::Array(a + b))
            == joined(rn_heading(level, title, card, cs, key, JsonV::Array(a)), rn_heading(level, title, card, cs, key, JsonV::Array(b))),
{
    lemma_sections_append(level, title, cs, key, a, b, b.len() as int);
}

/// A repeated heading's array of one element is written as that element's
/// single section; with [`law_repeated_heading_joins`], section `k` of an
/// array is written from element `k`.
pub proof fn law_repeated_heading_one(level: u8, title: Match, card: Card, cs: Seq<Node>, key: Seq<char>, e: JsonV)
    requires
        is_repeated(card),
    ensures
        rn_heading(level, title, card, cs, key, JsonV::Array(seq![e])) == rn_section(level, title, cs, key, e),
{
    let arr = seq![e];
    assert(rn_sections(level, title, cs, key, arr, 0) == Ok::<Seq<char>, RenderErrV>(Seq::empty()));
    if let Ok(t) = rn_section(level, title, cs, key, e) {
        assert(Seq::<char>::empty() + t =~= t);
    }
}

proof fn lemma_items_prefix(style: ListStyle, prefix: Seq<char>, cs: Seq<Node>, key: Seq<char>, a: Seq<JsonV>, b: Seq<JsonV>, k: int, indent: usize)
    requires
        0 <= k <= a.len(),
    ensures
        rn_items(style, prefix, cs, key, a + b, k, indent) == rn_items(style, prefix, cs, key, a, k, indent),
    decreases k,
{
    if k > 0 {
        lemma_items_prefix(style, prefix, cs, key, a, b, k - 1, indent);
        assert((a + b)[k - 1] == a[k - 1]);
    }
}

proof fn lemma_items_append(style: ListStyle, prefix: Seq<char>, cs: Seq<Node>, key: Seq<char>, a: Seq<JsonV>, b: Seq<JsonV>, m: int, indent: usize)
    requires
        0 <= m <= b.len(),
    ensures
        rn_items(style, prefix, cs, key, a + b, a.len() + m, indent)
            == joined(rn_items(style, prefix, cs, key, a, a.len() as int, indent), rn_items(style, prefix, cs, key, b, m, indent)),
    decreases m,
{
    if m == 0 {
        lemma_items_prefix(style, prefix, cs, key, a, b, a.len() as int, indent);
        if let Ok(x) = rn_items(style, prefix, cs, key, a, a.len() as int, indent) {
            assert(x + Seq::<char>::empty() =~= x);
        }
    } else {
        lemma_items_append(style, prefix, cs, key, a, b, m - 1, indent);
        assert((a + b)[a.len() + m - 1] == b[m - 1]);
        if let Ok(x) = rn_items(style, prefix, cs, key, a, a.len() as int, indent) {
            if let Ok(y) = rn_items(style, prefix, cs, key, b, m - 1, indent) {
                if let Ok(t) = rn_item(style, prefix, cs, key, b[m - 1], indent) {
                    assert(x + y + t =~= x + (y + t));
                }
            }
        }
    }
}

/// A list writes one item per element, in order: the items of `a` then `b`
/// are those of `a` followed by those of `b` (or the first error), and a
/// single element is written as its one item.
pub proof fn law_list_items_join(style: ListStyle, prefix: Seq<char>, cs: Seq<Node>, key: Seq<char>, a: Seq<JsonV>, b: Seq<JsonV>, e: JsonV, indent: usize)
    ensures
        rn_items(style, prefix, cs, key, a + b, (a + b).len() as int, indent)
            == joined(rn_items(style, prefix, cs, key, a, a.len() as int, indent), rn_items(style, prefix, cs, key, b, b.len() as int, indent)),
        rn_items(style, prefix, cs, key, seq![e], 1, indent) == rn_item(style, prefix, cs, key, e, indent),
{
    lemma_items_append(style, prefix, cs, key, a, b, b.len() as int, indent);
    let one = seq![e];
    assert(rn_items(style, prefix, cs, key, one, 0, indent) == Ok::<Seq<char>, RenderErrV>(Seq::empty()));
    if let Ok(t) = rn_item(style, prefix, cs, key, e, indent) {
        assert(Seq::<char>::empty() + t =~= t);
    }
}

fn missing(key: &String) -> (e: RenderError)
    ensures
        render_err_is(e, RenderErrV::MissingField(key@)),
{
    RenderError::MissingField(key.clone())
}

fn wrong(key: &String, expected: &'static str) -> (e: RenderError)
    ensures
        render_err_is(e, RenderErrV::WrongType(key@, expected@)),
{
    RenderError::WrongType { field: key.clone(), expected }
}

/// The title a heading is written with (see [`title_spec`]).
fn heading_title(title: &Match, value: &Json, key: &String) -> (r: Result<String, RenderError>)
    ensures
        forall|v: JsonV| #[trigger] json_is(*value, v) ==> match title_spec(*title, v, key@) {
            Ok(t) => r matches Ok(s) && s@ == t,
            Err(e) => r matches Err(x) && render_err_is(x, e),
        },
{
    match title {
        Match::Literal(s) => Ok(s.clone()),
        Match::Regex(_) => match value.get("title") {
            Some(j) => match j {
                Json::Str(s) => Ok(esc_inline(s.as_str())),
                Json::Null => Ok(String::new()),
                _ => {
                    let mut f = key.clone();
                    push_str(&mut f, ".title");
                    Err(RenderError::WrongType { field: f, expected: "string" })
                },
            },
            None => Ok(String::new()),
        },
    }
}

/// The text and checkbox state of an item value (see [`item_fields_spec`]).
fn item_fields(item: &Json, key: &String) -> (r: Result<(String, Option<bool>), RenderError>)
    ensures
        forall|v: JsonV| #[trigger] json_is(*item, v) ==> match item_fields_spec(v, key@) {
            Ok((t, c)) => r matches Ok((s, d)) && s@ == t && d == c,
            Err(e) => r matches Err(x) && render_err_is(x, e),
        },
{
    match item {
        Json::Str(s) => Ok((s.clone(), None)),
        Json::Object(_) => {
            let text = match item.get("text") {
                Some(j) => match j {
                    Json::Str(s) => s.clone(),
                    _ => return Err(wrong(key, "string")),
                },
                None => String::new(),
            };
            let checked = match item.get("checked") {
                Some(j) => match j {
                    Json::Bool(b) => Some(*b),
                    _ => None,
                },
                None => None,
            };
            Ok((text, checked))
        },
        _ => Err(wrong(key, "string")),
    }
}

/// Writes the first `k` nodes of a scope (see [`rn_nodes`]).
fn render_nodes(nodes: &Vec<Node>, scope: &Json, out: &mut String, indent: usize) -> (r: Result<(), RenderError>)
    ensures
        forall|sv: JsonV| #[trigger] json_is(*scope, sv) ==> match rn_nodes(nodes@, nodes@.len() as int, sv, indent) {
            Ok(t) => r is Ok && final(out)@ == old(out)@ + t,
            Err(e) => r matches Err(x) && render_err_is(x, e),
        },
    decreases nodes, 0int,
{
    let ghost start = out@;
    let mut i: usize = 0;
    while i < nodes.len()
        invariant
            i <= nodes@.len(),
            out@ == start || i > 0,
            forall|sv: JsonV| #[trigger] json_is(*scope, sv) ==>
                (rn_nodes(nodes@, i as int, sv, indent) matches Ok(acc) && out@ == start + acc),
        decreases nodes@.len() - i,
    {
        let node = &nodes[i];
        let ghost before = out@;
        match node.capture_alias() {
            None => {
                assert forall|sv: JsonV| #[trigger] json_is(*scope, sv) implies
                    (rn_nodes(nodes@, i + 1, sv, indent) matches Ok(acc) && out@ == start + acc) by {}
            },
            Some(key) => {
                let null = Json::Null;
                let value: &Json = match scope.get(key.as_str()) {
                    Some(j) => j,
                    None => &null,
                };
                assert forall|sv: JsonV| #[trigger] json_is(*scope, sv) implies json_is(*value, member(sv, key@)) by {}
                match render_node(node, &key, value, out, indent) {
                    Ok(()) => {
                        assert forall|sv: JsonV| #[trigger] json_is(*scope, sv) implies
                            (rn_nodes(nodes@, i + 1, sv, indent) matches Ok(acc) && out@ == start + acc) by {
                            assert(json_is(*value, member(sv, key@)));
                            let acc0 = rn_nodes(nodes@, i as int, sv, indent)->Ok_0;
                            let t = rn_node(nodes@[i as int], key@, member(sv, key@), indent)->Ok_0;
                            assert(out@ =~= start + (acc0 + t));
                        }
                    },
                    Err(e) => {
                        assert forall|sv: JsonV| #[trigger] json_is(*scope, sv) implies
                            (rn_nodes(nodes@, nodes@.len() as int, sv, indent) matches Err(x) && render_err_is(e, x)) by {
                            assert(json_is(*value, member(sv, key@)));
                            lemma_nodes_err(nodes@, i + 1, nodes@.len() as int, sv, indent);
                        }
                        return Err(e);
                    },
                }
            },
        }
        i = i + 1;
    }
    Ok(())
}

/// Writes one node (see [`rn_node`]).
fn render_node(node: &Node, key: &String, value: &Json, out: &mut String, indent: usize) -> (r: Result<(), RenderError>)
    ensures
        forall|v: JsonV| #[trigger] json_is(*value, v) ==> match rn_node(*node, key@, v, indent) {
            Ok(t) => r is Ok && final(out)@ == old(out)@ + t,
            Err(e) => r matches Err(x) && render_err_is(x, e),
        },
    decreases node, 0int,
{
    match node {
        Node::Heading { level, title, head, children } => render_heading(*level, title, head.card, children, key, value, out),
        Node::List { style, item, head, children } => render_list(*style, item, head.card, children, key, value, out, indent),
        Node::Prose { head, .. } => render_prose(head.card, key, value, out),
    }
}

/// Writes a paragraph node (see [`rn_prose`]).
fn render_prose(card: Card, key: &String, value: &Json, out: &mut String) -> (r: Result<(), RenderError>)
    ensures
        forall|v: JsonV| #[trigger] json_is(*value, v) ==> match rn_prose(card, key@, v) {
            Ok(t) => r is Ok && final(out)@ == old(out)@ + t,
            Err(e) => r matches Err(x) && render_err_is(x, e),
        },
{
    match value {
        Json::Null => {
            if omitted(card) {
                assert(out@ =~= old(out)@ + Seq::<char>::empty());
                Ok(())
            } else {
                Err(missing(key))
            }
        },
        Json::Str(s) => {
            let t = esc_inline(s.as_str());
            push_str(out, t.as_str());
            push_str(out, "\n");
            push_str(out, "\n");
            assert forall|v: JsonV| #[trigger] json_is(*value, v) implies out@ =~= old(out)@ + rn_prose(card, key@, v)->Ok_0 by {}
            Ok(())
        },
        _ => Err(wrong(key, "string")),
    }
}

/// Writes a heading node (see [`rn_heading`]).
fn render_heading(level: u8, title: &Match, card: Card, children: &Vec<Node>, key: &String, value: &Json, out: &mut String) -> (r: Result<(), RenderError>)
    ensures
        forall|v: JsonV| #[trigger] json_is(*value, v) ==> match rn_heading(level, *title, card, children@, key@, v) {
            Ok(t) => r is Ok && final(out)@ == old(out)@ + t,
            Err(e) => r matches Err(x) && render_err_is(x, e),
        },
    decreases children, 2int,
{
    if let Json::Null = value {
        if omitted(card) {
            assert(out@ =~= old(out)@ + Seq::<char>::empty());
            return Ok(());
        } else {
            return Err(missing(key));
        }
    }
    if repeated(card) {
        match value {
            Json::Array(arr) => {
                let ghost start = out@;
                let mut i: usize = 0;
                while i < arr.len()
                    invariant
                        i <= arr@.len(),
                        is_repeated(card),
                        *value == Json::Array(*arr),
                        forall|v: JsonV| #[trigger] json_is(*value, v) ==> (v matches JsonV::Array(av)
                            && rn_sections(level, *title, children@, key@, av, i as int) matches Ok(acc) && out@ == start + acc),
                    decreases arr@.len() - i,
                {
                    match render_section(level, title, children, key, &arr[i], out) {
                        Ok(()) => {
                            assert forall|v: JsonV| #[trigger] json_is(*value, v) implies (v matches JsonV::Array(av)
                                && rn_sections(level, *title, children@, key@, av, i + 1) matches Ok(acc) && out@ == start + acc) by {
                                if let JsonV::Array(av) = v {
                                    assert(json_is(arr@[i as int], av[i as int]));
                                    let acc0 = rn_sections(level, *title, children@, key@, av, i as int)->Ok_0;
                                    let t = rn_section(level, *title, children@, key@, av[i as int])->Ok_0;
                                    assert(out@ =~= start + (acc0 + t));
                                }
                            }
                        },
                        Err(e) => {
                            assert forall|v: JsonV| #[trigger] json_is(*value, v) implies match rn_heading(level, *title, card, children@, key@, v) {
                                Ok(t) => false,
                                Err(x) => render_err_is(e, x),
                            } by {
                                if let JsonV::Array(av) = v {
                                    assert(json_is(arr@[i as int], av[i as int]));
                                    lemma_sections_err(level, *title, children@, key@, av, i + 1, av.len() as int);
                                }
                            }
                            return Err(e);
                        },
                    }
                    i = i + 1;
                }
                Ok(())
            },
            _ => Err(wrong(key, "array")),
        }
    } else {
        render_section(level, title, children, key, value, out)
    }
}

/// Writes one section (see [`rn_section`]).
fn render_section(level: u8, title: &Match, children: &Vec<Node>, key: &String, value: &Json, out: &mut String) -> (r: Result<(), RenderError>)
    ensures
        forall|v: JsonV| #[trigger] json_is(*value, v) ==> match rn_section(level, *title, children@, key@, v) {
            Ok(t) => r is Ok && final(out)@ == old(out)@ + t,
            Err(e) => r matches Err(x) && render_err_is(x, e),
        },
    decreases children, 1int,
{
    let t = match heading_title(title, value, key) {
        Ok(t) => t,
        Err(e) => return Err(e),
    };
    let ghost start = out@;
    push_run(out, '#', level as usize);
    push_str(out, " ");
    push_str(out, t.as_str());
    push_str(out, "\n");
    let ghost mid = out@;
    match render_nodes(children, value, out, 0) {
        Ok(()) => {},
        Err(e) => return Err(e),
    }
    let ghost after = out@;
    push_str(out, "\n");
    assert forall|v: JsonV| #[trigger] json_is(*value, v) implies
        out@ == start + rn_section(level, *title, children@, key@, v)->Ok_0 by {
        let body = rn_nodes(children@, children@.len() as int, v, 0)->Ok_0;
        assert(after == mid + body);
        assert(out@ =~= start + (hashes(level) + " "@ + t@ + "\n"@ + body + "\n"@));
    }
    Ok(())
}

/// Writes a list node (see [`rn_list`]).
fn render_list(style: ListStyle, item: &Option<Match>, card: Card, children: &Vec<Node>, key: &String, value: &Json, out: &mut String, indent: usize) -> (r: Result<(), RenderError>)
    ensures
        forall|v: JsonV| #[trigger] json_is(*value, v) ==> match rn_list(style, *item, card, children@, key@, v, indent) {
            Ok(t) => r is Ok && final(out)@ == old(out)@ + t,
            Err(e) => r matches Err(x) && render_err_is(x, e),
        },
    decreases children, 3int,
{
    if let Json::Null = value {
        if omitted(card) {
            assert(out@ =~= old(out)@ + Seq::<char>::empty());
            return Ok(());
        } else {
            return Err(missing(key));
        }
    }
    let ghost start = out@;
    match render_list_items(style, item, card, children, key, value, out, indent) {
        Ok(()) => {},
        Err(e) => return Err(e),
    }
    let ghost mid = out@;
    if indent == 0 {
        push_str(out, "\n");
    }
    assert forall|v: JsonV| #[trigger] json_is(*value, v) implies
        out@ =~= start + rn_list(style, *item, card, children@, key@, v, indent)->Ok_0 by {}
    Ok(())
}

/// Writes the items of a non-null list value (see [`rn_list_items`]).
fn render_list_items(style: ListStyle, item: &Option<Match>, card: Card, children: &Vec<Node>, key: &String, value: &Json, out: &mut String, indent: usize) -> (r: Result<(), RenderError>)
    ensures
        forall|v: JsonV| #[trigger] json_is(*value, v) ==> match rn_list_items(style, *item, card, children@, key@, v, indent) {
            Ok(t) => r is Ok && final(out)@ == old(out)@ + t,
            Err(e) => r matches Err(x) && render_err_is(x, e),
        },
    decreases children, 2int,
{
    let prefix = match item {
        Some(m) => match m {
            Match::Literal(l) => {
                let mut p = l.clone();
                push_str(&mut p, " ");
                p
            },
            Match::Regex(_) => String::new(),
        },
        None => String::new(),
    };
    assert(prefix@ == label_prefix(*item));
    let single = match card {
        Card::Required | Card::Optional => true,
        _ => false,
    };
    let checklist = match style {
        ListStyle::Checklist => true,
        _ => false,
    };
    let scalar = single && children.len() == 0 && !checklist;
    let ghost start = out@;
    if scalar {
        match value {
            Json::Str(s) => {
                let t = esc_inline(s.as_str());
                emit_item(out, indent, style, None, prefix.as_str(), t.as_str());
                Ok(())
            },
            _ => Err(wrong(key, "string")),
        }
    } else {
        match value {
            Json::Array(arr) => {
                let mut i: usize = 0;
                while i < arr.len()
                    invariant
                        i <= arr@.len(),
                        prefix@ == label_prefix(*item),
                        !scalar,
                        scalar == ((card == Card::Required || card == Card::Optional) && children@.len() == 0 && style != ListStyle::Checklist),
                        *value == Json::Array(*arr),
                        forall|v: JsonV| #[trigger] json_is(*value, v) ==> (v matches JsonV::Array(av)
                            && rn_items(style, prefix@, children@, key@, av, i as int, indent) matches Ok(acc) && out@ == start + acc),
                    decreases arr@.len() - i,
                {
                    match render_item(style, prefix.as_str(), children, key, &arr[i], out, indent) {
                        Ok(()) => {
                            assert forall|v: JsonV| #[trigger] json_is(*value, v) implies (v matches JsonV::Array(av)
                                && rn_items(style, prefix@, children@, key@, av, i + 1, indent) matches Ok(acc) && out@ == start + acc) by {
                                if let JsonV::Array(av) = v {
                                    assert(json_is(arr@[i as int], av[i as int]));
                                    let acc0 = rn_items(style, prefix@, children@, key@, av, i as int, indent)->Ok_0;
                                    let t = rn_item(style, prefix@, children@, key@, av[i as int], indent)->Ok_0;
                                    assert(out@ =~= start + (acc0 + t));
                                }
                            }
                        },
                        Err(e) => {
                            assert forall|v: JsonV| #[trigger] json_is(*value, v) implies match rn_list_items(style, *item, card, children@, key@, v, indent) {
                                Ok(t) => false,
                                Err(x) => render_err_is(e, x),
                            } by {
                                if let JsonV::Array(av) = v {
                                    assert(json_is(arr@[i as int], av[i as int]));
                                    lemma_items_err(style, prefix@, children@, key@, av, i + 1, av.len() as int, indent);
                                }
                            }
                            return Err(e);
                        },
                    }
                    i = i + 1;
                }
                Ok(())
            },
            Json::Str(_) => {
                match render_item(style, prefix.as_str(), children, key, value, out, indent) {
                    Ok(()) => {
                        assert forall|v: JsonV| #[trigger] json_is(*value, v) implies
                            out@ == start + rn_list_items(style, *item, card, children@, key@, v, indent)->Ok_0 by {
                            assert(seq![v][0] == v);
                            assert(seq![v].len() == 1);
                            let t = rn_item(style, prefix@, children@, key@, v, indent)->Ok_0;
                            assert(rn_items(style, prefix@, children@, key@, seq![v], 0, indent) == Ok::<Seq<char>, RenderErrV>(Seq::empty()));
                            assert(out@ =~= start + (Seq::<char>::empty() + t));
                        }
                        Ok(())
                    },
                    Err(e) => {
                        assert forall|v: JsonV| #[trigger] json_is(*value, v) implies match rn_list_items(style, *item, card, children@, key@, v, indent) {
                            Ok(t) => false,
                            Err(x) => render_err_is(e, x),
                        } by {
                            assert(seq![v][0] == v);
                            assert(seq![v].len() == 1);
                        }
                        Err(e)
                    },
                }
            },
            _ => Err(wrong(key, "array or string")),
        }
    }
}

/// Writes one item and its children (see [`rn_item`]).
fn render_item(style: ListStyle, prefix: &str, children: &Vec<Node>, key: &String, value: &Json, out: &mut String, indent: usize) -> (r: Result<(), RenderError>)
    ensures
        forall|v: JsonV| #[trigger] json_is(*value, v) ==> match rn_item(style, prefix@, children@, key@, v, indent) {
            Ok(t) => r is Ok && final(out)@ == old(out)@ + t,
            Err(e) => r matches Err(x) && render_err_is(x, e),
        },
    decreases children, 1int,
{
    let (text, checked) = match item_fields(value, key) {
        Ok(f) => f,
        Err(e) => return Err(e),
    };
    let t = esc_inline(text.as_str());
    let ghost start = out@;
    emit_item(out, indent, style, checked, prefix, t.as_str());
    let ghost mid = out@;
    let ci = indent.saturating_add(list_content_offset(style));
    match render_nodes(children, value, out, ci) {
        Ok(()) => {},
        Err(e) => return Err(e),
    }
    assert forall|v: JsonV| #[trigger] json_is(*value, v) implies
        out@ =~= start + rn_item(style, prefix@, children@, key@, v, indent)->Ok_0 by {}
    Ok(())
}

// ---- the two entry points --------------------------------------------------------------

/// The document rendered from `data`: the frontmatter block, then the body
/// nodes written from the top-level object, with block separation
/// normalized. The first failure wins.
pub open spec fn render_spec(s: Schema, data: JsonV) -> Result<Seq<char>, RenderErrV> {
    match fm_render_spec(fields_v(s.frontmatter@), data) {
        Err(e) => Err(e),
        Ok(fm) => match rn_nodes(s.body@, s.body@.len() as int, data, 0) {
            Err(e) => Err(e),
            Ok(body) => Ok(normalize_spec(fm + body)),
        },
    }
}

/// The frontmatter lines of a scaffold: each required key with a
/// placeholder of its type.
pub open spec fn fm_placeholders(fields: Seq<FieldSpecV>) -> Seq<char>
    decreases fields.len(),
{
    if fields.len() == 0 {
        Seq::empty()
    } else {
        let f = fields.last();
        fm_placeholders(fields.drop_last()) + if f.optional {
            Seq::empty()
        } else {
            f.key + ": "@ + placeholder_spec(f.ty) + "\n"@
        }
    }
}

/// The frontmatter block of a scaffold, or nothing when no field is
/// declared.
pub open spec fn fm_scaffold(fields: Seq<FieldSpecV>) -> Seq<char> {
    if fields.len() == 0 {
        Seq::empty()
    } else {
        "---\n"@ + fm_placeholders(fields) + "---\n\n"@
    }
}

/// The text of a label for scaffolding: a literal's own text; a regex
/// contributes none.
pub open spec fn literal_of(m: Match) -> Seq<char> {
    match m {
        Match::Literal(s) => s@,
        Match::Regex(_) => Seq::empty(),
    }
}

fn literal_text(m: &Match) -> (r: String)
    ensures
        r@ == literal_of(*m),
{
    match m {
        Match::Literal(s) => s.clone(),
        Match::Regex(_) => String::new(),
    }
}

/// `s` written `n` times.
pub open spec fn repeat_seq(s: Seq<char>, n: nat) -> Seq<char>
    decreases n,
{
    if n == 0 {
        Seq::empty()
    } else {
        repeat_seq(s, (n - 1) as nat) + s
    }
}

/// How many placeholder items a required list gets: its minimum count, and
/// at least one.
pub open spec fn scaffold_count_spec(card: Card) -> nat {
    match card {
        Card::Range(m, _) => if m >= 1 { m as nat } else { 1 },
        _ => 1,
    }
}

/// A scaffolded list gets the fewest items its cardinality allows, and at
/// least one: no smaller positive count is allowed, and whenever some
/// positive count is allowed, so is this one.
pub proof fn law_scaffold_count_least(card: Card, n: nat)
    ensures
        scaffold_count_spec(card) >= 1,
        1 <= n < scaffold_count_spec(card) ==> !crate::schema::card_allows(card, n),
        n >= 1 && crate::schema::card_allows(card, n) ==> crate::schema::card_allows(card, scaffold_count_spec(card)),
{
}

/// The number of placeholder items to emit for a required list (see
/// [`scaffold_count_spec`]).
pub fn scaffold_count(card: Card) -> (r: usize)
    ensures
        r == scaffold_count_spec(card),
{
    match card {
        Card::Range(m, _) => if m >= 1 { m as usize } else { 1 },
        _ => 1,
    }
}

/// Whether some node of a scope is required (and so is scaffolded).
pub open spec fn emits_any(cs: Seq<Node>) -> bool {
    exists|i: int| 0 <= i < cs.len() && !is_omittable((#[trigger] cs[i]).head_of().card)
}

/// The scaffold of the first `k` nodes of a scope: optional nodes are left
/// out. `force` asks for non-empty item text in this scope (under a
/// non-empty item, an empty item would not nest).
pub open spec fn sc_nodes(ns: Seq<Node>, k: int, indent: usize, force: bool) -> Seq<char>
    decreases ns, 0int, k,
{
    if k <= 0 || k > ns.len() {
        Seq::empty()
    } else {
        sc_nodes(ns, k - 1, indent, force) + sc_node(ns[k - 1], indent, force)
    }
}

/// The scaffold of one node: a heading with its literal title and its
/// children; a list's placeholder items; a paragraph's literal (or `TODO`).
pub open spec fn sc_node(n: Node, indent: usize, force: bool) -> Seq<char>
    decreases n, 0int, 0int,
{
    if is_omittable(n.head_of().card) {
        Seq::empty()
    } else {
        match n {
            Node::Heading { level, title, children, .. } => hashes(level) + " "@ + literal_of(title) + "\n"@
                + sc_nodes(children@, children@.len() as int, 0, false) + "\n"@,
            Node::List { style, item, head, children } => sc_list(style, item, head.card, children@, indent, force),
            Node::Prose { text, .. } => {
                let lbl = match text {
                    Some(m) => literal_of(m),
                    None => Seq::empty(),
                };
                (if lbl.len() == 0 { "TODO"@ } else { lbl }) + "\n"@ + "\n"@
            },
        }
    }
}

/// One placeholder item of a list and its scaffolded children.
pub open spec fn sc_item(style: ListStyle, item: Option<Match>, cs: Seq<Node>, indent: usize, force: bool) -> Seq<char>
    decreases cs, 1int, 0int,
{
    let label = match item {
        Some(m) => literal_of(m),
        None => Seq::empty(),
    };
    let prefix = if label.len() == 0 { Seq::empty() } else { label + " "@ };
    let nonempty = emits_any(cs) || force;
    let text: Seq<char> = if nonempty { "..."@ } else { Seq::empty() };
    item_line(indent, style, Some(false), prefix, text) + sc_nodes(cs, cs.len() as int, sat_add(indent as int, content_offset(style) as int), nonempty)
}

/// A required list's placeholder items; a top-level list ends with a blank
/// line.
pub open spec fn sc_list(style: ListStyle, item: Option<Match>, card: Card, cs: Seq<Node>, indent: usize, force: bool) -> Seq<char>
    decreases cs, 2int, 0int,
{
    repeat_seq(sc_item(style, item, cs, indent, force), scaffold_count_spec(card)) + if indent == 0 { "\n"@ } else { Seq::empty() }
}

/// The starter document of a schema.
pub open spec fn scaffold_spec(s: Schema) -> Seq<char> {
    normalize_spec(fm_scaffold(fields_v(s.frontmatter@)) + sc_nodes(s.body@, s.body@.len() as int, 0, false))
}

/// A rendered document and a scaffold are normalized: when not empty, each
/// ends with exactly one newline, and its lines are shaped as
/// [`law_normalize_shape`] states.
pub proof fn law_outputs_end_with_one_newline(s: Schema, data: JsonV)
    ensures
        render_spec(s, data) matches Ok(t) ==> (t.len() > 0 ==> t.len() >= 2 && t.last() == '\n' && t[t.len() - 2] != '\n'),
        scaffold_spec(s).len() > 0 ==> scaffold_spec(s).len() >= 2 && scaffold_spec(s).last() == '\n'
            && scaffold_spec(s)[scaffold_spec(s).len() - 2] != '\n',
{
    if let Ok(fm) = fm_render_spec(fields_v(s.frontmatter@), data) {
        if let Ok(body) = rn_nodes(s.body@, s.body@.len() as int, data, 0) {
            law_normalize_shape(fm + body);
        }
    }
    law_normalize_shape(fm_scaffold(fields_v(s.frontmatter@)) + sc_nodes(s.body@, s.body@.len() as int, 0, false));
}

fn scaffold_nodes(nodes: &Vec<Node>, out: &mut String, indent: usize, force_text: bool)
    ensures
        final(out)@ == old(out)@ + sc_nodes(nodes@, nodes@.len() as int, indent, force_text),
    decreases nodes, 0int,
{
    let mut i: usize = 0;
    while i < nodes.len()
        invariant
            i <= nodes@.len(),
            out@ == old(out)@ + sc_nodes(nodes@, i as int, indent, force_text),
        decreases nodes@.len() - i,
    {
        let ghost before = out@;
        scaffold_node(&nodes[i], out, indent, force_text);
        i = i + 1;
        assert(out@ =~= old(out)@ + sc_nodes(nodes@, i as int, indent, force_text));
    }
}

fn scaffold_node(node: &Node, out: &mut String, indent: usize, force_text: bool)
    ensures
        final(out)@ == old(out)@ + sc_node(*node, indent, force_text),
    decreases node, 0int,
{
    if omitted(node.card()) {
        assert(out@ =~= old(out)@ + Seq::<char>::empty());
        return;
    }
    match node {
        Node::Heading { level, title, children, .. } => {
            push_run(out, '#', *level as usize);
            push_str(out, " ");
            let t = literal_text(title);
            push_str(out, t.as_str());
            push_str(out, "\n");
            let ghost mid = out@;
            scaffold_nodes(children, out, 0, false);
            push_str(out, "\n");
            assert(out@ =~= old(out)@ + sc_node(*node, indent, force_text));
        },
        Node::List { style, item, head, children } => {
            scaffold_list(*style, item, head.card, children, out, indent, force_text);
        },
        Node::Prose { text, .. } => {
            let lbl = match text {
                Some(m) => literal_text(m),
                None => String::new(),
            };
            if lbl.as_str().is_empty() {
                push_str(out, "TODO");
            } else {
                push_str(out, lbl.as_str());
            }
            push_str(out, "\n");
            push_str(out, "\n");
            assert(out@ =~= old(out)@ + sc_node(*node, indent, force_text));
        },
    }
}

fn scaffold_list(style: ListStyle, item: &Option<Match>, card: Card, children: &Vec<Node>, out: &mut String, indent: usize, force_text: bool)
    ensures
        final(out)@ == old(out)@ + sc_list(style, *item, card, children@, indent, force_text),
    decreases children, 2int,
{
    let label = match item {
        Some(m) => literal_text(m),
        None => String::new(),
    };
    let prefix = if label.as_str().is_empty() {
        String::new()
    } else {
        let mut p = label.clone();
        push_str(&mut p, " ");
        p
    };
    let mut emits_children = false;
    let mut j: usize = 0;
    while j < children.len()
        invariant
            j <= children@.len(),
            emits_children == exists|k: int| 0 <= k < j && !is_omittable((#[trigger] children@[k]).head_of().card),
        decreases children@.len() - j,
    {
        if !omitted(children[j].card()) {
            emits_children = true;
        }
        j = j + 1;
    }
    let nonempty = emits_children || force_text;
    let ghost one = sc_item(style, *item, children@, indent, force_text);
    let count = scaffold_count(card);
    let ci = indent.saturating_add(list_content_offset(style));
    let mut c: usize = 0;
    while c < count
        invariant
            c <= count,
            count == scaffold_count_spec(card),
            nonempty == (emits_any(children@) || force_text),
            prefix@ == (if literal_of_opt(*item).len() == 0 { Seq::<char>::empty() } else { literal_of_opt(*item) + " "@ }),
            ci == sat_add(indent as int, content_offset(style) as int),
            one == sc_item(style, *item, children@, indent, force_text),
            out@ == old(out)@ + repeat_seq(one, c as nat),
        decreases count - c,
    {
        let ghost before = out@;
        if nonempty {
            emit_item(out, indent, style, Some(false), prefix.as_str(), "...");
        } else {
            emit_item(out, indent, style, Some(false), prefix.as_str(), "");
        }
        scaffold_nodes(children, out, ci, nonempty);
        c = c + 1;
        proof {
            let text: Seq<char> = if nonempty { "..."@ } else { ""@ };
            assert(""@ =~= Seq::<char>::empty()) by { reveal_strlit(""); }
            assert(out@ =~= before + one);
        }
    }
    if indent == 0 {
        push_str(out, "\n");
    }
    assert(out@ =~= old(out)@ + sc_list(style, *item, card, children@, indent, force_text));
}

/// The text of an optional label (see [`literal_of`]).
pub open spec fn literal_of_opt(item: Option<Match>) -> Seq<char> {
    match item {
        Some(m) => literal_of(m),
        None => Seq::empty(),
    }
}

impl Schema {
    /// A conforming starter document: the required frontmatter keys with
    /// typed placeholders, the headings, and placeholder items for required
    /// lists; optional nodes are left out (see [`scaffold_spec`]). A node
    /// labelled by a regex may need editing by hand, since no placeholder
    /// can satisfy an arbitrary pattern.
    pub fn scaffold(&self) -> (r: String)
        ensures
            r@ == scaffold_spec(*self),
    {
        let mut out = String::new();
        if self.frontmatter.len() > 0 {
            push_str(&mut out, "---\n");
            let ghost fv = fields_v(self.frontmatter@);
            let mut i: usize = 0;
            while i < self.frontmatter.len()
                invariant
                    i <= self.frontmatter@.len(),
                    fv == fields_v(self.frontmatter@),
                    out@ == "---\n"@ + fm_placeholders(fv.take(i as int)),
                decreases self.frontmatter@.len() - i,
            {
                let f = &self.frontmatter[i];
                assert(fv.take(i + 1).drop_last() =~= fv.take(i as int));
                assert(fv.take(i + 1).last() == field_v(*f));
                let ghost before = out@;
                if !f.optional {
                    push_str(&mut out, f.key.as_str());
                    push_str(&mut out, ": ");
                    let p = placeholder(&f.ty);
                    push_str(&mut out, p.as_str());
                    push_str(&mut out, "\n");
                }
                i = i + 1;
                assert(out@ =~= "---\n"@ + fm_placeholders(fv.take(i as int)));
            }
            assert(fv.take(i as int) =~= fv);
            push_str(&mut out, "---\n\n");
        }
        let ghost head = out@;
        assert(head == fm_scaffold(fields_v(self.frontmatter@)));
        scaffold_nodes(&self.body, &mut out, 0, false);
        normalize_blocks(&mut out);
        out
    }

    /// Renders a conforming document from `data`, the inverse of `extract`:
    /// `data` is an object keyed by the capture aliases the schema declares
    /// (see [`render_spec`]). Fails with a missing field when a required
    /// value is absent or `null`, with a wrong type when a value has a type
    /// its node cannot be written from, or with an invalid frontmatter value.
    pub fn render(&self, data: &Json) -> (r: Result<String, RenderError>)
        ensures
            forall|dv: JsonV| #[trigger] json_is(*data, dv) ==> match render_spec(*self, dv) {
                Ok(t) => r matches Ok(s) && s@ == t,
                Err(e) => r matches Err(x) && render_err_is(x, e),
            },
    {
        let mut out = match render_frontmatter(&self.frontmatter, data) {
            Ok(s) => s,
            Err(e) => return Err(e),
        };
        let ghost fm = out@;
        match render_nodes(&self.body, data, &mut out, 0) {
            Ok(()) => {},
            Err(e) => return Err(e),
        }
        let ghost joined = out@;
        normalize_blocks(&mut out);
        Ok(out)
    }
}

// ---- the frontmatter of a rendered document --------------------------------------------

/// Normalization from an already normalized prefix `acc`, over more lines.
pub open spec fn norm_from(acc: Seq<Seq<char>>, q: Seq<Seq<char>>) -> Seq<Seq<char>>
    decreases q.len(),
{
    if q.len() == 0 {
        acc
    } else {
        norm_push(norm_from(acc, q.drop_last()), q.last())
    }
}

proof fn lemma_norm_concat(p: Seq<Seq<char>>, q: Seq<Seq<char>>)
    ensures
        norm_fold(p + q) == norm_from(norm_fold(p), q),
    decreases q.len(),
{
    if q.len() == 0 {
        assert(p + q =~= p);
    } else {
        lemma_norm_concat(p, q.drop_last());
        assert((p + q).drop_last() =~= p + q.drop_last());
        assert((p + q).last() == q.last());
    }
}

proof fn lemma_norm_from_prefix(acc: Seq<Seq<char>>, q: Seq<Seq<char>>)
    ensures
        norm_from(acc, q).len() >= acc.len(),
        norm_from(acc, q).take(acc.len() as int) == acc,
    decreases q.len(),
{
    if q.len() > 0 {
        lemma_norm_from_prefix(acc, q.drop_last());
        let r = norm_from(acc, q.drop_last());
        let r2 = norm_push(r, q.last());
        assert(r2.take(r.len() as int) =~= r);
        assert(r2.take(acc.len() as int) =~= r.take(acc.len() as int));
    }
}

proof fn lemma_norm_fold_plain(x: Seq<Seq<char>>)
    requires
        forall|i: int| 0 <= i < x.len() ==> !is_blank(#[trigger] x[i]) && !is_heading_line_spec(x[i]),
    ensures
        norm_fold(x) == x,
    decreases x.len(),
{
    if x.len() > 0 {
        let d = x.drop_last();
        assert forall|i: int| 0 <= i < d.len() implies !is_blank(#[trigger] d[i]) && !is_heading_line_spec(d[i]) by {
            assert(d[i] == x[i]);
        }
        lemma_norm_fold_plain(d);
        assert(!is_blank(x[x.len() - 1]) && !is_heading_line_spec(x[x.len() - 1]));
        if d.len() > 0 {
            assert(!is_heading_line_spec(d[d.len() - 1]));
        }
        assert(d.push(x.last()) =~= x);
    }
}

proof fn lemma_drop_keep(a: Seq<Seq<char>>, y: Seq<Seq<char>>)
    requires
        a.len() > 0,
        !is_blank(a[a.len() - 1]),
    ensures
        drop_trailing_blanks(a + y) == a + drop_trailing_blanks(y),
    decreases y.len(),
{
    if y.len() == 0 {
        assert(a + y =~= a);
        assert(a + Seq::<Seq<char>>::empty() =~= a);
    } else if is_blank(y.last()) {
        lemma_drop_keep(a, y.drop_last());
        assert((a + y).drop_last() =~= a + y.drop_last());
        assert((a + y).last() == y.last());
    } else {
        assert((a + y).last() == y.last());
    }
}

proof fn lemma_join_concat(a: Seq<Seq<char>>, y: Seq<Seq<char>>)
    requires
        a.len() > 0,
    ensures
        join_lines(a + y) == join_lines(a) + (if y.len() == 0 { Seq::empty() } else { "\n"@ + join_lines(y) }),
    decreases y.len(),
{
    if y.len() == 0 {
        assert(a + y =~= a);
        assert(join_lines(a) + Seq::<char>::empty() =~= join_lines(a));
    } else {
        let d = y.drop_last();
        lemma_join_concat(a, d);
        assert((a + y).drop_last() =~= a + d);
        assert((a + y).last() == y.last());
        if d.len() == 0 {
            assert(y.len() == 1);
            assert(join_lines(y) == y[0]);
            assert(a + d =~= a);
            assert(join_lines(a + y) =~= join_lines(a) + ("\n"@ + join_lines(y)));
        } else {
            assert(join_lines(a + y) =~= join_lines(a) + ("\n"@ + join_lines(y)));
        }
    }
}

/// The three characters of a fence line.
pub open spec fn fence3() -> Seq<char> {
    seq!['-', '-', '-']
}

proof fn lemma_join_head(ls: Seq<Seq<char>>)
    ensures
        join_lines(seq![fence3()] + ls) + "\n"@ == fence3() + "\n"@ + nl_terminated(ls),
    decreases ls.len(),
{
    if ls.len() == 0 {
        assert(seq![fence3()] + ls =~= seq![fence3()]);
        assert(nl_terminated(ls) =~= Seq::<char>::empty());
        assert(fence3() + "\n"@ + Seq::<char>::empty() =~= fence3() + "\n"@);
    } else {
        let d = ls.drop_last();
        lemma_join_head(d);
        let b = seq![fence3()] + ls;
        assert(b.drop_last() =~= seq![fence3()] + d);
        assert(b.last() == ls.last());
        assert(join_lines(b) == join_lines(seq![fence3()] + d) + "\n"@ + ls.last());
        assert(join_lines(b) + "\n"@ =~= (join_lines(seq![fence3()] + d) + "\n"@) + ls.last() + "\n"@);
        assert(fence3() + "\n"@ + nl_terminated(ls) =~= (fence3() + "\n"@ + nl_terminated(d)) + ls.last() + "\n"@);
    }
}

proof fn lemma_lines_concat(a: Seq<char>, b: Seq<char>)
    requires
        lines_state(a).1.len() == 0,
    ensures
        lines_state(a + b) == (lines_state(a).0 + lines_state(b).0, lines_state(b).1),
    decreases b.len(),
{
    if b.len() == 0 {
        assert(a + b =~= a);
        assert(lines_state(a).0 + Seq::<Seq<char>>::empty() =~= lines_state(a).0);
        assert(lines_state(a).1 =~= Seq::<char>::empty());
    } else {
        lemma_lines_concat(a, b.drop_last());
        assert((a + b).drop_last() =~= a + b.drop_last());
        assert((a + b).last() == b.last());
        let (d0, c0) = lines_state(b.drop_last());
        if b.last() == '\n' {
            assert((lines_state(a).0 + d0).push(strip_cr(c0)) =~= lines_state(a).0 + d0.push(strip_cr(c0)));
        }
    }
}

proof fn lemma_lines_state_nl(ls: Seq<Seq<char>>)
    requires
        forall|i: int| 0 <= i < ls.len() ==> crate::frontmatter::no_nl(#[trigger] ls[i]) && !(ls[i].len() > 0 && ls[i].last() == '\r'),
    ensures
        lines_state(nl_terminated(ls)) == (ls, Seq::<char>::empty()),
    decreases ls.len(),
{
    reveal_strlit("\n");
    if ls.len() == 0 {
        assert(nl_terminated(ls) =~= Seq::<char>::empty());
        assert(ls =~= Seq::<Seq<char>>::empty());
    } else {
        let d = ls.drop_last();
        assert forall|i: int| 0 <= i < d.len() implies crate::frontmatter::no_nl(#[trigger] d[i]) && !(d[i].len() > 0 && d[i].last() == '\r') by {
            assert(d[i] == ls[i]);
        }
        lemma_lines_state_nl(d);
        let l = ls.last();
        assert(crate::frontmatter::no_nl(ls[ls.len() - 1]));
        lemma_lines_state_append_nonl(nl_terminated(d), l);
        let x = nl_terminated(d) + l;
        assert(Seq::<char>::empty() + l =~= l);
        assert("\n"@ =~= seq!['\n']);
        assert(nl_terminated(ls) =~= x.push('\n'));
        assert(x.push('\n').drop_last() =~= x);
        assert(strip_cr(l) == l);
        assert(d.push(l) =~= ls);
    }
}

proof fn lemma_lines_state_append_nonl(a: Seq<char>, b: Seq<char>)
    requires
        crate::frontmatter::no_nl(b),
    ensures
        lines_state(a + b) == (lines_state(a).0, lines_state(a).1 + b),
    decreases b.len(),
{
    if b.len() == 0 {
        assert(a + b =~= a);
        assert(lines_state(a).1 + b =~= lines_state(a).1);
    } else {
        let c = b.drop_last();
        assert(crate::frontmatter::no_nl(c));
        lemma_lines_state_append_nonl(a, c);
        assert((a + b).drop_last() =~= a + c);
        assert((a + b).last() == b.last());
        assert(b.last() == b[b.len() - 1]);
        assert((lines_state(a).1 + c).push(b.last()) =~= lines_state(a).1 + b);
    }
}

/// Normalizing a document that starts with a frontmatter block of written
/// lines keeps the block, fences and lines, at its head.
#[verifier::spinoff_prover]
#[verifier::rlimit(40)]
proof fn lemma_normalize_keeps_block(ls: Seq<Seq<char>>, body: Seq<char>)
    requires
        forall|i: int| 0 <= i < ls.len() ==> crate::frontmatter::line_shape(#[trigger] ls[i]) && ls[i][0] != '#',
    ensures
        normalize_spec("---\n"@ + nl_terminated(ls) + "---\n\n"@ + body).len() >= ("---\n"@ + nl_terminated(ls) + "---\n"@).len(),
        normalize_spec("---\n"@ + nl_terminated(ls) + "---\n\n"@ + body).take(("---\n"@ + nl_terminated(ls) + "---\n"@).len() as int)
            == "---\n"@ + nl_terminated(ls) + "---\n"@,
{
    reveal_strlit("---\n");
    reveal_strlit("---\n\n");
    reveal_strlit("\n");
    let f3 = fence3();
    let e = Seq::<char>::empty();
    let nl = nl_terminated(ls);
    let x = seq![f3] + ls + seq![f3];
    let p = x.push(e);
    // the block's text is its lines, each newline-terminated
    lemma_nl_split(p, 1);
    lemma_nl_split(p.skip(1), ls.len() as int);
    assert(p.take(1) =~= seq![f3]);
    assert(p.skip(1).take(ls.len() as int) =~= ls);
    assert(p.skip(1).skip(ls.len() as int) =~= seq![f3, e]);
    assert(nl_terminated(Seq::<Seq<char>>::empty()) =~= Seq::<char>::empty());
    assert(nl_terminated(seq![f3]) =~= f3 + "\n"@) by {
        assert(seq![f3].drop_last() =~= Seq::<Seq<char>>::empty());
        assert(seq![f3].last() == f3);
        assert(nl_terminated(seq![f3]) == nl_terminated(seq![f3].drop_last()) + seq![f3].last() + "\n"@);
    }
    assert(nl_terminated(seq![f3, e]) =~= f3 + "\n"@ + e + "\n"@) by {
        assert(seq![f3, e].drop_last() =~= seq![f3]);
        assert(seq![f3].drop_last() =~= Seq::<Seq<char>>::empty());
        assert(seq![f3].last() == f3);
        assert(seq![f3, e].last() == e);
        assert(nl_terminated(seq![f3]) == nl_terminated(seq![f3].drop_last()) + seq![f3].last() + "\n"@);
        assert(nl_terminated(seq![f3, e]) == nl_terminated(seq![f3, e].drop_last()) + seq![f3, e].last() + "\n"@);
    }
    let fm = "---\n"@ + nl + "---\n\n"@;
    assert(fm =~= nl_terminated(p));
    // its lines
    assert forall|i: int| 0 <= i < p.len() implies crate::frontmatter::no_nl(#[trigger] p[i]) && !(p[i].len() > 0 && p[i].last() == '\r') by {
        if 1 <= i < ls.len() + 1 {
            assert(p[i] == ls[i - 1]);
            assert(crate::frontmatter::line_shape(ls[i - 1]));
            assert(ls[i - 1].last() == ls[i - 1][ls[i - 1].len() - 1]);
        }
    }
    lemma_lines_state_nl(p);
    lemma_lines_concat(fm, body);
    let q = crate::text::lines(body);
    assert(crate::text::lines(fm + body) =~= p + q);
    // normalization keeps them
    assert forall|i: int| 0 <= i < x.len() implies !is_blank(#[trigger] x[i]) && !is_heading_line_spec(x[i]) by {
        if 1 <= i < ls.len() + 1 {
            assert(x[i] == ls[i - 1]);
            let l = ls[i - 1];
            assert(crate::frontmatter::line_shape(l));
            let k = choose|k: int| 0 <= k < l.len() && l[k] == ':';
            assert(!is_ws(l[k]));
            assert(lead_len(l, CharClass::Hash) == 0);
        } else {
            assert(x[i] == f3);
            assert(!is_ws(f3[0]));
            assert(lead_len(f3, CharClass::Hash) == 0);
        }
    }
    lemma_norm_fold_plain(x);
    assert(is_blank(e));
    assert(!is_blank(x[x.len() - 1]));
    assert(norm_fold(p) == p) by {
        assert(p.drop_last() =~= x);
        assert(p.last() == e);
    }
    lemma_norm_concat(p, q);
    lemma_norm_from_prefix(p, q);
    let r0 = norm_fold(p + q);
    let z = r0.skip(p.len() as int);
    assert(r0 =~= p + z);
    let y = seq![e] + z;
    assert(r0 =~= x + y);
    lemma_drop_keep(x, y);
    let yk = drop_trailing_blanks(y);
    let r = x + yk;
    lemma_join_concat(x, yk);
    let tail: Seq<char> = if yk.len() == 0 { Seq::empty() } else { "\n"@ + join_lines(yk) };
    // the head's joined text
    let b = seq![f3] + ls;
    assert(x =~= b.push(f3));
    assert(x.drop_last() =~= b);
    assert(x.last() == f3);
    lemma_join_head(ls);
    assert(join_lines(x) == join_lines(b) + "\n"@ + f3);
    let j = join_lines(r);
    assert(j == join_lines(x) + tail);
    assert(j.len() > 0);
    let head = "---\n"@ + nl + "---\n"@;
    assert(normalize_spec(fm + body) == j + "\n"@);
    assert(f3 + "\n"@ =~= "---\n"@);
    assert(j + "\n"@ =~= head + (tail + "\n"@).drop_first()) by {
        assert((tail + "\n"@).len() > 0);
        assert(j + "\n"@ =~= (join_lines(b) + "\n"@) + f3 + tail + "\n"@);
        assert((tail + "\n"@)[0] == '\n');
    }
    let out = j + "\n"@;
    assert(out.take(head.len() as int) =~= head);
}

/// The frontmatter of a rendered document reads back, through frontmatter
/// checking, with no problem and as the data's frontmatter values: each
/// declared field that has a value is captured under its alias as the value
/// written. (Field keys are distinct runs of `[A-Za-z0-9_]` and list types
/// hold scalars, as the schema parser ensures; every written value fits its
/// type, as a date or a pattern asks and rendering does not check.)
pub proof fn law_rendered_frontmatter_reads_back(s: Schema, data: JsonV)
    requires
        forall|i: int| 0 <= i < fields_v(s.frontmatter@).len() ==> field_writable(#[trigger] fields_v(s.frontmatter@)[i]),
        forall|i: int, j: int| 0 <= i < j < fields_v(s.frontmatter@).len() ==>
            #[trigger] fields_v(s.frontmatter@)[i].key != #[trigger] fields_v(s.frontmatter@)[j].key,
        forall|i: int| 0 <= i < fields_v(s.frontmatter@).len() && has_value(data, #[trigger] fields_v(s.frontmatter@)[i]) ==>
            value_fits(field_value(data, fields_v(s.frontmatter@)[i]), fields_v(s.frontmatter@)[i].ty),
        render_spec(s, data) is Ok,
    ensures
        fm_extract_spec(fields_v(s.frontmatter@), encode_utf8(render_spec(s, data)->Ok_0), s.opts.frontmatter_open, Seq::empty())
            == (Seq::<ProblemV>::empty(), written_values(fields_v(s.frontmatter@), data)),
{
    let fields = fields_v(s.frontmatter@);
    if fields.len() > 0 {
        crate::frontmatter::lemma_fm_lines_written(fields, data);
        crate::frontmatter::lemma_written_entries(fields, data);
        let ls = written_lines(fields, data);
        let nl = nl_terminated(ls);
        let fm = fm_render_spec(fields, data)->Ok_0;
        let body = rn_nodes(s.body@, s.body@.len() as int, data, 0)->Ok_0;
        assert(fm == "---\n"@ + nl + "---\n\n"@);
        lemma_normalize_keeps_block(ls, body);
        let out = render_spec(s, data)->Ok_0;
        assert(out == normalize_spec(fm + body));
        let head = "---\n"@ + nl + "---\n"@;
        let rest = out.skip(head.len() as int);
        assert(out =~= head + rest);
        crate::frontmatter::lemma_block_reads_back(fields, data, rest, s.opts.frontmatter_open);
    }
}

} // verus!
