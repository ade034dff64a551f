//! The body matcher: walks schema nodes against the block tree with a
//! per-scope cursor, producing both the validation problems and a binding
//! tree that records which blocks each schema node claimed. Extraction and
//! editing both read the same bindings, so they cannot disagree with
//! validation.

use crate::doc::{Block, BlockV, Item, ItemV, Span, block_is, blocks_are, item_is, item_span_v, item_text_v};
use crate::error::{Problem, ProblemV, problem_is, problems_are};
use crate::json::{Json, JsonV, json_is, jsons_are, obj_insert};
use crate::schema::{Card, ListStyle, Match, Node, card_allows, is_repeated, regex_is_match, repeated};
use crate::text::{parse_usize, parse_usize_spec, chars_of, decimal, has_prefix, is_ws, push_char, push_chars, push_decimal, push_str, starts_with, string_of, trim_start};
use vstd::prelude::*;
use vstd::string::StringSliceAdditionalSpecFns;
use vstd::utf8::encode_utf8;

verus! {

// ---- byte lengths ------------------------------------------------------------------

/// The UTF-8 length of a string.
pub open spec fn blen(s: Seq<char>) -> nat {
    encode_utf8(s).len()
}

pub proof fn lemma_encode_concat(a: Seq<char>, b: Seq<char>)
    ensures
        encode_utf8(a + b) == encode_utf8(a) + encode_utf8(b),
    decreases a.len(),
{
    if a.len() == 0 {
        assert(a + b =~= b);
        assert(encode_utf8(a) + encode_utf8(b) =~= encode_utf8(b));
    } else {
        lemma_encode_concat(a.drop_first(), b);
        assert((a + b).drop_first() =~= a.drop_first() + b);
        assert((a + b)[0] == a[0]);
        assert(encode_utf8(a + b) =~= vstd::utf8::encode_scalar(a[0] as u32) + encode_utf8(a.drop_first() + b));
    }
}

/// The UTF-8 length of a string (`str::len`).
fn byte_len(s: &[char]) -> (n: usize)
    ensures
        n == blen(s@) as usize,
{
    let t = string_of(s);
    let r = t.as_str().len();
    proof {
        vstd::utf8::encode_utf8_decode_utf8(s@);
    }
    r
}

// ---- matching helpers --------------------------------------------------------------

/// Whether a label admits a text: a literal is a prefix of the text after its
/// leading whitespace; a regex matches anywhere in it.
pub open spec fn matches_text_spec(m: Match, t: Seq<char>) -> bool {
    match m {
        Match::Literal(l) => starts_with(trim_start(t), l@),
        Match::Regex(r) => regex_is_match(r@, t),
    }
}

pub fn matches_text(m: &Match, t: &String) -> (b: bool)
    ensures
        b == matches_text_spec(*m, t@),
{
    match m {
        Match::Literal(l) => {
            let v = chars_of(t.as_str());
            let n = v.len();
            let a = crate::text::skip_ws(v.as_slice(), 0, n);
            assert(v@.subrange(0, n as int) =~= v@);
            let lv = chars_of(l.as_str());
            has_prefix(&v.as_slice()[a..n], lv.as_slice())
        },
        Match::Regex(r) => r.is_match(t.as_str()),
    }
}

/// A section of the given level whose title the label admits.
pub open spec fn is_section_v(b: BlockV, level: u8, title: Match) -> bool {
    b matches BlockV::Section { level: l, title: t, .. } && l == level && matches_text_spec(title, t)
}

/// A list of the given style: ordered; unordered; unordered with a checkbox.
pub open spec fn is_list_v(b: BlockV, style: ListStyle) -> bool {
    b matches BlockV::List { ordered, has_checkbox, .. } && match style {
        ListStyle::Ordered => ordered,
        ListStyle::Bullet => !ordered,
        ListStyle::Checklist => !ordered && has_checkbox,
    }
}

fn is_section(b: &Block, Ghost(v): Ghost<BlockV>, level: u8, title: &Match) -> (r: bool)
    requires
        block_is(*b, v),
    ensures
        r == is_section_v(v, level, *title),
{
    match b {
        Block::Section { level: l, title: t, .. } => *l == level && matches_text(title, t),
        _ => false,
    }
}

pub fn is_list(b: &Block, Ghost(v): Ghost<BlockV>, style: ListStyle) -> (r: bool)
    requires
        block_is(*b, v),
    ensures
        r == is_list_v(v, style),
{
    match b {
        Block::List { ordered, has_checkbox, .. } => match style {
            ListStyle::Ordered => *ordered,
            ListStyle::Bullet => !*ordered,
            ListStyle::Checklist => !*ordered && *has_checkbox,
        },
        _ => false,
    }
}

/// How a label reads in a problem message: a quoted literal or a slashed
/// regex.
pub open spec fn describe_spec(m: Match) -> Seq<char> {
    match m {
        Match::Literal(l) => seq!['"'] + l@ + seq!['"'],
        Match::Regex(r) => seq!['/'] + r@ + seq!['/'],
    }
}

pub fn describe(m: &Match) -> (s: String)
    ensures
        s@ == describe_spec(*m),
{
    let mut s = String::new();
    match m {
        Match::Literal(l) => {
            push_char(&mut s, '"');
            push_str(&mut s, l.as_str());
            push_char(&mut s, '"');
        },
        Match::Regex(r) => {
            push_char(&mut s, '/');
            push_str(&mut s, r.as_str());
            push_char(&mut s, '/');
        },
    }
    s
}

/// The kind of an unclaimed block, and its span when it has one.
pub open spec fn block_desc_spec(b: BlockV) -> (Seq<char>, Option<Span>) {
    match b {
        BlockV::Section { title_span, .. } => ("section"@, Some(title_span)),
        BlockV::List { .. } => ("list"@, None),
        BlockV::Para { span, .. } => ("paragraph"@, Some(span)),
        BlockV::Other { span } => ("block"@, Some(span)),
    }
}

pub fn block_desc(b: &Block, Ghost(v): Ghost<BlockV>) -> (r: (&'static str, Option<Span>))
    requires
        block_is(*b, v),
    ensures
        r.0@ == block_desc_spec(v).0,
        r.1 == block_desc_spec(v).1,
{
    match b {
        Block::Section { title_span, .. } => ("section", Some(*title_span)),
        Block::List { .. } => ("list", None),
        Block::Para { span, .. } => ("paragraph", Some(*span)),
        Block::Other { span } => ("block", Some(*span)),
    }
}

/// The message for a count the cardinality does not allow, if it does not.
pub open spec fn card_problem_spec(card: Card, count: nat, unit: Seq<char>) -> Option<Seq<char>> {
    if card_allows(card, count) {
        None
    } else {
        Some(match card {
            Card::Required | Card::Plus => "expected at least one "@ + unit + ", found "@ + decimal(count),
            Card::Optional => "expected at most one "@ + unit + ", found "@ + decimal(count),
            Card::Range(min, Some(max)) => "expected "@ + decimal(min as nat) + ".."@ + decimal(max as nat) + " "@ + unit
                + "(s), found "@ + decimal(count),
            Card::Range(min, None) => "expected at least "@ + decimal(min as nat) + " "@ + unit + "(s), found "@
                + decimal(count),
            Card::Star => Seq::empty(),
        })
    }
}

/// A count draws a problem exactly when the cardinality does not allow it,
/// and the message ends with the count found.
pub proof fn law_card_problem_iff(card: Card, count: nat, unit: Seq<char>)
    ensures
        card_problem_spec(card, count, unit) is None <==> card_allows(card, count),
        card_problem_spec(card, count, unit) matches Some(m) ==> m.len() >= decimal(count).len()
            && m.subrange(m.len() - decimal(count).len(), m.len() as int) == decimal(count),
{
    if let Some(m) = card_problem_spec(card, count, unit) {
        let d = decimal(count);
        match card {
            Card::Required | Card::Plus => {
                let a = "expected at least one "@ + unit + ", found "@;
                assert(m == a + d);
                assert(m.subrange(a.len() as int, m.len() as int) =~= d);
            },
            Card::Optional => {
                let a = "expected at most one "@ + unit + ", found "@;
                assert(m == a + d);
                assert(m.subrange(a.len() as int, m.len() as int) =~= d);
            },
            Card::Range(min, Some(max)) => {
                let a = "expected "@ + decimal(min as nat) + ".."@ + decimal(max as nat) + " "@ + unit + "(s), found "@;
                assert(m == a + d);
                assert(m.subrange(a.len() as int, m.len() as int) =~= d);
            },
            Card::Range(min, None) => {
                let a = "expected at least "@ + decimal(min as nat) + " "@ + unit + "(s), found "@;
                assert(m == a + d);
                assert(m.subrange(a.len() as int, m.len() as int) =~= d);
            },
            Card::Star => {},
        }
    }
}

/// `Some(message)` when `count` violates the cardinality (see
/// [`card_problem_spec`]); `unit` is `section` or `item`.
pub fn card_problem(card: Card, count: usize, unit: &str) -> (r: Option<String>)
    ensures
        match card_problem_spec(card, count as nat, unit@) {
            None => r is None,
            Some(m) => r matches Some(s) && s@ == m,
        },
{
    let ok = match card {
        Card::Required | Card::Plus => count >= 1,
        Card::Optional => count <= 1,
        Card::Star => true,
        Card::Range(min, max) => count >= min as usize && match max {
            Some(m) => count <= m as usize,
            None => true,
        },
    };
    if ok {
        return None;
    }
    let mut s = String::new();
    match card {
        Card::Required | Card::Plus => {
            push_str(&mut s, "expected at least one ");
            push_str(&mut s, unit);
            push_str(&mut s, ", found ");
            push_decimal(&mut s, count as u64);
        },
        Card::Optional => {
            push_str(&mut s, "expected at most one ");
            push_str(&mut s, unit);
            push_str(&mut s, ", found ");
            push_decimal(&mut s, count as u64);
        },
        Card::Range(min, Some(max)) => {
            push_str(&mut s, "expected ");
            push_decimal(&mut s, min as u64);
            push_str(&mut s, "..");
            push_decimal(&mut s, max as u64);
            push_str(&mut s, " ");
            push_str(&mut s, unit);
            push_str(&mut s, "(s), found ");
            push_decimal(&mut s, count as u64);
        },
        Card::Range(min, None) => {
            push_str(&mut s, "expected at least ");
            push_decimal(&mut s, min as u64);
            push_str(&mut s, " ");
            push_str(&mut s, unit);
            push_str(&mut s, "(s), found ");
            push_decimal(&mut s, count as u64);
        },
        Card::Star => {},
    }
    Some(s)
}

/// Whether a paragraph node must be present (`+`, bare, `{m,…}` with m ≥ 1).
pub open spec fn presence_required_spec(card: Card) -> bool {
    match card {
        Card::Required | Card::Plus => true,
        Card::Range(m, _) => m >= 1,
        _ => false,
    }
}

pub fn presence_required(card: Card) -> (b: bool)
    ensures
        b == presence_required_spec(card),
{
    match card {
        Card::Required | Card::Plus => true,
        Card::Range(m, _) => m >= 1,
        _ => false,
    }
}

/// A node's description, if it has one.
pub open spec fn node_desc(n: Node) -> Option<Seq<char>> {
    match n.head_of().desc {
        Some(d) => Some(d@),
        None => None,
    }
}

/// A problem with a schema node: its path is the scope's path and the node's
/// breadcrumb label; a non-empty description is appended to the message.
pub open spec fn problem_spec(path: Seq<Seq<char>>, n: Node, message: Seq<char>, span: Option<Span>) -> ProblemV {
    ProblemV {
        path: path.push(n.problem_alias_spec()),
        message: match node_desc(n) {
            Some(d) => if d.len() > 0 { message + " — \""@ + d + "\""@ } else { message },
            None => message,
        },
        span,
    }
}

pub open spec fn strings_v(v: Seq<String>) -> Seq<Seq<char>> {
    v.map_values(|s: String| s@)
}

fn clone_path(path: &Vec<String>) -> (r: Vec<String>)
    ensures
        strings_v(r@) == strings_v(path@),
{
    let mut r: Vec<String> = Vec::new();
    let mut i: usize = 0;
    while i < path.len()
        invariant
            i <= path@.len(),
            strings_v(r@) == strings_v(path@).take(i as int),
        decreases path@.len() - i,
    {
        let ghost before = strings_v(r@);
        r.push(path[i].clone());
        assert(strings_v(r@) =~= before.push(path@[i as int]@));
        assert(strings_v(path@).take(i + 1) =~= strings_v(path@).take(i as int).push(path@[i as int]@));
        i = i + 1;
    }
    assert(strings_v(path@).take(i as int) =~= strings_v(path@));
    r
}

/// The problem with node `n` (see [`problem_spec`]).
pub fn problem(path: &Vec<String>, n: &Node, message: String, span: Option<Span>) -> (p: Problem)
    ensures
        problem_is(p, problem_spec(strings_v(path@), *n, message@, span)),
{
    let mut p = clone_path(path);
    let ghost before = strings_v(p@);
    p.push(n.problem_alias());
    assert(strings_v(p@) =~= before.push(n.problem_alias_spec()));
    let desc: &Option<String> = match n {
        Node::Heading { head, .. } => &head.desc,
        Node::List { head, .. } => &head.desc,
        Node::Prose { head, .. } => &head.desc,
    };
    let mut message = message;
    match desc {
        Some(d) => {
            if !d.as_str().is_empty() {
                push_str(&mut message, " — \"");
                push_str(&mut message, d.as_str());
                push_str(&mut message, "\"");
            }
        },
        None => {},
    }
    Problem { path: p, message, span }
}


/// The UTF-8 length of a string, as `str::len` reports it.
pub open spec fn bl(s: Seq<char>) -> usize {
    blen(s) as usize
}

pub open spec fn sat_sub(a: usize, b: usize) -> usize {
    if a >= b { (a - b) as usize } else { 0 }
}

pub open spec fn sat_plus(a: usize, b: usize) -> usize {
    if a + b <= usize::MAX { (a + b) as usize } else { usize::MAX }
}

/// An item's captured text and editable span with a literal label stripped
/// (`Docs: foo` with label `Docs:` gives `foo`). The span moves past the
/// label only when the item's source and its flattened text have the same
/// length (no inline markup); a regex label, or a literal the text does not
/// start with, leaves both unchanged.
pub open spec fn strip_label_spec(item: Option<Match>, text: Seq<char>, span: Span) -> (Seq<char>, Span) {
    match item {
        Some(Match::Literal(l)) => {
            let tr = trim_start(text);
            if starts_with(tr, l@) {
                let rest = tr.skip(l@.len() as int);
                let stripped = trim_start(rest);
                let aligned = sat_sub(span.end, span.start) == bl(text);
                let sp = if aligned {
                    let lead = sat_sub(bl(text), bl(tr));
                    let after = sat_sub(bl(rest), bl(stripped));
                    Span { start: sat_plus(sat_plus(sat_plus(span.start, lead), bl(l@)), after), end: span.end }
                } else {
                    span
                };
                (stripped, sp)
            } else {
                (text, span)
            }
        },
        _ => (text, span),
    }
}

/// Strips a literal label prefix from an item's text and span (see
/// [`strip_label_spec`]).
pub fn strip_label(item: &Option<Match>, text: &String, span: Span) -> (r: (String, Span))
    ensures
        r.0@ == strip_label_spec(*item, text@, span).0,
        r.1 == strip_label_spec(*item, text@, span).1,
{
    match item {
        Some(Match::Literal(l)) => {
            let v = chars_of(text.as_str());
            let n = v.len();
            let a = crate::text::skip_ws(v.as_slice(), 0, n);
            assert(v@.subrange(0, n as int) =~= v@);
            let tr = &v.as_slice()[a..n];
            let lv = chars_of(l.as_str());
            if has_prefix(tr, lv.as_slice()) {
                let m = lv.len();
                let rest = &tr[m..tr.len()];
                assert(rest@ =~= tr@.skip(m as int));
                let b = crate::text::skip_ws(rest, 0, rest.len());
                assert(rest@.subrange(0, rest@.len() as int) =~= rest@);
                let stripped = &rest[b..rest.len()];
                let tlen = byte_len(v.as_slice());
                let aligned = span.end.saturating_sub(span.start) == tlen;
                let sp = if aligned {
                    let lead = tlen.saturating_sub(byte_len(tr));
                    let after = byte_len(rest).saturating_sub(byte_len(stripped));
                    let start = span.start.saturating_add(lead).saturating_add(byte_len(lv.as_slice())).saturating_add(after);
                    Span { start, end: span.end }
                } else {
                    span
                };
                (string_of(stripped), sp)
            } else {
                (text.clone(), span)
            }
        },
        _ => (text.clone(), span),
    }
}


// ---- bindings ------------------------------------------------------------------------

/// What a schema node matched: the sections of a heading (in document
/// order), the list of a list node, the paragraph of a prose node.
pub enum Bound {
    Heading(Vec<SectionB>),
    List(Option<Vec<ItemB>>),
    Prose(Option<(String, Span)>),
}

/// A matched section: its title and the bindings of the heading's children
/// inside it.
pub struct SectionB {
    pub title: String,
    pub children: Vec<Bound>,
}

/// A matched list item: captured text (checkbox and literal label stripped),
/// checkbox state, editable span, and the bindings of the node's children
/// inside the item.
pub struct ItemB {
    pub text: String,
    pub checked: Option<bool>,
    pub text_span: Span,
    pub children: Vec<Bound>,
}

pub enum BoundV {
    Heading(Seq<SectionV>),
    List(Option<Seq<ItemBV>>),
    Prose(Option<(Seq<char>, Span)>),
}

pub struct SectionV {
    pub title: Seq<char>,
    pub children: Seq<BoundV>,
}

pub struct ItemBV {
    pub text: Seq<char>,
    pub checked: Option<bool>,
    pub text_span: Span,
    pub children: Seq<BoundV>,
}

pub open spec fn bound_is(b: Bound, v: BoundV) -> bool
    decreases v,
{
    match v {
        BoundV::Heading(secs) => b matches Bound::Heading(s) && s@.len() == secs.len()
            && forall|k: int| 0 <= k < secs.len() ==> section_is(#[trigger] s@[k], secs[k]),
        BoundV::List(None) => b matches Bound::List(None),
        BoundV::List(Some(items)) => b matches Bound::List(Some(its)) && its@.len() == items.len()
            && forall|k: int| 0 <= k < items.len() ==> itemb_is(#[trigger] its@[k], items[k]),
        BoundV::Prose(None) => b matches Bound::Prose(None),
        BoundV::Prose(Some((t, sp))) => b matches Bound::Prose(Some((t2, sp2))) && t2@ == t && sp2 == sp,
    }
}

pub open spec fn section_is(s: SectionB, v: SectionV) -> bool
    decreases v,
{
    &&& s.title@ == v.title
    &&& s.children@.len() == v.children.len()
    &&& forall|k: int| 0 <= k < v.children.len() ==> bound_is(#[trigger] s.children@[k], v.children[k])
}

pub open spec fn itemb_is(i: ItemB, v: ItemBV) -> bool
    decreases v,
{
    &&& i.text@ == v.text
    &&& i.checked == v.checked
    &&& i.text_span == v.text_span
    &&& i.children@.len() == v.children.len()
    &&& forall|k: int| 0 <= k < v.children.len() ==> bound_is(#[trigger] i.children@[k], v.children[k])
}

pub open spec fn bounds_are(bs: Seq<Bound>, vs: Seq<BoundV>) -> bool {
    &&& bs.len() == vs.len()
    &&& forall|k: int| 0 <= k < vs.len() ==> bound_is(#[trigger] bs[k], vs[k])
}

// ---- the matching, as a specification ----------------------------------------------------

/// The matcher's state within one scope: which blocks are claimed, the
/// cursor (for ordered matching), the problems and bindings so far.
pub struct MState {
    pub claimed: Seq<bool>,
    pub cursor: int,
    pub problems: Seq<ProblemV>,
    pub bounds: Seq<BoundV>,
}

/// The first unclaimed section at or after `i` matching the heading.
pub open spec fn first_section(doc: Seq<BlockV>, cl: Seq<bool>, i: int, level: u8, title: Match) -> Option<int>
    decreases doc.len() - i,
{
    if i < 0 || i >= doc.len() {
        None
    } else if !cl[i] && is_section_v(doc[i], level, title) {
        Some(i)
    } else {
        first_section(doc, cl, i + 1, level, title)
    }
}

/// The end of the run of unclaimed matching sections starting at `i`.
pub open spec fn section_run_end(doc: Seq<BlockV>, cl: Seq<bool>, i: int, level: u8, title: Match) -> int
    decreases doc.len() - i,
{
    if i < 0 || i >= doc.len() {
        i
    } else if !cl[i] && is_section_v(doc[i], level, title) {
        section_run_end(doc, cl, i + 1, level, title)
    } else {
        i
    }
}

/// Every unclaimed matching section at or after `i`.
pub open spec fn all_sections(doc: Seq<BlockV>, cl: Seq<bool>, i: int, level: u8, title: Match) -> Seq<int>
    decreases doc.len() - i,
{
    if i < 0 || i >= doc.len() {
        Seq::empty()
    } else if !cl[i] && is_section_v(doc[i], level, title) {
        seq![i] + all_sections(doc, cl, i + 1, level, title)
    } else {
        all_sections(doc, cl, i + 1, level, title)
    }
}

/// The first unclaimed list of the style at or after `i`.
pub open spec fn first_list(doc: Seq<BlockV>, cl: Seq<bool>, i: int, style: ListStyle) -> Option<int>
    decreases doc.len() - i,
{
    if i < 0 || i >= doc.len() {
        None
    } else if !cl[i] && is_list_v(doc[i], style) {
        Some(i)
    } else {
        first_list(doc, cl, i + 1, style)
    }
}

/// The first unclaimed paragraph at or after `i`.
pub open spec fn first_para(doc: Seq<BlockV>, cl: Seq<bool>, i: int) -> Option<int>
    decreases doc.len() - i,
{
    if i < 0 || i >= doc.len() {
        None
    } else if !cl[i] && doc[i] is Para {
        Some(i)
    } else {
        first_para(doc, cl, i + 1)
    }
}

/// The search for a heading's section takes the first unclaimed section of
/// its level whose title it admits, from `i` on: one that is such, with none
/// before it; and finds none only when there is none.
pub proof fn law_first_section(doc: Seq<BlockV>, cl: Seq<bool>, i: int, level: u8, title: Match)
    requires
        0 <= i,
        cl.len() == doc.len(),
    ensures
        match first_section(doc, cl, i, level, title) {
            Some(k) => i <= k < doc.len() && !cl[k] && is_section_v(doc[k], level, title)
                && forall|j: int| i <= j < k ==> !(!cl[j] && is_section_v(#[trigger] doc[j], level, title)),
            None => forall|j: int| i <= j < doc.len() ==> !(!cl[j] && is_section_v(#[trigger] doc[j], level, title)),
        },
    decreases doc.len() - i,
{
    if i < doc.len() && !(!cl[i] && is_section_v(doc[i], level, title)) {
        law_first_section(doc, cl, i + 1, level, title);
    }
}

/// Whether block `j` is an unclaimed section of the level whose title the
/// label admits.
pub open spec fn claimable_section(doc: Seq<BlockV>, cl: Seq<bool>, j: int, level: u8, title: Match) -> bool {
    !cl[j] && is_section_v(doc[j], level, title)
}

/// Under ordered matching a repeated heading takes a run of adjacent
/// sections: from `i`, every block up to the run's end is an unclaimed
/// section it admits, and the block at the end (if any) is not.
pub proof fn law_section_run(doc: Seq<BlockV>, cl: Seq<bool>, i: int, level: u8, title: Match)
    requires
        0 <= i <= doc.len(),
        cl.len() == doc.len(),
    ensures
        i <= section_run_end(doc, cl, i, level, title) <= doc.len(),
        forall|j: int| i <= j < section_run_end(doc, cl, i, level, title) ==> #[trigger] claimable_section(doc, cl, j, level, title),
        section_run_end(doc, cl, i, level, title) < doc.len()
            ==> !claimable_section(doc, cl, section_run_end(doc, cl, i, level, title), level, title),
    decreases doc.len() - i,
{
    if i < doc.len() && claimable_section(doc, cl, i, level, title) {
        law_section_run(doc, cl, i + 1, level, title);
    }
}

/// Every unclaimed section of the level whose title the label admits, from
/// `i` on, in document order, each once.
pub proof fn law_all_sections(doc: Seq<BlockV>, cl: Seq<bool>, i: int, level: u8, title: Match)
    requires
        0 <= i <= doc.len(),
        cl.len() == doc.len(),
    ensures
        forall|j: int| i <= j < doc.len() ==>
            (#[trigger] claimable_section(doc, cl, j, level, title) <==> all_sections(doc, cl, i, level, title).contains(j)),
        forall|a: int, b: int| 0 <= a < b < all_sections(doc, cl, i, level, title).len() ==>
            #[trigger] all_sections(doc, cl, i, level, title)[a] < #[trigger] all_sections(doc, cl, i, level, title)[b],
        forall|a: int| 0 <= a < all_sections(doc, cl, i, level, title).len() ==>
            i <= #[trigger] all_sections(doc, cl, i, level, title)[a] < doc.len(),
    decreases doc.len() - i,
{
    if i < doc.len() {
        law_all_sections(doc, cl, i + 1, level, title);
        let r = all_sections(doc, cl, i + 1, level, title);
        if claimable_section(doc, cl, i, level, title) {
            let t = seq![i] + r;
            assert(all_sections(doc, cl, i, level, title) == t);
            assert(t[0] == i);
            assert forall|a: int| 0 < a < t.len() implies t[a] == r[a - 1] by {}
            assert forall|j: int| i <= j < doc.len() implies
                (#[trigger] claimable_section(doc, cl, j, level, title) <==> t.contains(j)) by {
                if j == i {
                    assert(t[0] == j);
                } else {
                    if t.contains(j) {
                        let a = choose|a: int| 0 <= a < t.len() && t[a] == j;
                        assert(a > 0);
                        assert(r[a - 1] == j);
                        assert(r.contains(j));
                    }
                    if r.contains(j) {
                        let a = choose|a: int| 0 <= a < r.len() && r[a] == j;
                        assert(t[a + 1] == j);
                        assert(t.contains(j));
                    }
                }
            }
        } else {
            assert(all_sections(doc, cl, i, level, title) == r);
            assert forall|j: int| i <= j < doc.len() implies
                (#[trigger] claimable_section(doc, cl, j, level, title) <==> r.contains(j)) by {
                if j == i {
                    if r.contains(j) {
                        let a = choose|a: int| 0 <= a < r.len() && r[a] == j;
                        assert(i + 1 <= r[a]);
                    }
                }
            }
        }
    } else {
        assert(all_sections(doc, cl, i, level, title).len() == 0);
    }
}

/// The search for a list takes the first unclaimed list of the node's
/// style from `i` on, and finds none only when there is none.
pub proof fn law_first_list(doc: Seq<BlockV>, cl: Seq<bool>, i: int, style: ListStyle)
    requires
        0 <= i,
        cl.len() == doc.len(),
    ensures
        match first_list(doc, cl, i, style) {
            Some(k) => i <= k < doc.len() && !cl[k] && is_list_v(doc[k], style)
                && forall|j: int| i <= j < k ==> !(!cl[j] && is_list_v(#[trigger] doc[j], style)),
            None => forall|j: int| i <= j < doc.len() ==> !(!cl[j] && is_list_v(#[trigger] doc[j], style)),
        },
    decreases doc.len() - i,
{
    if i < doc.len() && !(!cl[i] && is_list_v(doc[i], style)) {
        law_first_list(doc, cl, i + 1, style);
    }
}

/// The search for a prose node takes the first unclaimed paragraph from
/// `i` on, and finds none only when there is none.
pub proof fn law_first_para(doc: Seq<BlockV>, cl: Seq<bool>, i: int)
    requires
        0 <= i,
        cl.len() == doc.len(),
    ensures
        match first_para(doc, cl, i) {
            Some(k) => i <= k < doc.len() && !cl[k] && doc[k] is Para
                && forall|j: int| i <= j < k ==> !(!cl[j] && (#[trigger] doc[j]) is Para),
            None => forall|j: int| i <= j < doc.len() ==> !(!cl[j] && (#[trigger] doc[j]) is Para),
        },
    decreases doc.len() - i,
{
    if i < doc.len() && !(!cl[i] && doc[i] is Para) {
        law_first_para(doc, cl, i + 1);
    }
}

/// The integers `a, a+1, …, b-1`.
pub open spec fn range_seq(a: int, b: int) -> Seq<int> {
    Seq::new(if b > a { (b - a) as nat } else { 0 }, |k: int| a + k)
}

/// The sections a heading node finds: under ordered matching, the run of
/// matching sections from the first match at the cursor on (a later,
/// non-adjacent match belongs to another node); otherwise every match.
pub open spec fn heading_ids(doc: Seq<BlockV>, st: MState, opts: crate::schema::SchemaOpts, level: u8, title: Match) -> Seq<int> {
    if opts.ordered {
        match first_section(doc, st.claimed, st.cursor, level, title) {
            Some(f) => range_seq(f, section_run_end(doc, st.claimed, f + 1, level, title)),
            None => Seq::empty(),
        }
    } else {
        all_sections(doc, st.claimed, 0, level, title)
    }
}

/// The optional card problem of a node, as a sequence.
pub open spec fn card_ps(path: Seq<Seq<char>>, n: Node, count: nat, unit: Seq<char>) -> Seq<ProblemV> {
    match card_problem_spec(n.head_of().card, count, unit) {
        Some(m) => seq![problem_spec(path, n, m, None)],
        None => Seq::empty(),
    }
}

/// The matching of a scope: the nodes in order, then (under strict
/// matching) a problem for every block no node claimed.
pub open spec fn scope_spec(schema: Seq<Node>, doc: Seq<BlockV>, opts: crate::schema::SchemaOpts, path: Seq<Seq<char>>)
    -> (Seq<ProblemV>, Seq<BoundV>)
    decreases schema, 2nat,
{
    let st = scope_fold(schema, doc, opts, path);
    (st.problems + strict_ps(doc, st.claimed, opts, path, doc.len() as int), st.bounds)
}

/// The state after matching the nodes `schema` in order.
pub open spec fn scope_fold(schema: Seq<Node>, doc: Seq<BlockV>, opts: crate::schema::SchemaOpts, path: Seq<Seq<char>>) -> MState
    decreases schema, 1nat,
{
    if schema.len() == 0 {
        MState { claimed: Seq::new(doc.len(), |i: int| false), cursor: 0, problems: Seq::empty(), bounds: Seq::empty() }
    } else {
        node_step(scope_fold(schema.drop_last(), doc, opts, path), schema[schema.len() - 1], doc, opts, path)
    }
}

/// One node matched in a scope's state.
pub open spec fn node_step(st: MState, n: Node, doc: Seq<BlockV>, opts: crate::schema::SchemaOpts, path: Seq<Seq<char>>) -> MState
    decreases n, 1nat,
{
    match n {
        Node::Heading { .. } => heading_step(st, n, doc, opts, path),
        Node::List { .. } => list_step(st, n, doc, opts, path),
        Node::Prose { .. } => prose_step(st, n, doc, opts, path),
    }
}

/// A heading node: the sections it finds (a card problem if their number is
/// wrong); it claims them all when repeated, else only the first, and
/// matches its children inside each claimed section.
pub open spec fn heading_step(st: MState, n: Node, doc: Seq<BlockV>, opts: crate::schema::SchemaOpts, path: Seq<Seq<char>>) -> MState
    decreases n, 0nat,
{
    match n {
        Node::Heading { level, title, head, children } => {
            let ids = heading_ids(doc, st, opts, level, title);
            let ps1 = card_ps(path, n, ids.len(), "section"@);
            let cids = if is_repeated(head.card) { ids } else { ids.take(if ids.len() > 0 { 1 } else { 0 }) };
            let (ps2, secs, cl) = sections_fold(children@, cids, doc, st.claimed, opts, path.push(n.problem_alias_spec()));
            MState {
                claimed: cl,
                cursor: if opts.ordered && cids.len() > 0 { cids[cids.len() - 1] + 1 } else { st.cursor },
                problems: st.problems + ps1 + ps2,
                bounds: st.bounds.push(BoundV::Heading(secs)),
            }
        },
        _ => st,
    }
}

/// The claimed sections in order: each is claimed and the heading's children
/// matched inside it.
pub open spec fn sections_fold(ch: Seq<Node>, ids: Seq<int>, doc: Seq<BlockV>, cl: Seq<bool>, opts: crate::schema::SchemaOpts,
    path: Seq<Seq<char>>) -> (Seq<ProblemV>, Seq<SectionV>, Seq<bool>)
    decreases ch, ids.len() + 3,
{
    if ids.len() == 0 {
        (Seq::empty(), Seq::empty(), cl)
    } else {
        let (ps, secs, c) = sections_fold(ch, ids.drop_last(), doc, cl, opts, path);
        let i = ids[ids.len() - 1];
        let c2 = c.update(i, true);
        match doc[i] {
            BlockV::Section { title, children: sc, .. } => {
                let (cps, cbs) = scope_spec(ch, sc, opts, path);
                (ps + cps, secs.push(SectionV { title, children: cbs }), c2)
            },
            _ => (ps, secs, c2),
        }
    }
}

/// A list node: the first unclaimed list of its style (card problems count
/// its items); each item is checked against the label, stripped of it, and
/// has the node's children matched inside it.
pub open spec fn list_step(st: MState, n: Node, doc: Seq<BlockV>, opts: crate::schema::SchemaOpts, path: Seq<Seq<char>>) -> MState
    decreases n, 0nat,
{
    match n {
        Node::List { style, item, head, children } => {
            let start = if opts.ordered { st.cursor } else { 0 };
            match first_list(doc, st.claimed, start, style) {
                None => MState { problems: st.problems + card_ps(path, n, 0, "item"@), bounds: st.bounds.push(BoundV::List(None)), ..st },
                Some(i) => {
                    let cl = st.claimed.update(i, true);
                    let cursor = if opts.ordered { i + 1 } else { st.cursor };
                    match doc[i] {
                        BlockV::List { items, .. } => {
                            let ps1 = card_ps(path, n, items.len(), "item"@);
                            let (ps2, ibs) = items_fold(children@, items, item, style == ListStyle::Checklist, n, opts, path);
                            MState { claimed: cl, cursor, problems: st.problems + ps1 + ps2, bounds: st.bounds.push(BoundV::List(Some(ibs))) }
                        },
                        _ => MState { claimed: cl, cursor, problems: st.problems, bounds: st.bounds.push(BoundV::List(None)) },
                    }
                },
            }
        },
        _ => st,
    }
}

/// The problem of an item its node's label does not admit.
pub open spec fn label_ps(path: Seq<Seq<char>>, n: Node, label: Option<Match>, t: Seq<char>, sp: Span) -> Seq<ProblemV> {
    match label {
        Some(m) => if !matches_text_spec(m, t) {
            seq![problem_spec(path, n, "item does not match "@ + describe_spec(m) + ": "@ + t, Some(sp))]
        } else {
            Seq::empty()
        },
        None => Seq::empty(),
    }
}

/// The items of a matched list, in order.
pub open spec fn items_fold(ch: Seq<Node>, items: Seq<ItemV>, label: Option<Match>, checklist: bool, n: Node,
    opts: crate::schema::SchemaOpts, path: Seq<Seq<char>>) -> (Seq<ProblemV>, Seq<ItemBV>)
    decreases ch, items.len() + 3,
{
    if items.len() == 0 {
        (Seq::empty(), Seq::empty())
    } else {
        let (ps, ibs) = items_fold(ch, items.drop_last(), label, checklist, n, opts, path);
        let (ps2, ib) = item_step(ch, items[items.len() - 1], label, checklist, n, opts, path);
        (ps + ps2, ibs.push(ib))
    }
}

/// One item of a matched list: checked against the label, stripped of it,
/// and the node's children matched inside it.
pub open spec fn item_step(ch: Seq<Node>, it: ItemV, label: Option<Match>, checklist: bool, n: Node,
    opts: crate::schema::SchemaOpts, path: Seq<Seq<char>>) -> (Seq<ProblemV>, ItemBV)
    decreases ch, 3nat,
{
    let full_text = item_text_v(it.text, it.checkbox_len, checklist);
    let full_span = item_span_v(it.span, it.checkbox_len, checklist);
    let pl = label_ps(path, n, label, full_text, full_span);
    let (text, tspan) = strip_label_spec(label, full_text, full_span);
    let (cps, cbs) = if ch.len() == 0 {
        (Seq::empty(), Seq::empty())
    } else {
        scope_spec(ch, it.children, opts, path.push(n.problem_alias_spec()))
    };
    (pl + cps, ItemBV { text, checked: it.checked, text_span: tspan, children: cbs })
}

/// A prose node: the first unclaimed paragraph (checked against the label),
/// or a problem if a paragraph is required and none is left.
pub open spec fn prose_step(st: MState, n: Node, doc: Seq<BlockV>, opts: crate::schema::SchemaOpts, path: Seq<Seq<char>>) -> MState {
    match n {
        Node::Prose { text, head } => {
            let start = if opts.ordered { st.cursor } else { 0 };
            match first_para(doc, st.claimed, start) {
                Some(i) => match doc[i] {
                    BlockV::Para { text: t, span } => {
                        let ps = match text {
                            Some(m) => if !matches_text_spec(m, t) {
                                seq![problem_spec(path, n, "paragraph does not match "@ + describe_spec(m), Some(span))]
                            } else {
                                Seq::empty()
                            },
                            None => Seq::empty(),
                        };
                        MState {
                            claimed: st.claimed.update(i, true),
                            cursor: if opts.ordered { i + 1 } else { st.cursor },
                            problems: st.problems + ps,
                            bounds: st.bounds.push(BoundV::Prose(Some((t, span)))),
                        }
                    },
                    _ => st,
                },
                None => MState {
                    problems: st.problems + if presence_required_spec(head.card) {
                        seq![problem_spec(path, n, "missing required paragraph"@, None)]
                    } else {
                        Seq::empty()
                    },
                    bounds: st.bounds.push(BoundV::Prose(None)),
                    ..st
                },
            }
        },
        _ => st,
    }
}

/// Under strict matching, a problem (at the scope's path) for each of the
/// first `k` blocks that no node claimed.
pub open spec fn strict_ps(doc: Seq<BlockV>, cl: Seq<bool>, opts: crate::schema::SchemaOpts, path: Seq<Seq<char>>, k: int) -> Seq<ProblemV>
    decreases k,
{
    if !opts.strict || k <= 0 {
        Seq::empty()
    } else {
        let ps = strict_ps(doc, cl, opts, path, k - 1);
        if !cl[k - 1] {
            let (label, span) = block_desc_spec(doc[k - 1]);
            ps.push(ProblemV { path, message: "unexpected "@ + label, span })
        } else {
            ps
        }
    }
}


/// Strict matching reports each block no node claimed, once, and nothing
/// for a claimed one; lax matching reports none.
pub proof fn law_strict_reports_unclaimed(doc: Seq<BlockV>, cl: Seq<bool>, opts: crate::schema::SchemaOpts, path: Seq<Seq<char>>, k: int)
    requires
        0 <= k <= cl.len(),
    ensures
        strict_ps(doc, cl, opts, path, k).len() == if opts.strict { cl.take(k).filter(|b: bool| !b).len() } else { 0 },
    decreases k,
{
    let pred = |b: bool| !b;
    if k == 0 {
        assert(cl.take(0).filter(pred) =~= Seq::<bool>::empty());
    } else {
        law_strict_reports_unclaimed(doc, cl, opts, path, k - 1);
        assert(cl.take(k - 1).push(cl[k - 1]) =~= cl.take(k));
        cl.take(k - 1).lemma_filter_push(cl[k - 1], pred);
    }
}

// ---- the matching --------------------------------------------------------------------------

pub proof fn lemma_problems_concat(a: Seq<Problem>, x: Seq<ProblemV>, b: Seq<Problem>, y: Seq<ProblemV>)
    requires
        problems_are(a, x),
        problems_are(b, y),
    ensures
        problems_are(a + b, x + y),
{
    assert forall|k: int| 0 <= k < (x + y).len() implies problem_is(#[trigger] (a + b)[k], (x + y)[k]) by {
        if k < a.len() {
            assert(problem_is(a[k], x[k]));
        } else {
            assert(problem_is(b[k - a.len()], y[k - a.len()]));
        }
    }
}

pub proof fn lemma_problems_push(a: Seq<Problem>, x: Seq<ProblemV>, p: Problem, v: ProblemV)
    requires
        problems_are(a, x),
        problem_is(p, v),
    ensures
        problems_are(a.push(p), x.push(v)),
{
    assert forall|k: int| 0 <= k < x.len() + 1 implies problem_is(#[trigger] a.push(p)[k], x.push(v)[k]) by {
        if k < a.len() {
            assert(problem_is(a[k], x[k]));
        }
    }
}

pub proof fn lemma_bounds_push(a: Seq<Bound>, x: Seq<BoundV>, b: Bound, v: BoundV)
    requires
        bounds_are(a, x),
        bound_is(b, v),
    ensures
        bounds_are(a.push(b), x.push(v)),
{
    assert forall|k: int| 0 <= k < x.len() + 1 implies bound_is(#[trigger] a.push(b)[k], x.push(v)[k]) by {
        if k < a.len() {
            assert(bound_is(a[k], x[k]));
        }
    }
}

/// The matcher's state within one scope (see [`MState`]).
pub struct MatchState {
    pub claimed: Vec<bool>,
    pub cursor: usize,
    pub problems: Vec<Problem>,
    pub bounds: Vec<Bound>,
}

pub open spec fn state_is(s: MatchState, v: MState) -> bool {
    &&& s.claimed@ == v.claimed
    &&& s.cursor == v.cursor
    &&& problems_are(s.problems@, v.problems)
    &&& bounds_are(s.bounds@, v.bounds)
}

/// A state's claims cover the scope's blocks and its cursor is within them.
pub open spec fn state_wf(v: MState, doc: Seq<BlockV>) -> bool {
    &&& v.claimed.len() == doc.len()
    &&& 0 <= v.cursor <= doc.len()
}

fn find_section(doc: &Vec<Block>, Ghost(dv): Ghost<Seq<BlockV>>, cl: &Vec<bool>, start: usize, level: u8, title: &Match) -> (r: Option<usize>)
    requires
        blocks_are(doc@, dv),
        cl@.len() == dv.len(),
        start <= dv.len(),
    ensures
        match first_section(dv, cl@, start as int, level, *title) {
            Some(i) => r == Some(i as usize) && start <= i < dv.len(),
            None => r is None,
        },
{
    let mut i = start;
    while i < doc.len()
        invariant
            blocks_are(doc@, dv),
            cl@.len() == dv.len(),
            start <= i <= dv.len(),
            first_section(dv, cl@, start as int, level, *title) == first_section(dv, cl@, i as int, level, *title),
        decreases dv.len() - i,
    {
        assert(block_is(doc@[i as int], dv[i as int]));
        if !cl[i] && is_section(&doc[i], Ghost(dv[i as int]), level, title) {
            return Some(i);
        }
        i = i + 1;
    }
    None
}

fn section_run(doc: &Vec<Block>, Ghost(dv): Ghost<Seq<BlockV>>, cl: &Vec<bool>, from: usize, level: u8, title: &Match) -> (r: usize)
    requires
        blocks_are(doc@, dv),
        cl@.len() == dv.len(),
        from <= dv.len(),
    ensures
        r == section_run_end(dv, cl@, from as int, level, *title),
        from <= r <= dv.len(),
{
    let mut i = from;
    while i < doc.len() && !cl[i] && is_section(&doc[i], Ghost(dv[i as int]), level, title)
        invariant
            blocks_are(doc@, dv),
            cl@.len() == dv.len(),
            from <= i <= dv.len(),
            section_run_end(dv, cl@, from as int, level, *title) == section_run_end(dv, cl@, i as int, level, *title),
        decreases dv.len() - i,
    {
        i = i + 1;
    }
    proof {
        if i < dv.len() {
            assert(block_is(doc@[i as int], dv[i as int]));
        }
    }
    i
}

pub open spec fn ids_are(v: Seq<usize>, s: Seq<int>) -> bool {
    &&& v.len() == s.len()
    &&& forall|k: int| 0 <= k < s.len() ==> v[k] == s[k]
}

fn every_section(doc: &Vec<Block>, Ghost(dv): Ghost<Seq<BlockV>>, cl: &Vec<bool>, level: u8, title: &Match) -> (r: Vec<usize>)
    requires
        blocks_are(doc@, dv),
        cl@.len() == dv.len(),
    ensures
        ids_are(r@, all_sections(dv, cl@, 0, level, *title)),
        forall|k: int| 0 <= k < r@.len() ==> r@[k] < dv.len(),
{
    let mut out: Vec<usize> = Vec::new();
    let mut i: usize = 0;
    let ghost all = all_sections(dv, cl@, 0, level, *title);
    while i < doc.len()
        invariant
            blocks_are(doc@, dv),
            cl@.len() == dv.len(),
            i <= dv.len(),
            all == all_sections(dv, cl@, 0, level, *title),
            forall|k: int| 0 <= k < out@.len() ==> out@[k] < dv.len(),
            all.len() == out@.len() + all_sections(dv, cl@, i as int, level, *title).len(),
            forall|k: int| 0 <= k < out@.len() ==> out@[k] == all[k],
            forall|k: int| 0 <= k < all_sections(dv, cl@, i as int, level, *title).len()
                ==> all[out@.len() + k] == #[trigger] all_sections(dv, cl@, i as int, level, *title)[k],
        decreases dv.len() - i,
    {
        assert(block_is(doc@[i as int], dv[i as int]));
        let ghost rest = all_sections(dv, cl@, i as int, level, *title);
        let ghost next = all_sections(dv, cl@, i + 1, level, *title);
        if !cl[i] && is_section(&doc[i], Ghost(dv[i as int]), level, title) {
            assert(rest == seq![i as int] + next);
            assert(all[out@.len() as int] == rest[0]);
            out.push(i);
            assert forall|k: int| 0 <= k < next.len() implies all[out@.len() + k] == #[trigger] next[k] by {
                assert(rest[k + 1] == next[k]);
            }
        } else {
            assert(rest == next);
        }
        i = i + 1;
    }
    out
}

fn find_list(doc: &Vec<Block>, Ghost(dv): Ghost<Seq<BlockV>>, cl: &Vec<bool>, start: usize, style: ListStyle) -> (r: Option<usize>)
    requires
        blocks_are(doc@, dv),
        cl@.len() == dv.len(),
        start <= dv.len(),
    ensures
        match first_list(dv, cl@, start as int, style) {
            Some(i) => r == Some(i as usize) && start <= i < dv.len(),
            None => r is None,
        },
{
    let mut i = start;
    while i < doc.len()
        invariant
            blocks_are(doc@, dv),
            cl@.len() == dv.len(),
            start <= i <= dv.len(),
            first_list(dv, cl@, start as int, style) == first_list(dv, cl@, i as int, style),
        decreases dv.len() - i,
    {
        assert(block_is(doc@[i as int], dv[i as int]));
        if !cl[i] && is_list(&doc[i], Ghost(dv[i as int]), style) {
            return Some(i);
        }
        i = i + 1;
    }
    None
}

fn find_para(doc: &Vec<Block>, Ghost(dv): Ghost<Seq<BlockV>>, cl: &Vec<bool>, start: usize) -> (r: Option<usize>)
    requires
        blocks_are(doc@, dv),
        cl@.len() == dv.len(),
        start <= dv.len(),
    ensures
        match first_para(dv, cl@, start as int) {
            Some(i) => r == Some(i as usize) && start <= i < dv.len(),
            None => r is None,
        },
{
    let mut i = start;
    while i < doc.len()
        invariant
            blocks_are(doc@, dv),
            cl@.len() == dv.len(),
            start <= i <= dv.len(),
            first_para(dv, cl@, start as int) == first_para(dv, cl@, i as int),
        decreases dv.len() - i,
    {
        assert(block_is(doc@[i as int], dv[i as int]));
        let is_para = match &doc[i] {
            Block::Para { .. } => true,
            _ => false,
        };
        if !cl[i] && is_para {
            return Some(i);
        }
        i = i + 1;
    }
    None
}

fn child_path(path: &Vec<String>, n: &Node) -> (r: Vec<String>)
    ensures
        strings_v(r@) == strings_v(path@).push(n.problem_alias_spec()),
{
    let mut p = clone_path(path);
    let ghost before = strings_v(p@);
    p.push(n.problem_alias());
    assert(strings_v(p@) =~= before.push(n.problem_alias_spec()));
    p
}

fn match_prose(st: &mut MatchState, Ghost(v0): Ghost<MState>, n: &Node, doc: &Vec<Block>, Ghost(dv): Ghost<Seq<BlockV>>,
    opts: crate::schema::SchemaOpts, path: &Vec<String>)
    requires
        state_is(*old(st), v0),
        state_wf(v0, dv),
        blocks_are(doc@, dv),
        *n is Prose,
    ensures
        state_is(*final(st), prose_step(v0, *n, dv, opts, strings_v(path@))),
        state_wf(prose_step(v0, *n, dv, opts, strings_v(path@)), dv),
{
    let ghost pv = strings_v(path@);
    let dl = doc.len();
    if let Node::Prose { text, head } = n {
        let start = if opts.ordered { st.cursor } else { 0 };
        match find_para(doc, Ghost(dv), &st.claimed, start) {
            Some(i) => {
                assert(block_is(doc@[i as int], dv[i as int]));
                if let Block::Para { text: t, span } = &doc[i] {
                    st.claimed.set(i, true);
                    let ghost vps = st.problems@;
                    match text {
                        Some(m) => {
                            if !matches_text(m, t) {
                                let mut msg = String::new();
                                push_str(&mut msg, "paragraph does not match ");
                                let d = describe(m);
                                push_str(&mut msg, d.as_str());
                                let p = problem(path, n, msg, Some(*span));
                                st.problems.push(p);
                                proof {
                                    lemma_problems_push(vps, v0.problems, p, problem_spec(pv, *n, "paragraph does not match "@ + describe_spec(*m), Some(*span)));
                                }
                            } else {
                                assert(v0.problems + Seq::<ProblemV>::empty() =~= v0.problems);
                            }
                        },
                        None => {
                            assert(v0.problems + Seq::<ProblemV>::empty() =~= v0.problems);
                        },
                    }
                    if opts.ordered {
                        st.cursor = i + 1;
                    }
                    let ghost vb = st.bounds@;
                    let b = Bound::Prose(Some((t.clone(), *span)));
                    st.bounds.push(b);
                    proof {
                        lemma_bounds_push(vb, v0.bounds, b, BoundV::Prose(Some((t@, *span))));
                        let want = prose_step(v0, *n, dv, opts, pv);
                        assert(first_para(dv, v0.claimed, start as int) == Some(i as int));
                        assert(dv[i as int] == BlockV::Para { text: t@, span: *span });
                        assert(st.claimed@ == want.claimed);
                        assert(st.cursor == want.cursor);
                        assert(bounds_are(st.bounds@, want.bounds));
                        assert(problems_are(st.problems@, want.problems));
                    }
                }
            },
            None => {
                let ghost vps = st.problems@;
                if presence_required(head.card) {
                    let mut msg = String::new();
                    push_str(&mut msg, "missing required paragraph");
                    let p = problem(path, n, msg, None);
                    st.problems.push(p);
                    proof {
                        lemma_problems_push(vps, v0.problems, p, problem_spec(pv, *n, "missing required paragraph"@, None));
                    }
                } else {
                    assert(v0.problems + Seq::<ProblemV>::empty() =~= v0.problems);
                }
                let ghost vb = st.bounds@;
                let b = Bound::Prose(None);
                st.bounds.push(b);
                proof {
                    lemma_bounds_push(vb, v0.bounds, b, BoundV::Prose(None));
                }
            },
        }
    }
}


fn card_problem_push(st: &mut MatchState, Ghost(v0): Ghost<MState>, path: &Vec<String>, n: &Node, count: usize, unit: &str)
    requires
        problems_are(old(st).problems@, v0.problems),
    ensures
        problems_are(final(st).problems@, v0.problems + card_ps(strings_v(path@), *n, count as nat, unit@)),
        final(st).claimed == old(st).claimed,
        final(st).cursor == old(st).cursor,
        final(st).bounds == old(st).bounds,
{
    let card = n.card();
    match card_problem(card, count, unit) {
        Some(m) => {
            let ghost vps = st.problems@;
            let p = problem(path, n, m, None);
            st.problems.push(p);
            proof {
                lemma_problems_push(vps, v0.problems, p, problem_spec(strings_v(path@), *n, m@, None));
            }
        },
        None => {
            assert(v0.problems + Seq::<ProblemV>::empty() =~= v0.problems);
        },
    }
}

/// The children of a heading node matched inside one of its sections.
fn match_section(n: &Node, sc: &Vec<Block>, Ghost(scv): Ghost<Seq<BlockV>>, opts: crate::schema::SchemaOpts,
    cpath: &Vec<String>) -> (r: (Vec<Problem>, Vec<Bound>))
    requires
        blocks_are(sc@, scv),
        *n is Heading,
    ensures
        problems_are(r.0@, scope_spec(n.children_of(), scv, opts, strings_v(cpath@)).0),
        bounds_are(r.1@, scope_spec(n.children_of(), scv, opts, strings_v(cpath@)).1),
    decreases *n, 0nat,
{
    match n {
        Node::Heading { children, .. } => match_scope(children, sc, Ghost(scv), opts, cpath),
        _ => (Vec::new(), Vec::new()),
    }
}

fn match_heading(st: &mut MatchState, Ghost(v0): Ghost<MState>, n: &Node, doc: &Vec<Block>, Ghost(dv): Ghost<Seq<BlockV>>,
    opts: crate::schema::SchemaOpts, path: &Vec<String>)
    requires
        state_is(*old(st), v0),
        state_wf(v0, dv),
        blocks_are(doc@, dv),
        *n is Heading,
    ensures
        state_is(*final(st), heading_step(v0, *n, dv, opts, strings_v(path@))),
        state_wf(heading_step(v0, *n, dv, opts, strings_v(path@)), dv),
    decreases *n, 1nat,
{
    let ghost pv = strings_v(path@);
    let dl = doc.len();
    if let Node::Heading { level, title, head, children } = n {
        let ghost want = heading_step(v0, *n, dv, opts, pv);
        let ids: Vec<usize> = if opts.ordered {
            match find_section(doc, Ghost(dv), &st.claimed, st.cursor, *level, title) {
                Some(f) => {
                    let e = section_run(doc, Ghost(dv), &st.claimed, f + 1, *level, title);
                    let mut v: Vec<usize> = Vec::new();
                    let mut j = f;
                    while j < e
                        invariant
                            f <= j <= e,
                            e <= dl,
                            v@.len() == j - f,
                            forall|k: int| 0 <= k < v@.len() ==> v@[k] == f + k,
                        decreases e - j,
                    {
                        v.push(j);
                        j = j + 1;
                    }
                    assert(ids_are(v@, range_seq(f as int, e as int)));
                    v
                },
                None => Vec::new(),
            }
        } else {
            every_section(doc, Ghost(dv), &st.claimed, *level, title)
        };
        let ghost idv = heading_ids(dv, v0, opts, *level, *title);
        assert(ids_are(ids@, idv));
        assert(forall|k: int| 0 <= k < ids@.len() ==> ids@[k] < dv.len());
        card_problem_push(st, Ghost(v0), path, n, ids.len(), "section");
        let ghost ps1 = card_ps(pv, *n, ids@.len() as nat, "section"@);
        let cids: Vec<usize> = if repeated(head.card) || ids.len() == 0 {
            ids
        } else {
            let mut v: Vec<usize> = Vec::new();
            v.push(ids[0]);
            v
        };
        let ghost cidv = if is_repeated(head.card) { idv } else { idv.take(if idv.len() > 0 { 1 } else { 0 }) };
        assert(ids_are(cids@, cidv));
        let cpath = child_path(path, n);
        let ghost cpv = strings_v(cpath@);
        let mut secs: Vec<SectionB> = Vec::new();
        let mut k: usize = 0;
        let ghost pbase = v0.problems + ps1;
        assert(cidv.take(0) =~= Seq::<int>::empty());
        while k < cids.len()
            invariant
                blocks_are(doc@, dv),
                dl == dv.len(),
                ids_are(cids@, cidv),
                forall|q: int| 0 <= q < cids@.len() ==> cids@[q] < dv.len(),
                k <= cids@.len(),
                st.cursor == v0.cursor,
                bounds_are(st.bounds@, v0.bounds),
                pv == strings_v(path@),
                cpv == strings_v(cpath@),
                cpv == pv.push(n.problem_alias_spec()),
                *n == (Node::Heading { level: *level, title: *title, head: *head, children: *children }),
                ({
                    let (ps, sv, cl) = sections_fold(children@, cidv.take(k as int), dv, v0.claimed, opts, cpv);
                    &&& st.claimed@ == cl
                    &&& problems_are(st.problems@, pbase + ps)
                    &&& secs@.len() == sv.len()
                    &&& forall|q: int| 0 <= q < sv.len() ==> section_is(#[trigger] secs@[q], sv[q])
                }),
                cl_len_ok(v0.claimed, dv),
            decreases cids@.len() - k,
        {
            let i = cids[k];
            let ghost before = sections_fold(children@, cidv.take(k as int), dv, v0.claimed, opts, cpv);
            proof {
                assert(cidv.take(k + 1).drop_last() =~= cidv.take(k as int));
                assert(cidv.take(k + 1)[k as int] == i as int);
                assert forall|q: int| 0 <= q < cidv.take(k as int).len() implies 0 <= #[trigger] cidv.take(k as int)[q] < v0.claimed.len() by {
                    assert(cidv.take(k as int)[q] == cids@[q]);
                }
                lemma_sections_claimed_len(children@, cidv.take(k as int), dv, v0.claimed, opts, cpv);
            }
            st.claimed.set(i, true);
            assert(block_is(doc@[i as int], dv[i as int]));
            match &doc[i] {
                Block::Section { title: t, children: sc, .. } => {
                    let ghost scv = dv[i as int]->Section_children;
                    let (mut cps, cbs) = match_section(n, sc, Ghost(scv), opts, &cpath);
                    let ghost vps = st.problems@;
                    let ghost cpsv = cps@;
                    st.problems.append(&mut cps);
                    let sec = SectionB { title: t.clone(), children: cbs };
                    let ghost sv0 = secs@;
                    secs.push(sec);
                    proof {
                        let (cpsv2, cbsv) = scope_spec(children@, scv, opts, cpv);
                        lemma_problems_concat(vps, pbase + before.0, cpsv, cpsv2);
                        assert(pbase + before.0 + cpsv2 =~= pbase + (before.0 + cpsv2));
                        let after = sections_fold(children@, cidv.take(k + 1), dv, v0.claimed, opts, cpv);
                        assert(after.1 == before.1.push(SectionV { title: t@, children: cbsv }));
                        assert forall|q: int| 0 <= q < after.1.len() implies section_is(#[trigger] secs@[q], after.1[q]) by {
                            if q < sv0.len() {
                                assert(section_is(sv0[q], before.1[q]));
                            }
                        }
                    }
                },
                _ => {
                    let ghost after = sections_fold(children@, cidv.take(k + 1), dv, v0.claimed, opts, cpv);
                    assert(after.0 == before.0 && after.1 == before.1);
                },
            }
            k = k + 1;
        }
        assert(cidv.take(k as int) =~= cidv);
        proof {
            assert forall|q: int| 0 <= q < cidv.len() implies 0 <= #[trigger] cidv[q] < v0.claimed.len() by {
                assert(cidv[q] == cids@[q]);
            }
            lemma_sections_claimed_len(children@, cidv, dv, v0.claimed, opts, cpv);
        }
        if opts.ordered && cids.len() > 0 {
            st.cursor = cids[cids.len() - 1] + 1;
        }
        let ghost vb = st.bounds@;
        let ghost sv = sections_fold(children@, cidv, dv, v0.claimed, opts, cpv).1;
        let b = Bound::Heading(secs);
        st.bounds.push(b);
        proof {
            lemma_bounds_push(vb, v0.bounds, b, BoundV::Heading(sv));
            assert(pbase + sections_fold(children@, cidv, dv, v0.claimed, opts, cpv).0 =~= v0.problems + ps1 + sections_fold(children@, cidv, dv, v0.claimed, opts, cpv).0);
        }
    }
}

/// The claims cover the scope's blocks.
pub open spec fn cl_len_ok(cl: Seq<bool>, doc: Seq<BlockV>) -> bool {
    cl.len() == doc.len()
}

pub proof fn lemma_sections_claimed_len(ch: Seq<Node>, ids: Seq<int>, doc: Seq<BlockV>, cl: Seq<bool>, opts: crate::schema::SchemaOpts,
    path: Seq<Seq<char>>)
    requires
        forall|k: int| 0 <= k < ids.len() ==> 0 <= #[trigger] ids[k] < cl.len(),
    ensures
        sections_fold(ch, ids, doc, cl, opts, path).2.len() == cl.len(),
    decreases ids.len(),
{
    if ids.len() > 0 {
        lemma_sections_claimed_len(ch, ids.drop_last(), doc, cl, opts, path);
    }
}


/// One item of a matched list (see [`item_step`]).
fn match_item(it: &Item, Ghost(itv): Ghost<ItemV>, n: &Node, checklist: bool, opts: crate::schema::SchemaOpts,
    path: &Vec<String>, cpath: &Vec<String>) -> (r: (Vec<Problem>, ItemB))
    requires
        item_is(*it, itv),
        *n is List,
        checklist == (n->List_style == ListStyle::Checklist),
        strings_v(cpath@) == strings_v(path@).push(n.problem_alias_spec()),
    ensures
        ({
            let (ps, ib) = item_step(n.children_of(), itv, n->List_item, checklist, *n, opts, strings_v(path@));
            problems_are(r.0@, ps) && itemb_is(r.1, ib)
        }),
    decreases *n, 0nat,
{
    let ghost pv = strings_v(path@);
    let mut problems: Vec<Problem> = Vec::new();
    if let Node::List { style, item, head, children } = n {
        let full_text = it.text_for(checklist);
        let full_span = it.span_for(checklist);
        let ghost pl = label_ps(pv, *n, *item, full_text@, full_span);
        match item {
            Some(m) => {
                if !matches_text(m, &full_text) {
                    let mut msg = String::new();
                    push_str(&mut msg, "item does not match ");
                    let d = describe(m);
                    push_str(&mut msg, d.as_str());
                    push_str(&mut msg, ": ");
                    push_str(&mut msg, full_text.as_str());
                    let p = problem(path, n, msg, Some(full_span));
                    problems.push(p);
                    proof {
                        lemma_problems_push(Seq::empty(), Seq::empty(), p, pl[0]);
                        assert(Seq::<ProblemV>::empty().push(pl[0]) =~= pl);
                        assert(Seq::<Problem>::empty().push(p) =~= problems@);
                    }
                } else {
                    assert(problems_are(problems@, pl));
                }
            },
            None => {
                assert(problems_are(problems@, pl));
            },
        }
        let (text, tspan) = strip_label(item, &full_text, full_span);
        let ch: Vec<Bound> = if children.len() == 0 {
            assert(pl + Seq::<ProblemV>::empty() =~= pl);
            Vec::new()
        } else {
            let (mut cps, cbs) = match_scope(children, &it.children, Ghost(itv.children), opts, cpath);
            let ghost vps = problems@;
            let ghost cpsv = cps@;
            problems.append(&mut cps);
            proof {
                let (cpsv2, cbsv) = scope_spec(children@, itv.children, opts, strings_v(cpath@));
                lemma_problems_concat(vps, pl, cpsv, cpsv2);
            }
            cbs
        };
        (problems, ItemB { text, checked: it.checked, text_span: tspan, children: ch })
    } else {
        (problems, ItemB { text: String::new(), checked: None, text_span: Span { start: 0, end: 0 }, children: Vec::new() })
    }
}

fn match_list(st: &mut MatchState, Ghost(v0): Ghost<MState>, n: &Node, doc: &Vec<Block>, Ghost(dv): Ghost<Seq<BlockV>>,
    opts: crate::schema::SchemaOpts, path: &Vec<String>)
    requires
        state_is(*old(st), v0),
        state_wf(v0, dv),
        blocks_are(doc@, dv),
        *n is List,
    ensures
        state_is(*final(st), list_step(v0, *n, dv, opts, strings_v(path@))),
        state_wf(list_step(v0, *n, dv, opts, strings_v(path@)), dv),
    decreases *n, 1nat,
{
    let ghost pv = strings_v(path@);
    let dl = doc.len();
    if let Node::List { style, item, head, children } = n {
        let start = if opts.ordered { st.cursor } else { 0 };
        let checklist = match style {
            ListStyle::Checklist => true,
            _ => false,
        };
        assert(checklist == (*style == ListStyle::Checklist));
        match find_list(doc, Ghost(dv), &st.claimed, start, *style) {
            None => {
                card_problem_push(st, Ghost(v0), path, n, 0, "item");
                let ghost vb = st.bounds@;
                let b = Bound::List(None);
                st.bounds.push(b);
                proof {
                    lemma_bounds_push(vb, v0.bounds, b, BoundV::List(None));
                }
            },
            Some(i) => {
                st.claimed.set(i, true);
                assert(block_is(doc@[i as int], dv[i as int]));
                match &doc[i] {
                    Block::List { items, .. } => {
                        let ghost iv = dv[i as int]->List_items;
                        card_problem_push(st, Ghost(v0), path, n, items.len(), "item");
                        let ghost pbase = v0.problems + card_ps(pv, *n, items@.len() as nat, "item"@);
                        let cpath = child_path(path, n);
                        let mut ibs: Vec<ItemB> = Vec::new();
                        let mut k: usize = 0;
                        assert(iv.take(0) =~= Seq::<ItemV>::empty());
                        assert(pbase + Seq::<ProblemV>::empty() =~= pbase);
                        while k < items.len()
                            invariant
                                k <= items@.len(),
                                items@.len() == iv.len(),
                                forall|q: int| 0 <= q < iv.len() ==> item_is(#[trigger] items@[q], iv[q]),
                                *n == (Node::List { style: *style, item: *item, head: *head, children: *children }),
                                checklist == (*style == ListStyle::Checklist),
                                pv == strings_v(path@),
                                strings_v(cpath@) == pv.push(n.problem_alias_spec()),
                                bounds_are(st.bounds@, v0.bounds),
                                st.cursor == v0.cursor,
                                st.claimed@ == v0.claimed.update(i as int, true),
                                ({
                                    let (ps, bv) = items_fold(children@, iv.take(k as int), *item, checklist, *n, opts, pv);
                                    &&& problems_are(st.problems@, pbase + ps)
                                    &&& ibs@.len() == bv.len()
                                    &&& forall|q: int| 0 <= q < bv.len() ==> itemb_is(#[trigger] ibs@[q], bv[q])
                                }),
                            decreases items@.len() - k,
                        {
                            let ghost before = items_fold(children@, iv.take(k as int), *item, checklist, *n, opts, pv);
                            assert(iv.take(k + 1).drop_last() =~= iv.take(k as int));
                            assert(iv.take(k + 1)[k as int] == iv[k as int]);
                            assert(item_is(items@[k as int], iv[k as int]));
                            let (mut ips, ib) = match_item(&items[k], Ghost(iv[k as int]), n, checklist, opts, path, &cpath);
                            let ghost step = item_step(children@, iv[k as int], *item, checklist, *n, opts, pv);
                            let ghost vps = st.problems@;
                            let ghost ipsv = ips@;
                            st.problems.append(&mut ips);
                            let ghost ib0 = ibs@;
                            ibs.push(ib);
                            proof {
                                lemma_problems_concat(vps, pbase + before.0, ipsv, step.0);
                                let after = items_fold(children@, iv.take(k + 1), *item, checklist, *n, opts, pv);
                                assert(pbase + after.0 =~= pbase + before.0 + step.0);
                                assert forall|q: int| 0 <= q < after.1.len() implies itemb_is(#[trigger] ibs@[q], after.1[q]) by {
                                    if q < ib0.len() {
                                        assert(itemb_is(ib0[q], before.1[q]));
                                    }
                                }
                            }
                            k = k + 1;
                        }
                        assert(iv.take(k as int) =~= iv);
                        if opts.ordered {
                            st.cursor = i + 1;
                        }
                        let ghost vb = st.bounds@;
                        let ghost bv = items_fold(children@, iv, *item, checklist, *n, opts, pv).1;
                        let b = Bound::List(Some(ibs));
                        st.bounds.push(b);
                        proof {
                            lemma_bounds_push(vb, v0.bounds, b, BoundV::List(Some(bv)));
                            assert(pbase + items_fold(children@, iv, *item, checklist, *n, opts, pv).0 =~= v0.problems + card_ps(pv, *n, items@.len() as nat, "item"@) + items_fold(children@, iv, *item, checklist, *n, opts, pv).0);
                        }
                    },
                    _ => {
                        if opts.ordered {
                            st.cursor = i + 1;
                        }
                        let ghost vb = st.bounds@;
                        let b = Bound::List(None);
                        st.bounds.push(b);
                        proof {
                            lemma_bounds_push(vb, v0.bounds, b, BoundV::List(None));
                        }
                    },
                }
            },
        }
    }
}

/// Matches the schema nodes of one scope against its blocks (see
/// [`scope_spec`]): the problems found and the binding of each node.
pub fn match_scope(schema: &Vec<Node>, doc: &Vec<Block>, Ghost(dv): Ghost<Seq<BlockV>>, opts: crate::schema::SchemaOpts,
    path: &Vec<String>) -> (r: (Vec<Problem>, Vec<Bound>))
    requires
        blocks_are(doc@, dv),
    ensures
        problems_are(r.0@, scope_spec(schema@, dv, opts, strings_v(path@)).0),
        bounds_are(r.1@, scope_spec(schema@, dv, opts, strings_v(path@)).1),
    decreases schema, 2nat,
{
    let ghost pv = strings_v(path@);
    let dl = doc.len();
    let mut claimed: Vec<bool> = Vec::new();
    let mut j: usize = 0;
    while j < dl
        invariant
            j <= dl,
            claimed@ =~= Seq::new(j as nat, |q: int| false),
        decreases dl - j,
    {
        claimed.push(false);
        j = j + 1;
    }
    let mut st = MatchState { claimed, cursor: 0, problems: Vec::new(), bounds: Vec::new() };
    let mut k: usize = 0;
    assert(schema@.take(0) =~= Seq::<Node>::empty());
    while k < schema.len()
        invariant
            blocks_are(doc@, dv),
            dl == dv.len(),
            k <= schema@.len(),
            pv == strings_v(path@),
            state_is(st, scope_fold(schema@.take(k as int), dv, opts, pv)),
            state_wf(scope_fold(schema@.take(k as int), dv, opts, pv), dv),
        decreases schema@.len() - k,
    {
        let n = &schema[k];
        let ghost vk = scope_fold(schema@.take(k as int), dv, opts, pv);
        assert(schema@.take(k + 1).drop_last() =~= schema@.take(k as int));
        assert(schema@.take(k + 1)[k as int] == *n);
        assert(scope_fold(schema@.take(k + 1), dv, opts, pv) == node_step(vk, *n, dv, opts, pv));
        match n {
            Node::Heading { .. } => match_heading(&mut st, Ghost(vk), n, doc, Ghost(dv), opts, path),
            Node::List { .. } => match_list(&mut st, Ghost(vk), n, doc, Ghost(dv), opts, path),
            Node::Prose { .. } => match_prose(&mut st, Ghost(vk), n, doc, Ghost(dv), opts, path),
        }
        k = k + 1;
    }
    assert(schema@.take(k as int) =~= schema@);
    let ghost fin = scope_fold(schema@, dv, opts, pv);
    let mut problems = st.problems;
    if opts.strict {
        let mut i: usize = 0;
        while i < dl
            invariant
                blocks_are(doc@, dv),
                dl == dv.len(),
                i <= dl,
                opts.strict,
                pv == strings_v(path@),
                st.claimed@ == fin.claimed,
                fin.claimed.len() == dv.len(),
                problems_are(problems@, fin.problems + strict_ps(dv, fin.claimed, opts, pv, i as int)),
            decreases dl - i,
        {
            let ghost vps = problems@;
            assert(block_is(doc@[i as int], dv[i as int]));
            if !st.claimed[i] {
                let (label, span) = block_desc(&doc[i], Ghost(dv[i as int]));
                let mut msg = String::new();
                push_str(&mut msg, "unexpected ");
                push_str(&mut msg, label);
                let p = Problem { path: clone_path(path), message: msg, span };
                problems.push(p);
                proof {
                    let (lv, sv) = block_desc_spec(dv[i as int]);
                    lemma_problems_push(vps, fin.problems + strict_ps(dv, fin.claimed, opts, pv, i as int), p,
                        ProblemV { path: pv, message: "unexpected "@ + lv, span: sv });
                    assert(fin.problems + strict_ps(dv, fin.claimed, opts, pv, i + 1) =~= (fin.problems + strict_ps(dv, fin.claimed, opts, pv, i as int)).push(ProblemV { path: pv, message: "unexpected "@ + lv, span: sv }));
                }
            }
            i = i + 1;
        }
    } else {
        assert(fin.problems + strict_ps(dv, fin.claimed, opts, pv, dv.len() as int) =~= fin.problems);
    }
    (problems, st.bounds)
}


// ---- extraction --------------------------------------------------------------------------

/// Whether a list node extracts as a single string: bare or `?`, childless,
/// not a checklist.
pub open spec fn is_scalar_list_spec(n: Node) -> bool {
    match n {
        Node::List { style, head, children, .. } => (head.card == Card::Required || head.card == Card::Optional)
            && children@.len() == 0 && style != ListStyle::Checklist,
        _ => false,
    }
}

pub fn is_scalar_list(n: &Node) -> (b: bool)
    ensures
        b == is_scalar_list_spec(*n),
{
    match n {
        Node::List { style, head, children, .. } => {
            let single = match head.card {
                Card::Required | Card::Optional => true,
                _ => false,
            };
            let cl = match style {
                ListStyle::Checklist => true,
                _ => false,
            };
            single && children.len() == 0 && !cl
        },
        _ => false,
    }
}

/// The captures of the nodes `sch` (bound to `bs`) inserted, in order, into
/// the object `acc`: each captured node under its alias; uncaptured nodes
/// contribute nothing.
pub open spec fn json_into(sch: Seq<Node>, bs: Seq<BoundV>, acc: Seq<(Seq<char>, JsonV)>) -> Seq<(Seq<char>, JsonV)>
    decreases bs, 2nat,
{
    if bs.len() == 0 {
        acc
    } else {
        let a2 = json_into(sch, bs.drop_last(), acc);
        let k = bs.len() - 1;
        if k < sch.len() && sch[k].alias() is Some {
            obj_insert(a2, sch[k].alias()->0, value_of(sch[k], bs[k]))
        } else {
            a2
        }
    }
}

/// The value a node captures: a heading an object per section (an array of
/// them when repeated, else the first or null); a list per its shape (see
/// [`list_json`]); prose its paragraph's text or null.
pub open spec fn value_of(n: Node, b: BoundV) -> JsonV
    decreases b, 2nat,
{
    match b {
        BoundV::Heading(secs) => {
            let rt = n matches Node::Heading { title: Match::Regex(_), .. };
            if is_repeated(n.head_of().card) {
                JsonV::Array(secs_json(n, secs, rt))
            } else if secs.len() > 0 {
                section_json(n, secs[0], rt)
            } else {
                JsonV::Null
            }
        },
        BoundV::List(lb) => list_json(n, lb),
        BoundV::Prose(p) => match p {
            Some((t, _)) => JsonV::Str(t),
            None => JsonV::Null,
        },
    }
}

pub open spec fn secs_json(n: Node, secs: Seq<SectionV>, rt: bool) -> Seq<JsonV>
    decreases secs, 2nat,
{
    if secs.len() == 0 {
        Seq::empty()
    } else {
        secs_json(n, secs.drop_last(), rt).push(section_json(n, secs[secs.len() - 1], rt))
    }
}

/// A section's object: its children's captures, and its title when the
/// heading's title is a regex.
pub open spec fn section_json(n: Node, sec: SectionV, rt: bool) -> JsonV
    decreases sec, 2nat,
{
    let m = json_into(n.children_of(), sec.children, Seq::empty());
    JsonV::Object(if rt { obj_insert(m, "title"@, JsonV::Str(sec.title)) } else { m })
}

/// A list's value: a scalar list its first item's text (or null); any other
/// list an array (empty when no list matched) of its items.
pub open spec fn list_json(n: Node, lb: Option<Seq<ItemBV>>) -> JsonV
    decreases lb, 2nat,
{
    match lb {
        None => if is_scalar_list_spec(n) { JsonV::Null } else { JsonV::Array(Seq::empty()) },
        Some(items) => if is_scalar_list_spec(n) {
            if items.len() > 0 { JsonV::Str(items[0].text) } else { JsonV::Null }
        } else {
            JsonV::Array(items_json(n, items))
        },
    }
}

pub open spec fn items_json(n: Node, items: Seq<ItemBV>) -> Seq<JsonV>
    decreases items, 2nat,
{
    if items.len() == 0 {
        Seq::empty()
    } else {
        items_json(n, items.drop_last()).push(item_json(n, items[items.len() - 1]))
    }
}

/// An item's value: a string for a childless non-checklist node; else an
/// object of `text`, `checked` (checklists) and its children's captures.
pub open spec fn item_json(n: Node, ib: ItemBV) -> JsonV
    decreases ib, 2nat,
{
    let checklist = n matches Node::List { style: ListStyle::Checklist, .. };
    if n.children_of().len() == 0 && !checklist {
        JsonV::Str(ib.text)
    } else {
        let m0 = obj_insert(Seq::empty(), "text"@, JsonV::Str(ib.text));
        let m1 = if checklist {
            obj_insert(m0, "checked"@, JsonV::Bool(match ib.checked { Some(c) => c, None => false }))
        } else {
            m0
        };
        JsonV::Object(json_into(n.children_of(), ib.children, m1))
    }
}

pub proof fn lemma_secs_json_len(n: Node, secs: Seq<SectionV>, rt: bool)
    ensures
        secs_json(n, secs, rt).len() == secs.len(),
    decreases secs.len(),
{
    if secs.len() > 0 {
        lemma_secs_json_len(n, secs.drop_last(), rt);
    }
}

pub proof fn lemma_items_json_len(n: Node, items: Seq<ItemBV>)
    ensures
        items_json(n, items).len() == items.len(),
    decreases items.len(),
{
    if items.len() > 0 {
        lemma_items_json_len(n, items.drop_last());
    }
}

fn key_str(k: &str) -> (r: String)
    ensures
        r@ == k@,
{
    let mut s = String::new();
    push_str(&mut s, k);
    s
}

/// Inserts the captures of the nodes `sch` (bound to `bs`) into the object
/// `out` (see [`json_into`]).
pub fn json_into_exec(sch: &Vec<Node>, bs: &Vec<Bound>, Ghost(bv): Ghost<Seq<BoundV>>, out: &mut Json)
    requires
        bounds_are(bs@, bv),
        *old(out) is Object,
    ensures
        forall|kvs: Seq<(Seq<char>, JsonV)>| #[trigger] json_is(*old(out), JsonV::Object(kvs))
            ==> json_is(*final(out), JsonV::Object(json_into(sch@, bv, kvs))),
        *final(out) is Object,
    decreases bv, 2nat,
{
    let ghost o0 = *out;
    let mut k: usize = 0;
    assert(bv.take(0) =~= Seq::<BoundV>::empty());
    while k < bs.len()
        invariant
            bounds_are(bs@, bv),
            k <= bs@.len(),
            o0 == *old(out),
            *out is Object,
            forall|kvs: Seq<(Seq<char>, JsonV)>| #[trigger] json_is(o0, JsonV::Object(kvs))
                ==> json_is(*out, JsonV::Object(json_into(sch@, bv.take(k as int), kvs))),
        decreases bs@.len() - k,
    {
        assert(bv.take(k + 1).drop_last() =~= bv.take(k as int));
        assert(bv.take(k + 1)[k as int] == bv[k as int]);
        if k < sch.len() {
            let n = &sch[k];
            match n.capture_alias() {
                Some(a) => {
                    assert(bound_is(bs@[k as int], bv[k as int]));
                    let v = value_json(n, &bs[k], Ghost(bv[k as int]));
                    let ghost ob = *out;
                    out.insert(a, v);
                },
                None => {},
            }
        }
        k = k + 1;
    }
    assert(bv.take(k as int) =~= bv);
}

fn value_json(n: &Node, b: &Bound, Ghost(v): Ghost<BoundV>) -> (r: Json)
    requires
        bound_is(*b, v),
    ensures
        json_is(r, value_of(*n, v)),
    decreases v, 2nat,
{
    match b {
        Bound::Heading(secs) => {
            let ghost sv = v->Heading_0;
            let rt = match n {
                Node::Heading { title: Match::Regex(_), .. } => true,
                _ => false,
            };
            if repeated(n.card()) {
                Json::Array(secs_values(n, secs, Ghost(sv), rt))
            } else if secs.len() > 0 {
                assert(section_is(secs@[0], sv[0]));
                section_value(n, &secs[0], Ghost(sv[0]), rt)
            } else {
                Json::Null
            }
        },
        Bound::List(lb) => list_value(n, lb, Ghost(v->List_0)),
        Bound::Prose(p) => match p {
            Some((t, _)) => Json::Str(t.clone()),
            None => Json::Null,
        },
    }
}

fn secs_values(n: &Node, secs: &Vec<SectionB>, Ghost(sv): Ghost<Seq<SectionV>>, rt: bool) -> (r: Vec<Json>)
    requires
        secs@.len() == sv.len(),
        forall|q: int| 0 <= q < sv.len() ==> section_is(#[trigger] secs@[q], sv[q]),
    ensures
        jsons_are(r@, secs_json(*n, sv, rt)),
    decreases sv, 2nat,
{
    let mut arr: Vec<Json> = Vec::new();
    let mut k: usize = 0;
    while k < secs.len()
        invariant
            k <= secs@.len(),
            secs@.len() == sv.len(),
            forall|q: int| 0 <= q < sv.len() ==> section_is(#[trigger] secs@[q], sv[q]),
            jsons_are(arr@, secs_json(*n, sv.take(k as int), rt)),
        decreases secs@.len() - k,
    {
        assert(sv.take(k + 1).drop_last() =~= sv.take(k as int));
        assert(sv.take(k + 1)[k as int] == sv[k as int]);
        assert(section_is(secs@[k as int], sv[k as int]));
        proof { lemma_secs_json_len(*n, sv.take(k as int), rt); }
        let j = section_value(n, &secs[k], Ghost(sv[k as int]), rt);
        let ghost a0 = arr@;
        arr.push(j);
        assert forall|q: int| 0 <= q < k + 1 implies json_is(#[trigger] arr@[q], secs_json(*n, sv.take(k + 1), rt)[q]) by {
            if q < k {
                assert(json_is(a0[q], secs_json(*n, sv.take(k as int), rt)[q]));
            }
        }
        proof { lemma_secs_json_len(*n, sv.take(k + 1), rt); }
        k = k + 1;
    }
    assert(sv.take(k as int) =~= sv);
    arr
}

fn items_values(n: &Node, its: &Vec<ItemB>, Ghost(iv): Ghost<Seq<ItemBV>>) -> (r: Vec<Json>)
    requires
        its@.len() == iv.len(),
        forall|q: int| 0 <= q < iv.len() ==> itemb_is(#[trigger] its@[q], iv[q]),
    ensures
        jsons_are(r@, items_json(*n, iv)),
    decreases iv, 2nat,
{
    let mut arr: Vec<Json> = Vec::new();
    let mut k: usize = 0;
    while k < its.len()
        invariant
            k <= its@.len(),
            its@.len() == iv.len(),
            forall|q: int| 0 <= q < iv.len() ==> itemb_is(#[trigger] its@[q], iv[q]),
            jsons_are(arr@, items_json(*n, iv.take(k as int))),
        decreases its@.len() - k,
    {
        assert(iv.take(k + 1).drop_last() =~= iv.take(k as int));
        assert(iv.take(k + 1)[k as int] == iv[k as int]);
        assert(itemb_is(its@[k as int], iv[k as int]));
        proof { lemma_items_json_len(*n, iv.take(k as int)); }
        let j = item_value(n, &its[k], Ghost(iv[k as int]));
        let ghost a0 = arr@;
        arr.push(j);
        assert forall|q: int| 0 <= q < k + 1 implies json_is(#[trigger] arr@[q], items_json(*n, iv.take(k + 1))[q]) by {
            if q < k {
                assert(json_is(a0[q], items_json(*n, iv.take(k as int))[q]));
            }
        }
        proof { lemma_items_json_len(*n, iv.take(k + 1)); }
        k = k + 1;
    }
    assert(iv.take(k as int) =~= iv);
    arr
}

fn section_value(n: &Node, sec: &SectionB, Ghost(sv): Ghost<SectionV>, rt: bool) -> (r: Json)
    requires
        section_is(*sec, sv),
    ensures
        json_is(r, section_json(*n, sv, rt)),
    decreases sv, 2nat,
{
    let mut m = Json::object();
    let empty: Vec<Node> = Vec::new();
    let ch: &Vec<Node> = match n {
        Node::Heading { children, .. } => children,
        Node::List { children, .. } => children,
        Node::Prose { .. } => &empty,
    };
    assert(ch@ == n.children_of());
    assert(json_is(m, JsonV::Object(Seq::empty())));
    json_into_exec(ch, &sec.children, Ghost(sv.children), &mut m);
    let ghost mm = json_into(n.children_of(), sv.children, Seq::empty());
    assert(json_is(m, JsonV::Object(mm)));
    if rt {
        let tv = Json::Str(sec.title.clone());
        assert(json_is(tv, JsonV::Str(sv.title)));
        m.insert(key_str("title"), tv);
    }
    m
}

fn list_value(n: &Node, lb: &Option<Vec<ItemB>>, Ghost(lv): Ghost<Option<Seq<ItemBV>>>) -> (r: Json)
    requires
        match lv {
            None => *lb is None,
            Some(items) => lb matches Some(its) && its@.len() == items.len()
                && forall|k: int| 0 <= k < items.len() ==> itemb_is(#[trigger] its@[k], items[k]),
        },
    ensures
        json_is(r, list_json(*n, lv)),
    decreases lv, 2nat,
{
    let scalar = is_scalar_list(n);
    match lb {
        None => if scalar {
            Json::Null
        } else {
            Json::Array(Vec::new())
        },
        Some(its) => {
            let ghost iv = lv->Some_0;
            if scalar {
                if its.len() > 0 {
                    assert(itemb_is(its@[0], iv[0]));
                    Json::Str(its[0].text.clone())
                } else {
                    Json::Null
                }
            } else {
                Json::Array(items_values(n, its, Ghost(iv)))
            }
        },
    }
}

fn item_value(n: &Node, ib: &ItemB, Ghost(v): Ghost<ItemBV>) -> (r: Json)
    requires
        itemb_is(*ib, v),
    ensures
        json_is(r, item_json(*n, v)),
    decreases v, 2nat,
{
    let checklist = match n {
        Node::List { style: ListStyle::Checklist, .. } => true,
        _ => false,
    };
    let empty: Vec<Node> = Vec::new();
    let ch: &Vec<Node> = match n {
        Node::Heading { children, .. } => children,
        Node::List { children, .. } => children,
        Node::Prose { .. } => &empty,
    };
    assert(ch@ == n.children_of());
    if ch.len() == 0 && !checklist {
        Json::Str(ib.text.clone())
    } else {
        let mut m = Json::object();
        let ghost m0 = obj_insert(Seq::empty(), "text"@, JsonV::Str(v.text));
        let tv = Json::Str(ib.text.clone());
        assert(json_is(tv, JsonV::Str(v.text)));
        assert(json_is(m, JsonV::Object(Seq::empty())));
        m.insert(key_str("text"), tv);
        assert(json_is(m, JsonV::Object(m0)));
        let c = match ib.checked {
            Some(c) => c,
            None => false,
        };
        let ghost m1 = if checklist { obj_insert(m0, "checked"@, JsonV::Bool(c)) } else { m0 };
        if checklist {
            let cv = Json::Bool(c);
            assert(json_is(cv, JsonV::Bool(c)));
            m.insert(key_str("checked"), cv);
        }
        assert(json_is(m, JsonV::Object(m1)));
        json_into_exec(ch, &ib.children, Ghost(v.children), &mut m);
        m
    }
}


// ---- edit navigation ----------------------------------------------------------------------

/// The index of the first node (among those bound) capturing under `key`.
pub open spec fn first_bound(sch: Seq<Node>, n: int, key: Seq<char>, k: int) -> Option<int>
    decreases n - k,
{
    if k < 0 || k >= n || k >= sch.len() {
        None
    } else if sch[k].alias() == Some(key) {
        Some(k)
    } else {
        first_bound(sch, n, key, k + 1)
    }
}

/// The editable span a dotted path (already split) leads to through the
/// bindings, mirroring the shape of extracted data: object keys are
/// aliases, array elements numeric indexes. `Ok(None)` for a path that names
/// no editable leaf (whole headings are not editable); `Err((index, len))`
/// for an index past the end of its list or sections. A childless bare or
/// `?` list is reached by its bare alias (its one item), except inside a
/// list item (`in_item`), where its item needs an index.
pub open spec fn find_span_spec(path: Seq<Seq<char>>, sch: Seq<Node>, bs: Seq<BoundV>, in_item: bool) -> Result<Option<Span>, (usize, usize)>
    decreases path.len(),
{
    if path.len() == 0 {
        Ok(None)
    } else {
        let rest = path.drop_first();
        match first_bound(sch, bs.len() as int, path[0], 0) {
            None => Ok(None),
            Some(k) => {
                let n = sch[k];
                match bs[k] {
                    BoundV::Prose(p) => if rest.len() > 0 {
                        Ok(None)
                    } else {
                        Ok(match p {
                            Some((_, sp)) => Some(sp),
                            None => None,
                        })
                    },
                    BoundV::Heading(secs) => if is_repeated(n.head_of().card) {
                        if rest.len() == 0 {
                            Ok(None)
                        } else {
                            match parse_usize_spec(rest[0]) {
                                None => Ok(None),
                                Some(idx) => if idx < secs.len() {
                                    let r2 = rest.drop_first();
                                    if r2.len() == 0 {
                                        Ok(None)
                                    } else {
                                        find_span_spec(r2, n.children_of(), secs[idx as int].children, in_item)
                                    }
                                } else {
                                    Err((idx, secs.len() as usize))
                                },
                            }
                        }
                    } else if secs.len() == 0 || rest.len() == 0 {
                        Ok(None)
                    } else {
                        find_span_spec(rest, n.children_of(), secs[0].children, in_item)
                    },
                    BoundV::List(lb) => match lb {
                        None => Ok(None),
                        Some(items) => if rest.len() == 0 {
                            Ok(if !in_item && is_scalar_list_spec(n) && items.len() > 0 { Some(items[0].text_span) } else { None })
                        } else {
                            match parse_usize_spec(rest[0]) {
                                None => Ok(None),
                                Some(idx) => if idx < items.len() {
                                    let r2 = rest.drop_first();
                                    if r2.len() == 0 {
                                        Ok(Some(items[idx as int].text_span))
                                    } else {
                                        find_span_spec(r2, n.children_of(), items[idx as int].children, true)
                                    }
                                } else {
                                    Err((idx, items.len() as usize))
                                },
                            }
                        },
                    },
                }
            },
        }
    }
}

/// Editing through a repeated heading enters the section its index names:
/// for a path `key.i.rest` (with `rest` not empty) whose `key` is bound to
/// the sections `secs` of a repeated heading, the span found is the one
/// `rest` finds inside section `i` (the `i`-th matched section) when
/// `i < secs.len()`, and the index is refused with the section count
/// otherwise.
pub proof fn law_find_span_enters_section(
    key: Seq<char>,
    i: usize,
    rest: Seq<Seq<char>>,
    sch: Seq<Node>,
    bs: Seq<BoundV>,
    in_item: bool,
    k: int,
)
    requires
        first_bound(sch, bs.len() as int, key, 0) == Some(k),
        0 <= k < bs.len(),
        k < sch.len(),
        bs[k] is Heading,
        is_repeated(sch[k].head_of().card),
        rest.len() > 0,
    ensures
        find_span_spec(seq![key, decimal(i as nat)] + rest, sch, bs, in_item) == if i < bs[k]->Heading_0.len() {
            find_span_spec(rest, sch[k].children_of(), bs[k]->Heading_0[i as int].children, in_item)
        } else {
            Err((i, bs[k]->Heading_0.len() as usize))
        },
{
    let path = seq![key, decimal(i as nat)] + rest;
    crate::text::lemma_decimal_token(i as nat);
    assert(path[0] == key);
    assert(path.drop_first() =~= seq![decimal(i as nat)] + rest);
    assert(path.drop_first()[0] == decimal(i as nat));
    assert(path.drop_first().drop_first() =~= rest);
}

/// Editing through a list enters the item its index names: for a path
/// `key.i` the span is that of item `i`'s text, and for `key.i.rest` (with
/// `rest` not empty) the one `rest` finds among item `i`'s nested lists,
/// when `i` is below the item count; the index is refused otherwise.
pub proof fn law_find_span_enters_item(
    key: Seq<char>,
    i: usize,
    rest: Seq<Seq<char>>,
    sch: Seq<Node>,
    bs: Seq<BoundV>,
    in_item: bool,
    k: int,
)
    requires
        first_bound(sch, bs.len() as int, key, 0) == Some(k),
        0 <= k < bs.len(),
        k < sch.len(),
        bs[k] matches BoundV::List(Some(_)),
    ensures
        find_span_spec(seq![key, decimal(i as nat)] + rest, sch, bs, in_item) == if i < bs[k]->List_0->Some_0.len() {
            if rest.len() == 0 {
                Ok(Some(bs[k]->List_0->Some_0[i as int].text_span))
            } else {
                find_span_spec(rest, sch[k].children_of(), bs[k]->List_0->Some_0[i as int].children, true)
            }
        } else {
            Err((i, bs[k]->List_0->Some_0.len() as usize))
        },
{
    let path = seq![key, decimal(i as nat)] + rest;
    crate::text::lemma_decimal_token(i as nat);
    assert(path[0] == key);
    assert(path.drop_first() =~= seq![decimal(i as nat)] + rest);
    assert(path.drop_first()[0] == decimal(i as nat));
    assert(path.drop_first().drop_first() =~= rest);
}

fn node_children<'a>(n: &'a Node, empty: &'a Vec<Node>) -> (r: &'a Vec<Node>)
    requires
        empty@.len() == 0,
    ensures
        r@ == n.children_of(),
{
    match n {
        Node::Heading { children, .. } => children,
        Node::List { children, .. } => children,
        Node::Prose { .. } => empty,
    }
}

/// The editable span a dotted path leads to (see [`find_span_spec`]).
pub fn find_span(path: &[String], sch: &Vec<Node>, bs: &Vec<Bound>, Ghost(bv): Ghost<Seq<BoundV>>, in_item: bool) -> (r: Result<Option<Span>, (usize, usize)>)
    requires
        bounds_are(bs@, bv),
    ensures
        r == find_span_spec(strings_v(path@), sch@, bv, in_item),
    decreases path@.len(),
{
    let ghost pv = strings_v(path@);
    if path.len() == 0 {
        return Ok(None);
    }
    let key = &path[0];
    let rest = &path[1..path.len()];
    let empty: Vec<Node> = Vec::new();
    assert(strings_v(rest@) =~= pv.drop_first());
    assert(pv[0] == key@);
    let mut k: usize = 0;
    let lim = if bs.len() < sch.len() { bs.len() } else { sch.len() };
    while k < lim
        invariant
            lim <= bs@.len(),
            lim <= sch@.len(),
            lim == bs@.len() || lim == sch@.len(),
            k <= lim,
            pv == strings_v(path@),
            path@.len() > 0,
            empty@.len() == 0,
            pv[0] == key@,
            strings_v(rest@) == pv.drop_first(),
            first_bound(sch@, bv.len() as int, pv[0], 0) == first_bound(sch@, bv.len() as int, pv[0], k as int),
            bounds_are(bs@, bv),
        decreases lim - k,
    {
        let a = sch[k].capture_alias();
        let hit = match &a {
            Some(x) => *x == *key,
            None => false,
        };
        if hit {
            assert(sch@[k as int].alias() == Some(pv[0]));
            let n = &sch[k];
            assert(bound_is(bs@[k as int], bv[k as int]));
            match &bs[k] {
                Bound::Prose(p) => {
                    if rest.len() > 0 {
                        return Ok(None);
                    }
                    return Ok(match p {
                        Some((_, sp)) => Some(*sp),
                        None => None,
                    });
                },
                Bound::Heading(secs) => {
                    let ghost sv = bv[k as int]->Heading_0;
                    let ch = node_children(n, &empty);
                    if repeated(n.card()) {
                        if rest.len() == 0 {
                            return Ok(None);
                        }
                        let iv = chars_of(rest[0].as_str());
                        match parse_usize(iv.as_slice()) {
                            None => return Ok(None),
                            Some(idx) => {
                                if idx < secs.len() {
                                    let r2 = &rest[1..rest.len()];
                                    assert(strings_v(r2@) =~= pv.drop_first().drop_first());
                                    if r2.len() == 0 {
                                        return Ok(None);
                                    }
                                    assert(section_is(secs@[idx as int], sv[idx as int]));
                                    return find_span(r2, ch, &secs[idx].children, Ghost(sv[idx as int].children), in_item);
                                } else {
                                    return Err((idx, secs.len()));
                                }
                            },
                        }
                    } else {
                        if secs.len() == 0 || rest.len() == 0 {
                            return Ok(None);
                        }
                        assert(section_is(secs@[0], sv[0]));
                        return find_span(rest, ch, &secs[0].children, Ghost(sv[0].children), in_item);
                    }
                },
                Bound::List(lb) => {
                    let ch = node_children(n, &empty);
                    match lb {
                        None => return Ok(None),
                        Some(items) => {
                            let ghost iv = bv[k as int]->List_0->Some_0;
                            if rest.len() == 0 {
                                if !in_item && is_scalar_list(n) && items.len() > 0 {
                                    assert(itemb_is(items@[0], iv[0]));
                                    return Ok(Some(items[0].text_span));
                                }
                                return Ok(None);
                            }
                            let xv = chars_of(rest[0].as_str());
                            match parse_usize(xv.as_slice()) {
                                None => return Ok(None),
                                Some(idx) => {
                                    if idx < items.len() {
                                        let r2 = &rest[1..rest.len()];
                                        assert(strings_v(r2@) =~= pv.drop_first().drop_first());
                                        assert(itemb_is(items@[idx as int], iv[idx as int]));
                                        if r2.len() == 0 {
                                            return Ok(Some(items[idx].text_span));
                                        }
                                        return find_span(r2, ch, &items[idx].children, Ghost(iv[idx as int].children), true);
                                    } else {
                                        return Err((idx, items.len()));
                                    }
                                },
                            }
                        },
                    }
                },
            }
        }
        k = k + 1;
    }
    Ok(None)
}

// ---- bare aliases --------------------------------------------------------------------------

/// The full alias paths of the nodes capturing under `alias`, in document
/// order; a node nested under an uncaptured node is not addressable.
pub open spec fn alias_paths(nodes: Seq<Node>, alias: Seq<char>, prefix: Seq<Seq<char>>) -> Seq<Seq<Seq<char>>>
    decreases nodes, 1nat,
{
    if nodes.len() == 0 {
        Seq::empty()
    } else {
        alias_paths(nodes.drop_last(), alias, prefix) + node_alias_paths(nodes[nodes.len() - 1], alias, prefix)
    }
}

pub open spec fn node_alias_paths(n: Node, alias: Seq<char>, prefix: Seq<Seq<char>>) -> Seq<Seq<Seq<char>>>
    decreases n, 0nat,
{
    match n.alias() {
        None => Seq::empty(),
        Some(a) => {
            let p = prefix.push(a);
            (if a == alias { seq![p] } else { Seq::empty() }) + match n {
                Node::Heading { children, .. } => alias_paths(children@, alias, p),
                Node::List { children, .. } => alias_paths(children@, alias, p),
                Node::Prose { .. } => Seq::empty(),
            }
        },
    }
}

/// The full path of the single node capturing under `alias`, if exactly one
/// does.
pub open spec fn unique_alias_path_spec(body: Seq<Node>, alias: Seq<char>) -> Option<Seq<Seq<char>>> {
    let f = alias_paths(body, alias, Seq::empty());
    if f.len() == 1 {
        Some(f[0])
    } else {
        None
    }
}

pub open spec fn paths_v(v: Seq<Vec<String>>) -> Seq<Seq<Seq<char>>> {
    v.map_values(|p: Vec<String>| strings_v(p@))
}

fn collect_paths(nodes: &Vec<Node>, alias: &String, prefix: &Vec<String>, out: &mut Vec<Vec<String>>)
    ensures
        paths_v(final(out)@) == paths_v(old(out)@) + alias_paths(nodes@, alias@, strings_v(prefix@)),
    decreases nodes@, 1nat,
{
    let ghost pv = strings_v(prefix@);
    let mut k: usize = 0;
    assert(nodes@.take(0) =~= Seq::<Node>::empty());
    assert(paths_v(out@) =~= paths_v(old(out)@) + alias_paths(nodes@.take(0), alias@, pv));
    while k < nodes.len()
        invariant
            k <= nodes@.len(),
            pv == strings_v(prefix@),
            paths_v(out@) == paths_v(old(out)@) + alias_paths(nodes@.take(k as int), alias@, pv),
        decreases nodes@.len() - k,
    {
        assert(nodes@.take(k + 1).drop_last() =~= nodes@.take(k as int));
        assert(nodes@.take(k + 1)[k as int] == nodes@[k as int]);
        let ghost before = paths_v(out@);
        collect_node(&nodes[k], alias, prefix, out);
        assert(paths_v(out@) =~= paths_v(old(out)@) + alias_paths(nodes@.take(k + 1), alias@, pv));
        k = k + 1;
    }
    assert(nodes@.take(k as int) =~= nodes@);
}

fn collect_node(n: &Node, alias: &String, prefix: &Vec<String>, out: &mut Vec<Vec<String>>)
    ensures
        paths_v(final(out)@) == paths_v(old(out)@) + node_alias_paths(*n, alias@, strings_v(prefix@)),
    decreases *n, 0nat,
{
    match n.capture_alias() {
        None => {
            assert(paths_v(out@) =~= paths_v(old(out)@) + Seq::<Seq<Seq<char>>>::empty());
        },
        Some(a) => {
            let mut p = clone_path(prefix);
            let ghost p0 = strings_v(p@);
            let is_hit = a == *alias;
            p.push(a);
            let ghost pv = strings_v(p@);
            assert(pv =~= p0.push(n.alias()->0));
            let ghost o0 = paths_v(out@);
            if is_hit {
                out.push(clone_path(&p));
                assert(paths_v(out@) =~= o0 + seq![pv]);
            } else {
                assert(paths_v(out@) =~= o0 + Seq::<Seq<Seq<char>>>::empty());
            }
            let ghost o1 = paths_v(out@);
            match n {
                Node::Heading { children, .. } => collect_paths(children, alias, &p, out),
                Node::List { children, .. } => collect_paths(children, alias, &p, out),
                Node::Prose { .. } => {
                    assert(paths_v(out@) =~= o1 + Seq::<Seq<Seq<char>>>::empty());
                },
            }
            proof {
                let head: Seq<Seq<Seq<char>>> = if n.alias()->0 == alias@ { seq![pv] } else { Seq::empty() };
                assert(o1 == o0 + head);
            }
            assert(paths_v(out@) =~= paths_v(old(out)@) + node_alias_paths(*n, alias@, strings_v(prefix@)));
        },
    }
}

/// The full alias path of the single node capturing under `alias` (see
/// [`unique_alias_path_spec`]).
pub fn unique_alias_path(body: &Vec<Node>, alias: &String) -> (r: Option<Vec<String>>)
    ensures
        match unique_alias_path_spec(body@, alias@) {
            None => r is None,
            Some(p) => r matches Some(v) && strings_v(v@) == p,
        },
{
    let mut found: Vec<Vec<String>> = Vec::new();
    let empty: Vec<String> = Vec::new();
    assert(strings_v(empty@) =~= Seq::<Seq<char>>::empty());
    collect_paths(body, alias, &empty, &mut found);
    assert(paths_v(found@) =~= alias_paths(body@, alias@, Seq::empty()));
    if found.len() == 1 {
        let r = found.pop().unwrap();
        assert(paths_v(found@.push(r)).len() == 1);
        Some(r)
    } else {
        None
    }
}

} // verus!
