//! The shared document model: one span-carrying block tree parsed from
//! markdown, used by validation, extraction and editing alike, so all three
//! agree on structure and byte positions.
//!
//! comrak parses the markdown; what it reports (each node's kind, position and
//! inline text, in document order) comes back as a flat list of open/close
//! events. Everything after that call is verified here: the node tree, the
//! block tree, heading nesting, spans and checkbox detection.

use crate::text::{chars_of, extend_chars, string_of, trim, trim_start, trimmed};
use vstd::prelude::*;
use vstd::string::StringSliceAdditionalSpecFns;
use vstd::utf8::{
    decode_utf8, encode_utf8_decode_utf8, encode_utf8_valid_utf8, is_char_boundary,
    is_char_boundary_iff_not_is_continuation_byte, is_char_boundary_start_end_of_seq, valid_utf8,
    valid_utf8_split,
};

verus! {

/// A byte range within a string: `start` inclusive, `end` exclusive.
#[derive(Debug, Clone, Copy, PartialEq, Eq)]
pub struct Span {
    /// Inclusive start byte offset.
    pub start: usize,
    /// Exclusive end byte offset.
    pub end: usize,
}

impl Span {
    /// Both ends moved forward by `offset` (rebasing a body span onto the
    /// whole document).
    pub fn shifted(self, offset: usize) -> (r: Span)
        requires
            self.start + offset <= usize::MAX,
            self.end + offset <= usize::MAX,
        ensures
            r.start == self.start + offset,
            r.end == self.end + offset,
    {
        Span { start: self.start + offset, end: self.end + offset }
    }
}

// ---- bytes and lines -------------------------------------------------------------

/// The first index of byte `b` in `s`.
pub open spec fn byte_index(s: Seq<u8>, b: u8) -> Option<int>
    decreases s.len(),
{
    if s.len() == 0 {
        None
    } else if s[0] == b {
        Some(0)
    } else {
        match byte_index(s.drop_first(), b) {
            Some(k) => Some(k + 1),
            None => None,
        }
    }
}

pub proof fn lemma_byte_index(s: Seq<u8>, b: u8)
    ensures
        match byte_index(s, b) {
            Some(k) => 0 <= k < s.len() && s[k] == b && forall|j: int| 0 <= j < k ==> s[j] != b,
            None => forall|j: int| 0 <= j < s.len() ==> s[j] != b,
        },
    decreases s.len(),
{
    if s.len() > 0 {
        lemma_byte_index(s.drop_first(), b);
        if s[0] != b {
            match byte_index(s.drop_first(), b) {
                Some(k) => {
                    assert forall|j: int| 0 <= j < k + 1 implies s[j] != b by {
                        if j > 0 {
                            assert(s[j] == s.drop_first()[j - 1]);
                        }
                    }
                },
                None => {
                    assert forall|j: int| 0 <= j < s.len() implies s[j] != b by {
                        if j > 0 {
                            assert(s[j] == s.drop_first()[j - 1]);
                        }
                    }
                },
            }
        }
    }
}

/// The first index `>= lo` of byte `b` in `v`.
fn find_byte(v: &[u8], lo: usize, b: u8) -> (r: Option<usize>)
    requires
        lo <= v@.len(),
    ensures
        match byte_index(v@.skip(lo as int), b) {
            Some(k) => r matches Some(i) && i == lo + k && i < v@.len(),
            None => r is None,
        },
{
    let mut i = lo;
    while i < v.len()
        invariant
            lo <= i <= v@.len(),
            forall|j: int| lo <= j < i ==> v@[j] != b,
        decreases v@.len() - i,
    {
        if v[i] == b {
            proof {
                let s = v@.skip(lo as int);
                lemma_byte_index(s, b);
                assert(s[i - lo] == b);
                match byte_index(s, b) {
                    Some(k) => {
                        if k < i - lo {
                            assert(s[k] == v@[lo + k]);
                        }
                    },
                    None => {},
                }
            }
            return Some(i);
        }
        i = i + 1;
    }
    proof {
        let s = v@.skip(lo as int);
        lemma_byte_index(s, b);
        match byte_index(s, b) {
            Some(k) => {
                assert(s[k] == v@[lo + k]);
            },
            None => {},
        }
    }
    None
}

/// `line` without its trailing `\r` bytes.
pub open spec fn trim_cr(line: Seq<u8>) -> Seq<u8>
    decreases line.len(),
{
    if line.len() > 0 && line[line.len() - 1] == 13u8 {
        trim_cr(line.drop_last())
    } else {
        line
    }
}

/// A `---` fence line (trailing `\r`s aside).
pub open spec fn is_fence(line: Seq<u8>) -> bool {
    trim_cr(line) == seq![45u8, 45u8, 45u8]
}

fn fence_at(v: &[u8], lo: usize, hi: usize) -> (b: bool)
    requires
        lo <= hi <= v@.len(),
    ensures
        b == is_fence(v@.subrange(lo as int, hi as int)),
{
    let mut e = hi;
    while e > lo && v[e - 1] == 13u8
        invariant
            lo <= e <= hi,
            hi <= v@.len(),
            trim_cr(v@.subrange(lo as int, e as int)) == trim_cr(v@.subrange(lo as int, hi as int)),
        decreases e - lo,
    {
        assert(v@.subrange(lo as int, e as int).drop_last() =~= v@.subrange(lo as int, e - 1));
        e = e - 1;
    }
    let ghost t = v@.subrange(lo as int, e as int);
    assert(trim_cr(t) == t);
    if e - lo == 3 && v[lo] == 45u8 && v[lo + 1] == 45u8 && v[lo + 2] == 45u8 {
        assert(t =~= seq![45u8, 45u8, 45u8]);
        true
    } else {
        false
    }
}

/// From the line starting at `pos`, the closing fence of a frontmatter block:
/// the start of that line and the offset after it (its `\n`, or the end).
pub open spec fn fm_close(md: Seq<u8>, pos: int) -> Option<(int, int)>
    decreases md.len() - pos,
{
    if pos < 0 || pos > md.len() {
        None
    } else {
        let rest = md.skip(pos);
        proof { lemma_byte_index(rest, 10u8); }
        match byte_index(rest, 10u8) {
            Some(n) => if is_fence(rest.take(n)) {
                Some((pos, pos + n + 1))
            } else {
                fm_close(md, pos + n + 1)
            },
            None => if is_fence(rest) {
                Some((pos, md.len() as int))
            } else {
                None
            },
        }
    }
}

/// A leading frontmatter block: the first line is a fence ended by `\n` and a
/// later line is a fence. Gives the inner block's start and end and the offset
/// where the body starts.
pub open spec fn fm_bounds(md: Seq<u8>) -> Option<(int, int, int)> {
    match byte_index(md, 10u8) {
        None => None,
        Some(n) => if !is_fence(md.take(n)) {
            None
        } else {
            let s = n + 1;
            match fm_close(md, s) {
                None => None,
                Some((p, next)) => Some((s, if p > s { p - 1 } else { s }, next)),
            }
        },
    }
}

pub proof fn lemma_fm_close(md: Seq<u8>, pos: int)
    requires
        0 <= pos <= md.len(),
    ensures
        fm_close(md, pos) matches Some((p, next)) ==> pos <= p < next <= md.len() + 1 && next <= md.len()
            && p <= md.len() && (p > 0 && p > pos ==> md[p - 1] == 10u8)
            && (next < md.len() ==> md[next - 1] == 10u8) && (next == md.len() || md[next - 1] == 10u8 || p == next),
    decreases md.len() - pos,
{
    let rest = md.skip(pos);
    lemma_byte_index(rest, 10u8);
    match byte_index(rest, 10u8) {
        Some(n) => {
            assert(rest[n] == md[pos + n]);
            if !is_fence(rest.take(n)) {
                lemma_fm_close(md, pos + n + 1);
            }
        },
        None => {},
    }
}

/// The inner block's start and end and the body start of a leading
/// frontmatter block of `md` (see [`fm_bounds`]).
pub fn frontmatter_bounds(md: &[u8]) -> (r: Option<(usize, usize, usize)>)
    ensures
        match fm_bounds(md@) {
            None => r is None,
            Some((a, b, c)) => r matches Some((x, y, z)) && x == a && y == b && z == c,
        },
{
    let ml = md.len();
    proof { lemma_byte_index(md@, 10u8); }
    assert(md@.skip(0) =~= md@);
    let first_nl = match find_byte(md, 0, 10u8) {
        None => {
            return None;
        },
        Some(n) => n,
    };
    assert(md@.subrange(0, first_nl as int) =~= md@.take(first_nl as int));
    if !fence_at(md, 0, first_nl) {
        return None;
    }
    let inner_start = first_nl + 1;
    let mut pos = inner_start;
    loop
        invariant
            inner_start <= pos <= md@.len(),
            ml == md@.len(),
            inner_start == first_nl + 1,
            first_nl < md@.len(),
            byte_index(md@, 10u8) == Some(first_nl as int),
            is_fence(md@.take(first_nl as int)),
            fm_close(md@, inner_start as int) == fm_close(md@, pos as int),
        decreases md@.len() - pos,
    {
        let ghost rest = md@.skip(pos as int);
        proof { lemma_byte_index(rest, 10u8); }
        match find_byte(md, pos, 10u8) {
            Some(n) => {
                let ghost k = n - pos;
                assert(md@.subrange(pos as int, n as int) =~= rest.take(k));
                if fence_at(md, pos, n) {
                    let inner_end = if pos > inner_start { pos - 1 } else { inner_start };
                    return Some((inner_start, inner_end, n + 1));
                }
                pos = n + 1;
            },
            None => {
                assert(md@.subrange(pos as int, md@.len() as int) =~= rest);
                if fence_at(md, pos, md.len()) {
                    let inner_end = if pos > inner_start { pos - 1 } else { inner_start };
                    return Some((inner_start, inner_end, md.len()));
                }
                return None;
            },
        }
    }
}

/// An index just after an ASCII byte of valid UTF-8 is a character boundary.
pub proof fn lemma_boundary_after_ascii(bytes: Seq<u8>, k: int)
    requires
        valid_utf8(bytes),
        0 < k <= bytes.len(),
        bytes[k - 1] < 128,
    ensures
        is_char_boundary(bytes, k),
{
    if k == bytes.len() {
        is_char_boundary_start_end_of_seq(bytes);
    } else {
        is_char_boundary_iff_not_is_continuation_byte(bytes, k - 1);
        valid_utf8_split(bytes, k - 1);
        let s = bytes.subrange(k - 1, bytes.len() as int);
        assert(s[0] == bytes[k - 1]);
        reveal_with_fuel(valid_utf8, 2);
        let p = bytes.subrange(k, bytes.len() as int);
        assert(vstd::utf8::pop_first_scalar(s) =~= p);
        assert(valid_utf8(p));
        is_char_boundary_iff_not_is_continuation_byte(p, 0);
        assert(p[0] == bytes[k]);
        is_char_boundary_iff_not_is_continuation_byte(bytes, k);
    }
}

/// Byte offsets of the start of each line of `b`: `0`, then one past each
/// `\n`.
pub open spec fn line_starts_spec(b: Seq<u8>) -> Seq<usize>
    decreases b.len(),
{
    if b.len() == 0 {
        seq![0usize]
    } else if b[b.len() - 1] == 10u8 {
        line_starts_spec(b.drop_last()).push(b.len() as usize)
    } else {
        line_starts_spec(b.drop_last())
    }
}

/// Byte offsets of the start of each line (index 0 = line 1).
pub fn line_starts(s: &[u8]) -> (r: Vec<usize>)
    ensures
        r@ == line_starts_spec(s@),
{
    let mut starts: Vec<usize> = Vec::new();
    starts.push(0);
    let mut i: usize = 0;
    assert(s@.take(0) =~= Seq::<u8>::empty());
    while i < s.len()
        invariant
            i <= s@.len(),
            starts@ == line_starts_spec(s@.take(i as int)),
        decreases s@.len() - i,
    {
        assert(s@.take(i + 1).drop_last() =~= s@.take(i as int));
        if s[i] == 10u8 {
            starts.push(i + 1);
        }
        i = i + 1;
    }
    assert(s@.take(i as int) =~= s@);
    starts
}

/// `a + b`, capped at `usize::MAX`.
pub open spec fn sat_add(a: int, b: int) -> usize {
    if a + b <= usize::MAX { (a + b) as usize } else { usize::MAX }
}

/// The byte offset where 1-based `line` starts (`0` for a line out of range).
pub open spec fn line_start_spec(line: usize, ls: Seq<usize>) -> usize {
    let k = if line == 0 { 0int } else { line - 1 };
    if k < ls.len() { ls[k] } else { 0 }
}

/// The byte offset of 1-based `line`, 1-based byte `col`.
pub open spec fn offset_spec(line: usize, col: usize, ls: Seq<usize>) -> usize {
    sat_add(line_start_spec(line, ls) as int, if col == 0 { 0int } else { col - 1 })
}

pub fn line_start(line: usize, ls: &[usize]) -> (r: usize)
    ensures
        r == line_start_spec(line, ls@),
{
    let k = if line == 0 { 0 } else { line - 1 };
    if k < ls.len() {
        ls[k]
    } else {
        0
    }
}

pub fn offset(line: usize, col: usize, ls: &[usize]) -> (r: usize)
    ensures
        r == offset_spec(line, col, ls@),
{
    let a = line_start(line, ls);
    let c = if col == 0 { 0 } else { col - 1 };
    a.saturating_add(c)
}

// ---- checkboxes --------------------------------------------------------------------

/// A leading checkbox of item text: `[ ] `, `[x] `, `[X] ` (with their
/// length), or the whole text being `[ ]`, `[x]`, `[X]`.
pub open spec fn checkbox_spec(t: Seq<char>) -> (Option<bool>, usize) {
    if t.len() >= 4 && t[0] == '[' && t[2] == ']' && t[3] == ' ' && (t[1] == ' ' || t[1] == 'x' || t[1] == 'X') {
        (Some(t[1] != ' '), 4)
    } else if t.len() == 3 && t[0] == '[' && t[2] == ']' && (t[1] == ' ' || t[1] == 'x' || t[1] == 'X') {
        (Some(t[1] != ' '), 3)
    } else {
        (None, 0)
    }
}

/// A checkbox is read off the front of an item's text: `[ ]` is
/// unchecked, `[x]` and `[X]` are checked, followed by a space (four
/// characters taken) or alone (three); any other character in the box, or
/// text that does not start with `[`, holds none.
pub proof fn law_checkbox_read(c: char, rest: Seq<char>)
    ensures
        checkbox_spec(seq!['[', c, ']', ' '] + rest) == if c == ' ' {
            (Some(false), 4usize)
        } else if c == 'x' || c == 'X' {
            (Some(true), 4usize)
        } else {
            (None::<bool>, 0usize)
        },
        checkbox_spec(seq!['[', c, ']']) == if c == ' ' {
            (Some(false), 3usize)
        } else if c == 'x' || c == 'X' {
            (Some(true), 3usize)
        } else {
            (None::<bool>, 0usize)
        },
        rest.len() > 0 && rest[0] != '[' ==> checkbox_spec(rest) == (None::<bool>, 0usize),
{
    let t = seq!['[', c, ']', ' '] + rest;
    assert(t[0] == '[' && t[1] == c && t[2] == ']' && t[3] == ' ');
}

/// The state and length of a leading checkbox of item text (see
/// [`checkbox_spec`]).
pub fn checkbox_prefix(t: &[char]) -> (r: (Option<bool>, usize))
    ensures
        r == checkbox_spec(t@),
{
    let n = t.len();
    if n >= 3 && t[0] == '[' && t[2] == ']' && (t[1] == ' ' || t[1] == 'x' || t[1] == 'X') {
        if n >= 4 && t[3] == ' ' {
            return (Some(t[1] != ' '), 4);
        }
        if n == 3 {
            return (Some(t[1] != ' '), 3);
        }
    }
    (None, 0)
}


// ---- what comrak reports ------------------------------------------------------------

/// What the block model reads of a markdown node's kind.
pub enum MdKind {
    /// A heading of the given level.
    Heading(u8),
    /// A list; `true` when ordered.
    List(bool),
    /// A list item with the given padding (columns from its marker to its text).
    Item(usize),
    /// A paragraph.
    Paragraph,
    /// Inline text as written: plain text, a code span's content, inline HTML.
    Lit(String),
    /// A soft or hard line break.
    Break,
    /// Anything else (the document root, block quotes, code blocks, emphasis…).
    Other,
}

/// A node's source position: 1-based lines and byte columns, end inclusive.
#[derive(Clone, Copy)]
pub struct MdPos {
    pub start_line: usize,
    pub start_col: usize,
    pub end_line: usize,
    pub end_col: usize,
}

/// One step of a document-order walk of the markdown tree: a node opens (its
/// kind and position), or the most recently opened node closes.
pub enum MdEvent {
    Open(MdKind, MdPos),
    Close,
}

pub enum MdKindV {
    Heading(u8),
    List(bool),
    Item(usize),
    Paragraph,
    Lit(Seq<char>),
    Break,
    Other,
}

pub enum MdEventV {
    Open(MdKindV, MdPos),
    Close,
}

pub open spec fn kind_v(k: MdKind) -> MdKindV {
    match k {
        MdKind::Heading(l) => MdKindV::Heading(l),
        MdKind::List(o) => MdKindV::List(o),
        MdKind::Item(p) => MdKindV::Item(p),
        MdKind::Paragraph => MdKindV::Paragraph,
        MdKind::Lit(s) => MdKindV::Lit(s@),
        MdKind::Break => MdKindV::Break,
        MdKind::Other => MdKindV::Other,
    }
}

pub open spec fn events_v(es: Seq<MdEvent>) -> Seq<MdEventV> {
    es.map_values(|e: MdEvent| match e {
        MdEvent::Open(k, p) => MdEventV::Open(kind_v(k), p),
        MdEvent::Close => MdEventV::Close,
    })
}

/// The document-order walk of the tree comrak (default options) parses from
/// `body`.
pub uninterp spec fn markdown_events(body: Seq<char>) -> Seq<MdEventV>;

#[verifier::external_type_specification]
#[verifier::external_body]
pub struct ExNodeValue(comrak::nodes::NodeValue);

#[verifier::external_type_specification]
#[verifier::external_body]
pub struct ExSourcepos(comrak::nodes::Sourcepos);

/// The kind of a comrak node (`comrak::nodes::NodeValue`), one variant to one:
/// heading level, list ordering, item padding, the literal of text, code spans
/// and inline HTML, line breaks; every other variant is `Other`.
#[verifier::external_body]
fn md_kind(v: &comrak::nodes::NodeValue) -> MdKind {
    match v {
        comrak::nodes::NodeValue::Heading(h) => MdKind::Heading(h.level),
        comrak::nodes::NodeValue::List(l) => MdKind::List(matches!(l.list_type, comrak::nodes::ListType::Ordered)),
        comrak::nodes::NodeValue::Item(l) => MdKind::Item(l.padding),
        comrak::nodes::NodeValue::Paragraph => MdKind::Paragraph,
        comrak::nodes::NodeValue::Text(t) => MdKind::Lit(t.to_string()),
        comrak::nodes::NodeValue::Code(c) => MdKind::Lit(c.literal.clone()),
        comrak::nodes::NodeValue::HtmlInline(h) => MdKind::Lit(h.clone()),
        comrak::nodes::NodeValue::SoftBreak | comrak::nodes::NodeValue::LineBreak => MdKind::Break,
        _ => MdKind::Other,
    }
}

/// The four numbers of a comrak `Sourcepos`.
#[verifier::external_body]
fn md_pos(p: &comrak::nodes::Sourcepos) -> MdPos {
    MdPos { start_line: p.start.line, start_col: p.start.column, end_line: p.end.line, end_col: p.end.column }
}

/// Parses `body` with `comrak::parse_document` (default options: CommonMark,
/// no extensions) and walks the tree with `traverse`, reporting each node's
/// opening (kind and source position) and closing. The parse depends on
/// `body` alone, so the result is named [`markdown_events`] of it.
#[verifier::external_body]
fn parse_markdown(body: &str) -> (r: Vec<MdEvent>)
    ensures
        events_v(r@) == markdown_events(body@),
{
    let arena = comrak::Arena::new();
    let root = comrak::parse_document(&arena, body, &comrak::Options::default());
    let mut out = Vec::new();
    for edge in root.traverse() {
        match edge {
            comrak::arena_tree::NodeEdge::Start(n) => {
                let ast = n.data.borrow();
                out.push(MdEvent::Open(md_kind(&ast.value), md_pos(&ast.sourcepos)));
            },
            comrak::arena_tree::NodeEdge::End(_) => out.push(MdEvent::Close),
        }
    }
    out
}

// ---- the node tree ---------------------------------------------------------------------

/// A markdown node and its children.
pub struct MdTree {
    pub kind: MdKind,
    pub pos: MdPos,
    pub children: Vec<MdTree>,
}

pub struct MdTreeV {
    pub kind: MdKindV,
    pub pos: MdPos,
    pub children: Seq<MdTreeV>,
}

pub open spec fn tree_is(t: MdTree, v: MdTreeV) -> bool
    decreases v,
{
    &&& kind_v(t.kind) == v.kind
    &&& t.pos == v.pos
    &&& t.children@.len() == v.children.len()
    &&& forall|k: int| 0 <= k < v.children.len() ==> tree_is(#[trigger] t.children@[k], v.children[k])
}

pub open spec fn trees_are(ts: Seq<MdTree>, vs: Seq<MdTreeV>) -> bool {
    &&& ts.len() == vs.len()
    &&& forall|k: int| 0 <= k < vs.len() ==> tree_is(#[trigger] ts[k], vs[k])
}

/// Where a node stands, for what the block model reads below it: the
/// document node, a block at the given list depth, or inline content.
#[derive(Clone, Copy)]
pub enum Place {
    Root,
    Block(usize),
    Inline,
}

/// Where the children of a node of kind `k` at place `p` stand, or `None`
/// when the block model reads nothing below it: the document's children are
/// blocks at list depth 0; a list's items stand at its depth, and an item's
/// blocks one deeper, down to [`max_doc_depth`]; headings and paragraphs hold
/// inline content; below any other block (a block quote, a code block, raw
/// HTML) nothing is read. Nothing is built there, so how deep a document
/// nests those does not matter.
pub open spec fn child_place(k: MdKindV, p: Place) -> Option<Place> {
    match p {
        Place::Root => Some(Place::Block(0)),
        Place::Inline => Some(Place::Inline),
        Place::Block(d) => match k {
            MdKindV::List(_) => if d <= max_doc_depth() { Some(Place::Block(d)) } else { None },
            MdKindV::Item(_) => if d <= max_doc_depth() { Some(Place::Block((d + 1) as usize)) } else { None },
            MdKindV::Heading(_) => Some(Place::Inline),
            MdKindV::Paragraph => Some(Place::Inline),
            _ => None,
        },
    }
}

/// From `i`, with `open` nodes opened since, the index of the close that
/// ends the nodes around `i` (or the end of the events): what a node whose
/// contents are not read skips.
pub open spec fn ev_skip(ev: Seq<MdEventV>, i: int, open: nat) -> int
    decreases ev.len() - i,
{
    if i < 0 || i >= ev.len() {
        i
    } else {
        match ev[i] {
            MdEventV::Open(_, _) => ev_skip(ev, i + 1, open + 1),
            MdEventV::Close => if open == 0 { i } else { ev_skip(ev, i + 1, (open - 1) as nat) },
        }
    }
}

/// The trees opened at `i` and after, standing at place `p`, up to the next
/// unmatched close; and where they stop.
pub open spec fn ev_forest(ev: Seq<MdEventV>, i: int, p: Place) -> (Seq<MdTreeV>, int)
    decreases ev.len() - i, 1int,
{
    if i < 0 || i >= ev.len() || ev[i] is Close {
        (Seq::empty(), i)
    } else {
        let (t, j) = ev_tree(ev, i, p);
        if j <= i || j > ev.len() {
            (Seq::empty(), i)
        } else {
            let (rest, e) = ev_forest(ev, j, p);
            (seq![t] + rest, e)
        }
    }
}

/// The tree opened at `i`, standing at place `p` (its children left out
/// where [`child_place`] reads nothing below it), and the index after its
/// close.
pub open spec fn ev_tree(ev: Seq<MdEventV>, i: int, p: Place) -> (MdTreeV, int)
    decreases ev.len() - i, 0int,
{
    if i < 0 || i >= ev.len() {
        (MdTreeV { kind: MdKindV::Other, pos: MdPos { start_line: 0, start_col: 0, end_line: 0, end_col: 0 }, children: Seq::empty() }, i + 1)
    } else {
        let (k, pos) = match ev[i] {
            MdEventV::Open(k, pos) => (k, pos),
            MdEventV::Close => (MdKindV::Other, MdPos { start_line: 0, start_col: 0, end_line: 0, end_col: 0 }),
        };
        match child_place(k, p) {
            Some(q) => {
                let (kids, j) = ev_forest(ev, i + 1, q);
                (MdTreeV { kind: k, pos, children: kids }, if j < ev.len() { j + 1 } else { j })
            },
            None => {
                let j = ev_skip(ev, i + 1, 0);
                (MdTreeV { kind: k, pos, children: Seq::empty() }, if j < ev.len() { j + 1 } else { j })
            },
        }
    }
}

pub proof fn lemma_ev_skip_bounds(ev: Seq<MdEventV>, i: int, open: nat)
    requires
        0 <= i <= ev.len(),
    ensures
        i <= ev_skip(ev, i, open) <= ev.len(),
    decreases ev.len() - i,
{
    if i < ev.len() {
        match ev[i] {
            MdEventV::Open(_, _) => lemma_ev_skip_bounds(ev, i + 1, open + 1),
            MdEventV::Close => if open > 0 { lemma_ev_skip_bounds(ev, i + 1, (open - 1) as nat) },
        }
    }
}

pub proof fn lemma_ev_forest_bounds(ev: Seq<MdEventV>, i: int, p: Place)
    requires
        0 <= i <= ev.len(),
    ensures
        i <= ev_forest(ev, i, p).1 <= ev.len(),
    decreases ev.len() - i, 1int,
{
    if i < ev.len() && ev[i] is Open {
        lemma_ev_tree_bounds(ev, i, p);
        let (t, j) = ev_tree(ev, i, p);
        lemma_ev_forest_bounds(ev, j, p);
    }
}

pub proof fn lemma_ev_tree_bounds(ev: Seq<MdEventV>, i: int, p: Place)
    requires
        0 <= i < ev.len(),
    ensures
        i < ev_tree(ev, i, p).1 <= ev.len(),
    decreases ev.len() - i, 0int,
{
    let k = match ev[i] {
        MdEventV::Open(k, _) => k,
        MdEventV::Close => MdKindV::Other,
    };
    match child_place(k, p) {
        Some(q) => lemma_ev_forest_bounds(ev, i + 1, q),
        None => lemma_ev_skip_bounds(ev, i + 1, 0),
    }
}

fn clone_kind(k: &MdKind) -> (r: MdKind)
    ensures
        kind_v(r) == kind_v(*k),
{
    match k {
        MdKind::Heading(l) => MdKind::Heading(*l),
        MdKind::List(o) => MdKind::List(*o),
        MdKind::Item(p) => MdKind::Item(*p),
        MdKind::Paragraph => MdKind::Paragraph,
        MdKind::Lit(s) => MdKind::Lit(s.clone()),
        MdKind::Break => MdKind::Break,
        MdKind::Other => MdKind::Other,
    }
}

fn is_close(e: &MdEvent) -> (b: bool)
    ensures
        b == (*e is Close),
{
    match e {
        MdEvent::Close => true,
        _ => false,
    }
}

/// Where the children of a node stand (see [`child_place`]).
fn child_place_of(k: &MdKind, p: Place) -> (r: Option<Place>)
    ensures
        r == child_place(kind_v(*k), p),
{
    match p {
        Place::Root => Some(Place::Block(0)),
        Place::Inline => Some(Place::Inline),
        Place::Block(d) => match k {
            MdKind::List(_) => if d <= 128 { Some(Place::Block(d)) } else { None },
            MdKind::Item(_) => if d <= 128 { Some(Place::Block(d + 1)) } else { None },
            MdKind::Heading(_) => Some(Place::Inline),
            MdKind::Paragraph => Some(Place::Inline),
            _ => None,
        },
    }
}

/// The index of the close that ends the nodes around `i` (see [`ev_skip`]).
fn skip_at(ev: &Vec<MdEvent>, i: usize) -> (r: usize)
    requires
        i <= ev@.len(),
    ensures
        r == ev_skip(events_v(ev@), i as int, 0),
{
    let ghost e = events_v(ev@);
    let mut cur = i;
    let mut open: usize = 0;
    while cur < ev.len()
        invariant
            e == events_v(ev@),
            i <= cur <= ev@.len(),
            open <= cur - i,
            ev_skip(e, i as int, 0) == ev_skip(e, cur as int, open as nat),
        decreases ev@.len() - cur,
    {
        if is_close(&ev[cur]) {
            if open == 0 {
                return cur;
            }
            open = open - 1;
        } else {
            open = open + 1;
        }
        cur = cur + 1;
    }
    cur
}

/// The trees opened from `i` on, at place `p` (see [`ev_forest`]).
fn forest_at(ev: &Vec<MdEvent>, i: usize, p: Place) -> (r: (Vec<MdTree>, usize))
    requires
        i <= ev@.len(),
    ensures
        trees_are(r.0@, ev_forest(events_v(ev@), i as int, p).0),
        r.1 == ev_forest(events_v(ev@), i as int, p).1,
    decreases ev@.len() - i, 1int,
{
    let ghost e = events_v(ev@);
    let mut out: Vec<MdTree> = Vec::new();
    let mut cur = i;
    while cur < ev.len() && !is_close(&ev[cur])
        invariant
            e == events_v(ev@),
            i <= cur <= ev@.len(),
            trees_are(out@, ev_forest(e, i as int, p).0.take(out@.len() as int)),
            ev_forest(e, i as int, p).0 == ev_forest(e, i as int, p).0.take(out@.len() as int) + ev_forest(e, cur as int, p).0,
            ev_forest(e, i as int, p).1 == ev_forest(e, cur as int, p).1,
        decreases ev@.len() - cur,
    {
        proof { lemma_ev_tree_bounds(e, cur as int, p); }
        let (t, next) = tree_at(ev, cur, p);
        let ghost before = ev_forest(e, i as int, p).0.take(out@.len() as int);
        proof {
            assert(ev_forest(e, cur as int, p).0 == seq![ev_tree(e, cur as int, p).0] + ev_forest(e, next as int, p).0);
        }
        out.push(t);
        proof {
            assert(ev_forest(e, i as int, p).0.take(out@.len() as int) =~= before.push(ev_tree(e, cur as int, p).0));
            assert(ev_forest(e, i as int, p).0 =~= ev_forest(e, i as int, p).0.take(out@.len() as int) + ev_forest(e, next as int, p).0);
        }
        cur = next;
    }
    proof {
        assert(ev_forest(e, cur as int, p).0 =~= Seq::<MdTreeV>::empty());
        assert(ev_forest(e, i as int, p).0.take(out@.len() as int) =~= ev_forest(e, i as int, p).0);
    }
    (out, cur)
}

/// The tree opened at `i`, at place `p` (see [`ev_tree`]).
fn tree_at(ev: &Vec<MdEvent>, i: usize, p: Place) -> (r: (MdTree, usize))
    requires
        i < ev@.len(),
    ensures
        tree_is(r.0, ev_tree(events_v(ev@), i as int, p).0),
        r.1 == ev_tree(events_v(ev@), i as int, p).1,
    decreases ev@.len() - i, 0int,
{
    let ghost e = events_v(ev@);
    let (kind, pos) = match &ev[i] {
        MdEvent::Open(k, at) => (clone_kind(k), *at),
        MdEvent::Close => (MdKind::Other, MdPos { start_line: 0, start_col: 0, end_line: 0, end_col: 0 }),
    };
    let n = ev.len();
    match child_place_of(&kind, p) {
        Some(q) => {
            proof { lemma_ev_forest_bounds(e, i + 1, q); }
            let (children, j) = forest_at(ev, i + 1, q);
            let end = if j < n { j + 1 } else { j };
            (MdTree { kind, pos, children }, end)
        },
        None => {
            proof { lemma_ev_skip_bounds(e, i + 1, 0); }
            let j = skip_at(ev, i + 1);
            let end = if j < n { j + 1 } else { j };
            (MdTree { kind, pos, children: Vec::new() }, end)
        },
    }
}


// ---- blocks ------------------------------------------------------------------------

/// A simplified document block, always carrying its source span.
pub enum Block {
    /// A heading and the blocks it owns.
    Section {
        level: u8,
        title: String,
        children: Vec<Block>,
        /// Span of the heading's title text.
        title_span: Span,
    },
    /// A list.
    List {
        ordered: bool,
        has_checkbox: bool,
        items: Vec<Item>,
    },
    /// A paragraph.
    Para {
        text: String,
        /// Span of the paragraph's inline extent.
        span: Span,
    },
    /// A block outside the schema vocabulary (table, code fence, block quote,
    /// thematic break, raw HTML), kept so strict matching can flag it.
    Other { span: Span },
}

/// A list item.
pub struct Item {
    /// The flattened text of the item's first paragraph (checkbox included).
    pub text: String,
    /// Span of the item text (after the list marker).
    pub span: Span,
    /// `Some` if the item begins with a `[ ]`/`[x]` checkbox.
    pub checked: Option<bool>,
    /// Length of the checkbox prefix within `text` (0 if none).
    pub checkbox_len: usize,
    /// The lists nested in the item.
    pub children: Vec<Block>,
}

pub enum BlockV {
    Section { level: u8, title: Seq<char>, children: Seq<BlockV>, title_span: Span },
    List { ordered: bool, has_checkbox: bool, items: Seq<ItemV> },
    Para { text: Seq<char>, span: Span },
    Other { span: Span },
}

pub struct ItemV {
    pub text: Seq<char>,
    pub span: Span,
    pub checked: Option<bool>,
    pub checkbox_len: usize,
    pub children: Seq<BlockV>,
}

pub open spec fn block_is(b: Block, v: BlockV) -> bool
    decreases v,
{
    match v {
        BlockV::Section { level, title, children, title_span } => b matches Block::Section { level: l, title: t, children: c, title_span: s }
            && l == level && t@ == title && s == title_span && c@.len() == children.len()
            && forall|k: int| 0 <= k < children.len() ==> block_is(#[trigger] c@[k], children[k]),
        BlockV::List { ordered, has_checkbox, items } => b matches Block::List { ordered: o, has_checkbox: h, items: its }
            && o == ordered && h == has_checkbox && its@.len() == items.len()
            && forall|k: int| 0 <= k < items.len() ==> item_is(#[trigger] its@[k], items[k]),
        BlockV::Para { text, span } => b matches Block::Para { text: t, span: s } && t@ == text && s == span,
        BlockV::Other { span } => b matches Block::Other { span: s } && s == span,
    }
}

pub open spec fn item_is(i: Item, v: ItemV) -> bool
    decreases v,
{
    &&& i.text@ == v.text
    &&& i.span == v.span
    &&& i.checked == v.checked
    &&& i.checkbox_len == v.checkbox_len
    &&& i.children@.len() == v.children.len()
    &&& forall|k: int| 0 <= k < v.children.len() ==> block_is(#[trigger] i.children@[k], v.children[k])
}

pub open spec fn blocks_are(bs: Seq<Block>, vs: Seq<BlockV>) -> bool {
    &&& bs.len() == vs.len()
    &&& forall|k: int| 0 <= k < vs.len() ==> block_is(#[trigger] bs[k], vs[k])
}

/// The inline text of nodes, concatenated: literals as written, a line break
/// as a space, any other node by its own children.
pub open spec fn text_acc(cs: Seq<MdTreeV>) -> Seq<char>
    decreases cs,
{
    if cs.len() == 0 {
        Seq::empty()
    } else {
        text_acc(cs.drop_last()) + piece(cs[cs.len() - 1])
    }
}

pub open spec fn piece(t: MdTreeV) -> Seq<char>
    decreases t,
{
    match t.kind {
        MdKindV::Lit(s) => s,
        MdKindV::Break => seq![' '],
        _ => text_acc(t.children),
    }
}

/// Inline text reads node by node: the text of two runs of nodes is the
/// first's followed by the second's; a literal reads as written, a line
/// break as one space, and any other node as its children.
pub proof fn law_inline_text(a: Seq<MdTreeV>, b: Seq<MdTreeV>, t: MdTreeV)
    ensures
        text_acc(a + b) == text_acc(a) + text_acc(b),
        t.kind matches MdKindV::Lit(s) ==> text_acc(seq![t]) == s,
        t.kind is Break ==> text_acc(seq![t]) == seq![' '],
        !(t.kind is Lit) && !(t.kind is Break) ==> text_acc(seq![t]) == text_acc(t.children),
    decreases b.len(),
{
    if b.len() == 0 {
        assert(a + b =~= a);
        assert(text_acc(a) + Seq::<char>::empty() =~= text_acc(a));
    } else {
        law_inline_text(a, b.drop_last(), t);
        assert((a + b).drop_last() =~= a + b.drop_last());
        assert((a + b)[(a + b).len() - 1] == b[b.len() - 1]);
        assert(text_acc(a) + text_acc(b.drop_last()) + piece(b[b.len() - 1])
            =~= text_acc(a) + (text_acc(b.drop_last()) + piece(b[b.len() - 1])));
    }
    let one = seq![t];
    assert(one.drop_last() =~= Seq::<MdTreeV>::empty());
    assert(one[one.len() - 1] == t);
    assert(text_acc(Seq::<MdTreeV>::empty()) == Seq::<char>::empty());
    assert(text_acc(one) == text_acc(one.drop_last()) + piece(t));
    assert(Seq::<char>::empty() + piece(t) =~= piece(t));
    assert(text_acc(one) == piece(t));
}

/// The trimmed inline text of a heading, paragraph or item line.
pub open spec fn text_v(t: MdTreeV) -> Seq<char> {
    trim(text_acc(t.children))
}

/// The span a node covers (its end column is inclusive, so the end offset is
/// the line start plus that column).
pub open spec fn node_span_v(p: MdPos, ls: Seq<usize>) -> Span {
    Span { start: offset_spec(p.start_line, p.start_col, ls), end: sat_add(line_start_spec(p.end_line, ls) as int, p.end_col as int) }
}

/// The inline extent of a paragraph, or `None` for a node without a position.
pub open spec fn inline_span_v(p: MdPos, ls: Seq<usize>) -> Option<Span> {
    if p.start_line == 0 {
        None
    } else {
        Some(node_span_v(p, ls))
    }
}

/// A block before heading nesting: a heading (level, title, title span) or
/// any other block.
pub enum FlatV {
    Heading(u8, Seq<char>, Span),
    Block(BlockV),
}

/// The deepest list nesting the block model follows; deeper lists are
/// dropped (so they fail to match rather than exhaust the stack).
pub open spec fn max_doc_depth() -> nat {
    128
}

/// The blocks of the nodes `cs` at list depth `depth`, headings nested;
/// `lists_only` keeps only lists (as inside an item).
pub open spec fn blocks_v(cs: Seq<MdTreeV>, ls: Seq<usize>, depth: nat, lists_only: bool) -> Seq<BlockV>
    decreases cs, 1int,
{
    if depth > max_doc_depth() {
        Seq::empty()
    } else {
        nest_v(flats_v(cs, ls, depth, lists_only), 0, 0).0
    }
}

pub open spec fn flats_v(cs: Seq<MdTreeV>, ls: Seq<usize>, depth: nat, lists_only: bool) -> Seq<FlatV>
    decreases cs, 0int,
{
    if cs.len() == 0 {
        Seq::empty()
    } else {
        flats_v(cs.drop_last(), ls, depth, lists_only) + flat_v(cs[cs.len() - 1], ls, depth, lists_only)
    }
}

pub open spec fn flat_v(t: MdTreeV, ls: Seq<usize>, depth: nat, lists_only: bool) -> Seq<FlatV>
    decreases t, 1int,
{
    match t.kind {
        MdKindV::List(o) => seq![FlatV::Block(list_v(t, o, ls, depth))],
        MdKindV::Heading(l) => if lists_only { Seq::empty() } else { seq![FlatV::Heading(l, text_v(t), node_span_v(t.pos, ls))] },
        MdKindV::Paragraph => if lists_only { Seq::empty() } else { seq![FlatV::Block(BlockV::Para { text: text_v(t), span: node_span_v(t.pos, ls) })] },
        _ => if lists_only { Seq::empty() } else { seq![FlatV::Block(BlockV::Other { span: node_span_v(t.pos, ls) })] },
    }
}

pub open spec fn list_v(t: MdTreeV, ordered: bool, ls: Seq<usize>, depth: nat) -> BlockV
    decreases t, 0int,
{
    let items = items_v(t.children, ls, depth);
    BlockV::List { ordered, has_checkbox: any_checked(items), items }
}

/// Whether some item has a checkbox.
pub open spec fn any_checked(items: Seq<ItemV>) -> bool {
    exists|k: int| 0 <= k < items.len() && (#[trigger] items[k]).checked is Some
}

pub open spec fn items_v(cs: Seq<MdTreeV>, ls: Seq<usize>, depth: nat) -> Seq<ItemV>
    decreases cs, 0int,
{
    if cs.len() == 0 {
        Seq::empty()
    } else {
        items_v(cs.drop_last(), ls, depth).push(item_v(cs[cs.len() - 1], ls, depth))
    }
}

/// An item: the text and extent of its first paragraph with a position (or,
/// without one, an empty span at its content column), its checkbox, and the
/// lists nested in it one level deeper.
pub open spec fn item_v(t: MdTreeV, ls: Seq<usize>, depth: nat) -> ItemV
    decreases t, 0int,
{
    let (tx, sp) = para_state(t.children, ls);
    let span = match sp {
        Some(s) => s,
        None => item_content_span_v(t, ls),
    };
    let (checked, cl) = checkbox_spec(tx);
    ItemV { text: tx, span, checked, checkbox_len: cl, children: blocks_v(t.children, ls, depth + 1, true) }
}

/// The text and inline span of the first paragraph (among `cs`) that has a
/// position; the text of a position-less paragraph stands until one follows.
pub open spec fn para_state(cs: Seq<MdTreeV>, ls: Seq<usize>) -> (Seq<char>, Option<Span>)
    decreases cs.len(),
{
    if cs.len() == 0 {
        (Seq::empty(), None)
    } else {
        let (tx, sp) = para_state(cs.drop_last(), ls);
        let c = cs[cs.len() - 1];
        if c.kind is Paragraph && sp is None {
            (text_v(c), inline_span_v(c.pos, ls))
        } else {
            (tx, sp)
        }
    }
}

/// A zero-width span at an item's content column (after its marker).
pub open spec fn item_content_span_v(t: MdTreeV, ls: Seq<usize>) -> Span {
    let pad = match t.kind {
        MdKindV::Item(p) => p,
        _ => 0,
    };
    let o = offset_spec(t.pos.start_line, sat_add(t.pos.start_col as int, pad as int), ls);
    Span { start: o, end: o }
}

/// Heading nesting from position `pos`: a heading owns the following blocks
/// and deeper headings, up to a heading of its level or higher. Returns the
/// blocks and where they stop (at a heading of level `parent` or higher).
pub open spec fn nest_v(fl: Seq<FlatV>, pos: int, parent: u8) -> (Seq<BlockV>, int)
    decreases fl.len() - pos,
{
    if pos < 0 || pos >= fl.len() {
        (Seq::empty(), pos)
    } else {
        match fl[pos] {
            FlatV::Heading(l, title, sp) => if l <= parent {
                (Seq::empty(), pos)
            } else {
                let (ch, e) = nest_v(fl, pos + 1, l);
                if e <= pos || e > fl.len() {
                    (Seq::empty(), pos)
                } else {
                    let (rest, e2) = nest_v(fl, e, parent);
                    (seq![BlockV::Section { level: l, title, children: ch, title_span: sp }] + rest, e2)
                }
            },
            FlatV::Block(b) => {
                let (rest, e2) = nest_v(fl, pos + 1, parent);
                (seq![b] + rest, e2)
            },
        }
    }
}

pub proof fn lemma_nest_bounds(fl: Seq<FlatV>, pos: int, parent: u8)
    requires
        0 <= pos <= fl.len(),
    ensures
        pos <= nest_v(fl, pos, parent).1 <= fl.len(),
    decreases fl.len() - pos,
{
    if pos < fl.len() {
        match fl[pos] {
            FlatV::Heading(l, title, sp) => if l > parent {
                lemma_nest_bounds(fl, pos + 1, l);
                let (ch, e) = nest_v(fl, pos + 1, l);
                lemma_nest_bounds(fl, e, parent);
            },
            FlatV::Block(b) => {
                lemma_nest_bounds(fl, pos + 1, parent);
            },
        }
    }
}

/// Heading nesting does not depend on what comes before: reading from
/// `p.len() + i` in `p + q` is reading from `i` in `q`.
proof fn lemma_nest_shift(p: Seq<FlatV>, q: Seq<FlatV>, i: int, parent: u8)
    requires
        0 <= i <= q.len(),
    ensures
        nest_v(p + q, p.len() + i, parent) == (nest_v(q, i, parent).0, nest_v(q, i, parent).1 + p.len()),
    decreases q.len() - i,
{
    let fl = p + q;
    if i < q.len() {
        assert(fl[p.len() + i] == q[i]);
        match q[i] {
            FlatV::Heading(l, title, sp) => {
                if l > parent {
                    lemma_nest_shift(p, q, i + 1, l);
                    lemma_nest_bounds(q, i + 1, l);
                    let e = nest_v(q, i + 1, l).1;
                    if e > i && e <= q.len() {
                        lemma_nest_shift(p, q, e, parent);
                    }
                }
            },
            FlatV::Block(b) => {
                lemma_nest_shift(p, q, i + 1, parent);
            },
        }
    }
}

/// The blocks `bs` as flat blocks.
pub open spec fn flat_blocks(bs: Seq<BlockV>) -> Seq<FlatV> {
    bs.map_values(|b: BlockV| FlatV::Block(b))
}

proof fn lemma_nest_owned(l: u8, t: Seq<char>, sp: Span, bs: Seq<BlockV>, q: Seq<FlatV>, k: int)
    requires
        1 <= k <= bs.len() + 1,
        q.len() == 0 || (q[0] matches FlatV::Heading(l2, _, _) && l2 <= l),
    ensures
        nest_v(seq![FlatV::Heading(l, t, sp)] + flat_blocks(bs) + q, k, l) == (bs.skip(k - 1), bs.len() + 1int),
    decreases bs.len() + 1 - k,
{
    let fl = seq![FlatV::Heading(l, t, sp)] + flat_blocks(bs) + q;
    if k <= bs.len() {
        assert(fl[k] == FlatV::Block(bs[k - 1]));
        lemma_nest_owned(l, t, sp, bs, q, k + 1);
        assert(seq![bs[k - 1]] + bs.skip(k) =~= bs.skip(k - 1));
    } else {
        assert(bs.skip(k - 1) =~= Seq::<BlockV>::empty());
        if q.len() > 0 {
            assert(fl[k] == q[0]);
        }
    }
}

/// A heading owns the blocks that follow it up to the next heading of its
/// level or higher (or the end): the section holds exactly those blocks,
/// and the rest is nested as it would be on its own.
pub proof fn law_heading_owns_until_peer(l: u8, t: Seq<char>, sp: Span, bs: Seq<BlockV>, q: Seq<FlatV>)
    requires
        l > 0,
        q.len() == 0 || (q[0] matches FlatV::Heading(l2, _, _) && l2 <= l),
    ensures
        nest_v(seq![FlatV::Heading(l, t, sp)] + flat_blocks(bs) + q, 0, 0).0
            == seq![BlockV::Section { level: l, title: t, children: bs, title_span: sp }] + nest_v(q, 0, 0).0,
{
    let p = seq![FlatV::Heading(l, t, sp)] + flat_blocks(bs);
    let fl = p + q;
    assert(seq![FlatV::Heading(l, t, sp)] + flat_blocks(bs) + q == fl);
    assert(fl[0] == FlatV::Heading(l, t, sp));
    lemma_nest_owned(l, t, sp, bs, q, 1);
    assert(bs.skip(0) =~= bs);
    assert(p.len() == bs.len() + 1);
    lemma_nest_shift(p, q, 0, 0);
}

/// A block before heading nesting.
pub enum Flat {
    Heading(u8, String, Span),
    Block(Block),
}

pub open spec fn flat_is(f: Flat, v: FlatV) -> bool {
    match v {
        FlatV::Heading(l, t, s) => f matches Flat::Heading(l2, t2, s2) && l2 == l && t2@ == t && s2 == s,
        FlatV::Block(b) => f matches Flat::Block(b2) && block_is(b2, b),
    }
}

fn collect_text(cs: &Vec<MdTree>, Ghost(vs): Ghost<Seq<MdTreeV>>, out: &mut Vec<char>)
    requires
        trees_are(cs@, vs),
    ensures
        final(out)@ == old(out)@ + text_acc(vs),
    decreases vs,
{
    let mut i: usize = 0;
    while i < cs.len()
        invariant
            trees_are(cs@, vs),
            i <= cs@.len(),
            out@ == old(out)@ + text_acc(vs.take(i as int)),
        decreases cs@.len() - i,
    {
        let c = &cs[i];
        assert(tree_is(cs@[i as int], vs[i as int]));
        assert(vs.take(i + 1).drop_last() =~= vs.take(i as int));
        assert(vs.take(i + 1)[i as int] == vs[i as int]);
        assert(text_acc(vs.take(i + 1)) == text_acc(vs.take(i as int)) + piece(vs[i as int]));
        let ghost before = out@;
        match &c.kind {
            MdKind::Lit(s) => {
                let v = chars_of(s.as_str());
                extend_chars(out, v.as_slice());
            },
            MdKind::Break => {
                out.push(' ');
            },
            _ => {
                collect_text(&c.children, Ghost(vs[i as int].children), out);
            },
        }
        assert(out@ =~= before + piece(vs[i as int]));
        assert(out@ =~= old(out)@ + text_acc(vs.take(i + 1)));
        i = i + 1;
    }
    assert(vs.take(i as int) =~= vs);
}

fn text_of(t: &MdTree, Ghost(v): Ghost<MdTreeV>) -> (r: String)
    requires
        tree_is(*t, v),
    ensures
        r@ == text_v(v),
{
    let mut buf: Vec<char> = Vec::new();
    collect_text(&t.children, Ghost(v.children), &mut buf);
    assert(buf@ =~= text_acc(v.children));
    string_of(trimmed(buf.as_slice()).as_slice())
}

fn node_span(p: MdPos, ls: &Vec<usize>) -> (r: Span)
    ensures
        r == node_span_v(p, ls@),
{
    let start = offset(p.start_line, p.start_col, ls.as_slice());
    let end = line_start(p.end_line, ls.as_slice()).saturating_add(p.end_col);
    Span { start, end }
}

fn inline_span(p: MdPos, ls: &Vec<usize>) -> (r: Option<Span>)
    ensures
        r == inline_span_v(p, ls@),
{
    if p.start_line == 0 {
        None
    } else {
        Some(node_span(p, ls))
    }
}

fn item_content_span(t: &MdTree, Ghost(v): Ghost<MdTreeV>, ls: &Vec<usize>) -> (r: Span)
    requires
        tree_is(*t, v),
    ensures
        r == item_content_span_v(v, ls@),
{
    let pad = match &t.kind {
        MdKind::Item(p) => *p,
        _ => 0,
    };
    let o = offset(t.pos.start_line, t.pos.start_col.saturating_add(pad), ls.as_slice());
    Span { start: o, end: o }
}

fn build_blocks(cs: &Vec<MdTree>, Ghost(vs): Ghost<Seq<MdTreeV>>, ls: &Vec<usize>, depth: usize, lists_only: bool) -> (r: Vec<Block>)
    requires
        trees_are(cs@, vs),
        depth <= max_doc_depth() + 1,
    ensures
        blocks_are(r@, blocks_v(vs, ls@, depth as nat, lists_only)),
    decreases vs, 1int,
{
    if depth > 128 {
        return Vec::new();
    }
    let mut flats = flats_of(cs, Ghost(vs), ls, depth, lists_only);
    let ghost fl = flats_v(vs, ls@, depth as nat, lists_only);
    let ghost n = fl.len();
    let mut stack: Vec<Flat> = Vec::new();
    while flats.len() > 0
        invariant
            n == fl.len(),
            flats@.len() + stack@.len() == n,
            forall|k: int| 0 <= k < flats@.len() ==> flat_is(#[trigger] flats@[k], fl[k]),
            forall|k: int| 0 <= k < stack@.len() ==> flat_is(#[trigger] stack@[k], fl[n - 1 - k]),
        decreases flats@.len(),
    {
        let f = flats.pop().unwrap();
        stack.push(f);
    }
    proof { lemma_nest_bounds(fl, 0, 0); }
    let r = nest(&mut stack, Ghost(fl), 0);
    r
}

/// Whether heading nesting goes on with the next flat block: one is left and
/// it is not a heading of level `parent` or higher.
fn nest_continues(stack: &Vec<Flat>, parent: u8) -> (b: bool)
    ensures
        b == (stack@.len() > 0 && !(stack@[stack@.len() - 1] matches Flat::Heading(l, _, _) && l <= parent)),
{
    if stack.len() == 0 {
        return false;
    }
    match &stack[stack.len() - 1] {
        Flat::Heading(l, _, _) => !(*l <= parent),
        _ => true,
    }
}

/// Heading nesting over the flat blocks left on `stack` (the next one last).
fn nest(stack: &mut Vec<Flat>, Ghost(fl): Ghost<Seq<FlatV>>, parent: u8) -> (r: Vec<Block>)
    requires
        old(stack)@.len() <= fl.len(),
        forall|k: int| 0 <= k < old(stack)@.len() ==> flat_is(#[trigger] old(stack)@[k], fl[fl.len() - 1 - k]),
    ensures
        ({
            let pos = fl.len() - old(stack)@.len();
            let (bs, e) = nest_v(fl, pos, parent);
            &&& blocks_are(r@, bs)
            &&& final(stack)@.len() == fl.len() - e
            &&& forall|k: int| 0 <= k < final(stack)@.len() ==> flat_is(#[trigger] final(stack)@[k], fl[fl.len() - 1 - k])
        }),
    decreases old(stack)@.len(),
{
    let ghost n = fl.len();
    let ghost pos0 = n - stack@.len();
    proof { lemma_nest_bounds(fl, pos0, parent); }
    let mut out: Vec<Block> = Vec::new();
    while nest_continues(stack, parent)
        invariant
            n == fl.len(),
            stack@.len() <= n,
            stack@.len() <= old(stack)@.len(),
            pos0 <= n - stack@.len() <= nest_v(fl, pos0, parent).1,
            forall|k: int| 0 <= k < stack@.len() ==> flat_is(#[trigger] stack@[k], fl[n - 1 - k]),
            blocks_are(out@, nest_v(fl, pos0, parent).0.take(out@.len() as int)),
            nest_v(fl, pos0, parent).0 == nest_v(fl, pos0, parent).0.take(out@.len() as int) + nest_v(fl, n - stack@.len(), parent).0,
            nest_v(fl, pos0, parent).1 == nest_v(fl, n - stack@.len(), parent).1,
        decreases stack@.len(),
    {
        let ghost cur = n - stack@.len();
        let ghost before = nest_v(fl, pos0, parent).0.take(out@.len() as int);
        assert(flat_is(stack@[stack@.len() - 1], fl[cur]));
        let f = stack.pop().unwrap();
        match f {
            Flat::Heading(l, title, span) => {
                proof { lemma_nest_bounds(fl, cur + 1, l); }
                let children = nest(stack, Ghost(fl), l);
                let ghost e = nest_v(fl, cur + 1, l).1;
                proof {
                    lemma_nest_bounds(fl, e, parent);
                    assert(nest_v(fl, cur, parent).0 == seq![BlockV::Section { level: l, title: title@, children: nest_v(fl, cur + 1, l).0, title_span: span }] + nest_v(fl, e, parent).0);
                }
                out.push(Block::Section { level: l, title, children, title_span: span });
                proof {
                    assert(nest_v(fl, pos0, parent).0.take(out@.len() as int) =~= before.push(nest_v(fl, cur, parent).0[0]));
                    assert(nest_v(fl, pos0, parent).0 =~= nest_v(fl, pos0, parent).0.take(out@.len() as int) + nest_v(fl, e, parent).0);
                }
            },
            Flat::Block(b) => {
                proof {
                    lemma_nest_bounds(fl, cur + 1, parent);
                }
                out.push(b);
                proof {
                    assert(nest_v(fl, pos0, parent).0.take(out@.len() as int) =~= before.push(nest_v(fl, cur, parent).0[0]));
                    assert(nest_v(fl, pos0, parent).0 =~= nest_v(fl, pos0, parent).0.take(out@.len() as int) + nest_v(fl, cur + 1, parent).0);
                }
            },
        }
    }
    proof {
        let cur = n - stack@.len();
        assert(nest_v(fl, cur, parent).0 =~= Seq::<BlockV>::empty());
        assert(nest_v(fl, pos0, parent).0.take(out@.len() as int) =~= nest_v(fl, pos0, parent).0);
    }
    out
}

fn flats_of(cs: &Vec<MdTree>, Ghost(vs): Ghost<Seq<MdTreeV>>, ls: &Vec<usize>, depth: usize, lists_only: bool) -> (r: Vec<Flat>)
    requires
        trees_are(cs@, vs),
        depth <= max_doc_depth(),
    ensures
        r@.len() == flats_v(vs, ls@, depth as nat, lists_only).len(),
        forall|k: int| 0 <= k < r@.len() ==> flat_is(#[trigger] r@[k], flats_v(vs, ls@, depth as nat, lists_only)[k]),
    decreases vs, 0int,
{
    let mut out: Vec<Flat> = Vec::new();
    let mut i: usize = 0;
    while i < cs.len()
        invariant
            trees_are(cs@, vs),
            depth <= max_doc_depth(),
            i <= cs@.len(),
            out@.len() == flats_v(vs.take(i as int), ls@, depth as nat, lists_only).len(),
            forall|k: int| 0 <= k < out@.len() ==> flat_is(#[trigger] out@[k], flats_v(vs.take(i as int), ls@, depth as nat, lists_only)[k]),
        decreases cs@.len() - i,
    {
        let c = &cs[i];
        let ghost v = vs[i as int];
        assert(tree_is(cs@[i as int], v));
        assert(vs.take(i + 1).drop_last() =~= vs.take(i as int));
        assert(vs.take(i + 1)[i as int] == v);
        let ghost prev = flats_v(vs.take(i as int), ls@, depth as nat, lists_only);
        let ghost next = flats_v(vs.take(i + 1), ls@, depth as nat, lists_only);
        assert(next == prev + flat_v(v, ls@, depth as nat, lists_only));
        match &c.kind {
            MdKind::List(o) => {
                let b = doc_list(c, Ghost(v), *o, ls, depth);
                out.push(Flat::Block(b));
            },
            MdKind::Heading(l) => {
                if !lists_only {
                    let t = text_of(c, Ghost(v));
                    out.push(Flat::Heading(*l, t, node_span(c.pos, ls)));
                }
            },
            MdKind::Paragraph => {
                if !lists_only {
                    let t = text_of(c, Ghost(v));
                    out.push(Flat::Block(Block::Para { text: t, span: node_span(c.pos, ls) }));
                }
            },
            _ => {
                if !lists_only {
                    out.push(Flat::Block(Block::Other { span: node_span(c.pos, ls) }));
                }
            },
        }
        assert forall|k: int| 0 <= k < out@.len() implies flat_is(#[trigger] out@[k], next[k]) by {
            if k < prev.len() {
                assert(next[k] == prev[k]);
            }
        }
        i = i + 1;
    }
    assert(vs.take(i as int) =~= vs);
    out
}

fn doc_list(t: &MdTree, Ghost(v): Ghost<MdTreeV>, ordered: bool, ls: &Vec<usize>, depth: usize) -> (r: Block)
    requires
        tree_is(*t, v),
        depth <= max_doc_depth(),
    ensures
        block_is(r, list_v(v, ordered, ls@, depth as nat)),
    decreases v, 0int,
{
    let mut items: Vec<Item> = Vec::new();
    let mut has_checkbox = false;
    let mut i: usize = 0;
    let ghost vs = v.children;
    while i < t.children.len()
        invariant
            tree_is(*t, v),
            vs == v.children,
            depth <= max_doc_depth(),
            i <= t.children@.len(),
            items@.len() == i,
            items_v(vs.take(i as int), ls@, depth as nat).len() == i,
            forall|k: int| 0 <= k < i ==> item_is(#[trigger] items@[k], items_v(vs.take(i as int), ls@, depth as nat)[k]),
            has_checkbox == any_checked(items_v(vs.take(i as int), ls@, depth as nat)),
        decreases t.children@.len() - i,
    {
        let c = &t.children[i];
        assert(tree_is(t.children@[i as int], vs[i as int]));
        assert(vs.take(i + 1).drop_last() =~= vs.take(i as int));
        assert(vs.take(i + 1)[i as int] == vs[i as int]);
        let ghost prev = items_v(vs.take(i as int), ls@, depth as nat);
        let it = item_of(c, Ghost(vs[i as int]), ls, depth);
        let ghost next = items_v(vs.take(i + 1), ls@, depth as nat);
        assert(next == prev.push(item_v(vs[i as int], ls@, depth as nat)));
        let ghost h0 = has_checkbox;
        if it.checked.is_some() {
            has_checkbox = true;
        }
        proof {
            if has_checkbox {
                if h0 {
                    let w = choose|w: int| 0 <= w < prev.len() && (#[trigger] prev[w]).checked is Some;
                    assert(next[w] == prev[w]);
                } else {
                    assert(next[i as int].checked is Some);
                }
            } else {
                assert forall|w: int| 0 <= w < next.len() implies !((#[trigger] next[w]).checked is Some) by {
                    if w < prev.len() {
                        assert(next[w] == prev[w]);
                    }
                }
            }
        }
        items.push(it);
        assert forall|k: int| 0 <= k < i + 1 implies item_is(#[trigger] items@[k], next[k]) by {
            if k < i {
                assert(next[k] == prev[k]);
            }
        }
        i = i + 1;
    }
    assert(vs.take(i as int) =~= vs);
    Block::List { ordered, has_checkbox, items }
}

fn item_of(t: &MdTree, Ghost(v): Ghost<MdTreeV>, ls: &Vec<usize>, depth: usize) -> (r: Item)
    requires
        tree_is(*t, v),
        depth <= max_doc_depth(),
    ensures
        item_is(r, item_v(v, ls@, depth as nat)),
    decreases v, 0int,
{
    let ghost vs = v.children;
    let mut ptext = String::new();
    let mut pspan: Option<Span> = None;
    let mut i: usize = 0;
    while i < t.children.len()
        invariant
            tree_is(*t, v),
            vs == v.children,
            i <= t.children@.len(),
            (ptext@, pspan) == para_state(vs.take(i as int), ls@),
        decreases t.children@.len() - i,
    {
        let c = &t.children[i];
        assert(tree_is(t.children@[i as int], vs[i as int]));
        assert(vs.take(i + 1).drop_last() =~= vs.take(i as int));
        assert(vs.take(i + 1)[i as int] == vs[i as int]);
        let is_para = match &c.kind {
            MdKind::Paragraph => true,
            _ => false,
        };
        if is_para && pspan.is_none() {
            ptext = text_of(c, Ghost(vs[i as int]));
            pspan = inline_span(c.pos, ls);
        }
        i = i + 1;
    }
    assert(vs.take(i as int) =~= vs);
    let span = match pspan {
        Some(s) => s,
        None => item_content_span(t, Ghost(v), ls),
    };
    let tv = chars_of(ptext.as_str());
    let (checked, cl) = checkbox_prefix(tv.as_slice());
    let children = build_blocks(&t.children, Ghost(vs), ls, depth + 1, true);
    Item { text: ptext, span, checked, checkbox_len: cl, children }
}

/// The blocks of a parsed document: the body blocks of the first root node
/// (the document), headings nested.
pub open spec fn doc_blocks_v(ev: Seq<MdEventV>, ls: Seq<usize>) -> Seq<BlockV> {
    let f = ev_forest(ev, 0, Place::Root).0;
    if f.len() == 0 {
        Seq::empty()
    } else {
        blocks_v(f[0].children, ls, 0, false)
    }
}

/// The block tree of a document from its markdown events and line-start
/// table (see [`doc_blocks_v`]).
pub fn blocks_from_events(ev: &Vec<MdEvent>, ls: &Vec<usize>) -> (r: Vec<Block>)
    ensures
        blocks_are(r@, doc_blocks_v(events_v(ev@), ls@)),
{
    let (roots, _) = forest_at(ev, 0, Place::Root);
    if roots.len() == 0 {
        return Vec::new();
    }
    let ghost f = ev_forest(events_v(ev@), 0, Place::Root).0;
    assert(tree_is(roots@[0], f[0]));
    build_blocks(&roots[0].children, Ghost(f[0].children), ls, 0, false)
}

/// The block tree of a markdown body.
pub fn parse_blocks(body: &str) -> (r: Vec<Block>)
    ensures
        blocks_are(r@, doc_blocks_v(markdown_events(body@), line_starts_spec(body.spec_bytes()))),
{
    let ls = line_starts(body.as_bytes());
    let ev = parse_markdown(body);
    blocks_from_events(&ev, &ls)
}


// ---- items ---------------------------------------------------------------------

/// The item text a schema node of the given style captures: checklist nodes
/// drop the checkbox prefix (and the whitespace after it). (The checkbox
/// length never exceeds the text, which it was read from.)
pub open spec fn item_text_v(text: Seq<char>, checkbox_len: usize, checklist: bool) -> Seq<char> {
    if checklist {
        trim_start(text.skip(if checkbox_len <= text.len() { checkbox_len as int } else { text.len() as int }))
    } else {
        text
    }
}

/// The editable span of an item for a schema node of the given style:
/// checklist nodes start after the checkbox (offsets saturate at
/// `usize::MAX`, which no document reaches).
pub open spec fn item_span_v(span: Span, checkbox_len: usize, checklist: bool) -> Span {
    if checklist {
        Span { start: sat_add(span.start as int, checkbox_len as int), end: span.end }
    } else {
        span
    }
}

impl Item {
    /// The text a schema node of the given style captures (see
    /// [`item_text_v`]).
    pub fn text_for(&self, checklist: bool) -> (r: String)
        ensures
            r@ == item_text_v(self.text@, self.checkbox_len, checklist),
    {
        if checklist {
            let v = chars_of(self.text.as_str());
            let n = v.len();
            let c = if self.checkbox_len <= n { self.checkbox_len } else { n };
            let a = crate::text::skip_ws(v.as_slice(), c, n);
            assert(v@.subrange(c as int, n as int) =~= v@.skip(c as int));
            string_of(&v.as_slice()[a..n])
        } else {
            self.text.clone()
        }
    }

    /// The editable span for a schema node of the given style (see
    /// [`item_span_v`]).
    pub fn span_for(&self, checklist: bool) -> (r: Span)
        ensures
            r == item_span_v(self.span, self.checkbox_len, checklist),
    {
        if checklist {
            Span { start: self.span.start.saturating_add(self.checkbox_len), end: self.span.end }
        } else {
            self.span
        }
    }
}

// ---- frontmatter fences ----------------------------------------------------------

/// Where the body of `md` starts: after a leading frontmatter block, else at 0.
pub open spec fn body_start(md: Seq<u8>) -> int {
    match fm_bounds(md) {
        Some((_, _, c)) => c,
        None => 0,
    }
}

pub proof fn lemma_fm_bounds(md: Seq<u8>)
    ensures
        fm_bounds(md) matches Some((a, b, c)) ==> 0 < a <= b <= c <= md.len() && md[a - 1] == 10u8
            && (b > a ==> b < md.len() && md[b] == 10u8)
            && (c < md.len() ==> md[c - 1] == 10u8),
{
    lemma_byte_index(md, 10u8);
    match byte_index(md, 10u8) {
        Some(n) => {
            lemma_fm_close(md, n + 1);
        },
        None => {},
    }
}

/// The body of `md` after a leading `--- … ---` frontmatter block, with its
/// byte offset; the whole of `md` and 0 when there is no well-formed block.
pub fn strip_frontmatter(md: &str) -> (r: (&str, usize))
    ensures
        r.1 == body_start(md.spec_bytes()),
        r.0.spec_bytes() == md.spec_bytes().subrange(r.1 as int, md.spec_bytes().len() as int),
        r.0@ == decode_utf8(r.0.spec_bytes()),
{
    let bytes = md.as_bytes();
    let ghost mb = md.spec_bytes();
    proof {
        lemma_fm_bounds(mb);
        encode_utf8_valid_utf8(md@);
        encode_utf8_decode_utf8(md@);
    }
    match frontmatter_bounds(bytes) {
        Some((_, _, c)) => {
            proof {
                if c < mb.len() {
                    lemma_boundary_after_ascii(mb, c as int);
                } else {
                    is_char_boundary_start_end_of_seq(mb);
                }
            }
            let (_, body) = md.split_at(c);
            proof { encode_utf8_decode_utf8(body@); }
            (body, c)
        },
        None => {
            assert(mb.subrange(0, mb.len() as int) =~= mb);
            (md, 0)
        },
    }
}

/// The text between the fences of a leading frontmatter block, if any.
pub fn frontmatter_block(md: &str) -> (r: Option<&str>)
    ensures
        match fm_bounds(md.spec_bytes()) {
            Some((a, b, _)) => r matches Some(inner) && inner.spec_bytes() == md.spec_bytes().subrange(a, b)
                && inner@ == decode_utf8(inner.spec_bytes()),
            None => r is None,
        },
{
    let bytes = md.as_bytes();
    let ghost mb = md.spec_bytes();
    proof {
        lemma_fm_bounds(mb);
        encode_utf8_valid_utf8(md@);
    }
    match frontmatter_bounds(bytes) {
        Some((a, b, _)) => {
            proof {
                if b > a {
                    is_char_boundary_iff_not_is_continuation_byte(mb, b as int);
                } else {
                    lemma_boundary_after_ascii(mb, a as int);
                }
            }
            let (left, _) = md.split_at(b);
            let ghost lb = left.spec_bytes();
            proof {
                valid_utf8_split(mb, b as int);
                assert(lb[a - 1] == mb[a - 1]);
                lemma_boundary_after_ascii(lb, a as int);
            }
            let (_, inner) = left.split_at(a);
            proof {
                assert(inner.spec_bytes() =~= mb.subrange(a as int, b as int));
                encode_utf8_decode_utf8(inner@);
            }
            Some(inner)
        },
        None => None,
    }
}

} // verus!
