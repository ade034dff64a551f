//! Reading back what the renderer writes, at the level of blocks: the blocks
//! a scope's rendering stands for, matched against the scope's nodes, give
//! no problems and bind the data that was rendered.

use crate::doc::{BlockV, ItemV};
use crate::json::{JsonV, obj_insert};
use crate::matcher::{
    BoundV, ItemBV, MState, SectionV, all_sections, card_problem_spec, first_list, first_para, first_section, heading_ids,
    is_list_v, is_scalar_list_spec, is_section_v, item_json, item_step, items_fold, items_json, json_into, label_ps,
    list_json, matches_text_spec, node_step, range_seq, scope_fold, scope_spec, secs_json, section_json,
    section_run_end, sections_fold, strip_label_spec, strict_ps, value_of,
};
use crate::error::ProblemV;
use crate::frontmatter::{field_value, field_writable, fields_v, fm_extract_spec, has_value, value_fits, written_values};
use crate::doc::{body_start, byte_index, fm_bounds, fm_close, is_fence, lemma_byte_index, lemma_fm_bounds};
use crate::edit::{edit_spec, target_path};
use crate::json::obj_get;
use crate::render::{label_prefix, member, render_spec};
use crate::text::parse_usize_spec;
use crate::validate::{body_blocks, check_spec, shift_problems};
use crate::schema::{Card, ListStyle, Match, Node, Schema, SchemaOpts, card_allows, is_omittable, is_repeated, regex_is_match};
use crate::text::{is_ws, lemma_trim_start_len, starts_with, trim_start};
use vstd::prelude::*;
use vstd::utf8::encode_utf8;

verus! {

// ---- what is rendered --------------------------------------------------------------------

/// The value a node is rendered from in the scope value `v`: the member
/// under its alias; nothing for an uncaptured node.
pub open spec fn node_value(n: Node, v: JsonV) -> JsonV {
    match n.alias() {
        Some(k) => member(v, k),
        None => JsonV::Null,
    }
}

/// The item values a list node is rendered from: a scalar list's lone
/// string, or an array's elements.
pub open spec fn list_entries(n: Node, x: JsonV) -> Seq<JsonV> {
    if is_scalar_list_spec(n) {
        match x {
            JsonV::Str(_) => seq![x],
            _ => Seq::empty(),
        }
    } else {
        match x {
            JsonV::Array(a) => a,
            _ => Seq::empty(),
        }
    }
}

/// The section values a heading node is rendered from.
pub open spec fn section_entries(n: Node, x: JsonV) -> Seq<JsonV> {
    if x is Null {
        Seq::empty()
    } else if is_repeated(n.head_of().card) {
        match x {
            JsonV::Array(a) => a,
            _ => Seq::empty(),
        }
    } else {
        seq![x]
    }
}

/// How many blocks a node writes for the value `x`: a section per section
/// value, one list when it has items, one paragraph for a string.
pub open spec fn block_count(n: Node, x: JsonV) -> nat {
    match n {
        Node::Heading { .. } => section_entries(n, x).len(),
        Node::List { .. } => if list_entries(n, x).len() > 0 { 1 } else { 0 },
        Node::Prose { .. } => if x is Str { 1 } else { 0 },
    }
}

/// How many blocks the nodes `ns` write for the scope value `v`.
pub open spec fn nodes_count(ns: Seq<Node>, v: JsonV) -> nat
    decreases ns.len(),
{
    if ns.len() == 0 {
        0
    } else {
        nodes_count(ns.drop_last(), v) + block_count(ns.last(), node_value(ns.last(), v))
    }
}

/// Whether a node's search takes the block `b`: a heading a section of its
/// level whose title it admits, a list a list of its style, prose a
/// paragraph.
pub open spec fn node_matches(n: Node, b: BlockV) -> bool {
    match n {
        Node::Heading { level, title, .. } => is_section_v(b, level, title),
        Node::List { style, .. } => is_list_v(b, style),
        Node::Prose { .. } => b is Para,
    }
}

/// The title a section is written with: a literal as it stands, the
/// `title` member for a regex heading.
pub open spec fn heading_text(title: Match, x: JsonV) -> Seq<char> {
    match title {
        Match::Literal(l) => l@,
        Match::Regex(_) => match member(x, "title"@) {
            JsonV::Str(t) => t,
            _ => Seq::empty(),
        },
    }
}

/// The text an item value writes (after any label).
pub open spec fn item_value_text(x: JsonV) -> Seq<char> {
    match x {
        JsonV::Str(s) => s,
        _ => match member(x, "text"@) {
            JsonV::Str(s) => s,
            _ => Seq::empty(),
        },
    }
}

/// The checkbox state an item value writes.
pub open spec fn item_value_checked(x: JsonV) -> bool {
    match member(x, "checked"@) {
        JsonV::Bool(b) => b,
        _ => false,
    }
}

/// `b` is the section written for a heading with the section value `x`.
pub open spec fn section_written(level: u8, title: Match, cs: Seq<Node>, x: JsonV, b: BlockV) -> bool
    decreases cs, 1int,
{
    b matches BlockV::Section { level: l, title: t, children: ch, .. } && l == level && t == heading_text(title, x)
        && nodes_written(cs, x, ch)
}

/// `it` is the item written for the item value `x` of the list node `n`.
pub open spec fn item_written(n: Node, x: JsonV, it: ItemV) -> bool
    decreases n, 0int,
{
    match n {
        Node::List { style, item, children, .. } => {
            &&& crate::doc::item_text_v(it.text, it.checkbox_len, style == ListStyle::Checklist) == label_prefix(item)
                + item_value_text(x)
            &&& style == ListStyle::Checklist ==> it.checked == Some(item_value_checked(x))
            &&& children@.len() > 0 ==> nodes_written(children@, x, it.children)
        },
        _ => false,
    }
}

/// `b` is the list written for the list node `n` with the value `x`.
pub open spec fn list_written(n: Node, x: JsonV, b: BlockV) -> bool
    decreases n, 1int,
{
    match n {
        Node::List { style, .. } => b matches BlockV::List { items, .. } && is_list_v(b, style) && items.len()
            == list_entries(n, x).len() && forall|k: int| 0 <= k < items.len() ==> item_written(n, list_entries(n, x)[k], #[trigger] items[k]),
        _ => false,
    }
}

/// `bs` are the blocks written for the node `n` with the value `x`.
pub open spec fn node_written(n: Node, x: JsonV, bs: Seq<BlockV>) -> bool
    decreases n, 2int,
{
    &&& bs.len() == block_count(n, x)
    &&& match n {
        Node::Heading { level, title, children, .. } => forall|k: int| 0 <= k < bs.len() ==> section_written(level, title, children@, section_entries(n, x)[k], #[trigger] bs[k]),
        Node::List { .. } => bs.len() == 1 ==> list_written(n, x, bs[0]),
        Node::Prose { .. } => bs.len() == 1 ==> (bs[0] matches BlockV::Para { text, .. } && x == JsonV::Str(text)),
    }
}

/// No node that writes no block, and no heading, has a later block of the
/// scope that its search would take (it would take a block another node
/// wrote).
pub open spec fn no_steal(ns: Seq<Node>, v: JsonV, bs: Seq<BlockV>) -> bool {
    forall|k: int, i: int| #![trigger ns[k], bs[i]]
        0 <= k < ns.len() && nodes_count(ns.take(k + 1), v) <= i < bs.len()
            && (block_count(ns[k], node_value(ns[k], v)) == 0 || ns[k] is Heading)
        ==> !node_matches(ns[k], bs[i])
}

/// `bs` are the blocks the nodes `ns` write for the scope value `v`, node
/// after node, and none of them is taken by an earlier node's search.
pub open spec fn nodes_written(ns: Seq<Node>, v: JsonV, bs: Seq<BlockV>) -> bool
    decreases ns, 0int,
{
    &&& bs.len() == nodes_count(ns, v)
    &&& no_steal(ns, v, bs)
    &&& ns.len() > 0 ==> {
        let c = nodes_count(ns.drop_last(), v);
        &&& nodes_written(ns.drop_last(), v, bs.take(c as int))
        &&& node_written(ns.last(), node_value(ns.last(), v), bs.skip(c as int))
    }
}

// ---- the data the reading gives back ------------------------------------------------------

/// The scope object `acc` with the captures of the nodes `ns` from the
/// scope value `v` inserted, node after node.
pub open spec fn captures(ns: Seq<Node>, v: JsonV, acc: Seq<(Seq<char>, JsonV)>) -> Seq<(Seq<char>, JsonV)>
    decreases ns.len(),
{
    if ns.len() == 0 {
        acc
    } else {
        let a = captures(ns.drop_last(), v, acc);
        match ns.last().alias() {
            Some(k) => obj_insert(a, k, member(v, k)),
            None => a,
        }
    }
}

/// A label admits the text it is written before: a literal with no leading
/// whitespace before text with none, or a regex that matches the text.
pub open spec fn text_fits(item: Option<Match>, s: Seq<char>) -> bool {
    match item {
        None => true,
        Some(Match::Literal(l)) => trim_start(l@) == l@ && trim_start(s) == s,
        Some(Match::Regex(r)) => regex_is_match(r@, s),
    }
}

/// The object an item value of a list with children (or a checklist) reads
/// back as, before its children's captures: its text, and its checkbox
/// state for a checklist.
pub open spec fn item_base(checklist: bool, x: JsonV) -> Seq<(Seq<char>, JsonV)> {
    let m0 = obj_insert(Seq::empty(), "text"@, JsonV::Str(item_value_text(x)));
    if checklist {
        obj_insert(m0, "checked"@, JsonV::Bool(item_value_checked(x)))
    } else {
        m0
    }
}

/// A section value in the shape reading gives back: an object of its
/// children's captures (and, for a regex heading, a title the regex
/// admits).
pub open spec fn section_fits(title: Match, cs: Seq<Node>, x: JsonV) -> bool
    decreases cs, 1int,
{
    &&& nodes_fit(cs, x)
    &&& match title {
        Match::Literal(l) => trim_start(l@) == l@ && x == JsonV::Object(captures(cs, x, Seq::empty())),
        Match::Regex(r) => member(x, "title"@) matches JsonV::Str(t) && regex_is_match(r@, t)
            && x == JsonV::Object(obj_insert(captures(cs, x, Seq::empty()), "title"@, JsonV::Str(t))),
    }
}

/// An item value in the shape reading gives back: a string for a childless
/// non-checklist list, else an object of its text, checkbox state and
/// children's captures; its text admitted by the list's label.
pub open spec fn item_fits(n: Node, x: JsonV) -> bool
    decreases n, 0int,
{
    match n {
        Node::List { style, item, children, .. } => if children@.len() == 0 && style != ListStyle::Checklist {
            x matches JsonV::Str(s) && text_fits(item, s)
        } else {
            &&& member(x, "text"@) matches JsonV::Str(s) && text_fits(item, s)
            &&& style == ListStyle::Checklist ==> member(x, "checked"@) is Bool
            &&& nodes_fit(children@, x)
            &&& x == JsonV::Object(captures(children@, x, item_base(style == ListStyle::Checklist, x)))
        },
        _ => false,
    }
}

/// A node's value in the shape reading gives back.
pub open spec fn node_fits(n: Node, x: JsonV) -> bool
    decreases n, 2int,
{
    match n {
        Node::Heading { title, head, children, .. } => if is_repeated(head.card) {
            x matches JsonV::Array(a) && card_allows(head.card, a.len())
                && forall|k: int| 0 <= k < a.len() ==> section_fits(title, children@, #[trigger] a[k])
        } else {
            (x is Null && is_omittable(head.card)) || section_fits(title, children@, x)
        },
        Node::List { head, .. } => if is_scalar_list_spec(n) {
            (x is Null && is_omittable(head.card)) || (x matches JsonV::Str(_) && item_fits(n, x))
        } else {
            x matches JsonV::Array(a) && card_allows(head.card, a.len())
                && forall|k: int| 0 <= k < a.len() ==> item_fits(n, #[trigger] a[k])
        },
        Node::Prose { text, head } => (x is Null && is_omittable(head.card)) || (x matches JsonV::Str(s) && match text {
            Some(m) => matches_text_spec(m, s),
            None => true,
        }),
    }
}

/// The scope value `v` fits the nodes `ns`: each captured node's member is
/// in the shape reading gives back; an uncaptured node may be absent.
pub open spec fn nodes_fit(ns: Seq<Node>, v: JsonV) -> bool
    decreases ns, 0int,
{
    forall|k: int| 0 <= k < ns.len() ==> match (#[trigger] ns[k]).alias() {
        Some(key) => node_fits(ns[k], member(v, key)),
        None => card_allows(ns[k].head_of().card, 0),
    }
}


// ---- searching a scope whose first blocks are claimed -------------------------------------

/// The claims after the first `e` blocks of a scope of `n` blocks are taken.
pub open spec fn claimed_upto(n: nat, e: int) -> Seq<bool> {
    Seq::new(n, |i: int| i < e)
}

proof fn lemma_first_list_at(doc: Seq<BlockV>, cl: Seq<bool>, c: int, e: int, style: ListStyle)
    requires
        cl == claimed_upto(doc.len(), e),
        0 <= c <= e,
        e <= doc.len(),
        e < doc.len() ==> is_list_v(doc[e], style),
        e == doc.len() ==> forall|i: int| e <= i < doc.len() ==> !is_list_v(#[trigger] doc[i], style),
    ensures
        first_list(doc, cl, c, style) == if e < doc.len() { Some(e) } else { None::<int> },
    decreases e - c,
{
    if c < e {
        lemma_first_list_at(doc, cl, c + 1, e, style);
    }
}

proof fn lemma_first_list_none(doc: Seq<BlockV>, cl: Seq<bool>, c: int, e: int, style: ListStyle)
    requires
        cl == claimed_upto(doc.len(), e),
        0 <= c,
        0 <= e <= doc.len(),
        forall|i: int| e <= i < doc.len() ==> !is_list_v(#[trigger] doc[i], style),
    ensures
        first_list(doc, cl, c, style) is None,
    decreases doc.len() - c,
{
    if c < doc.len() {
        lemma_first_list_none(doc, cl, c + 1, e, style);
    }
}

proof fn lemma_first_para_at(doc: Seq<BlockV>, cl: Seq<bool>, c: int, e: int)
    requires
        cl == claimed_upto(doc.len(), e),
        0 <= c <= e < doc.len(),
        doc[e] is Para,
    ensures
        first_para(doc, cl, c) == Some(e),
    decreases e - c,
{
    if c < e {
        lemma_first_para_at(doc, cl, c + 1, e);
    }
}

proof fn lemma_first_para_none(doc: Seq<BlockV>, cl: Seq<bool>, c: int, e: int)
    requires
        cl == claimed_upto(doc.len(), e),
        0 <= c,
        0 <= e <= doc.len(),
        forall|i: int| e <= i < doc.len() ==> !(#[trigger] doc[i] is Para),
    ensures
        first_para(doc, cl, c) is None,
    decreases doc.len() - c,
{
    if c < doc.len() {
        lemma_first_para_none(doc, cl, c + 1, e);
    }
}

proof fn lemma_first_section_at(doc: Seq<BlockV>, cl: Seq<bool>, c: int, e: int, level: u8, title: Match)
    requires
        cl == claimed_upto(doc.len(), e),
        0 <= c <= e < doc.len(),
        is_section_v(doc[e], level, title),
    ensures
        first_section(doc, cl, c, level, title) == Some(e),
    decreases e - c,
{
    if c < e {
        lemma_first_section_at(doc, cl, c + 1, e, level, title);
    }
}

proof fn lemma_first_section_none(doc: Seq<BlockV>, cl: Seq<bool>, c: int, e: int, level: u8, title: Match)
    requires
        cl == claimed_upto(doc.len(), e),
        0 <= c,
        0 <= e <= doc.len(),
        forall|i: int| e <= i < doc.len() ==> !is_section_v(#[trigger] doc[i], level, title),
    ensures
        first_section(doc, cl, c, level, title) is None,
    decreases doc.len() - c,
{
    if c < doc.len() {
        lemma_first_section_none(doc, cl, c + 1, e, level, title);
    }
}

/// A run of matching sections from `j` to `f`, with no match after it, ends
/// at `f`.
proof fn lemma_run_end(doc: Seq<BlockV>, cl: Seq<bool>, j: int, e: int, f: int, level: u8, title: Match)
    requires
        cl == claimed_upto(doc.len(), e),
        0 <= e <= j <= f <= doc.len(),
        forall|i: int| j <= i < f ==> is_section_v(#[trigger] doc[i], level, title),
        forall|i: int| f <= i < doc.len() ==> !is_section_v(#[trigger] doc[i], level, title),
    ensures
        section_run_end(doc, cl, j, level, title) == f,
    decreases f - j,
{
    if j < f {
        lemma_run_end(doc, cl, j + 1, e, f, level, title);
    }
}

/// With the first `e` blocks claimed, the unclaimed matching sections are
/// those from `e` to `f`.
proof fn lemma_all_sections(doc: Seq<BlockV>, cl: Seq<bool>, c: int, e: int, f: int, level: u8, title: Match)
    requires
        cl == claimed_upto(doc.len(), e),
        0 <= c,
        0 <= e <= f <= doc.len(),
        forall|i: int| e <= i < f ==> is_section_v(#[trigger] doc[i], level, title),
        forall|i: int| f <= i < doc.len() ==> !is_section_v(#[trigger] doc[i], level, title),
    ensures
        all_sections(doc, cl, c, level, title) == range_seq(if c < e { e } else { c }, f),
    decreases doc.len() - c,
{
    if c < doc.len() {
        lemma_all_sections(doc, cl, c + 1, e, f, level, title);
        let lo = if c + 1 < e { e } else { c + 1 };
        if c >= e && c < f {
            assert(range_seq(c, f) =~= seq![c] + range_seq(lo, f));
        } else if c < e {
            assert(range_seq(e, f) =~= range_seq(lo, f));
        }
    } else {
        assert(range_seq(if c < e { e } else { c }, f) =~= Seq::<int>::empty());
    }
}

/// A scope whose blocks are all claimed has no unclaimed-block problems.
proof fn lemma_strict_none(doc: Seq<BlockV>, cl: Seq<bool>, opts: SchemaOpts, path: Seq<Seq<char>>, k: int)
    requires
        cl == claimed_upto(doc.len(), doc.len() as int),
        k <= doc.len(),
    ensures
        strict_ps(doc, cl, opts, path, k) == Seq::<crate::error::ProblemV>::empty(),
    decreases k,
{
    if k > 0 {
        lemma_strict_none(doc, cl, opts, path, k - 1);
    }
}

// ---- labels --------------------------------------------------------------------------------

proof fn lemma_trim_start_keeps(l: Seq<char>, t: Seq<char>)
    requires
        trim_start(l) == l,
        l.len() > 0,
    ensures
        trim_start(l + t) == l + t,
{
    if is_ws(l[0]) {
        lemma_trim_start_len(l.drop_first());
        assert(trim_start(l) == trim_start(l.drop_first()));
    }
    assert((l + t)[0] == l[0]);
}

proof fn lemma_trim_start_space(s: Seq<char>)
    ensures
        trim_start(seq![' '] + s) == trim_start(s),
{
    assert(is_ws(' '));
    assert((seq![' '] + s).drop_first() =~= s);
}

/// An item written with the label before an admitted text: the label finds
/// no fault, and stripping it gives back the text.
proof fn lemma_label_round_trip(path: Seq<Seq<char>>, n: Node, item: Option<Match>, s: Seq<char>, sp: crate::doc::Span)
    requires
        text_fits(item, s),
    ensures
        label_ps(path, n, item, label_prefix(item) + s, sp) == Seq::<crate::error::ProblemV>::empty(),
        strip_label_spec(item, label_prefix(item) + s, sp).0 == s,
{
    reveal_strlit(" ");
    match item {
        Some(Match::Literal(l)) => {
            let full = label_prefix(item) + s;
            assert(" "@ == seq![' ']);
            assert(full =~= l@ + (seq![' '] + s));
            if l@.len() > 0 {
                lemma_trim_start_keeps(l@, seq![' '] + s);
                assert(full.take(l@.len() as int) =~= l@);
                assert(full.skip(l@.len() as int) =~= seq![' '] + s);
            } else {
                assert(l@ + (seq![' '] + s) =~= seq![' '] + s);
                lemma_trim_start_space(s);
                assert(s.skip(0) =~= s);
                assert(trim_start(full).take(0) =~= l@);
            }
            lemma_trim_start_space(s);
        },
        Some(Match::Regex(r)) => {
            assert(label_prefix(item) + s =~= s);
        },
        None => {
            assert(label_prefix(item) + s =~= s);
        },
    }
}

// ---- the pieces of a scope ---------------------------------------------------------------

proof fn lemma_omittable_allows_none(card: Card)
    ensures
        is_omittable(card) == card_allows(card, 0),
{
}

proof fn lemma_count_prefix(ns: Seq<Node>, v: JsonV, j: int)
    requires
        0 <= j <= ns.len(),
    ensures
        nodes_count(ns.take(j), v) <= nodes_count(ns, v),
    decreases ns.len(),
{
    if j < ns.len() {
        assert(ns.drop_last().take(j) =~= ns.take(j));
        lemma_count_prefix(ns.drop_last(), v, j);
    } else {
        assert(ns.take(j) =~= ns);
    }
}

/// The blocks a scope's nodes write are, node by node, the runs between
/// their counts.
proof fn lemma_written_at(ns: Seq<Node>, v: JsonV, bs: Seq<BlockV>, j: int)
    requires
        nodes_written(ns, v, bs),
        0 <= j < ns.len(),
    ensures
        nodes_count(ns.take(j + 1), v) == nodes_count(ns.take(j), v) + block_count(ns[j], node_value(ns[j], v)),
        nodes_count(ns.take(j + 1), v) <= bs.len(),
        node_written(ns[j], node_value(ns[j], v), bs.subrange(nodes_count(ns.take(j), v) as int, nodes_count(ns.take(j + 1), v) as int)),
    decreases ns.len(),
{
    let c = nodes_count(ns.drop_last(), v);
    assert(ns.take(j + 1).drop_last() =~= ns.take(j));
    if j == ns.len() - 1 {
        assert(ns.take(j + 1) =~= ns);
        assert(ns.take(j) =~= ns.drop_last());
        assert(bs.subrange(c as int, bs.len() as int) =~= bs.skip(c as int));
    } else {
        lemma_written_at(ns.drop_last(), v, bs.take(c as int), j);
        assert(ns.drop_last().take(j + 1) =~= ns.take(j + 1));
        assert(ns.drop_last().take(j) =~= ns.take(j));
        assert(ns.drop_last()[j] == ns[j]);
        lemma_count_prefix(ns.drop_last(), v, j + 1);
        let a = nodes_count(ns.take(j), v) as int;
        let b = nodes_count(ns.take(j + 1), v) as int;
        assert(bs.take(c as int).subrange(a, b) =~= bs.subrange(a, b));
    }
}

/// `json_into` reads only the first `bs.len()` nodes.
proof fn lemma_json_into_prefix(sch: Seq<Node>, sch2: Seq<Node>, bs: Seq<BoundV>, acc: Seq<(Seq<char>, JsonV)>)
    requires
        bs.len() <= sch.len(),
        bs.len() <= sch2.len(),
        forall|k: int| 0 <= k < bs.len() ==> sch[k] == sch2[k],
    ensures
        json_into(sch, bs, acc) == json_into(sch2, bs, acc),
    decreases bs.len(),
{
    if bs.len() > 0 {
        lemma_json_into_prefix(sch, sch2, bs.drop_last(), acc);
        assert(sch[bs.len() - 1] == sch2[bs.len() - 1]);
    }
}

proof fn lemma_secs_json(n: Node, secs: Seq<SectionV>, rt: bool, xs: Seq<JsonV>)
    requires
        xs.len() == secs.len(),
        forall|k: int| 0 <= k < secs.len() ==> section_json(n, #[trigger] secs[k], rt) == xs[k],
    ensures
        secs_json(n, secs, rt) == xs,
    decreases secs.len(),
{
    if secs.len() > 0 {
        lemma_secs_json(n, secs.drop_last(), rt, xs.drop_last());
        assert(secs_json(n, secs, rt) =~= xs);
    } else {
        assert(xs =~= Seq::<JsonV>::empty());
    }
}

proof fn lemma_items_json(n: Node, ibs: Seq<ItemBV>, xs: Seq<JsonV>)
    requires
        xs.len() == ibs.len(),
        forall|k: int| 0 <= k < ibs.len() ==> item_json(n, #[trigger] ibs[k]) == xs[k],
    ensures
        items_json(n, ibs) == xs,
    decreases ibs.len(),
{
    if ibs.len() > 0 {
        lemma_items_json(n, ibs.drop_last(), xs.drop_last());
        assert(items_json(n, ibs) =~= xs);
    } else {
        assert(xs =~= Seq::<JsonV>::empty());
    }
}

/// The sections a heading node wrote, claimed in order, give no problems and
/// read back as their values.
proof fn lemma_sections_read_back(
    n: Node,
    xs: Seq<JsonV>,
    bs: Seq<BlockV>,
    e: int,
    m: int,
    opts: SchemaOpts,
    path: Seq<Seq<char>>,
)
    requires
        n is Heading,
        0 <= m <= xs.len(),
        0 <= e,
        e + xs.len() <= bs.len(),
        forall|k: int| 0 <= k < xs.len() ==> section_written(n->level, n->title, n.children_of(), #[trigger] xs[k], bs[e + k]),
        forall|k: int| 0 <= k < xs.len() ==> section_fits(n->title, n.children_of(), #[trigger] xs[k]),
    ensures
        ({
            let (ps, secs, c) = sections_fold(n.children_of(), range_seq(e, e + m), bs, claimed_upto(bs.len(), e), opts, path);
            &&& ps == Seq::<crate::error::ProblemV>::empty()
            &&& c == claimed_upto(bs.len(), e + m)
            &&& secs.len() == m
            &&& forall|k: int| 0 <= k < m ==> section_json(n, #[trigger] secs[k], n->title is Regex) == xs[k]
        }),
    decreases n.children_of(), 1int, m,
{
    let cs = n.children_of();
    let rt = n->title is Regex;
    if m == 0 {
        assert(range_seq(e, e) =~= Seq::<int>::empty());
        assert(claimed_upto(bs.len(), e) =~= claimed_upto(bs.len(), e + 0));
    } else {
        lemma_sections_read_back(n, xs, bs, e, m - 1, opts, path);
        let ids = range_seq(e, e + m);
        assert(ids.drop_last() =~= range_seq(e, e + m - 1));
        let i = e + m - 1;
        assert(ids[ids.len() - 1] == i);
        let (ps, secs, c) = sections_fold(cs, range_seq(e, e + m - 1), bs, claimed_upto(bs.len(), e), opts, path);
        let x = xs[m - 1];
        assert(section_written(n->level, n->title, cs, x, bs[e + m - 1]));
        assert(section_fits(n->title, cs, x));
        assert(c.update(i, true) =~= claimed_upto(bs.len(), e + m));
        match bs[i] {
            BlockV::Section { title: t, children: sc, .. } => {
                law_scope_reads_back(cs, x, sc, opts, path);
                let (cps, cbs) = scope_spec(cs, sc, opts, path);
                let sec = SectionV { title: t, children: cbs };
                assert(json_into(cs, cbs, Seq::empty()) == captures(cs, x, Seq::empty()));
                assert(section_json(n, sec, rt) == x);
                let (ps2, secs2, c2) = sections_fold(cs, ids, bs, claimed_upto(bs.len(), e), opts, path);
                assert(secs2 == secs.push(sec));
                assert(ps + cps =~= ps);
                assert forall|k: int| 0 <= k < m implies section_json(n, #[trigger] secs2[k], rt) == xs[k] by {
                    if k < m - 1 {
                        assert(secs2[k] == secs[k]);
                    }
                }
            },
            _ => {},
        }
    }
}

/// The items a list node wrote give no problems and read back as their
/// values.
proof fn lemma_items_read_back(
    n: Node,
    xs: Seq<JsonV>,
    items: Seq<ItemV>,
    m: int,
    opts: SchemaOpts,
    path: Seq<Seq<char>>,
)
    requires
        n is List,
        0 <= m <= xs.len(),
        items.len() == xs.len(),
        forall|k: int| 0 <= k < xs.len() ==> item_written(n, #[trigger] xs[k], items[k]),
        forall|k: int| 0 <= k < xs.len() ==> item_fits(n, #[trigger] xs[k]),
    ensures
        ({
            let (ps, ibs) = items_fold(n.children_of(), items.take(m), n->item, n->style == ListStyle::Checklist, n, opts, path);
            &&& ps == Seq::<crate::error::ProblemV>::empty()
            &&& ibs.len() == m
            &&& forall|k: int| 0 <= k < m ==> item_json(n, #[trigger] ibs[k]) == xs[k] && ibs[k].text == item_value_text(xs[k])
        }),
    decreases n.children_of(), 1int, m,
{
    let cs = n.children_of();
    let checklist = n->style == ListStyle::Checklist;
    if m == 0 {
        assert(items.take(0) =~= Seq::<ItemV>::empty());
    } else {
        lemma_items_read_back(n, xs, items, m - 1, opts, path);
        assert(items.take(m).drop_last() =~= items.take(m - 1));
        assert(items.take(m)[m - 1] == items[m - 1]);
        let it = items[m - 1];
        let x = xs[m - 1];
        assert(item_written(n, x, it));
        assert(item_fits(n, x));
        let s = item_value_text(x);
        let full_span = crate::doc::item_span_v(it.span, it.checkbox_len, checklist);
        lemma_label_round_trip(path, n, n->item, s, full_span);
        let (ps, ibs) = items_fold(cs, items.take(m - 1), n->item, checklist, n, opts, path);
        let (ps1, ib) = item_step(cs, it, n->item, checklist, n, opts, path);
        let cpath = path.push(n.problem_alias_spec());
        if cs.len() > 0 {
            law_scope_reads_back(cs, x, it.children, opts, cpath);
        }
        assert(ib.text == s);
        assert(ps1 == Seq::<crate::error::ProblemV>::empty());
        if cs.len() == 0 && !checklist {
            assert(item_json(n, ib) == x);
        } else {
            assert(ib.checked == it.checked);
            if checklist {
                assert(it.checked == Some(item_value_checked(x)));
            }
            if cs.len() == 0 {
                assert(captures(cs, x, item_base(checklist, x)) == item_base(checklist, x));
            }
            assert(json_into(cs, ib.children, item_base(checklist, x)) == captures(cs, x, item_base(checklist, x)));
            assert(item_json(n, ib) == x);
        }
        let (ps2, ibs2) = items_fold(cs, items.take(m), n->item, checklist, n, opts, path);
        assert(ibs2 == ibs.push(ib));
        assert(ps2 =~= ps + ps1);
        assert forall|k: int| 0 <= k < m implies item_json(n, #[trigger] ibs2[k]) == xs[k] && ibs2[k].text == item_value_text(xs[k]) by {
            if k < m - 1 {
                assert(ibs2[k] == ibs[k]);
            }
        }
    }
}


/// A section written for a heading is a section its search takes.
proof fn lemma_written_section_matches(level: u8, title: Match, cs: Seq<Node>, x: JsonV, b: BlockV)
    requires
        section_written(level, title, cs, x, b),
        section_fits(title, cs, x),
    ensures
        is_section_v(b, level, title),
{
    if let Match::Literal(l) = title {
        assert(l@.take(l@.len() as int) =~= l@);
    }
}

/// One node matched in a scope whose first `e` blocks are claimed: it claims
/// exactly the blocks it wrote, finds no fault, and binds its value.
proof fn lemma_step_reads_back(n: Node, x: JsonV, bs: Seq<BlockV>, e: int, st: MState, opts: SchemaOpts, path: Seq<Seq<char>>)
    requires
        0 <= e,
        e + block_count(n, x) <= bs.len(),
        st.claimed == claimed_upto(bs.len(), e),
        st.cursor == if opts.ordered { e } else { 0 },
        st.problems == Seq::<crate::error::ProblemV>::empty(),
        node_written(n, x, bs.subrange(e, e + block_count(n, x))),
        block_count(n, x) == 0 || n is Heading ==> forall|i: int| e + block_count(n, x) <= i < bs.len() ==> !node_matches(n, #[trigger] bs[i]),
        n.alias() is Some ==> node_fits(n, x),
        n.alias() is None ==> x is Null && card_allows(n.head_of().card, 0),
    ensures
        ({
            let st2 = node_step(st, n, bs, opts, path);
            let f = e + block_count(n, x);
            &&& st2.claimed == claimed_upto(bs.len(), f)
            &&& st2.cursor == if opts.ordered { f } else { 0 }
            &&& st2.problems == Seq::<crate::error::ProblemV>::empty()
            &&& st2.bounds.len() == st.bounds.len() + 1
            &&& st2.bounds.drop_last() == st.bounds
            &&& n.alias() is Some ==> value_of(n, st2.bounds.last()) == x
        }),
    decreases n, 3int, 0int,
{
    match n {
        Node::Heading { .. } => lemma_heading_reads_back(n, x, bs, e, st, opts, path),
        Node::List { .. } => lemma_list_reads_back(n, x, bs, e, st, opts, path),
        Node::Prose { .. } => lemma_prose_reads_back(n, x, bs, e, st, opts, path),
    }
}

proof fn lemma_heading_reads_back(n: Node, x: JsonV, bs: Seq<BlockV>, e: int, st: MState, opts: SchemaOpts, path: Seq<Seq<char>>)
    requires
        n is Heading,
        0 <= e,
        e + block_count(n, x) <= bs.len(),
        st.claimed == claimed_upto(bs.len(), e),
        st.cursor == if opts.ordered { e } else { 0 },
        st.problems == Seq::<crate::error::ProblemV>::empty(),
        node_written(n, x, bs.subrange(e, e + block_count(n, x))),
        block_count(n, x) == 0 || n is Heading ==> forall|i: int| e + block_count(n, x) <= i < bs.len() ==> !node_matches(n, #[trigger] bs[i]),
        n.alias() is Some ==> node_fits(n, x),
        n.alias() is None ==> x is Null && card_allows(n.head_of().card, 0),
    ensures
        ({
            let st2 = node_step(st, n, bs, opts, path);
            let f = e + block_count(n, x);
            &&& st2.claimed == claimed_upto(bs.len(), f)
            &&& st2.cursor == if opts.ordered { f } else { 0 }
            &&& st2.problems == Seq::<crate::error::ProblemV>::empty()
            &&& st2.bounds.len() == st.bounds.len() + 1
            &&& st2.bounds.drop_last() == st.bounds
            &&& n.alias() is Some ==> value_of(n, st2.bounds.last()) == x
        }),
    decreases n, 2int, 0int,
{
    let cnt = block_count(n, x);
    let f = e + cnt;
    let sb = bs.subrange(e, f);
    let cl = st.claimed;
    lemma_omittable_allows_none(n.head_of().card);
    match n {
        Node::Heading { level, title, head, children } => {
            let cs = children@;
            let xs = section_entries(n, x);
            assert forall|k: int| 0 <= k < xs.len() implies section_written(level, title, cs, #[trigger] xs[k], bs[e + k]) by {
                assert(sb[k] == bs[e + k]);
            }
            assert forall|k: int| 0 <= k < xs.len() implies section_fits(title, cs, #[trigger] xs[k]) by {
                if is_repeated(head.card) {
                    assert(x is Array);
                }
            }
            assert forall|k: int| 0 <= k < xs.len() implies is_section_v(#[trigger] bs[e + k], level, title) by {
                lemma_written_section_matches(level, title, cs, xs[k], bs[e + k]);
            }
            let ids = range_seq(e, f);
            if opts.ordered {
                if cnt > 0 {
                    lemma_first_section_at(bs, cl, e, e, level, title);
                    assert forall|i: int| e + 1 <= i < f implies is_section_v(#[trigger] bs[i], level, title) by {
                        assert(is_section_v(bs[e + (i - e)], level, title));
                    }
                    lemma_run_end(bs, cl, e + 1, e, f, level, title);
                } else {
                    lemma_first_section_none(bs, cl, e, e, level, title);
                    assert(Seq::<int>::empty() =~= ids);
                }
            } else {
                assert forall|i: int| e <= i < f implies is_section_v(#[trigger] bs[i], level, title) by {
                    assert(is_section_v(bs[e + (i - e)], level, title));
                }
                lemma_all_sections(bs, cl, 0, e, f, level, title);
            }
            assert(heading_ids(bs, st, opts, level, title) == ids);
            assert(card_problem_spec(head.card, cnt, "section"@) is None);
            let cids = if is_repeated(head.card) { ids } else { ids.take(if ids.len() > 0 { 1 } else { 0 }) };
            assert(cids == ids) by {
                if !is_repeated(head.card) {
                    assert(ids.take(ids.len() as int) =~= ids);
                }
            }
            let cpath = path.push(n.problem_alias_spec());
            lemma_sections_read_back(n, xs, bs, e, cnt as int, opts, cpath);
            let (ps2, secs, c2) = sections_fold(cs, ids, bs, cl, opts, cpath);
            let rt = title is Regex;
            if n.alias() is Some {
                if is_repeated(head.card) {
                    lemma_secs_json(n, secs, rt, xs);
                } else if cnt > 0 {
                    assert(section_json(n, secs[0], rt) == xs[0]);
                }
            }
            if opts.ordered && cids.len() > 0 {
                assert(cids[cids.len() - 1] == f - 1);
            }
        },
        _ => {},
    }
}

proof fn lemma_list_reads_back(n: Node, x: JsonV, bs: Seq<BlockV>, e: int, st: MState, opts: SchemaOpts, path: Seq<Seq<char>>)
    requires
        n is List,
        0 <= e,
        e + block_count(n, x) <= bs.len(),
        st.claimed == claimed_upto(bs.len(), e),
        st.cursor == if opts.ordered { e } else { 0 },
        st.problems == Seq::<crate::error::ProblemV>::empty(),
        node_written(n, x, bs.subrange(e, e + block_count(n, x))),
        block_count(n, x) == 0 || n is Heading ==> forall|i: int| e + block_count(n, x) <= i < bs.len() ==> !node_matches(n, #[trigger] bs[i]),
        n.alias() is Some ==> node_fits(n, x),
        n.alias() is None ==> x is Null && card_allows(n.head_of().card, 0),
    ensures
        ({
            let st2 = node_step(st, n, bs, opts, path);
            let f = e + block_count(n, x);
            &&& st2.claimed == claimed_upto(bs.len(), f)
            &&& st2.cursor == if opts.ordered { f } else { 0 }
            &&& st2.problems == Seq::<crate::error::ProblemV>::empty()
            &&& st2.bounds.len() == st.bounds.len() + 1
            &&& st2.bounds.drop_last() == st.bounds
            &&& n.alias() is Some ==> value_of(n, st2.bounds.last()) == x
        }),
    decreases n, 2int, 0int,
{
    let cnt = block_count(n, x);
    let f = e + cnt;
    let sb = bs.subrange(e, f);
    let cl = st.claimed;
    lemma_omittable_allows_none(n.head_of().card);
    match n {
        Node::List { style, item, head, children } => {
            let start = if opts.ordered { st.cursor } else { 0 };
            let xs = list_entries(n, x);
            if cnt > 0 {
                assert(sb[0] == bs[e]);
                assert(list_written(n, x, bs[e]));
                lemma_first_list_at(bs, cl, start, e, style);
                match bs[e] {
                    BlockV::List { items, .. } => {
                        assert(card_problem_spec(head.card, items.len(), "item"@) is None) by {
                            if is_scalar_list_spec(n) {
                                assert(xs.len() == 1);
                            }
                        }
                        assert forall|k: int| 0 <= k < xs.len() implies item_fits(n, #[trigger] xs[k]) by {
                            if !is_scalar_list_spec(n) {
                                assert(x is Array);
                            }
                        }
                        lemma_items_read_back(n, xs, items, items.len() as int, opts, path);
                        assert(items.take(items.len() as int) =~= items);
                        let (ps2, ibs) = items_fold(children@, items, item, style == ListStyle::Checklist, n, opts, path);
                        if n.alias() is Some {
                            if is_scalar_list_spec(n) {
                                assert(list_json(n, Some(ibs)) == x);
                            } else {
                                lemma_items_json(n, ibs, xs);
                            }
                        }
                    },
                    _ => {},
                }
                assert(cl.update(e, true) =~= claimed_upto(bs.len(), f));
            } else {
                lemma_first_list_none(bs, cl, start, e, style);
                if n.alias() is Some && !is_scalar_list_spec(n) {
                    assert(x->Array_0 =~= Seq::<JsonV>::empty());
                }
                assert(claimed_upto(bs.len(), e) =~= claimed_upto(bs.len(), f));
            }
        },
        _ => {},
    }
}

proof fn lemma_prose_reads_back(n: Node, x: JsonV, bs: Seq<BlockV>, e: int, st: MState, opts: SchemaOpts, path: Seq<Seq<char>>)
    requires
        n is Prose,
        0 <= e,
        e + block_count(n, x) <= bs.len(),
        st.claimed == claimed_upto(bs.len(), e),
        st.cursor == if opts.ordered { e } else { 0 },
        st.problems == Seq::<crate::error::ProblemV>::empty(),
        node_written(n, x, bs.subrange(e, e + block_count(n, x))),
        block_count(n, x) == 0 || n is Heading ==> forall|i: int| e + block_count(n, x) <= i < bs.len() ==> !node_matches(n, #[trigger] bs[i]),
        n.alias() is Some ==> node_fits(n, x),
        n.alias() is None ==> x is Null && card_allows(n.head_of().card, 0),
    ensures
        ({
            let st2 = node_step(st, n, bs, opts, path);
            let f = e + block_count(n, x);
            &&& st2.claimed == claimed_upto(bs.len(), f)
            &&& st2.cursor == if opts.ordered { f } else { 0 }
            &&& st2.problems == Seq::<crate::error::ProblemV>::empty()
            &&& st2.bounds.len() == st.bounds.len() + 1
            &&& st2.bounds.drop_last() == st.bounds
            &&& n.alias() is Some ==> value_of(n, st2.bounds.last()) == x
        }),
    decreases n, 2int, 0int,
{
    let cnt = block_count(n, x);
    let f = e + cnt;
    let sb = bs.subrange(e, f);
    let cl = st.claimed;
    lemma_omittable_allows_none(n.head_of().card);
    match n {
        Node::Prose { text, head } => {
            let start = if opts.ordered { st.cursor } else { 0 };
            if cnt > 0 {
                assert(sb[0] == bs[e]);
                lemma_first_para_at(bs, cl, start, e);
                assert(cl.update(e, true) =~= claimed_upto(bs.len(), f));
            } else {
                lemma_first_para_none(bs, cl, start, e);
                assert(claimed_upto(bs.len(), e) =~= claimed_upto(bs.len(), f));
            }
        },
        _ => {},
    }
}

/// The first `j` nodes of a scope, matched against what the scope's nodes
/// wrote, claim exactly their own blocks, find no fault, and bind their
/// values.
proof fn lemma_fold_reads_back(ns: Seq<Node>, v: JsonV, bs: Seq<BlockV>, j: int, opts: SchemaOpts, path: Seq<Seq<char>>)
    requires
        nodes_fit(ns, v),
        nodes_written(ns, v, bs),
        0 <= j <= ns.len(),
    ensures
        ({
            let p = ns.take(j);
            let e = nodes_count(p, v);
            let st = scope_fold(p, bs, opts, path);
            &&& e <= bs.len()
            &&& st.claimed == claimed_upto(bs.len(), e as int)
            &&& st.cursor == if opts.ordered { e as int } else { 0 }
            &&& st.problems == Seq::<crate::error::ProblemV>::empty()
            &&& st.bounds.len() == j
            &&& forall|acc: Seq<(Seq<char>, JsonV)>| #[trigger] json_into(p, st.bounds, acc) == captures(p, v, acc)
        }),
    decreases ns, 0int, j,
{
    let p = ns.take(j);
    if j == 0 {
        assert(p =~= Seq::<Node>::empty());
        assert(Seq::new(bs.len(), |i: int| false) =~= claimed_upto(bs.len(), 0));
    } else {
        lemma_fold_reads_back(ns, v, bs, j - 1, opts, path);
        let q = ns.take(j - 1);
        assert(p.drop_last() =~= q);
        let n = ns[j - 1];
        assert(p.last() == n);
        let x = node_value(n, v);
        lemma_written_at(ns, v, bs, j - 1);
        let e = nodes_count(q, v) as int;
        let f = nodes_count(p, v) as int;
        let st0 = scope_fold(q, bs, opts, path);
        assert(ns.take(j - 1 + 1) =~= p);
        assert(no_steal(ns, v, bs));
        assert forall|i: int| f <= i < bs.len() && (block_count(n, x) == 0 || n is Heading) implies !node_matches(n, #[trigger] bs[i]) by {
            assert(ns[j - 1] == n);
        }
        assert(nodes_fit(ns, v));
        assert(match (ns[j - 1]).alias() {
            Some(key) => node_fits(ns[j - 1], member(v, key)),
            None => card_allows(ns[j - 1].head_of().card, 0),
        });
        lemma_step_reads_back(n, x, bs, e, st0, opts, path);
        let st = scope_fold(p, bs, opts, path);
        assert(st == node_step(st0, n, bs, opts, path));
        assert forall|acc: Seq<(Seq<char>, JsonV)>| #[trigger] json_into(p, st.bounds, acc) == captures(p, v, acc) by {
            lemma_json_into_prefix(p, q, st0.bounds, acc);
            assert(st.bounds.drop_last() == st0.bounds);
            assert(json_into(q, st0.bounds, acc) == captures(q, v, acc));
        }
    }
}

/// What the renderer writes for a scope, read back at the level of blocks:
/// for scope data in the shape reading gives back ([`nodes_fit`]) and the
/// blocks rendering it stands for ([`nodes_written`]), matching finds no
/// problem, and the bindings read back as the data (inserted into any
/// object the scope's captures go into).
pub proof fn law_scope_reads_back(ns: Seq<Node>, v: JsonV, bs: Seq<BlockV>, opts: SchemaOpts, path: Seq<Seq<char>>)
    requires
        nodes_fit(ns, v),
        nodes_written(ns, v, bs),
    ensures
        scope_spec(ns, bs, opts, path).0 == Seq::<crate::error::ProblemV>::empty(),
        forall|acc: Seq<(Seq<char>, JsonV)>| #[trigger] json_into(ns, scope_spec(ns, bs, opts, path).1, acc) == captures(ns, v, acc),
    decreases ns, 0int, ns.len() + 1,
{
    lemma_fold_reads_back(ns, v, bs, ns.len() as int, opts, path);
    assert(ns.take(ns.len() as int) =~= ns);
    let st = scope_fold(ns, bs, opts, path);
    lemma_strict_none(bs, st.claimed, opts, path, bs.len() as int);
    assert(st.problems + Seq::<crate::error::ProblemV>::empty() =~= st.problems);
}


// ---- whole documents -----------------------------------------------------------------------

/// A document whose frontmatter reads back clean as `fm`, and whose body's
/// blocks are those written for `data`, checks clean and extracts as `data`
/// when `data` holds exactly those frontmatter values and the body's
/// captures.
pub proof fn law_check_reads_back(s: Schema, mb: Seq<u8>, data: JsonV, fm: Seq<(Seq<char>, JsonV)>)
    requires
        fm_extract_spec(fields_v(s.frontmatter@), mb, s.opts.frontmatter_open, Seq::empty()) == (Seq::<ProblemV>::empty(), fm),
        nodes_fit(s.body@, data),
        nodes_written(s.body@, data, body_blocks(mb)),
        data == JsonV::Object(captures(s.body@, data, fm)),
    ensures
        check_spec(s, mb) == (Seq::<ProblemV>::empty(), Some(data)),
{
    law_scope_reads_back(s.body@, data, body_blocks(mb), s.opts, Seq::empty());
    let (bps, bnds) = scope_spec(s.body@, body_blocks(mb), s.opts, Seq::empty());
    let off = crate::doc::body_start(mb) as usize;
    assert(shift_problems(bps, off) =~= Seq::<ProblemV>::empty());
    assert(Seq::<ProblemV>::empty() + shift_problems(bps, off) =~= Seq::<ProblemV>::empty());
    assert(json_into(s.body@, bnds, fm) == captures(s.body@, data, fm));
}

/// Extracting what `render` writes gives back the data, and the document
/// validates: for frontmatter values of their declared types (the
/// frontmatter's own round trip), body data in the shape extraction gives
/// ([`nodes_fit`]), and data holding exactly the written frontmatter values
/// and the body's captures, when the blocks of the rendered body (as the
/// markdown parse gives them) are the blocks the renderer wrote for the data
/// ([`nodes_written`]).
pub proof fn law_extract_inverts_render(s: Schema, data: JsonV)
    requires
        forall|i: int| 0 <= i < fields_v(s.frontmatter@).len() ==> field_writable(#[trigger] fields_v(s.frontmatter@)[i]),
        forall|i: int, j: int| 0 <= i < j < fields_v(s.frontmatter@).len() ==>
            #[trigger] fields_v(s.frontmatter@)[i].key != #[trigger] fields_v(s.frontmatter@)[j].key,
        forall|i: int| 0 <= i < fields_v(s.frontmatter@).len() && has_value(data, #[trigger] fields_v(s.frontmatter@)[i]) ==>
            value_fits(field_value(data, fields_v(s.frontmatter@)[i]), fields_v(s.frontmatter@)[i].ty),
        render_spec(s, data) is Ok,
        nodes_fit(s.body@, data),
        nodes_written(s.body@, data, body_blocks(encode_utf8(render_spec(s, data)->Ok_0))),
        data == JsonV::Object(captures(s.body@, data, written_values(fields_v(s.frontmatter@), data))),
    ensures
        check_spec(s, encode_utf8(render_spec(s, data)->Ok_0)) == (Seq::<ProblemV>::empty(), Some(data)),
{
    crate::render::law_rendered_frontmatter_reads_back(s, data);
    law_check_reads_back(s, encode_utf8(render_spec(s, data)->Ok_0), data, written_values(fields_v(s.frontmatter@), data));
}

// ---- edits keep the frontmatter ------------------------------------------------------------

/// Two byte strings that agree up to `n` (exclusive).
pub open spec fn agree_upto(x: Seq<u8>, y: Seq<u8>, n: int) -> bool {
    &&& n <= x.len()
    &&& n <= y.len()
    &&& forall|i: int| 0 <= i < n ==> x[i] == y[i]
}

proof fn lemma_byte_index_agree(x: Seq<u8>, y: Seq<u8>, b: u8, n: int)
    requires
        byte_index(x, b) == Some(n),
        agree_upto(x, y, n + 1),
    ensures
        byte_index(y, b) == Some(n),
    decreases x.len(),
{
    lemma_byte_index(x, b);
    if n > 0 {
        assert(x[0] == y[0]);
        let k = byte_index(x.drop_first(), b)->Some_0;
        lemma_byte_index_agree(x.drop_first(), y.drop_first(), b, n - 1);
    }
}

proof fn lemma_fm_close_range(md: Seq<u8>, pos: int)
    ensures
        fm_close(md, pos) matches Some((p, c)) ==> pos < c <= md.len() && pos <= p,
    decreases md.len() - pos,
{
    if 0 <= pos <= md.len() {
        let rest = md.skip(pos);
        lemma_byte_index(rest, 10u8);
        match byte_index(rest, 10u8) {
            Some(n) => if !is_fence(rest.take(n)) {
                lemma_fm_close_range(md, pos + n + 1);
            },
            None => {
                if is_fence(rest) {
                    assert(rest.len() > 0) by {
                        if rest.len() == 0 {
                            assert(crate::doc::trim_cr(rest) =~= rest);
                        }
                    }
                }
            },
        }
    }
}

proof fn lemma_fm_close_agree(md: Seq<u8>, md2: Seq<u8>, pos: int, p: int, c: int)
    requires
        fm_close(md, pos) == Some((p, c)),
        0 < c,
        md[c - 1] == 10u8,
        agree_upto(md, md2, c),
    ensures
        fm_close(md2, pos) == Some((p, c)),
    decreases md.len() - pos,
{
    lemma_fm_close_range(md, pos);
    let rest = md.skip(pos);
    let rest2 = md2.skip(pos);
    lemma_byte_index(rest, 10u8);
    match byte_index(rest, 10u8) {
        Some(n) => {
            if is_fence(rest.take(n)) {
                assert(pos + n + 1 == c);
            } else {
                lemma_fm_close_range(md, pos + n + 1);
                lemma_fm_close_agree(md, md2, pos + n + 1, p, c);
            }
            assert(pos + n < c);
            lemma_byte_index_agree(rest, rest2, 10u8, n);
            assert(rest.take(n) =~= rest2.take(n));
        },
        None => {
            assert(c == md.len());
            assert(rest[rest.len() - 1] == md[c - 1]);
        },
    }
}

/// An edit past the frontmatter block (of a document with a body) keeps the
/// block where it is and as it is.
proof fn lemma_fm_bounds_agree(md: Seq<u8>, md2: Seq<u8>)
    requires
        fm_bounds(md) is Some,
        body_start(md) < md.len(),
        agree_upto(md, md2, body_start(md)),
    ensures
        fm_bounds(md2) == fm_bounds(md),
        body_start(md2) == body_start(md),
        crate::frontmatter::fm_text(md2) == crate::frontmatter::fm_text(md),
{
    lemma_fm_bounds(md);
    let (a, b, c) = fm_bounds(md)->Some_0;
    let n = byte_index(md, 10u8)->Some_0;
    lemma_byte_index(md, 10u8);
    lemma_fm_close_range(md, n + 1);
    let p = fm_close(md, n + 1)->Some_0.0;
    lemma_byte_index_agree(md, md2, 10u8, n);
    assert(md.take(n) =~= md2.take(n));
    lemma_fm_close_agree(md, md2, n + 1, p, c);
    assert(md.subrange(a, b) =~= md2.subrange(a, b));
}

/// The value `x` with the text at `path` (the path of an editable leaf, in
/// the shape of extracted data) replaced by `t`: a string leaf becomes `t`,
/// an item object gets `t` as its `text`.
pub open spec fn put_text(x: JsonV, path: Seq<Seq<char>>, t: Seq<char>) -> JsonV
    decreases path.len(),
{
    if path.len() == 0 {
        match x {
            JsonV::Object(kvs) => JsonV::Object(obj_insert(kvs, "text"@, JsonV::Str(t))),
            _ => JsonV::Str(t),
        }
    } else {
        match x {
            JsonV::Object(kvs) => match obj_get(kvs, path[0]) {
                Some(y) => JsonV::Object(obj_insert(kvs, path[0], put_text(y, path.drop_first(), t))),
                None => x,
            },
            JsonV::Array(a) => match parse_usize_spec(path[0]) {
                Some(i) => if i < a.len() {
                    JsonV::Array(a.update(i as int, put_text(a[i as int], path.drop_first(), t)))
                } else {
                    x
                },
                None => x,
            },
            _ => x,
        }
    }
}

/// Extracting after an edit gives the data with the text at the target
/// replaced by the new value, all else unchanged: for a document whose
/// frontmatter reads back clean (and whose frontmatter block, if the schema
/// declares fields, is followed by a body), when the blocks of the edited
/// body (as the markdown parse gives them) are the blocks the renderer would
/// write for that data, and that data is in the shape extraction gives.
pub proof fn law_edit_reads_back(
    s: Schema,
    md: Seq<u8>,
    target: Seq<char>,
    new_value: Seq<char>,
    data: JsonV,
    fm: Seq<(Seq<char>, JsonV)>,
)
    requires
        md.len() <= usize::MAX,
        edit_spec(s, md, target, new_value) is Ok,
        fields_v(s.frontmatter@).len() == 0 || (fm_bounds(md) is Some && body_start(md) < md.len()),
        fm_extract_spec(fields_v(s.frontmatter@), md, s.opts.frontmatter_open, Seq::empty()) == (Seq::<ProblemV>::empty(), fm),
        nodes_fit(s.body@, put_text(data, target_path(s.body@, target), new_value)),
        nodes_written(
            s.body@,
            put_text(data, target_path(s.body@, target), new_value),
            body_blocks(edit_spec(s, md, target, new_value)->Ok_0),
        ),
        put_text(data, target_path(s.body@, target), new_value) == JsonV::Object(
            captures(s.body@, put_text(data, target_path(s.body@, target), new_value), fm),
        ),
    ensures
        check_spec(s, edit_spec(s, md, target, new_value)->Ok_0) == (
            Seq::<ProblemV>::empty(),
            Some(put_text(data, target_path(s.body@, target), new_value)),
        ),
{
    let md2 = edit_spec(s, md, target, new_value)->Ok_0;
    let fields = fields_v(s.frontmatter@);
    if fields.len() > 0 {
        let bounds = scope_spec(s.body@, body_blocks(md), s.opts, Seq::empty()).1;
        let span = crate::matcher::find_span_spec(target_path(s.body@, target), s.body@, bounds, false)->Ok_0->Some_0;
        let off = body_start(md);
        lemma_fm_bounds(md);
        let a = crate::doc::sat_add(off, span.start as int) as int;
        let b = crate::doc::sat_add(off, span.end as int) as int;
        let sep: Seq<char> = if a == b && a > 0 && md[a - 1] == 93u8 { seq![' '] } else { Seq::empty() };
        assert(md2 == md.subrange(0, a) + encode_utf8(sep + crate::render::esc_inline_spec(new_value)) + md.subrange(b, md.len() as int));
        assert(a >= body_start(md));
        assert forall|i: int| 0 <= i < body_start(md) implies md[i] == md2[i] by {
            assert(md2[i] == md.subrange(0, a)[i]);
        }
        lemma_fm_bounds_agree(md, md2);
    }
    law_check_reads_back(s, md2, put_text(data, target_path(s.body@, target), new_value), fm);
}
} // verus!
