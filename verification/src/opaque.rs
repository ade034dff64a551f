//! Blocks that no schema node can claim (a code block, a block quote, a
//! thematic break…) are opaque to the matching of a scope: inserting one
//! changes nothing that the scope's nodes find, and only adds, under strict
//! matching, the one problem that reports it.

use crate::doc::{BlockV, Span};
use crate::error::ProblemV;
use crate::matcher::{
    MState, all_sections, first_list, first_para, first_section, heading_ids, is_list_v, is_section_v, node_step,
    range_seq, scope_fold, scope_spec, section_run_end, sections_fold, strict_ps,
};
use crate::schema::{ListStyle, Match, Node, SchemaOpts, is_repeated};
use vstd::multiset::Multiset;
use vstd::prelude::*;

verus! {

/// Where block `i` of a scope stands once a block is inserted at `p`.
pub open spec fn moved(i: int, p: int) -> int {
    if i < p {
        i
    } else {
        i + 1
    }
}

/// `doc2` is `doc` with the block `x` inserted at `p`.
pub open spec fn inserted(doc: Seq<BlockV>, doc2: Seq<BlockV>, p: int, x: BlockV) -> bool {
    &&& 0 <= p <= doc.len()
    &&& doc2.len() == doc.len() + 1
    &&& doc2[p] == x
    &&& forall|i: int| 0 <= i < doc.len() ==> doc2[#[trigger] moved(i, p)] == doc[i]
}

/// The claims over `doc2` are those over `doc`, the inserted block unclaimed.
pub open spec fn claimed_moved(cl: Seq<bool>, cl2: Seq<bool>, p: int) -> bool {
    &&& cl2.len() == cl.len() + 1
    &&& !cl2[p]
    &&& forall|i: int| 0 <= i < cl.len() ==> cl2[#[trigger] moved(i, p)] == cl[i]
}

/// A search position in `doc2` that finds what `c` finds in `doc`.
pub open spec fn cursor_moved(c: int, c2: int, p: int) -> bool {
    ||| c < p && c2 == c
    ||| c == p && (c2 == p || c2 == p + 1)
    ||| c > p && c2 == c + 1
}

pub open spec fn opt_moved(o: Option<int>, p: int) -> Option<int> {
    match o {
        Some(i) => Some(moved(i, p)),
        None => None,
    }
}

/// The claim positions found from `c` lie in the scope.
pub open spec fn found_in(o: Option<int>, c: int, n: int) -> bool {
    o matches Some(i) ==> c <= i < n
}

proof fn lemma_first_list_moved(
    doc: Seq<BlockV>,
    cl: Seq<bool>,
    doc2: Seq<BlockV>,
    cl2: Seq<bool>,
    p: int,
    sp: Span,
    c: int,
    c2: int,
    style: ListStyle,
)
    requires
        inserted(doc, doc2, p, BlockV::Other { span: sp }),
        cl.len() == doc.len(),
        claimed_moved(cl, cl2, p),
        cursor_moved(c, c2, p),
        0 <= c,
    ensures
        first_list(doc2, cl2, c2, style) == opt_moved(first_list(doc, cl, c, style), p),
        found_in(first_list(doc, cl, c, style), c, doc.len() as int),
    decreases doc2.len() - c2, doc.len() - c,
{
    if c == p && c2 == p {
        lemma_first_list_moved(doc, cl, doc2, cl2, p, sp, c, p + 1, style);
    } else if c < doc.len() {
        assert(c2 == moved(c, p));
        assert(doc2[moved(c, p)] == doc[c]);
        assert(cl2[moved(c, p)] == cl[c]);
        if !(!cl[c] && is_list_v(doc[c], style)) {
            lemma_first_list_moved(doc, cl, doc2, cl2, p, sp, c + 1, c2 + 1, style);
        }
    }
}

proof fn lemma_first_para_moved(doc: Seq<BlockV>, cl: Seq<bool>, doc2: Seq<BlockV>, cl2: Seq<bool>, p: int, sp: Span, c: int, c2: int)
    requires
        inserted(doc, doc2, p, BlockV::Other { span: sp }),
        cl.len() == doc.len(),
        claimed_moved(cl, cl2, p),
        cursor_moved(c, c2, p),
        0 <= c,
    ensures
        first_para(doc2, cl2, c2) == opt_moved(first_para(doc, cl, c), p),
        found_in(first_para(doc, cl, c), c, doc.len() as int),
    decreases doc2.len() - c2, doc.len() - c,
{
    if c == p && c2 == p {
        lemma_first_para_moved(doc, cl, doc2, cl2, p, sp, c, p + 1);
    } else if c < doc.len() {
        assert(c2 == moved(c, p));
        assert(doc2[moved(c, p)] == doc[c]);
        assert(cl2[moved(c, p)] == cl[c]);
        if !(!cl[c] && doc[c] is Para) {
            lemma_first_para_moved(doc, cl, doc2, cl2, p, sp, c + 1, c2 + 1);
        }
    }
}

proof fn lemma_first_section_moved(
    doc: Seq<BlockV>,
    cl: Seq<bool>,
    doc2: Seq<BlockV>,
    cl2: Seq<bool>,
    p: int,
    sp: Span,
    c: int,
    c2: int,
    level: u8,
    title: Match,
)
    requires
        inserted(doc, doc2, p, BlockV::Other { span: sp }),
        cl.len() == doc.len(),
        claimed_moved(cl, cl2, p),
        cursor_moved(c, c2, p),
        0 <= c,
    ensures
        first_section(doc2, cl2, c2, level, title) == opt_moved(first_section(doc, cl, c, level, title), p),
        found_in(first_section(doc, cl, c, level, title), c, doc.len() as int),
        first_section(doc, cl, c, level, title) matches Some(f) ==> is_section_v(doc[f], level, title),
    decreases doc2.len() - c2, doc.len() - c,
{
    if c == p && c2 == p {
        lemma_first_section_moved(doc, cl, doc2, cl2, p, sp, c, p + 1, level, title);
    } else if c < doc.len() {
        assert(c2 == moved(c, p));
        assert(doc2[moved(c, p)] == doc[c]);
        assert(cl2[moved(c, p)] == cl[c]);
        if !(!cl[c] && is_section_v(doc[c], level, title)) {
            lemma_first_section_moved(doc, cl, doc2, cl2, p, sp, c + 1, c2 + 1, level, title);
        }
    }
}

proof fn lemma_all_sections_moved(
    doc: Seq<BlockV>,
    cl: Seq<bool>,
    doc2: Seq<BlockV>,
    cl2: Seq<bool>,
    p: int,
    sp: Span,
    c: int,
    c2: int,
    level: u8,
    title: Match,
)
    requires
        inserted(doc, doc2, p, BlockV::Other { span: sp }),
        cl.len() == doc.len(),
        claimed_moved(cl, cl2, p),
        cursor_moved(c, c2, p),
        0 <= c,
    ensures
        all_sections(doc2, cl2, c2, level, title) == all_sections(doc, cl, c, level, title).map_values(|i: int| moved(i, p)),
        forall|k: int| 0 <= k < all_sections(doc, cl, c, level, title).len() ==> c <= #[trigger] all_sections(doc, cl, c, level, title)[k] < doc.len(),
    decreases doc2.len() - c2, doc.len() - c,
{
    let a = all_sections(doc, cl, c, level, title);
    if c == p && c2 == p {
        lemma_all_sections_moved(doc, cl, doc2, cl2, p, sp, c, p + 1, level, title);
    } else if c < doc.len() {
        assert(c2 == moved(c, p));
        assert(doc2[moved(c, p)] == doc[c]);
        assert(cl2[moved(c, p)] == cl[c]);
        lemma_all_sections_moved(doc, cl, doc2, cl2, p, sp, c + 1, c2 + 1, level, title);
        let r = all_sections(doc, cl, c + 1, level, title);
        if !cl[c] && is_section_v(doc[c], level, title) {
            assert((seq![c] + r).map_values(|i: int| moved(i, p)) =~= seq![moved(c, p)] + r.map_values(|i: int| moved(i, p)));
            assert forall|k: int| 0 <= k < a.len() implies c <= #[trigger] a[k] < doc.len() by {
                if k > 0 {
                    assert(a[k] == r[k - 1]);
                }
            }
        }
    } else {
        assert(a.map_values(|i: int| moved(i, p)) =~= Seq::<int>::empty());
    }
}

/// From `j` (just after a matching section), the run of matching sections
/// ends at the same block in `doc2`, when the inserted block does not stand
/// between two sections.
proof fn lemma_run_end_moved(
    doc: Seq<BlockV>,
    cl: Seq<bool>,
    doc2: Seq<BlockV>,
    cl2: Seq<bool>,
    p: int,
    sp: Span,
    j: int,
    level: u8,
    title: Match,
)
    requires
        inserted(doc, doc2, p, BlockV::Other { span: sp }),
        cl.len() == doc.len(),
        claimed_moved(cl, cl2, p),
        !(0 < p < doc.len() && doc[p - 1] is Section && doc[p] is Section),
        1 <= j <= doc.len(),
        doc[j - 1] is Section,
    ensures
        section_run_end(doc2, cl2, if j <= p { j } else { j + 1 }, level, title) == {
            let e = section_run_end(doc, cl, j, level, title);
            if e <= p { e } else { e + 1 }
        },
        j <= section_run_end(doc, cl, j, level, title) <= doc.len(),
        j <= p ==> section_run_end(doc, cl, j, level, title) <= p,
    decreases doc.len() - j,
{
    if j == p {
        if p < doc.len() {
            assert(!is_section_v(doc[p], level, title));
        }
    } else if j < doc.len() {
        let j2 = if j <= p { j } else { j + 1 };
        assert(j2 == moved(j, p));
        assert(doc2[moved(j, p)] == doc[j]);
        assert(cl2[moved(j, p)] == cl[j]);
        if !cl[j] && is_section_v(doc[j], level, title) {
            lemma_run_end_moved(doc, cl, doc2, cl2, p, sp, j + 1, level, title);
        }
    }
}


/// The ids a heading finds in `doc2` are those it finds in `doc`, moved.
proof fn lemma_heading_ids_moved(
    doc: Seq<BlockV>,
    doc2: Seq<BlockV>,
    st: MState,
    st2: MState,
    p: int,
    sp: Span,
    opts: SchemaOpts,
    level: u8,
    title: Match,
)
    requires
        inserted(doc, doc2, p, BlockV::Other { span: sp }),
        !(0 < p < doc.len() && doc[p - 1] is Section && doc[p] is Section),
        st.claimed.len() == doc.len(),
        claimed_moved(st.claimed, st2.claimed, p),
        cursor_moved(st.cursor, st2.cursor, p),
        0 <= st.cursor,
    ensures
        heading_ids(doc2, st2, opts, level, title) == heading_ids(doc, st, opts, level, title).map_values(|i: int| moved(i, p)),
        forall|k: int| 0 <= k < heading_ids(doc, st, opts, level, title).len() ==> 0 <= #[trigger] heading_ids(doc, st, opts, level, title)[k] < doc.len(),
{
    let cl = st.claimed;
    let cl2 = st2.claimed;
    let ids = heading_ids(doc, st, opts, level, title);
    if opts.ordered {
        lemma_first_section_moved(doc, cl, doc2, cl2, p, sp, st.cursor, st2.cursor, level, title);
        match first_section(doc, cl, st.cursor, level, title) {
            Some(f) => {
                lemma_run_end_moved(doc, cl, doc2, cl2, p, sp, f + 1, level, title);
                let e = section_run_end(doc, cl, f + 1, level, title);
                assert(moved(f, p) + 1 == if f + 1 <= p { f + 1 } else { f + 2 });
                let e2 = if e <= p { e } else { e + 1 };
                assert(ids == range_seq(f, e));
                assert(range_seq(moved(f, p), e2) =~= range_seq(f, e).map_values(|i: int| moved(i, p)));
            },
            None => {
                assert(ids.map_values(|i: int| moved(i, p)) =~= Seq::<int>::empty());
            },
        }
    } else {
        lemma_all_sections_moved(doc, cl, doc2, cl2, p, sp, 0, 0, level, title);
    }
}

proof fn lemma_claim_moved(cl: Seq<bool>, cl2: Seq<bool>, p: int, i: int)
    requires
        claimed_moved(cl, cl2, p),
        0 <= i < cl.len(),
        0 <= p <= cl.len(),
    ensures
        claimed_moved(cl.update(i, true), cl2.update(moved(i, p), true), p),
{
    let c = cl.update(i, true);
    let c2 = cl2.update(moved(i, p), true);
    assert(moved(i, p) != p);
    assert(c2[p] == cl2[p]);
    assert forall|q: int| 0 <= q < c.len() implies c2[#[trigger] moved(q, p)] == c[q] by {
        assert(cl2[moved(q, p)] == cl[q]);
    }
}

/// Claiming the moved sections in `doc2` finds the same problems and
/// bindings, and claims the moved blocks.
proof fn lemma_sections_fold_moved(
    ch: Seq<Node>,
    ids: Seq<int>,
    doc: Seq<BlockV>,
    cl: Seq<bool>,
    doc2: Seq<BlockV>,
    cl2: Seq<bool>,
    p: int,
    sp: Span,
    opts: SchemaOpts,
    path: Seq<Seq<char>>,
)
    requires
        inserted(doc, doc2, p, BlockV::Other { span: sp }),
        cl.len() == doc.len(),
        claimed_moved(cl, cl2, p),
        forall|k: int| 0 <= k < ids.len() ==> 0 <= #[trigger] ids[k] < doc.len(),
    ensures
        ({
            let (ps, secs, c) = sections_fold(ch, ids, doc, cl, opts, path);
            let (ps2, secs2, c2) = sections_fold(ch, ids.map_values(|i: int| moved(i, p)), doc2, cl2, opts, path);
            ps2 == ps && secs2 == secs && claimed_moved(c, c2, p) && c.len() == doc.len()
        }),
    decreases ids.len(),
{
    let ids2 = ids.map_values(|i: int| moved(i, p));
    if ids.len() > 0 {
        let pre = ids.drop_last();
        assert(ids2.drop_last() =~= pre.map_values(|i: int| moved(i, p)));
        lemma_sections_fold_moved(ch, pre, doc, cl, doc2, cl2, p, sp, opts, path);
        let i = ids[ids.len() - 1];
        assert(ids2[ids2.len() - 1] == moved(i, p));
        assert(doc2[moved(i, p)] == doc[i]);
        let (ps, secs, c) = sections_fold(ch, pre, doc, cl, opts, path);
        let (ps2, secs2, c2) = sections_fold(ch, ids2.drop_last(), doc2, cl2, opts, path);
        lemma_claim_moved(c, c2, p, i);
    }
}

/// The state after a node in `doc2` mirrors the state after it in `doc`.
pub open spec fn state_moved(st: MState, st2: MState, p: int, n: nat) -> bool {
    &&& st2.problems == st.problems
    &&& st2.bounds == st.bounds
    &&& st.claimed.len() == n
    &&& claimed_moved(st.claimed, st2.claimed, p)
    &&& cursor_moved(st.cursor, st2.cursor, p)
    &&& 0 <= st.cursor
}

proof fn lemma_step_moved(
    st: MState,
    st2: MState,
    n: Node,
    doc: Seq<BlockV>,
    doc2: Seq<BlockV>,
    p: int,
    sp: Span,
    opts: SchemaOpts,
    path: Seq<Seq<char>>,
)
    requires
        inserted(doc, doc2, p, BlockV::Other { span: sp }),
        !(0 < p < doc.len() && doc[p - 1] is Section && doc[p] is Section),
        state_moved(st, st2, p, doc.len()),
    ensures
        state_moved(node_step(st, n, doc, opts, path), node_step(st2, n, doc2, opts, path), p, doc.len()),
{
    let cl = st.claimed;
    let cl2 = st2.claimed;
    match n {
        Node::Heading { level, title, head, children } => {
            lemma_heading_ids_moved(doc, doc2, st, st2, p, sp, opts, level, title);
            let ids = heading_ids(doc, st, opts, level, title);
            let cids = if is_repeated(head.card) { ids } else { ids.take(if ids.len() > 0 { 1 } else { 0 }) };
            let ids2 = heading_ids(doc2, st2, opts, level, title);
            let cids2 = if is_repeated(head.card) { ids2 } else { ids2.take(if ids2.len() > 0 { 1 } else { 0 }) };
            assert(cids2 =~= cids.map_values(|i: int| moved(i, p)));
            assert forall|k: int| 0 <= k < cids.len() implies 0 <= #[trigger] cids[k] < doc.len() by {
                assert(cids[k] == ids[k]);
            }
            lemma_sections_fold_moved(children@, cids, doc, cl, doc2, cl2, p, sp, opts, path.push(n.problem_alias_spec()));
            if opts.ordered && cids.len() > 0 {
                let last = cids[cids.len() - 1];
                assert(cids2[cids2.len() - 1] == moved(last, p));
            }
        },
        Node::List { style, item, head, children } => {
            let start = if opts.ordered { st.cursor } else { 0 };
            let start2 = if opts.ordered { st2.cursor } else { 0 };
            lemma_first_list_moved(doc, cl, doc2, cl2, p, sp, start, start2, style);
            if let Some(i) = first_list(doc, cl, start, style) {
                assert(doc2[moved(i, p)] == doc[i]);
                lemma_claim_moved(cl, cl2, p, i);
            }
        },
        Node::Prose { text, head } => {
            let start = if opts.ordered { st.cursor } else { 0 };
            let start2 = if opts.ordered { st2.cursor } else { 0 };
            lemma_first_para_moved(doc, cl, doc2, cl2, p, sp, start, start2);
            if let Some(i) = first_para(doc, cl, start) {
                assert(doc2[moved(i, p)] == doc[i]);
                lemma_claim_moved(cl, cl2, p, i);
            }
        },
    }
}

proof fn lemma_fold_moved(
    schema: Seq<Node>,
    doc: Seq<BlockV>,
    doc2: Seq<BlockV>,
    p: int,
    sp: Span,
    opts: SchemaOpts,
    path: Seq<Seq<char>>,
)
    requires
        inserted(doc, doc2, p, BlockV::Other { span: sp }),
        !(0 < p < doc.len() && doc[p - 1] is Section && doc[p] is Section),
    ensures
        state_moved(scope_fold(schema, doc, opts, path), scope_fold(schema, doc2, opts, path), p, doc.len()),
    decreases schema.len(),
{
    if schema.len() == 0 {
        let cl = Seq::new(doc.len(), |i: int| false);
        let cl2 = Seq::new(doc2.len(), |i: int| false);
        assert forall|i: int| 0 <= i < cl.len() implies cl2[#[trigger] moved(i, p)] == cl[i] by {}
    } else {
        lemma_fold_moved(schema.drop_last(), doc, doc2, p, sp, opts, path);
        lemma_step_moved(
            scope_fold(schema.drop_last(), doc, opts, path),
            scope_fold(schema.drop_last(), doc2, opts, path),
            schema[schema.len() - 1],
            doc,
            doc2,
            p,
            sp,
            opts,
            path,
        );
    }
}


proof fn lemma_strict_mono(doc: Seq<BlockV>, cl: Seq<bool>, opts: SchemaOpts, path: Seq<Seq<char>>, a: int, b: int)
    requires
        0 <= a <= b,
    ensures
        strict_ps(doc, cl, opts, path, a).len() <= strict_ps(doc, cl, opts, path, b).len(),
    decreases b - a,
{
    if a < b {
        lemma_strict_mono(doc, cl, opts, path, a, b - 1);
    }
}

/// The problem that reports an unclaimed inserted block.
pub open spec fn other_problem(path: Seq<Seq<char>>, sp: Span) -> ProblemV {
    ProblemV { path, message: "unexpected "@ + "block"@, span: Some(sp) }
}

#[verifier::spinoff_prover]
proof fn lemma_strict_moved(
    doc: Seq<BlockV>,
    cl: Seq<bool>,
    doc2: Seq<BlockV>,
    cl2: Seq<bool>,
    p: int,
    sp: Span,
    opts: SchemaOpts,
    path: Seq<Seq<char>>,
    k: int,
)
    requires
        inserted(doc, doc2, p, BlockV::Other { span: sp }),
        cl.len() == doc.len(),
        claimed_moved(cl, cl2, p),
        0 <= k <= doc.len(),
    ensures
        k <= p ==> strict_ps(doc2, cl2, opts, path, k) == strict_ps(doc, cl, opts, path, k),
        k >= p && opts.strict ==> strict_ps(doc2, cl2, opts, path, k + 1) == strict_ps(doc, cl, opts, path, k).insert(
            strict_ps(doc, cl, opts, path, p).len() as int,
            other_problem(path, sp),
        ),
        !opts.strict ==> strict_ps(doc2, cl2, opts, path, k + 1) == strict_ps(doc, cl, opts, path, k),
    decreases k,
{
    if k > 0 {
        lemma_strict_moved(doc, cl, doc2, cl2, p, sp, opts, path, k - 1);
    }
    if opts.strict {
        if k <= p && k > 0 {
            assert(moved(k - 1, p) == k - 1);
            assert(doc2[moved(k - 1, p)] == doc[k - 1]);
            assert(cl2[moved(k - 1, p)] == cl[k - 1]);
        }
        if k == p {
            let s = strict_ps(doc, cl, opts, path, p);
            assert(doc2[p] == BlockV::Other { span: sp });
            assert(!cl2[p]);
            assert(strict_ps(doc2, cl2, opts, path, p) == s);
            assert(strict_ps(doc2, cl2, opts, path, p + 1) == s.push(other_problem(path, sp)));
            assert(s.push(other_problem(path, sp)) =~= s.insert(s.len() as int, other_problem(path, sp)));
        }
        if k > p {
            let n = strict_ps(doc, cl, opts, path, p).len() as int;
            let s = strict_ps(doc, cl, opts, path, k - 1);
            lemma_strict_mono(doc, cl, opts, path, p, k - 1);
            assert(moved(k - 1, p) == k);
            assert(doc2[moved(k - 1, p)] == doc[k - 1]);
            assert(cl2[moved(k - 1, p)] == cl[k - 1]);
            let x = ProblemV { path, message: "unexpected "@ + crate::matcher::block_desc_spec(doc[k - 1]).0, span: crate::matcher::block_desc_spec(doc[k - 1]).1 };
            let q = other_problem(path, sp);
            assert(strict_ps(doc2, cl2, opts, path, k) == s.insert(n, q));
            assert(doc2[k] == doc[k - 1] && cl2[k] == cl[k - 1]);
            if !cl[k - 1] {
                assert(strict_ps(doc, cl, opts, path, k) == s.push(x));
                assert(strict_ps(doc2, cl2, opts, path, k + 1) == s.insert(n, q).push(x));
                assert(s.insert(n, q).push(x) =~= s.push(x).insert(n, q));
            } else {
                assert(strict_ps(doc, cl, opts, path, k) == s);
                assert(strict_ps(doc2, cl2, opts, path, k + 1) == s.insert(n, q));
            }
        }
    }
}

/// A block that no schema node can claim (here `BlockV::Other`), inserted
/// among a scope's blocks anywhere but between two sections (where it would
/// split a run of sections), is opaque to the scope's matching: the bindings
/// stay the same; without strict matching so do the problems; with strict
/// matching the problems gain exactly one, `unexpected block` at the
/// scope's path with the block's span.
pub proof fn law_other_block_is_opaque(
    schema: Seq<Node>,
    doc: Seq<BlockV>,
    opts: SchemaOpts,
    path: Seq<Seq<char>>,
    p: int,
    sp: Span,
)
    requires
        0 <= p <= doc.len(),
        !(0 < p < doc.len() && doc[p - 1] is Section && doc[p] is Section),
    ensures
        ({
            let doc2 = doc.insert(p, BlockV::Other { span: sp });
            let (ps, bs) = scope_spec(schema, doc, opts, path);
            let (ps2, bs2) = scope_spec(schema, doc2, opts, path);
            &&& bs2 == bs
            &&& !opts.strict ==> ps2 == ps
            &&& opts.strict ==> exists|j: int| 0 <= j <= ps.len()
                && ps2 == ps.insert(j, ProblemV { path, message: "unexpected block"@, span: Some(sp) })
        }),
{
    let x = BlockV::Other { span: sp };
    let doc2 = doc.insert(p, x);
    doc.insert_ensures(p, x);
    assert forall|i: int| 0 <= i < doc.len() implies doc2[#[trigger] moved(i, p)] == doc[i] by {}
    assert(inserted(doc, doc2, p, x));
    lemma_fold_moved(schema, doc, doc2, p, sp, opts, path);
    let st = scope_fold(schema, doc, opts, path);
    let st2 = scope_fold(schema, doc2, opts, path);
    lemma_strict_moved(doc, st.claimed, doc2, st2.claimed, p, sp, opts, path, doc.len() as int);
    reveal_strlit("unexpected ");
    reveal_strlit("block");
    reveal_strlit("unexpected block");
    assert("unexpected "@ + "block"@ =~= "unexpected block"@);
    assert(doc2.len() == doc.len() + 1);
    let (ps, bs) = scope_spec(schema, doc, opts, path);
    let (ps2, bs2) = scope_spec(schema, doc2, opts, path);
    let s = strict_ps(doc, st.claimed, opts, path, doc.len() as int);
    assert(ps == st.problems + s);
    assert(ps2 == st2.problems + strict_ps(doc2, st2.claimed, opts, path, (doc.len() + 1) as int));
    if opts.strict {
        let n = strict_ps(doc, st.claimed, opts, path, p).len() as int;
        lemma_strict_mono(doc, st.claimed, opts, path, p, doc.len() as int);
        let q = other_problem(path, sp);
        assert(q == ProblemV { path, message: "unexpected block"@, span: Some(sp) });
        let j = st.problems.len() + n;
        assert(st.problems + s.insert(n, q) =~= (st.problems + s).insert(j, q));
        assert(0 <= j <= ps.len() && ps2 == ps.insert(j, q));
    }
}

/// `doc` with other blocks inserted one after another: each `(index, span)`
/// at its index into the blocks as they then stand.
pub open spec fn insert_all(doc: Seq<BlockV>, ins: Seq<(int, Span)>) -> Seq<BlockV>
    decreases ins.len(),
{
    if ins.len() == 0 {
        doc
    } else {
        insert_all(doc, ins.drop_last()).insert(ins.last().0, BlockV::Other { span: ins.last().1 })
    }
}

/// Each insertion of `ins` stands within the blocks as they then stand, and
/// not between two sections.
pub open spec fn inserts_ok(doc: Seq<BlockV>, ins: Seq<(int, Span)>) -> bool
    decreases ins.len(),
{
    ins.len() == 0 || {
        let d = insert_all(doc, ins.drop_last());
        let p = ins.last().0;
        &&& inserts_ok(doc, ins.drop_last())
        &&& 0 <= p <= d.len()
        &&& !(0 < p < d.len() && d[p - 1] is Section && d[p] is Section)
    }
}

/// The problems that report the inserted blocks, one each.
pub open spec fn inserted_problems(path: Seq<Seq<char>>, ins: Seq<(int, Span)>) -> Multiset<ProblemV> {
    ins.map_values(|x: (int, Span)| ProblemV { path, message: "unexpected block"@, span: Some(x.1) }).to_multiset()
}

/// Blocks that no schema node can claim, inserted into a scope's blocks
/// anywhere but between two sections, are opaque to the scope's matching:
/// the bindings stay the same; without strict matching so do the problems;
/// with strict matching the problems gain exactly one `unexpected block` per
/// inserted block (at the scope's path, with its span), as a multiset.
pub proof fn law_other_blocks_are_opaque(
    schema: Seq<Node>,
    doc: Seq<BlockV>,
    opts: SchemaOpts,
    path: Seq<Seq<char>>,
    ins: Seq<(int, Span)>,
)
    requires
        inserts_ok(doc, ins),
    ensures
        ({
            let (ps, bs) = scope_spec(schema, doc, opts, path);
            let (ps2, bs2) = scope_spec(schema, insert_all(doc, ins), opts, path);
            &&& bs2 == bs
            &&& !opts.strict ==> ps2 == ps
            &&& opts.strict ==> ps2.to_multiset() == ps.to_multiset().add(inserted_problems(path, ins))
        }),
    decreases ins.len(),
{
    broadcast use vstd::multiset::group_multiset_axioms, vstd::seq_lib::to_multiset_insert, vstd::seq_lib::to_multiset_build, vstd::seq_lib::to_multiset_len;

    let f = |x: (int, Span)| ProblemV { path, message: "unexpected block"@, span: Some(x.1) };
    if ins.len() == 0 {
        assert(ins.map_values(f) =~= Seq::<ProblemV>::empty());
        assert(ins.map_values(f).to_multiset().len() == 0);
        assert(inserted_problems(path, ins) =~= Multiset::<ProblemV>::empty());
        assert(scope_spec(schema, doc, opts, path).0.to_multiset().add(inserted_problems(path, ins))
            =~= scope_spec(schema, doc, opts, path).0.to_multiset());
    } else {
        let pre = ins.drop_last();
        law_other_blocks_are_opaque(schema, doc, opts, path, pre);
        let d = insert_all(doc, pre);
        let (p, sp) = ins.last();
        law_other_block_is_opaque(schema, d, opts, path, p, sp);
        if opts.strict {
            let q = ProblemV { path, message: "unexpected block"@, span: Some(sp) };
            let ps = scope_spec(schema, doc, opts, path).0;
            let psd = scope_spec(schema, d, opts, path).0;
            let ps2 = scope_spec(schema, insert_all(doc, ins), opts, path).0;
            let j = choose|j: int| 0 <= j <= psd.len() && ps2 == psd.insert(j, q);
            assert(ps2.to_multiset() == psd.to_multiset().insert(q));
            assert(ins.map_values(f) =~= pre.map_values(f).push(q));
            assert(inserted_problems(path, ins) == inserted_problems(path, pre).insert(q));
            assert(ps2.to_multiset() =~= ps.to_multiset().add(inserted_problems(path, ins)));
        }
    }
}
} // verus!
