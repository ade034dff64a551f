//! Validation and extraction: check a markdown document against the schema
//! and, when it conforms, capture it as a JSON object.
//!
//! Both go through one pipeline: strip the frontmatter, parse the body into
//! the block tree, type-check the frontmatter, then match the body. `validate`
//! returns the problems; `extract` also walks the bindings into JSON.

use crate::doc::{Span, blocks_are, body_start, doc_blocks_v, line_starts_spec, markdown_events, parse_blocks, strip_frontmatter};
use crate::error::{Problem, ProblemV, problem_is, problems_are};
use crate::frontmatter::{extract_frontmatter, fields_v, fm_extract_spec};
use crate::json::{Json, JsonV, json_is};
use crate::matcher::{json_into, json_into_exec, match_scope, scope_spec, strings_v};
use crate::schema::Schema;
use vstd::prelude::*;
use vstd::string::StringSliceAdditionalSpecFns;

verus! {

/// The blocks of a document's body (after any frontmatter block).
pub open spec fn body_blocks(mb: Seq<u8>) -> Seq<crate::doc::BlockV> {
    let body = mb.subrange(body_start(mb), mb.len() as int);
    doc_blocks_v(markdown_events(vstd::utf8::decode_utf8(body)), line_starts_spec(body))
}

/// A body span rebased onto the whole document (saturating at `usize::MAX`,
/// which no document reaches).
pub open spec fn shift_span(s: Span, off: usize) -> Span {
    Span { start: crate::doc::sat_add(s.start as int, off as int), end: crate::doc::sat_add(s.end as int, off as int) }
}

pub open spec fn shift_problems(ps: Seq<ProblemV>, off: usize) -> Seq<ProblemV> {
    ps.map_values(|p: ProblemV| ProblemV {
        path: p.path,
        message: p.message,
        span: match p.span {
            Some(s) => Some(shift_span(s, off)),
            None => None,
        },
    })
}

/// Checking a document: the frontmatter's problems, then the body's (their
/// spans rebased onto the whole document); when there are none, the
/// captured object: the frontmatter values, then the body's captures.
pub open spec fn check_spec(s: Schema, mb: Seq<u8>) -> (Seq<ProblemV>, Option<JsonV>) {
    let (fps, obj) = fm_extract_spec(fields_v(s.frontmatter@), mb, s.opts.frontmatter_open, Seq::empty());
    let (bps, bnds) = scope_spec(s.body@, body_blocks(mb), s.opts, Seq::empty());
    let ps = fps + shift_problems(bps, body_start(mb) as usize);
    if ps.len() == 0 {
        (ps, Some(JsonV::Object(json_into(s.body@, bnds, obj))))
    } else {
        (ps, None)
    }
}

/// `extract` succeeds exactly on the documents `validate` finds no problem
/// with, and otherwise fails with those problems.
pub proof fn law_extract_iff_valid(s: Schema, mb: Seq<u8>)
    ensures
        check_spec(s, mb).1 is Some <==> check_spec(s, mb).0.len() == 0,
{
}

/// A schema that declares no frontmatter field never reports a problem with
/// a document's frontmatter: every problem comes from the body.
pub proof fn law_body_only_ignores_frontmatter(s: Schema, mb: Seq<u8>)
    requires
        s.frontmatter@.len() == 0,
    ensures
        check_spec(s, mb).0 == shift_problems(scope_spec(s.body@, body_blocks(mb), s.opts, Seq::empty()).0, body_start(mb) as usize),
{
    assert(fields_v(s.frontmatter@).len() == 0);
    let bps = scope_spec(s.body@, body_blocks(mb), s.opts, Seq::empty()).0;
    assert(Seq::<ProblemV>::empty() + shift_problems(bps, body_start(mb) as usize) =~= shift_problems(bps, body_start(mb) as usize));
}

fn clone_strings(v: &Vec<String>) -> (r: Vec<String>)
    ensures
        strings_v(r@) == strings_v(v@),
{
    let mut r: Vec<String> = Vec::new();
    let mut i: usize = 0;
    while i < v.len()
        invariant
            i <= v@.len(),
            strings_v(r@) == strings_v(v@).take(i as int),
        decreases v@.len() - i,
    {
        let ghost before = strings_v(r@);
        r.push(v[i].clone());
        assert(strings_v(r@) =~= before.push(v@[i as int]@));
        assert(strings_v(v@).take(i + 1) =~= strings_v(v@).take(i as int).push(v@[i as int]@));
        i = i + 1;
    }
    assert(strings_v(v@).take(i as int) =~= strings_v(v@));
    r
}

impl Schema {
    /// The problems and, when there are none, the captured value (see
    /// [`check_spec`]).
    fn check(&self, markdown: &str) -> (r: (Vec<Problem>, Option<Json>))
        ensures
            problems_are(r.0@, check_spec(*self, markdown.spec_bytes()).0),
            match check_spec(*self, markdown.spec_bytes()).1 {
                Some(v) => r.1 matches Some(j) && json_is(j, v),
                None => r.1 is None,
            },
    {
        let ghost mb = markdown.spec_bytes();
        let (body, offset) = strip_frontmatter(markdown);
        let blocks = parse_blocks(body);
        let ghost bv = body_blocks(mb);
        assert(blocks_are(blocks@, bv));
        let mut problems: Vec<Problem> = Vec::new();
        let mut obj = Json::object();
        let ghost fv = fields_v(self.frontmatter@);
        assert(json_is(obj, JsonV::Object(Seq::empty())));
        assert(problems_are(problems@, Seq::empty()));
        extract_frontmatter(&self.frontmatter, markdown, self.opts, &mut problems, &mut obj);
        let ghost fm = fm_extract_spec(fv, mb, self.opts.frontmatter_open, Seq::empty());
        assert(Seq::<ProblemV>::empty() + fm.0 =~= fm.0);
        assert(json_is(obj, JsonV::Object(fm.1)) && problems_are(problems@, fm.0));
        let root: Vec<String> = Vec::new();
        assert(strings_v(root@) =~= Seq::<Seq<char>>::empty());
        let (bps, bounds) = match_scope(&self.body, &blocks, Ghost(bv), self.opts, &root);
        let ghost sc = scope_spec(self.body@, bv, self.opts, Seq::empty());
        let ghost sh = shift_problems(sc.0, offset);
        let mut i: usize = 0;
        while i < bps.len()
            invariant
                i <= bps@.len(),
                problems_are(bps@, sc.0),
                sh == shift_problems(sc.0, offset),
                problems_are(problems@, fm.0 + sh.take(i as int)),
            decreases bps@.len() - i,
        {
            let p = &bps[i];
            assert(problem_is(*p, sc.0[i as int]));
            let span = match p.span {
                Some(s) => Some(Span { start: s.start.saturating_add(offset), end: s.end.saturating_add(offset) }),
                None => None,
            };
            let np = Problem { path: clone_strings(&p.path), message: p.message.clone(), span };
            let ghost before = problems@;
            assert(sh[i as int] == ProblemV {
                path: sc.0[i as int].path,
                message: sc.0[i as int].message,
                span: match sc.0[i as int].span {
                    Some(s) => Some(shift_span(s, offset)),
                    None => None,
                },
            });
            problems.push(np);
            proof {
                crate::matcher::lemma_problems_push(before, fm.0 + sh.take(i as int), np, sh[i as int]);
                assert((fm.0 + sh.take(i as int)).push(sh[i as int]) =~= fm.0 + sh.take(i + 1));
            }
            i = i + 1;
        }
        assert(sh.take(i as int) =~= sh);
        if problems.len() == 0 {
            json_into_exec(&self.body, &bounds, Ghost(sc.1), &mut obj);
            (problems, Some(obj))
        } else {
            (problems, None)
        }
    }

    /// Validates a markdown document against the schema; an empty result
    /// means it conforms (see [`check_spec`]).
    ///
    /// Checks, in document order: frontmatter keys (presence, types and,
    /// unless `%frontmatter = open`, the closed key set), then the body
    /// (section and list structure, cardinality, labels, ordering under
    /// `%ordered`, and under `%strict` the absence of unexpected blocks).
    pub fn validate(&self, markdown: &str) -> (r: Vec<Problem>)
        ensures
            problems_are(r@, check_spec(*self, markdown.spec_bytes()).0),
    {
        self.check(markdown).0
    }

    /// Extracts a conforming document as a JSON object keyed by the schema's
    /// capture aliases, or returns the validation problems (see
    /// [`check_spec`]).
    pub fn extract(&self, markdown: &str) -> (r: Result<Json, Vec<Problem>>)
        ensures
            match check_spec(*self, markdown.spec_bytes()).1 {
                Some(v) => r matches Ok(j) && json_is(j, v),
                None => r matches Err(ps) && problems_are(ps@, check_spec(*self, markdown.spec_bytes()).0),
            },
    {
        let (problems, value) = self.check(markdown);
        match value {
            Some(v) => Ok(v),
            None => Err(problems),
        }
    }
}

} // verus!
