//! In-place editing: replace the text of a named node, found by a dotted
//! alias path, leaving every other byte of the document as it was.
//!
//! Editing reuses the block tree and the bindings of validation, so the byte
//! span it splices is the one `validate` and `extract` matched.

use crate::doc::{blocks_are, body_start, parse_blocks, strip_frontmatter};
use crate::error::EditError;
use crate::matcher::{find_span, find_span_spec, lemma_encode_concat, match_scope, scope_spec, strings_v, unique_alias_path, unique_alias_path_spec};
use crate::render::{esc_inline, esc_inline_spec};
use crate::schema::{Node, Schema};
use crate::text::{chars_of, push_str, string_of};
use crate::validate::body_blocks;
use vstd::prelude::*;
use vstd::string::StringSliceAdditionalSpecFns;
use vstd::utf8::{encode_utf8, is_char_boundary};

verus! {

/// An edit failure as values.
pub enum EditErrV {
    TargetNotFound,
    IndexOutOfRange(usize, usize),
    InvalidValue(Seq<char>),
}

pub open spec fn edit_err_is(e: EditError, v: EditErrV) -> bool {
    match v {
        EditErrV::TargetNotFound => e is TargetNotFound,
        EditErrV::IndexOutOfRange(i, l) => e matches EditError::IndexOutOfRange { index, len } && index == i && len == l,
        EditErrV::InvalidValue(r) => e matches EditError::InvalidValue { reason } && reason@ == r,
    }
}

/// Splitting at `.`: the finished segments and the pending one.
pub open spec fn split_state(s: Seq<char>) -> (Seq<Seq<char>>, Seq<char>)
    decreases s.len(),
{
    if s.len() == 0 {
        (Seq::empty(), Seq::empty())
    } else {
        let (d, c) = split_state(s.drop_last());
        if s[s.len() - 1] == '.' {
            (d.push(c), Seq::empty())
        } else {
            (d, c.push(s[s.len() - 1]))
        }
    }
}

/// The `.`-separated segments of `s` (`str::split('.')`: always at least
/// one, empty ones kept).
pub open spec fn split_dots(s: Seq<char>) -> Seq<Seq<char>> {
    let (d, c) = split_state(s);
    d.push(c)
}

/// Whether a top-level node captures under `a`.
pub open spec fn is_top_alias(body: Seq<Node>, a: Seq<char>) -> bool {
    exists|k: int| 0 <= k < body.len() && (#[trigger] body[k]).alias() == Some(a)
}

/// The path a target names: its segments, with a first segment that is no
/// top-level alias but the alias of exactly one node expanded to that node's
/// full path.
pub open spec fn target_path(body: Seq<Node>, target: Seq<char>) -> Seq<Seq<char>> {
    let raw = split_dots(target);
    if is_top_alias(body, raw[0]) {
        raw
    } else {
        match unique_alias_path_spec(body, raw[0]) {
            Some(full) => full + raw.drop_first(),
            None => raw,
        }
    }
}

/// Whether `s` holds a line break.
pub open spec fn has_break(s: Seq<char>) -> bool {
    exists|i: int| 0 <= i < s.len() && (s[i] == '\n' || s[i] == '\r')
}

/// The document `md` (bytes) with the text of the node at `target` replaced
/// by `new_value`, escaped: the bytes before and after the node's span are
/// kept as they are. An empty span right after `]` (an empty checkbox item)
/// gets a space before the value. A value with a line break is refused; a
/// target that names no editable leaf, or whose span is not a range of
/// character boundaries within the document, is not found; an index past
/// the end of its list is out of range.
pub open spec fn edit_spec(s: Schema, md: Seq<u8>, target: Seq<char>, new_value: Seq<char>) -> Result<Seq<u8>, EditErrV> {
    if has_break(new_value) {
        Err(EditErrV::InvalidValue("contains a line break"@))
    } else {
        let bounds = scope_spec(s.body@, body_blocks(md), s.opts, Seq::empty()).1;
        match find_span_spec(target_path(s.body@, target), s.body@, bounds, false) {
            Err((i, l)) => Err(EditErrV::IndexOutOfRange(i, l)),
            Ok(None) => Err(EditErrV::TargetNotFound),
            Ok(Some(span)) => {
                let off = body_start(md);
                let a = crate::doc::sat_add(off, span.start as int) as int;
                let b = crate::doc::sat_add(off, span.end as int) as int;
                if !(a <= b <= md.len() && is_char_boundary(md, a) && is_char_boundary(md, b)) {
                    Err(EditErrV::TargetNotFound)
                } else {
                    let sep: Seq<char> = if a == b && a > 0 && md[a - 1] == 93u8 { seq![' '] } else { Seq::empty() };
                    Ok(md.subrange(0, a) + encode_utf8(sep + esc_inline_spec(new_value)) + md.subrange(b, md.len() as int))
                }
            },
        }
    }
}

/// An edit changes one range of the document: every byte before the range
/// and every byte after it is kept as it was, and what stands in its place
/// is the escaped value (with at most one space before it).
pub proof fn law_edit_keeps_the_rest(s: Schema, md: Seq<u8>, target: Seq<char>, new_value: Seq<char>)
    ensures
        edit_spec(s, md, target, new_value) matches Ok(out) ==> exists|a: int, b: int, sep: Seq<char>|
            #![trigger md.subrange(0, a), md.subrange(b, md.len() as int), encode_utf8(sep + esc_inline_spec(new_value))]
            0 <= a <= b <= md.len() && sep.len() <= 1
            && out == md.subrange(0, a) + encode_utf8(sep + esc_inline_spec(new_value)) + md.subrange(b, md.len() as int),
{
    if let Ok(out) = edit_spec(s, md, target, new_value) {
        let bounds = scope_spec(s.body@, body_blocks(md), s.opts, Seq::empty()).1;
        let span = find_span_spec(target_path(s.body@, target), s.body@, bounds, false)->Ok_0->Some_0;
        let off = body_start(md);
        let a = crate::doc::sat_add(off, span.start as int) as int;
        let b = crate::doc::sat_add(off, span.end as int) as int;
        let sep: Seq<char> = if a == b && a > 0 && md[a - 1] == 93u8 { seq![' '] } else { Seq::empty() };
        assert(out == md.subrange(0, a) + encode_utf8(sep + esc_inline_spec(new_value)) + md.subrange(b, md.len() as int));
    }
}

/// The segments of `t` (see [`split_dots`]).
fn split_target(t: &[char]) -> (r: Vec<String>)
    ensures
        strings_v(r@) == split_dots(t@),
        r@.len() > 0,
{
    let mut done: Vec<String> = Vec::new();
    let mut cur: Vec<char> = Vec::new();
    let mut i: usize = 0;
    assert(t@.take(0) =~= Seq::<char>::empty());
    while i < t.len()
        invariant
            i <= t@.len(),
            strings_v(done@) == split_state(t@.take(i as int)).0,
            cur@ == split_state(t@.take(i as int)).1,
        decreases t@.len() - i,
    {
        assert(t@.take(i + 1).drop_last() =~= t@.take(i as int));
        if t[i] == '.' {
            let ghost before = strings_v(done@);
            done.push(string_of(cur.as_slice()));
            assert(strings_v(done@) =~= before.push(cur@));
            cur = Vec::new();
            assert(cur@ =~= Seq::<char>::empty());
        } else {
            cur.push(t[i]);
        }
        i = i + 1;
    }
    assert(t@.take(i as int) =~= t@);
    let ghost before = strings_v(done@);
    done.push(string_of(cur.as_slice()));
    assert(strings_v(done@) =~= before.push(cur@));
    done
}

fn has_line_break(v: &[char]) -> (b: bool)
    ensures
        b == has_break(v@),
{
    let mut i: usize = 0;
    while i < v.len()
        invariant
            i <= v@.len(),
            forall|j: int| 0 <= j < i ==> !(v@[j] == '\n' || v@[j] == '\r'),
        decreases v@.len() - i,
    {
        if v[i] == '\n' || v[i] == '\r' {
            return true;
        }
        i = i + 1;
    }
    false
}

impl Schema {
    /// Replaces the text of the node at `target` (a `.`-separated alias path
    /// such as `plan.cases.2`) with `new_value` and returns the new document
    /// (see [`edit_spec`]).
    ///
    /// The path mirrors the shape of extracted data: object keys are aliases
    /// and array elements numeric indexes. A first segment that is the alias
    /// of exactly one node anywhere in the schema stands for that node's full
    /// path. Only leaf string nodes (list items, paragraphs) are editable.
    pub fn edit(&self, md: &str, target: &str, new_value: &str) -> (r: Result<String, EditError>)
        ensures
            match edit_spec(*self, md.spec_bytes(), target@, new_value@) {
                Ok(bytes) => r matches Ok(out) && encode_utf8(out@) == bytes,
                Err(e) => r matches Err(re) && edit_err_is(re, e),
            },
    {
        let ghost mb = md.spec_bytes();
        let nv = chars_of(new_value);
        if has_line_break(nv.as_slice()) {
            let mut reason = String::new();
            push_str(&mut reason, "contains a line break");
            return Err(EditError::InvalidValue { reason });
        }
        let (body, offset) = strip_frontmatter(md);
        let blocks = parse_blocks(body);
        let ghost bv = body_blocks(mb);
        let root: Vec<String> = Vec::new();
        assert(strings_v(root@) =~= Seq::<Seq<char>>::empty());
        let (_problems, bounds) = match_scope(&self.body, &blocks, Ghost(bv), self.opts, &root);
        let ghost bnds = scope_spec(self.body@, bv, self.opts, Seq::empty()).1;

        let tv = chars_of(target);
        let raw = split_target(tv.as_slice());
        let ghost rv = split_dots(target@);
        let mut is_top = false;
        let mut k: usize = 0;
        while k < self.body.len()
            invariant
                k <= self.body@.len(),
                raw@.len() > 0,
                strings_v(raw@) == rv,
                is_top == exists|j: int| 0 <= j < k && (#[trigger] self.body@[j]).alias() == Some(rv[0]),
            decreases self.body@.len() - k,
        {
            let a = self.body[k].capture_alias();
            match a {
                Some(x) => {
                    if x == raw[0] {
                        is_top = true;
                    }
                },
                None => {},
            }
            k = k + 1;
        }
        assert(is_top == is_top_alias(self.body@, rv[0]));
        let path: Vec<String> = if is_top {
            raw
        } else {
            match unique_alias_path(&self.body, &raw[0]) {
                Some(full) => {
                    let mut p = full;
                    let mut j: usize = 1;
                    let ghost base = strings_v(p@);
                    while j < raw.len()
                        invariant
                            1 <= j <= raw@.len(),
                            strings_v(raw@) == rv,
                            strings_v(p@) == base + rv.drop_first().take(j - 1),
                        decreases raw@.len() - j,
                    {
                        let ghost before = strings_v(p@);
                        p.push(raw[j].clone());
                        assert(strings_v(p@) =~= before.push(rv[j as int]));
                        assert(rv.drop_first().take(j as int) =~= rv.drop_first().take(j - 1).push(rv[j as int]));
                        j = j + 1;
                    }
                    assert(rv.drop_first().take(j - 1) =~= rv.drop_first());
                    p
                },
                None => raw,
            }
        };
        assert(strings_v(path@) == target_path(self.body@, target@));
        let span = match find_span(path.as_slice(), &self.body, &bounds, Ghost(bnds), false) {
            Ok(Some(s)) => s,
            Ok(None) => return Err(EditError::TargetNotFound),
            Err((index, len)) => return Err(EditError::IndexOutOfRange { index, len }),
        };
        let bytes = md.as_bytes();
        let n = bytes.len();
        let a = offset.saturating_add(span.start);
        let b = offset.saturating_add(span.end);
        if !(a <= b && b <= n && md.is_char_boundary(a) && md.is_char_boundary(b)) {
            return Err(EditError::TargetNotFound);
        }
        let sep = a == b && a > 0 && bytes[a - 1] == 93u8;
        let escaped = esc_inline(new_value);
        let (left, _) = md.split_at(a);
        let (_, right) = md.split_at(b);
        let mut out = String::new();
        push_str(&mut out, left);
        if sep {
            push_str(&mut out, " ");
        }
        push_str(&mut out, escaped.as_str());
        push_str(&mut out, right);
        proof {
            let sepv: Seq<char> = if sep { seq![' '] } else { Seq::empty() };
            vstd::utf8::encode_utf8_decode_utf8(left@);
            vstd::utf8::encode_utf8_decode_utf8(right@);
            assert(out@ == left@ + (sepv + escaped@) + right@) by {
                if sep {
                    reveal_strlit(" ");
                }
                assert(out@ =~= left@ + (sepv + escaped@) + right@);
            }
            lemma_encode_concat(left@ + (sepv + escaped@), right@);
            lemma_encode_concat(left@, sepv + escaped@);
            assert(left.spec_bytes() == encode_utf8(left@));
            assert(right.spec_bytes() == encode_utf8(right@));
        }
        Ok(out)
    }
}

} // verus!
