//! The decisions of the command-line front end that are not I/O: refusing two
//! inputs from stdin, and locating a problem's byte offset as a line and a
//! column for the report.

use crate::matcher::blen;
use crate::text::{chars_of, push_str};
use vstd::prelude::*;
use vstd::utf8::encode_utf8;

verus! {

/// The message for two file arguments that are both stdin.
pub open spec fn double_stdin_msg() -> Seq<char> {
    "cannot read two inputs from stdin (`-`); pass one as a file"@
}

/// Two file arguments cannot both be stdin (`-`): the second read would see
/// nothing.
pub fn deny_double_stdin(a: &str, b: &str) -> (r: Result<(), String>)
    ensures
        r is Err <==> (a@ == "-"@ && b@ == "-"@),
        r matches Err(m) ==> m@ == double_stdin_msg(),
{
    let av = chars_of(a);
    let bv = chars_of(b);
    if crate::text::eq_str(av.as_slice(), "-") && crate::text::eq_str(bv.as_slice(), "-") {
        let mut m = String::new();
        push_str(&mut m, "cannot read two inputs from stdin (`-`); pass one as a file");
        return Err(m);
    }
    Ok(())
}

/// The line and column after the characters `cs`, starting from line 1,
/// column 1: a newline moves to the next line's first column, any other
/// character one column on.
pub open spec fn lc_fold(cs: Seq<char>) -> (int, int)
    decreases cs.len(),
{
    if cs.len() == 0 {
        (1, 1)
    } else {
        let (l, c) = lc_fold(cs.drop_last());
        if cs.last() == '\n' {
            (l + 1, 1)
        } else {
            (l, c + 1)
        }
    }
}

/// The index of the first character, from `i` on, that starts at or after
/// byte `byte` (the length when none does).
pub open spec fn first_at_or_after(cs: Seq<char>, byte: int, i: int) -> int
    decreases cs.len() - i,
{
    if i >= cs.len() || blen(cs.take(i)) >= byte {
        i
    } else {
        first_at_or_after(cs, byte, i + 1)
    }
}

/// The 1-based line and column (in characters) of byte offset `byte` of
/// `s`: the position after every character that starts before it.
pub open spec fn line_col_spec(s: Seq<char>, byte: int) -> (int, int) {
    lc_fold(s.take(first_at_or_after(s, byte, 0)))
}

/// The number of line feeds in `cs`.
pub open spec fn newlines(cs: Seq<char>) -> nat
    decreases cs.len(),
{
    if cs.len() == 0 {
        0
    } else {
        newlines(cs.drop_last()) + if cs.last() == '\n' { 1nat } else { 0nat }
    }
}

proof fn lemma_lc_after(a: Seq<char>, b: Seq<char>)
    requires
        forall|j: int| 0 <= j < b.len() ==> b[j] != '\n',
    ensures
        lc_fold(a + b) == (lc_fold(a).0, lc_fold(a).1 + b.len() as int),
    decreases b.len(),
{
    if b.len() == 0 {
        assert(a + b =~= a);
    } else {
        lemma_lc_after(a, b.drop_last());
        assert((a + b).drop_last() =~= a + b.drop_last());
        assert((a + b).last() == b[b.len() - 1]);
    }
}

/// Lines and columns count characters: the line is one more than the line
/// feeds before the position, and after a line feed followed by the text
/// `b` (holding none) the column is one more than the length of `b`; with
/// no line feed before, it is line 1, column one more than the text's
/// length.
pub proof fn law_line_col_counts(a: Seq<char>, b: Seq<char>)
    requires
        forall|j: int| 0 <= j < b.len() ==> b[j] != '\n',
    ensures
        lc_fold(a).0 == 1 + newlines(a),
        lc_fold(a + seq!['\n'] + b) == (lc_fold(a).0 + 1, b.len() + 1int),
        lc_fold(b) == (1int, b.len() + 1int),
    decreases a.len(),
{
    if a.len() > 0 {
        law_line_col_counts(a.drop_last(), Seq::empty());
    }
    let c = a + seq!['\n'];
    assert(c.drop_last() =~= a);
    lemma_lc_after(c, b);
    assert(c + b =~= a + seq!['\n'] + b);
    lemma_lc_after(Seq::empty(), b);
    assert(Seq::<char>::empty() + b =~= b);
}

/// Each character takes at least one byte, so the byte offsets of
/// character boundaries strictly grow.
proof fn lemma_blen_grows(s: Seq<char>, j: int, i: int)
    requires
        0 <= j < i <= s.len(),
    ensures
        blen(s.take(j)) < blen(s.take(i)),
{
    let mid = s.subrange(j, i);
    assert(s.take(i) =~= s.take(j) + mid);
    crate::matcher::lemma_encode_concat(s.take(j), mid);
    assert(encode_utf8(mid) == vstd::utf8::encode_scalar(mid[0] as u32) + encode_utf8(mid.drop_first()));
    assert(vstd::utf8::encode_scalar(mid[0] as u32).len() >= 1);
}

proof fn lemma_first_at(s: Seq<char>, i: int, k: int)
    requires
        0 <= k <= i <= s.len(),
    ensures
        first_at_or_after(s, blen(s.take(i)) as int, k) == i,
    decreases i - k,
{
    if k < i {
        lemma_blen_grows(s, k, i);
        lemma_first_at(s, i, k + 1);
    }
}

/// The location of the byte offset where character `i` starts is the line
/// and column reached after the characters before it.
pub proof fn law_line_col_at_char(s: Seq<char>, i: int)
    requires
        0 <= i <= s.len(),
    ensures
        line_col_spec(s, blen(s.take(i)) as int) == lc_fold(s.take(i)),
{
    lemma_first_at(s, i, 0);
}

/// The UTF-8 width of one character.
fn char_width(c: char) -> (w: usize)
    ensures
        w == encode_utf8(seq![c]).len(),
{
    proof {
        vstd::utf8::char_is_scalar(c);
        assert(encode_utf8(seq![c]) =~= vstd::utf8::encode_scalar(c as u32) + encode_utf8(seq![c].drop_first()));
    }
    let u = c as u32;
    if u < 0x80 {
        1
    } else if u < 0x800 {
        2
    } else if u < 0x10000 {
        3
    } else {
        4
    }
}

/// The line and column of a byte offset (see [`line_col_spec`]).
pub fn line_col(s: &str, byte: usize) -> (r: (usize, usize))
    requires
        s@.len() < usize::MAX,
    ensures
        (r.0 as int, r.1 as int) == line_col_spec(s@, byte as int),
{
    let v = chars_of(s);
    let mut line: usize = 1;
    let mut col: usize = 1;
    let mut off: usize = 0;
    let mut i: usize = 0;
    while i < v.len()
        invariant
            i <= v@.len(),
            v@ == s@,
            s@.len() < usize::MAX,
            off == (if blen(v@.take(i as int)) <= usize::MAX { blen(v@.take(i as int)) } else { usize::MAX as nat }),
            first_at_or_after(v@, byte as int, i as int) == first_at_or_after(v@, byte as int, 0),
            (line as int, col as int) == lc_fold(v@.take(i as int)),
            1 <= line <= i + 1,
            1 <= col <= i + 1,
        ensures
            (line as int, col as int) == lc_fold(v@.take(i as int)),
            first_at_or_after(v@, byte as int, 0) == i,
        decreases v@.len() - i,
    {
        if off >= byte {
            assert(blen(v@.take(i as int)) >= byte);
            break;
        }
        let c = v[i];
        let w = char_width(c);
        proof {
            crate::matcher::lemma_encode_concat(v@.take(i as int), seq![c]);
            assert(v@.take(i + 1) =~= v@.take(i as int) + seq![c]);
            crate::matcher::lemma_encode_concat(v@.take(i + 1), v@.skip(i + 1));
            assert(v@ =~= v@.take(i + 1) + v@.skip(i + 1));
            assert(v@.take(i + 1).drop_last() =~= v@.take(i as int));
        }
        if c == '\n' {
            line = line + 1;
            col = 1;
        } else {
            col = col + 1;
        }
        off = off.saturating_add(w);
        i = i + 1;
    }
    (line, col)
}

} // verus!
