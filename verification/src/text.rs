//! Character-level text helpers shared by the schema parser, the document
//! model and the renderer: views of strings as character sequences, Unicode
//! whitespace trimming, line splitting and decimal numbers.

use vstd::prelude::*;

verus! {

broadcast use vstd::string::group_string_axioms;

/// Unicode `White_Space`: the characters `char::is_whitespace` accepts.
pub open spec fn is_ws(c: char) -> bool {
    let u = c as u32;
    ||| 0x9 <= u && u <= 0xD
    ||| u == 0x20 || u == 0x85 || u == 0xA0 || u == 0x1680
    ||| 0x2000 <= u && u <= 0x200A
    ||| u == 0x2028 || u == 0x2029 || u == 0x202F || u == 0x205F || u == 0x3000
}

pub fn is_whitespace(c: char) -> (b: bool)
    ensures
        b == is_ws(c),
{
    let u = c as u32;
    (0x9 <= u && u <= 0xD) || u == 0x20 || u == 0x85 || u == 0xA0 || u == 0x1680 || (0x2000 <= u
        && u <= 0x200A) || u == 0x2028 || u == 0x2029 || u == 0x202F || u == 0x205F || u == 0x3000
}

pub open spec fn is_digit(c: char) -> bool {
    '0' <= c && c <= '9'
}

pub open spec fn is_lower(c: char) -> bool {
    'a' <= c && c <= 'z'
}

pub open spec fn is_upper(c: char) -> bool {
    'A' <= c && c <= 'Z'
}

pub open spec fn is_alnum(c: char) -> bool {
    is_digit(c) || is_lower(c) || is_upper(c)
}

/// The characters of `s`, in order.
pub fn chars_of(s: &str) -> (v: Vec<char>)
    ensures
        v@ == s@,
{
    let mut v: Vec<char> = Vec::new();
    for c in it: s.chars()
        invariant
            v@ == it.seq().take(it.index() as int),
    {
        v.push(c);
    }
    v
}


/// Appends one character to a string (`String::push`).
#[verifier::external_body]
pub(crate) fn push_char(s: &mut String, c: char)
    ensures
        final(s)@ == old(s)@.push(c),
{
    s.push(c);
}

/// A string holding exactly the characters of `v`.
pub fn string_of(v: &[char]) -> (s: String)
    ensures
        s@ == v@,
{
    let mut s = String::new();
    let mut i: usize = 0;
    while i < v.len()
        invariant
            i <= v@.len(),
            s@ == v@.take(i as int),
        decreases v@.len() - i,
    {
        push_char(&mut s, v[i]);
        i = i + 1;
        assert(s@ =~= v@.take(i as int));
    }
    assert(v@.take(i as int) =~= v@);
    s
}

/// Appends the characters of `v` to `s`.
pub fn push_chars(s: &mut String, v: &[char])
    ensures
        final(s)@ == old(s)@ + v@,
{
    let mut i: usize = 0;
    while i < v.len()
        invariant
            i <= v@.len(),
            s@ == old(s)@ + v@.take(i as int),
        decreases v@.len() - i,
    {
        push_char(s, v[i]);
        i = i + 1;
        assert(s@ =~= old(s)@ + v@.take(i as int));
    }
    assert(v@.take(i as int) =~= v@);
}

/// Appends the characters of `v` to the vector `out`.
pub fn extend_chars(out: &mut Vec<char>, v: &[char])
    ensures
        final(out)@ == old(out)@ + v@,
{
    let mut i: usize = 0;
    while i < v.len()
        invariant
            i <= v@.len(),
            out@ == old(out)@ + v@.take(i as int),
        decreases v@.len() - i,
    {
        out.push(v[i]);
        i = i + 1;
        assert(out@ =~= old(out)@ + v@.take(i as int));
    }
    assert(v@.take(i as int) =~= v@);
}

/// The index of the first `c` in `s` (`str::find`).
pub open spec fn index_of(s: Seq<char>, c: char) -> Option<int>
    decreases s.len(),
{
    if s.len() == 0 {
        None
    } else if s[0] == c {
        Some(0)
    } else {
        match index_of(s.drop_first(), c) {
            Some(i) => Some(i + 1),
            None => None,
        }
    }
}

pub proof fn lemma_index_of(s: Seq<char>, c: char)
    ensures
        match index_of(s, c) {
            Some(i) => 0 <= i < s.len() && s[i] == c && forall|j: int| 0 <= j < i ==> s[j] != c,
            None => forall|j: int| 0 <= j < s.len() ==> s[j] != c,
        },
    decreases s.len(),
{
    if s.len() > 0 && s[0] != c {
        lemma_index_of(s.drop_first(), c);
        match index_of(s.drop_first(), c) {
            Some(i) => {
                assert forall|j: int| 0 <= j < i + 1 implies s[j] != c by {
                    if j > 0 {
                        assert(s[j] == s.drop_first()[j - 1]);
                    }
                }
            },
            None => {
                assert forall|j: int| 0 <= j < s.len() implies s[j] != c by {
                    if j > 0 {
                        assert(s[j] == s.drop_first()[j - 1]);
                    }
                }
            },
        }
    }
}

pub proof fn lemma_index_of_char(s: Seq<char>, c: char, i: int)
    requires
        0 <= i < s.len(),
        s[i] == c,
        forall|j: int| 0 <= j < i ==> s[j] != c,
    ensures
        index_of(s, c) == Some(i),
{
    lemma_index_of(s, c);
}

/// The first index of `c` in `v`.
pub fn find_char(v: &[char], c: char) -> (r: Option<usize>)
    ensures
        match r {
            Some(k) => index_of(v@, c) == Some(k as int) && k < v@.len() && v@[k as int] == c,
            None => index_of(v@, c) is None,
        },
{
    let mut i: usize = 0;
    while i < v.len()
        invariant
            i <= v@.len(),
            forall|j: int| 0 <= j < i ==> v@[j] != c,
        decreases v@.len() - i,
    {
        if v[i] == c {
            proof { lemma_index_of_char(v@, c, i as int); }
            return Some(i);
        }
        i = i + 1;
    }
    proof { lemma_index_of(v@, c); }
    None
}

/// The index of the last `c` in `s` (`str::rfind`).
pub open spec fn last_index_of(s: Seq<char>, c: char) -> Option<int>
    decreases s.len(),
{
    if s.len() == 0 {
        None
    } else if s.last() == c {
        Some(s.len() - 1)
    } else {
        last_index_of(s.drop_last(), c)
    }
}

pub proof fn lemma_last_index_of(s: Seq<char>, c: char)
    ensures
        last_index_of(s, c) matches Some(i) ==> 0 <= i < s.len() && s[i] == c,
    decreases s.len(),
{
    if s.len() > 0 && s.last() != c {
        lemma_last_index_of(s.drop_last(), c);
    }
}

/// The last index of `c` in `v`.
pub fn rfind_char(v: &[char], c: char) -> (r: Option<usize>)
    ensures
        match r {
            Some(k) => last_index_of(v@, c) == Some(k as int) && k < v@.len(),
            None => last_index_of(v@, c) is None,
        },
{
    let mut j: usize = v.len();
    assert(v@.take(j as int) =~= v@);
    while j > 0
        invariant
            j <= v@.len(),
            last_index_of(v@.take(j as int), c) == last_index_of(v@, c),
        decreases j,
    {
        if v[j - 1] == c {
            return Some(j - 1);
        }
        assert(v@.take(j as int).drop_last() =~= v@.take(j - 1));
        j = j - 1;
    }
    None
}

/// Whether the characters of `v` equal those of `s`.
pub fn eq_str(v: &[char], s: &str) -> (b: bool)
    ensures
        b == (v@ == s@),
{
    let w = chars_of(s);
    if v.len() != w.len() {
        return false;
    }
    let mut i: usize = 0;
    while i < v.len()
        invariant
            i <= v@.len(),
            v@.len() == w@.len(),
            w@ == s@,
            forall|k: int| 0 <= k < i ==> v@[k] == w@[k],
        decreases v@.len() - i,
    {
        if v[i] != w[i] {
            return false;
        }
        i = i + 1;
    }
    assert(v@ =~= w@);
    true
}

/// Appends `t` to `s`.
pub fn push_str(s: &mut String, t: &str)
    ensures
        final(s)@ == old(s)@ + t@,
{
    let v = chars_of(t);
    push_chars(s, v.as_slice());
}

/// `s` with its leading whitespace removed (`str::trim_start`).
pub open spec fn trim_start(s: Seq<char>) -> Seq<char>
    decreases s.len(),
{
    if s.len() > 0 && is_ws(s[0]) {
        trim_start(s.drop_first())
    } else {
        s
    }
}

/// `s` with its trailing whitespace removed (`str::trim_end`).
pub open spec fn trim_end(s: Seq<char>) -> Seq<char>
    decreases s.len(),
{
    if s.len() > 0 && is_ws(s.last()) {
        trim_end(s.drop_last())
    } else {
        s
    }
}

/// `s` with whitespace removed at both ends (`str::trim`).
pub open spec fn trim(s: Seq<char>) -> Seq<char> {
    trim_end(trim_start(s))
}

/// The number of leading whitespace characters of `s`.
pub open spec fn ws_prefix_len(s: Seq<char>) -> nat
    decreases s.len(),
{
    if s.len() > 0 && is_ws(s[0]) {
        1 + ws_prefix_len(s.drop_first())
    } else {
        0
    }
}

/// A string whose ends are not whitespace is its own trim.
pub proof fn lemma_trim_no_ws_ends(s: Seq<char>)
    requires
        s.len() > 0,
        !is_ws(s[0]),
        !is_ws(s[s.len() - 1]),
    ensures
        trim(s) == s,
{
    assert(trim_start(s) == s);
    assert(s.last() == s[s.len() - 1]);
    assert(trim_end(s) == s);
}

pub proof fn lemma_trim_start_skip(s: Seq<char>)
    ensures
        ws_prefix_len(s) <= s.len(),
        trim_start(s) == s.skip(ws_prefix_len(s) as int),
    decreases s.len(),
{
    if s.len() > 0 && is_ws(s[0]) {
        lemma_trim_start_skip(s.drop_first());
        assert(s.drop_first().skip(ws_prefix_len(s.drop_first()) as int) =~= s.skip(
            ws_prefix_len(s) as int,
        ));
    } else {
        assert(s.skip(0) =~= s);
    }
}

/// `trim_start`, over the subrange `v[lo..hi]`: the index of its first
/// non-whitespace character (or `hi`).
pub fn skip_ws(v: &[char], lo: usize, hi: usize) -> (r: usize)
    requires
        lo <= hi <= v@.len(),
    ensures
        lo <= r <= hi,
        v@.subrange(r as int, hi as int) == trim_start(v@.subrange(lo as int, hi as int)),
{
    let mut i = lo;
    while i < hi && is_whitespace(v[i])
        invariant
            lo <= i <= hi <= v@.len(),
            trim_start(v@.subrange(i as int, hi as int)) == trim_start(
                v@.subrange(lo as int, hi as int),
            ),
        decreases hi - i,
    {
        assert(v@.subrange(i as int, hi as int).drop_first() =~= v@.subrange(
            i + 1,
            hi as int,
        ));
        i = i + 1;
    }
    i
}

/// `trim_end`, over the subrange `v[lo..hi]`: the end of its last
/// non-whitespace character (or `lo`).
pub fn skip_ws_back(v: &[char], lo: usize, hi: usize) -> (r: usize)
    requires
        lo <= hi <= v@.len(),
    ensures
        lo <= r <= hi,
        v@.subrange(lo as int, r as int) == trim_end(v@.subrange(lo as int, hi as int)),
{
    let mut j = hi;
    while j > lo && is_whitespace(v[j - 1])
        invariant
            lo <= j <= hi <= v@.len(),
            trim_end(v@.subrange(lo as int, j as int)) == trim_end(
                v@.subrange(lo as int, hi as int),
            ),
        decreases j - lo,
    {
        assert(v@.subrange(lo as int, j as int).drop_last() =~= v@.subrange(
            lo as int,
            j - 1,
        ));
        j = j - 1;
    }
    j
}

/// A non-empty string that is its own trim has no whitespace at its ends.
pub proof fn lemma_trimmed_ends(s: Seq<char>)
    requires
        s.len() > 0,
        trim(s) == s,
    ensures
        !is_ws(s[0]),
        !is_ws(s[s.len() - 1]),
{
    if is_ws(s[0]) {
        lemma_trim_start_len(s.drop_first());
        lemma_trim_end_len(trim_start(s));
        assert(false);
    }
    assert(trim_start(s) == s);
    if is_ws(s.last()) {
        lemma_trim_end_len(s.drop_last());
        assert(false);
    }
}

/// A space before a string with no whitespace at its ends trims away.
pub proof fn lemma_trim_space_prefix(p: Seq<char>)
    requires
        p.len() > 0,
        !is_ws(p[0]),
        !is_ws(p[p.len() - 1]),
    ensures
        trim(seq![' '] + p) == p,
{
    let q = seq![' '] + p;
    assert(q.drop_first() =~= p);
    assert(is_ws(q[0]));
    assert(trim_start(q) == trim_start(p));
    lemma_trim_no_ws_ends(p);
    assert(trim_start(p) == p);
}

/// The decimal digits of `n`: at least one, all digits, reading back as `n`.
pub proof fn lemma_decimal(n: nat)
    ensures
        decimal(n).len() > 0,
        forall|i: int| 0 <= i < decimal(n).len() ==> is_digit(#[trigger] decimal(n)[i]),
        digits_value(decimal(n)) == Some(n),
    decreases n,
{
    if n >= 10 {
        lemma_decimal(n / 10);
        let d = decimal(n);
        assert(d == decimal(n / 10).push(digit_char(n % 10)));
        assert(d.drop_last() =~= decimal(n / 10));
        vstd::arithmetic::div_mod::lemma_fundamental_div_mod(n as int, 10);
        assert forall|i: int| 0 <= i < d.len() implies is_digit(#[trigger] d[i]) by {
            if i < d.len() - 1 {
                assert(d[i] == decimal(n / 10)[i]);
            }
        }
    }
}

/// The decimal digits of `n` as a token: no whitespace at its ends (so it is
/// its own trim), no punctuation, and read back as `n` by the `u32` and
/// `usize` parsers wherever `n` fits.
pub proof fn lemma_decimal_token(n: nat)
    ensures
        decimal(n).len() > 0,
        trim(decimal(n)) == decimal(n),
        forall|i: int| 0 <= i < decimal(n).len() ==> is_digit(#[trigger] decimal(n)[i]),
        n <= u32::MAX ==> parse_u32_spec(decimal(n)) == Some(n as u32),
        n <= usize::MAX ==> parse_usize_spec(decimal(n)) == Some(n as usize),
{
    lemma_decimal(n);
    let d = decimal(n);
    assert(is_digit(d[0]));
    assert(is_digit(d[d.len() - 1]));
    lemma_trim_no_ws_ends(d);
}

/// The decimal form of an `i64` reads back as it.
pub proof fn lemma_parse_signed(n: i64)
    ensures
        parse_i64_spec(signed_decimal(n as int)) == Some(n),
{
    if n < 0 {
        lemma_decimal((-n) as nat);
        let s = signed_decimal(n as int);
        assert(s.drop_first() =~= decimal((-n) as nat));
    } else {
        lemma_decimal(n as nat);
        let s = decimal(n as nat);
        assert(is_digit(s[0]));
    }
}

pub proof fn lemma_trim_len(s: Seq<char>)
    ensures
        trim_start(s).len() <= s.len(),
        trim_end(s).len() <= s.len(),
        trim(s).len() <= s.len(),
    decreases s.len(),
{
    lemma_trim_start_len(s);
    lemma_trim_end_len(s);
    lemma_trim_end_len(trim_start(s));
}

pub proof fn lemma_trim_start_len(s: Seq<char>)
    ensures
        trim_start(s).len() <= s.len(),
    decreases s.len(),
{
    if s.len() > 0 && is_ws(s[0]) {
        lemma_trim_start_len(s.drop_first());
    }
}

pub proof fn lemma_trim_end_len(s: Seq<char>)
    ensures
        trim_end(s).len() <= s.len(),
    decreases s.len(),
{
    if s.len() > 0 && is_ws(s.last()) {
        lemma_trim_end_len(s.drop_last());
    }
}

/// The bounds `(a, b)` of `trim(v[lo..hi])` within `v`.
pub fn trim_bounds(v: &[char], lo: usize, hi: usize) -> (r: (usize, usize))
    requires
        lo <= hi <= v@.len(),
    ensures
        lo <= r.0 <= r.1 <= hi,
        v@.subrange(r.0 as int, r.1 as int) == trim(v@.subrange(lo as int, hi as int)),
{
    let a = skip_ws(v, lo, hi);
    let b = skip_ws_back(v, a, hi);
    (a, b)
}

/// `trim(v)` as a new vector.
pub fn trimmed(v: &[char]) -> (r: Vec<char>)
    ensures
        r@ == trim(v@),
{
    let (a, b) = trim_bounds(v, 0, v.len());
    assert(v@.subrange(0, v@.len() as int) =~= v@);
    vstd::slice::slice_to_vec(&v[a..b])
}

/// Whether `s` begins with `p` (`str::starts_with`).
pub open spec fn starts_with(s: Seq<char>, p: Seq<char>) -> bool {
    p.len() <= s.len() && s.take(p.len() as int) == p
}

pub fn has_prefix(v: &[char], p: &[char]) -> (b: bool)
    ensures
        b == starts_with(v@, p@),
{
    if p.len() > v.len() {
        return false;
    }
    let mut i: usize = 0;
    while i < p.len()
        invariant
            p@.len() <= v@.len(),
            i <= p@.len(),
            forall|k: int| 0 <= k < i ==> v@[k] == p@[k],
        decreases p@.len() - i,
    {
        if v[i] != p[i] {
            assert(v@.take(p@.len() as int)[i as int] != p@[i as int]);
            return false;
        }
        i = i + 1;
    }
    assert(v@.take(p@.len() as int) =~= p@);
    true
}

/// The lines of `s` as `str::lines` splits them: at each `\n`, dropping a
/// `\r` just before it; a final line without `\n` counts if non-empty.
/// Returns the finished lines and the pending (unterminated) one.
pub open spec fn lines_state(s: Seq<char>) -> (Seq<Seq<char>>, Seq<char>)
    decreases s.len(),
{
    if s.len() == 0 {
        (Seq::empty(), Seq::empty())
    } else {
        let (done, cur) = lines_state(s.drop_last());
        if s.last() == '\n' {
            (done.push(strip_cr(cur)), Seq::empty())
        } else {
            (done, cur.push(s.last()))
        }
    }
}

/// `line` without one trailing `\r`.
pub open spec fn strip_cr(line: Seq<char>) -> Seq<char> {
    if line.len() > 0 && line.last() == '\r' {
        line.drop_last()
    } else {
        line
    }
}

/// `str::lines`.
pub open spec fn lines(s: Seq<char>) -> Seq<Seq<char>> {
    let (done, cur) = lines_state(s);
    if cur.len() > 0 {
        done.push(cur)
    } else {
        done
    }
}

/// The lines of `v` (see [`lines`]).
pub fn lines_of(v: &[char]) -> (r: Vec<Vec<char>>)
    ensures
        r@.len() == lines(v@).len(),
        forall|i: int| 0 <= i < r@.len() ==> #[trigger] r@[i]@ == lines(v@)[i],
{
    let mut done: Vec<Vec<char>> = Vec::new();
    let mut cur: Vec<char> = Vec::new();
    let mut i: usize = 0;
    while i < v.len()
        invariant
            i <= v@.len(),
            done@.len() == lines_state(v@.take(i as int)).0.len(),
            forall|k: int|
                0 <= k < done@.len() ==> #[trigger] done@[k]@ == lines_state(
                    v@.take(i as int),
                ).0[k],
            cur@ == lines_state(v@.take(i as int)).1,
        decreases v@.len() - i,
    {
        assert(v@.take(i + 1).drop_last() =~= v@.take(i as int));
        if v[i] == '\n' {
            let mut line = cur;
            if line.len() > 0 && line[line.len() - 1] == '\r' {
                line.pop();
            }
            done.push(line);
            cur = Vec::new();
        } else {
            cur.push(v[i]);
        }
        i = i + 1;
    }
    assert(v@.take(i as int) =~= v@);
    if cur.len() > 0 {
        done.push(cur);
    }
    done
}

/// The decimal digits of `n`.
pub open spec fn decimal(n: nat) -> Seq<char>
    decreases n,
{
    if n < 10 {
        seq![digit_char(n)]
    } else {
        decimal(n / 10).push(digit_char(n % 10))
    }
}

pub open spec fn digit_char(d: nat) -> char {
    if d == 0 { '0' }
    else if d == 1 { '1' }
    else if d == 2 { '2' }
    else if d == 3 { '3' }
    else if d == 4 { '4' }
    else if d == 5 { '5' }
    else if d == 6 { '6' }
    else if d == 7 { '7' }
    else if d == 8 { '8' }
    else { '9' }
}

fn digit(d: u64) -> (c: char)
    requires
        d < 10,
    ensures
        c == digit_char(d as nat),
{
    if d == 0 { '0' }
    else if d == 1 { '1' }
    else if d == 2 { '2' }
    else if d == 3 { '3' }
    else if d == 4 { '4' }
    else if d == 5 { '5' }
    else if d == 6 { '6' }
    else if d == 7 { '7' }
    else if d == 8 { '8' }
    else { '9' }
}

/// Appends the decimal digits of `n` to `s`.
pub fn push_decimal(s: &mut String, n: u64)
    ensures
        final(s)@ == old(s)@ + decimal(n as nat),
    decreases n,
{
    if n < 10 {
        push_char(s, digit(n));
        assert(s@ =~= old(s)@ + decimal(n as nat));
    } else {
        push_decimal(s, n / 10);
        push_char(s, digit(n % 10));
        assert(s@ =~= old(s)@ + decimal(n as nat));
    }
}

/// The decimal form of a signed integer: `-` before the magnitude when negative.
pub open spec fn signed_decimal(n: int) -> Seq<char> {
    if n < 0 {
        seq!['-'] + decimal((-n) as nat)
    } else {
        decimal(n as nat)
    }
}

/// Appends the decimal form of `n` (`i64::to_string`) to `s`.
pub fn push_signed(s: &mut String, n: i64)
    ensures
        final(s)@ == old(s)@ + signed_decimal(n as int),
{
    if n < 0 {
        push_char(s, '-');
        let m: u64 = if n == i64::MIN {
            9223372036854775808u64
        } else {
            (-n) as u64
        };
        push_decimal(s, m);
        assert(s@ =~= old(s)@ + signed_decimal(n as int));
    } else {
        push_decimal(s, n as u64);
    }
}

/// The value of a run of ASCII digits (no sign), or `None` if a character is
/// not a digit or the run is empty.
pub open spec fn digits_value(s: Seq<char>) -> Option<nat>
    decreases s.len(),
{
    if s.len() == 0 {
        None
    } else if !is_digit(s.last()) {
        None
    } else if s.len() == 1 {
        Some((s.last() as nat - '0' as nat) as nat)
    } else {
        match digits_value(s.drop_last()) {
            Some(v) => Some(v * 10 + (s.last() as nat - '0' as nat) as nat),
            None => None,
        }
    }
}

/// `u32::from_str`: an optional `+`, then one or more ASCII digits whose value
/// fits in a `u32`.
pub open spec fn parse_u32_spec(s: Seq<char>) -> Option<u32> {
    let body = if s.len() > 1 && s[0] == '+' { s.drop_first() } else { s };
    match digits_value(body) {
        Some(v) => if v <= u32::MAX { Some(v as u32) } else { None },
        None => None,
    }
}

/// `i64::from_str`: an optional `+` or `-`, then one or more ASCII digits
/// whose signed value fits in an `i64`.
pub open spec fn parse_i64_spec(s: Seq<char>) -> Option<i64> {
    let neg = s.len() > 1 && s[0] == '-';
    let body = if s.len() > 1 && (s[0] == '+' || s[0] == '-') { s.drop_first() } else { s };
    match digits_value(body) {
        Some(v) => {
            let x: int = if neg { -(v as int) } else { v as int };
            if i64::MIN <= x <= i64::MAX { Some(x as i64) } else { None }
        },
        None => None,
    }
}

/// The value of the ASCII digits `v[lo..hi]`, saturating above `cap`: returns
/// `(value, over)` where `over` says the true value exceeds `cap`.
fn digits_capped(v: &[char], lo: usize, hi: usize, cap: u64) -> (r: Option<(u64, bool)>)
    requires
        lo <= hi <= v@.len(),
        cap <= 0xFFFF_FFFF_FFFF_FF00,
    ensures
        match digits_value(v@.subrange(lo as int, hi as int)) {
            None => r is None,
            Some(x) => r matches Some((val, over)) && (over <==> x > cap) && (!over ==> val == x),
        },
{
    if lo == hi {
        return None;
    }
    let mut acc: u64 = 0;
    let mut over = false;
    let mut i = lo;
    while i < hi
        invariant
            lo <= i <= hi <= v@.len(),
            cap <= 0xFFFF_FFFF_FFFF_FF00,
            i > lo ==> (match digits_value(v@.subrange(lo as int, i as int)) {
                None => false,
                Some(x) => (over <==> x > cap) && (!over ==> acc == x),
            }),
            i == lo ==> !over && acc == 0,
            forall|k: int| lo <= k < i ==> is_digit(v@[k]),
        decreases hi - i,
    {
        let c = v[i];
        if !('0' <= c && c <= '9') {
            proof { lemma_digits_none(v@.subrange(lo as int, hi as int), (i - lo) as int); }
            return None;
        }
        let d = (c as u32 - '0' as u32) as u64;
        assert(v@.subrange(lo as int, i + 1).drop_last() =~= v@.subrange(lo as int, i as int));
        if !over {
            if acc > cap / 10 {
                proof { lemma_over(acc as int, cap as int, d as int); }
                over = true;
            } else {
                proof { lemma_fits(acc as int, cap as int, d as int); }
                let next = acc * 10 + d;
                if next > cap {
                    over = true;
                } else {
                    acc = next;
                }
            }
        }
        proof {
            if i > lo {
                let x = digits_value(v@.subrange(lo as int, i as int)).unwrap();
                assert(digits_value(v@.subrange(lo as int, i + 1)) == Some(x * 10 + d as nat));
            }
        }
        i = i + 1;
    }
    Some((acc, over))
}

proof fn lemma_over(acc: int, cap: int, d: int)
    requires
        acc > cap / 10,
        cap >= 0,
        d >= 0,
    ensures
        acc * 10 + d > cap,
{
    assert(acc * 10 + d > cap) by (nonlinear_arith)
        requires
            acc > cap / 10,
            cap >= 0,
            d >= 0,
    ;
}

proof fn lemma_fits(acc: int, cap: int, d: int)
    requires
        0 <= acc <= cap / 10,
        0 <= d < 10,
        0 <= cap,
    ensures
        acc * 10 + d <= cap + 9,
{
    assert(acc * 10 + d <= cap + 9) by (nonlinear_arith)
        requires
            0 <= acc <= cap / 10,
            0 <= d < 10,
            0 <= cap,
    ;
}

proof fn lemma_digits_none(s: Seq<char>, k: int)
    requires
        0 <= k < s.len(),
        !is_digit(s[k]),
    ensures
        digits_value(s) is None,
    decreases s.len(),
{
    if k == s.len() - 1 {
    } else {
        lemma_digits_none(s.drop_last(), k);
    }
}

/// `u32::from_str` over the characters `v`.
pub fn parse_u32(v: &[char]) -> (r: Option<u32>)
    ensures
        r == parse_u32_spec(v@),
{
    let lo: usize = if v.len() > 1 && v[0] == '+' { 1 } else { 0 };
    assert(v@.subrange(lo as int, v@.len() as int) =~= (if v@.len() > 1 && v@[0] == '+' {
        v@.drop_first()
    } else {
        v@
    }));
    match digits_capped(v, lo, v.len(), 0xFFFF_FFFF) {
        None => None,
        Some((val, over)) => if over { None } else { Some(val as u32) },
    }
}

/// `i64::from_str` over the characters `v`.
pub fn parse_i64(v: &[char]) -> (r: Option<i64>)
    ensures
        r == parse_i64_spec(v@),
{
    let signed = v.len() > 1 && (v[0] == '+' || v[0] == '-');
    let neg = v.len() > 1 && v[0] == '-';
    let lo: usize = if signed { 1 } else { 0 };
    assert(v@.subrange(lo as int, v@.len() as int) =~= (if v@.len() > 1 && (v@[0] == '+' || v@[0]
        == '-') {
        v@.drop_first()
    } else {
        v@
    }));
    let cap: u64 = if neg { 9223372036854775808u64 } else { 9223372036854775807u64 };
    match digits_capped(v, lo, v.len(), cap) {
        None => None,
        Some((val, over)) => if over {
            None
        } else if neg {
            if val == 9223372036854775808u64 {
                Some(i64::MIN)
            } else {
                Some(-(val as i64))
            }
        } else {
            Some(val as i64)
        },
    }
}


/// `usize::from_str`: an optional `+`, then one or more ASCII digits whose
/// value fits in a `usize`.
pub open spec fn parse_usize_spec(s: Seq<char>) -> Option<usize> {
    let body = if s.len() > 1 && s[0] == '+' { s.drop_first() } else { s };
    match digits_value(body) {
        Some(v) => if v <= usize::MAX { Some(v as usize) } else { None },
        None => None,
    }
}

proof fn lemma_digits_grow(s: Seq<char>, k: int)
    requires
        0 < k <= s.len(),
        digits_value(s.take(k)) is Some,
        forall|j: int| 0 <= j < s.len() ==> is_digit(s[j]),
    ensures
        digits_value(s) is Some,
        digits_value(s)->0 >= digits_value(s.take(k))->0,
    decreases s.len() - k,
{
    if k == s.len() {
        assert(s.take(k) =~= s);
    } else {
        assert(s.take(k + 1).drop_last() =~= s.take(k));
        let x = digits_value(s.take(k))->0;
        assert(digits_value(s.take(k + 1)) == Some(x * 10 + (s[k] as nat - '0' as nat) as nat));
        lemma_digits_grow(s, k + 1);
    }
}

/// `usize::from_str` over the characters `v`.
pub fn parse_usize(v: &[char]) -> (r: Option<usize>)
    ensures
        r == parse_usize_spec(v@),
{
    let lo: usize = if v.len() > 1 && v[0] == '+' { 1 } else { 0 };
    let n = v.len();
    let ghost body = v@.subrange(lo as int, n as int);
    assert(body =~= (if v@.len() > 1 && v@[0] == '+' { v@.drop_first() } else { v@ }));
    if lo == n {
        return None;
    }
    let mut acc: u128 = 0;
    let mut i = lo;
    while i < n
        invariant
            lo <= i <= n,
            n == v@.len(),
            lo < n,
            body == v@.subrange(lo as int, n as int),
            body == (if v@.len() > 1 && v@[0] == '+' { v@.drop_first() } else { v@ }),
            acc <= usize::MAX,
            i > lo ==> digits_value(body.take(i - lo)) == Some(acc as nat),
            i == lo ==> acc == 0,
            forall|k: int| lo <= k < i ==> is_digit(v@[k]),
        decreases n - i,
    {
        let c = v[i];
        if !('0' <= c && c <= '9') {
            proof { lemma_digits_none(body, (i - lo) as int); }
            return None;
        }
        let d = (c as u32 - '0' as u32) as u128;
        assert(body.take(i - lo + 1).drop_last() =~= body.take(i - lo));
        assert(body.take(i - lo + 1)[i - lo] == c);
        let next = acc * 10 + d;
        if next > usize::MAX as u128 {
            proof {
                assert(digits_value(body.take(i - lo + 1)) == Some(next as nat));
                let ok = forall|j: int| 0 <= j < body.len() ==> is_digit(body[j]);
                if ok {
                    lemma_digits_grow(body, i - lo + 1);
                } else {
                    let j = choose|j: int| 0 <= j < body.len() && !is_digit(body[j]);
                    lemma_digits_none(body, j);
                }
            }
            return None;
        }
        acc = next;
        i = i + 1;
    }
    assert(body.take(n - lo) =~= body);
    Some(acc as usize)
}

} // verus!
