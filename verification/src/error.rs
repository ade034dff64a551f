//! Error types: schema-parse errors (located) and document-validation problems.

use crate::doc::Span;
use crate::text::{decimal, push_chars, push_decimal, push_str};
use vstd::prelude::*;

verus! {

/// A failure while parsing the DSL schema source: `line` is 1-based; `col` is
/// the marker column for body-node errors and `1` otherwise.
#[derive(Debug, Clone, PartialEq, Eq)]
pub struct SchemaError {
    /// 1-based line of the offending schema source line.
    pub line: usize,
    /// 1-based column; the marker column for body-node errors, else `1`.
    pub col: usize,
    /// Human-readable description of the failure.
    pub message: String,
}

impl SchemaError {
    pub(crate) fn new(line: usize, col: usize, message: String) -> (e: Self)
        ensures
            e.line == line,
            e.col == col,
            e.message == message,
    {
        SchemaError { line, col, message }
    }

    /// The display form: `schema:{line}:{col}: {message}`.
    pub fn to_string(&self) -> (s: String)
        ensures
            s@ == seq!['s', 'c', 'h', 'e', 'm', 'a', ':'] + decimal(self.line as nat) + seq![':']
                + decimal(self.col as nat) + seq![':', ' '] + self.message@,
    {
        let mut s = String::new();
        push_str(&mut s, "schema:");
        push_decimal(&mut s, self.line as u64);
        push_str(&mut s, ":");
        push_decimal(&mut s, self.col as u64);
        push_str(&mut s, ": ");
        push_str(&mut s, self.message.as_str());
        proof {
            reveal_strlit("schema:");
            reveal_strlit(":");
            reveal_strlit(": ");
        }
        assert(s@ =~= seq!['s', 'c', 'h', 'e', 'm', 'a', ':'] + decimal(self.line as nat) + seq![
            ':',
        ] + decimal(self.col as nat) + seq![':', ' '] + self.message@);
        s
    }
}

/// One way a document failed to conform, addressed by the breadcrumb `path`
/// (alias chain) of the schema node that was unmet.
#[derive(Debug, Clone, PartialEq, Eq)]
pub struct Problem {
    /// Breadcrumb of capture aliases from the schema root to the unmet node.
    pub path: Vec<String>,
    /// Human-readable description, e.g. `expected at least one item, found 0`.
    pub message: String,
    /// Byte span (into the whole validated document) of the offending block, if one
    /// can be pinpointed.
    pub span: Option<Span>,
}

/// A problem as values: breadcrumb path, message, span.
pub struct ProblemV {
    pub path: Seq<Seq<char>>,
    pub message: Seq<char>,
    pub span: Option<Span>,
}

/// Whether `p` is the problem `v`.
pub open spec fn problem_is(p: Problem, v: ProblemV) -> bool {
    &&& p.path@.map_values(|s: String| s@) == v.path
    &&& p.message@ == v.message
    &&& p.span == v.span
}

pub open spec fn problems_are(ps: Seq<Problem>, vs: Seq<ProblemV>) -> bool {
    &&& ps.len() == vs.len()
    &&& forall|k: int| 0 <= k < vs.len() ==> problem_is(#[trigger] ps[k], vs[k])
}

/// The path segments joined with ` › `.
pub open spec fn join_path(path: Seq<Seq<char>>) -> Seq<char>
    decreases path.len(),
{
    if path.len() == 0 {
        Seq::empty()
    } else if path.len() == 1 {
        path[0]
    } else {
        join_path(path.drop_last()) + seq![' ', '›', ' '] + path.last()
    }
}

/// The display form of a problem: `{path joined by " › "}: {message}`, or
/// just the message when the path is empty.
pub open spec fn problem_text(path: Seq<Seq<char>>, message: Seq<char>) -> Seq<char> {
    if path.len() == 0 {
        message
    } else {
        join_path(path) + seq![':', ' '] + message
    }
}

impl Problem {
    /// The display form (see [`problem_text`]).
    pub fn to_string(&self) -> (s: String)
        ensures
            s@ == problem_text(self.path@.map_values(|p: String| p@), self.message@),
    {
        let ghost path = self.path@.map_values(|p: String| p@);
        let mut s = String::new();
        let mut i: usize = 0;
        while i < self.path.len()
            invariant
                i <= self.path@.len(),
                path == self.path@.map_values(|p: String| p@),
                s@ == join_path(path.take(i as int)),
            decreases self.path@.len() - i,
        {
            if i > 0 {
                let ghost before = s@;
                push_chars(&mut s, &[' ', '›', ' ']);
                push_str(&mut s, self.path[i].as_str());
                assert(path.take(i + 1).drop_last() =~= path.take(i as int));
                assert(s@ =~= join_path(path.take(i + 1)));
            } else {
                push_str(&mut s, self.path[i].as_str());
                assert(s@ =~= join_path(path.take(i + 1)));
            }
            i = i + 1;
        }
        assert(path.take(i as int) =~= path);
        if i > 0 {
            push_chars(&mut s, &[':', ' ']);
        }
        push_str(&mut s, self.message.as_str());
        assert(s@ =~= problem_text(path, self.message@));
        s
    }
}

/// A failure while rendering markdown from data.
#[derive(Debug, Clone, PartialEq, Eq)]
pub enum RenderError {
    /// A required field was absent or `null`; carries the capture alias.
    MissingField(String),
    /// A value had a type the schema node cannot render.
    WrongType {
        /// Capture alias of the offending value.
        field: String,
        /// What the renderer needed, e.g. `"string"`, `"array"`.
        expected: &'static str,
    },
    /// A frontmatter value did not satisfy its declared type.
    InvalidFrontmatter {
        /// The frontmatter key.
        key: String,
        /// Why the value was rejected.
        reason: String,
    },
}

/// A render failure as values.
pub enum RenderErrV {
    MissingField(Seq<char>),
    WrongType(Seq<char>, Seq<char>),
    InvalidFrontmatter(Seq<char>, Seq<char>),
}

/// Whether `e` is the failure `v`.
pub open spec fn render_err_is(e: RenderError, v: RenderErrV) -> bool {
    match v {
        RenderErrV::MissingField(a) => e matches RenderError::MissingField(x) && x@ == a,
        RenderErrV::WrongType(f, x) => e matches RenderError::WrongType { field, expected } && field@ == f && expected@ == x,
        RenderErrV::InvalidFrontmatter(k, r) => e matches RenderError::InvalidFrontmatter { key, reason } && key@ == k && reason@ == r,
    }
}

/// A failure while editing a document in place.
#[derive(Debug, Clone, PartialEq, Eq)]
pub enum EditError {
    /// The target path did not resolve to an editable node.
    TargetNotFound,
    /// A numeric path segment addressed a list index that does not exist.
    IndexOutOfRange {
        /// The requested 0-based index.
        index: usize,
        /// The actual item count of the list.
        len: usize,
    },
    /// The replacement value cannot be spliced as inline text.
    InvalidValue {
        /// Why the value was rejected.
        reason: String,
    },
}

impl RenderError {
    /// The display form (see [`render_error_text`]).
    pub fn to_string(&self) -> (s: String)
        ensures
            s@ == render_error_text(*self),
    {
        let mut s = String::new();
        match self {
            RenderError::MissingField(f) => {
                push_str(&mut s, "required field '");
                push_str(&mut s, f.as_str());
                push_str(&mut s, "' is missing from the data");
            },
            RenderError::WrongType { field, expected } => {
                push_str(&mut s, "field '");
                push_str(&mut s, field.as_str());
                push_str(&mut s, "' has wrong type: expected ");
                push_str(&mut s, expected);
            },
            RenderError::InvalidFrontmatter { key, reason } => {
                push_str(&mut s, "frontmatter key '");
                push_str(&mut s, key.as_str());
                push_str(&mut s, "' has an invalid value: ");
                push_str(&mut s, reason.as_str());
            },
        }
        s
    }
}

/// The display text of a render failure.
pub open spec fn render_error_text(e: RenderError) -> Seq<char> {
    match e {
        RenderError::MissingField(f) => "required field '"@ + f@ + "' is missing from the data"@,
        RenderError::WrongType { field, expected } => "field '"@ + field@ + "' has wrong type: expected "@ + expected@,
        RenderError::InvalidFrontmatter { key, reason } => "frontmatter key '"@ + key@ + "' has an invalid value: "@ + reason@,
    }
}

impl EditError {
    /// The display form (see [`edit_error_text`]).
    pub fn to_string(&self) -> (s: String)
        ensures
            s@ == edit_error_text(*self),
    {
        let mut s = String::new();
        match self {
            EditError::TargetNotFound => {
                push_str(&mut s, "target path does not resolve to an editable node");
            },
            EditError::IndexOutOfRange { index, len } => {
                push_str(&mut s, "index ");
                push_decimal(&mut s, *index as u64);
                push_str(&mut s, " is out of range (list has ");
                push_decimal(&mut s, *len as u64);
                push_str(&mut s, " items)");
            },
            EditError::InvalidValue { reason } => {
                push_str(&mut s, "replacement value is not valid inline text: ");
                push_str(&mut s, reason.as_str());
            },
        }
        s
    }
}

/// The display text of an edit failure.
pub open spec fn edit_error_text(e: EditError) -> Seq<char> {
    match e {
        EditError::TargetNotFound => "target path does not resolve to an editable node"@,
        EditError::IndexOutOfRange { index, len } => "index "@ + decimal(index as nat) + " is out of range (list has "@
            + decimal(len as nat) + " items)"@,
        EditError::InvalidValue { reason } => "replacement value is not valid inline text: "@ + reason@,
    }
}

} // verus!
