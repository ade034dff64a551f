//! The parsed schema data model: the in-memory form of the DSL.
//!
//! Regex labels and frontmatter regex types are compiled once, when the schema
//! is parsed, and stored compiled (see [`Regexp`]).

use crate::text::{chars_of, is_alnum, is_upper, push_str, string_of};
use vstd::prelude::*;

verus! {

/// A parsed schema: per-schema options, the frontmatter field schemas, and the
/// body node tree.
///
/// The parser establishes invariants that direct mutation can break: capture
/// aliases are unique within each scope, a prose node never has children, two
/// same-marker lists are never adjacent siblings, and every [`Regexp`] is
/// compiled (see [`schema_wf`]).
#[derive(Debug, Clone, PartialEq)]
pub struct Schema {
    /// The `%`-directive options.
    pub opts: SchemaOpts,
    /// Declared frontmatter fields, in declaration order.
    pub frontmatter: Vec<FieldSchema>,
    /// The body node tree. Headings nest by their level; lists and prose nest
    /// by source indentation.
    pub body: Vec<Node>,
}

/// The `%`-directive options. Defaults: ordered matching, strict matching,
/// closed frontmatter.
#[derive(Debug, Clone, Copy, PartialEq, Eq)]
pub struct SchemaOpts {
    /// `%ordered` (default `true`): body nodes must appear in declared order.
    pub ordered: bool,
    /// `%strict` (default `true`): a document block that no schema node claims
    /// is a problem.
    pub strict: bool,
    /// `%frontmatter = open` (default closed): allow undeclared frontmatter
    /// keys.
    pub frontmatter_open: bool,
}

impl Default for SchemaOpts {
    fn default() -> (o: Self)
        ensures
            o.ordered && o.strict && !o.frontmatter_open,
    {
        SchemaOpts { ordered: true, strict: true, frontmatter_open: false }
    }
}

/// One typed frontmatter key, parsed from a `key[?] [@alias]: type` line.
#[derive(Debug, Clone, PartialEq)]
pub struct FieldSchema {
    /// The YAML key: the leading `[A-Za-z0-9_]` run of the line.
    pub key: String,
    /// Capture alias; the key unless renamed with `@name`.
    pub alias: String,
    /// `true` when the key is marked `key?`.
    pub optional: bool,
    /// The declared value type.
    pub ty: FieldType,
    /// The `<? … ?>` description, if any.
    pub desc: Option<String>,
}

/// A frontmatter value type.
#[derive(Debug, PartialEq)]
pub enum FieldType {
    /// `string`: any scalar.
    Str,
    /// `int`: a base-10 integer.
    Int,
    /// `bool`: `true` or `false`.
    Bool,
    /// `date`: a `YYYY-MM-DD` calendar date.
    Date,
    /// `enum(a, b, …)`: one of the listed identifiers.
    Enum(Vec<String>),
    /// `[T]`: a list whose elements have the scalar type `T`.
    List(Box<FieldType>),
    /// `/pattern/flags`: a string the (unanchored) pattern matches.
    Regex(Regexp),
}

impl Clone for FieldType {
    fn clone(&self) -> (r: Self) {
        clone_field_type(self)
    }
}

/// `b` is a copy of the field type `a`: the same type, with the same enum
/// members; a compiled regex is a copy when it has the same source pattern.
pub open spec fn type_copy(a: FieldType, b: FieldType) -> bool
    decreases a,
{
    match a {
        FieldType::Str => b is Str,
        FieldType::Int => b is Int,
        FieldType::Bool => b is Bool,
        FieldType::Date => b is Date,
        FieldType::Enum(v) => b matches FieldType::Enum(w) && w@ == v@,
        FieldType::List(x) => b matches FieldType::List(y) && type_copy(*x, *y),
        FieldType::Regex(r) => b matches FieldType::Regex(q) && q@ == r@,
    }
}

fn clone_strings(v: &Vec<String>) -> (r: Vec<String>)
    ensures
        r@ == v@,
{
    let mut out: Vec<String> = Vec::new();
    let mut i: usize = 0;
    while i < v.len()
        invariant
            i <= v@.len(),
            out@ == v@.take(i as int),
        decreases v@.len() - i,
    {
        out.push(v[i].clone());
        i = i + 1;
        assert(out@ =~= v@.take(i as int));
    }
    assert(v@.take(i as int) =~= v@);
    out
}

fn clone_field_type(t: &FieldType) -> (r: FieldType)
    ensures
        type_copy(*t, r),
    decreases t,
{
    match t {
        FieldType::Str => FieldType::Str,
        FieldType::Int => FieldType::Int,
        FieldType::Bool => FieldType::Bool,
        FieldType::Date => FieldType::Date,
        FieldType::Enum(v) => FieldType::Enum(clone_strings(v)),
        FieldType::List(b) => FieldType::List(Box::new(clone_field_type(b))),
        FieldType::Regex(r) => FieldType::Regex(r.clone()),
    }
}

#[verifier::external_type_specification]
#[verifier::external_body]
pub struct ExRegex(regex::Regex);

/// Whether `regex::Regex::new` accepts `pattern`.
pub uninterp spec fn regex_compiles(pattern: Seq<char>) -> bool;

/// The message (`Display`) of the `regex::Error` that `regex::Regex::new`
/// gives for a `pattern` it rejects.
pub uninterp spec fn regex_error(pattern: Seq<char>) -> Seq<char>;

/// `regex::Regex::is_match` of the regex compiled from `pattern`, on `text`.
pub uninterp spec fn regex_is_match(pattern: Seq<char>, text: Seq<char>) -> bool;

/// A compiled, validated regular expression that carries its source text.
/// Equality compares the source pattern.
#[derive(Debug)]
pub struct Regexp {
    src: String,
    re: regex::Regex,
}

impl View for Regexp {
    type V = Seq<char>;

    closed spec fn view(&self) -> Seq<char> {
        self.src@
    }
}

impl Regexp {
    /// Compiles `src` with `regex::Regex::new`; a rejected pattern gives the
    /// regex crate's own message for it ([`regex_error`]).
    #[verifier::external_body]
    pub(crate) fn new(src: String) -> (r: Result<Regexp, String>)
        ensures
            r is Ok <==> regex_compiles(src@),
            r matches Ok(re) ==> re@ == src@,
            r matches Err(e) ==> e@ == regex_error(src@),
    {
        match regex::Regex::new(&src) {
            Ok(re) => Ok(Regexp { src, re }),
            Err(e) => Err(e.to_string()),
        }
    }

    /// `true` if the pattern matches anywhere in `text` (`Regex::is_match`,
    /// unanchored); the regex was compiled from this value's source pattern.
    #[verifier::external_body]
    pub fn is_match(&self, text: &str) -> (b: bool)
        ensures
            b == regex_is_match(self@, text@),
    {
        self.re.is_match(text)
    }

    /// The pattern source (with any folded `(?flags)` prefix).
    pub fn as_str(&self) -> (s: &str)
        ensures
            s@ == self@,
    {
        self.src.as_str()
    }
}

impl Clone for Regexp {
    fn clone(&self) -> (r: Self)
        ensures
            r@ == self@,
    {
        Regexp { src: self.src.clone(), re: clone_regex(&self.re) }
    }
}

/// A copy of a compiled regex (`regex::Regex::clone`); nothing is stated of
/// the copy beyond its type, and [`Regexp`] keeps its source text beside it.
#[verifier::external_body]
fn clone_regex(re: &regex::Regex) -> regex::Regex {
    re.clone()
}

impl PartialEq for Regexp {
    fn eq(&self, other: &Self) -> (r: bool) {
        self.src == other.src
    }
}

impl vstd::std_specs::cmp::PartialEqSpecImpl for Regexp {
    open spec fn obeys_eq_spec() -> bool {
        true
    }

    open spec fn eq_spec(&self, other: &Self) -> bool {
        self@ == other@
    }
}

impl Eq for Regexp {}

/// A body node: a heading (with children), a list (with a per-item child
/// schema), or a paragraph.
#[derive(Debug, PartialEq)]
pub enum Node {
    /// A `#`…`######` heading and the section it owns.
    Heading {
        /// Heading level, 1–6.
        level: u8,
        /// The title pattern (any title when the schema line has no label).
        title: Match,
        /// Alias, cardinality, description.
        head: Head,
        /// Child nodes of this section.
        children: Vec<Node>,
    },
    /// A list: `-` bullet, `1.` ordered, or `- [ ]` checklist.
    List {
        /// Which document list styles this node matches.
        style: ListStyle,
        /// Optional label every item of the matched list must satisfy.
        item: Option<Match>,
        /// Alias, cardinality (bounds the item count), description.
        head: Head,
        /// A per-item child schema.
        children: Vec<Node>,
    },
    /// A `>` paragraph requirement. Prose nodes never have children.
    Prose {
        /// Optional pattern the paragraph text must match.
        text: Option<Match>,
        /// Alias, cardinality (presence only), description.
        head: Head,
    },
}

impl Clone for Node {
    fn clone(&self) -> (r: Self) {
        clone_node(self)
    }
}

/// `b` is a copy of the label `a`: the same literal, or a compiled regex with
/// the same source pattern.
pub open spec fn match_copy(a: Match, b: Match) -> bool {
    match a {
        Match::Literal(x) => b matches Match::Literal(y) && y@ == x@,
        Match::Regex(x) => b matches Match::Regex(y) && y@ == x@,
    }
}

/// `b` is a copy of the optional label `a` (see [`match_copy`]).
pub open spec fn opt_match_copy(a: Option<Match>, b: Option<Match>) -> bool {
    match a {
        Some(x) => b matches Some(y) && match_copy(x, y),
        None => b is None,
    }
}

/// `b` is a copy of the node `a`: the same kind, level, list style and head,
/// labels that are copies (see [`match_copy`]), and children that are copies
/// (see [`nodes_copy`]).
pub open spec fn node_copy(a: Node, b: Node) -> bool
    decreases a, 1nat,
{
    match a {
        Node::Heading { level, title, head, children } => match b {
            Node::Heading { level: l, title: t, head: h, children: c } => {
                &&& l == level
                &&& match_copy(title, t)
                &&& h == head
                &&& nodes_copy(children@, c@)
            },
            _ => false,
        },
        Node::List { style, item, head, children } => match b {
            Node::List { style: st, item: it, head: h, children: c } => {
                &&& st == style
                &&& opt_match_copy(item, it)
                &&& h == head
                &&& nodes_copy(children@, c@)
            },
            _ => false,
        },
        Node::Prose { text, head } => match b {
            Node::Prose { text: t, head: h } => opt_match_copy(text, t) && h == head,
            _ => false,
        },
    }
}

/// `b` is an element-wise copy of the nodes `a`: as many nodes, each a copy
/// (see [`node_copy`]) of the node at its place.
pub open spec fn nodes_copy(a: Seq<Node>, b: Seq<Node>) -> bool
    decreases a, 0nat,
{
    &&& b.len() == a.len()
    &&& a.len() > 0 ==> nodes_copy(a.drop_last(), b.drop_last()) && node_copy(a.last(), b.last())
}

fn clone_opt_string(o: &Option<String>) -> (r: Option<String>)
    ensures
        r == *o,
{
    match o {
        Some(s) => Some(s.clone()),
        None => None,
    }
}

fn clone_head(h: &Head) -> (r: Head)
    ensures
        r == *h,
{
    Head { name: clone_opt_string(&h.name), card: h.card, desc: clone_opt_string(&h.desc) }
}

fn clone_match(m: &Match) -> (r: Match)
    ensures
        match_copy(*m, r),
{
    match m {
        Match::Literal(s) => Match::Literal(s.clone()),
        Match::Regex(x) => Match::Regex(x.clone()),
    }
}

fn clone_opt_match(o: &Option<Match>) -> (r: Option<Match>)
    ensures
        opt_match_copy(*o, r),
{
    match o {
        Some(m) => Some(clone_match(m)),
        None => None,
    }
}

fn clone_nodes(v: &Vec<Node>) -> (r: Vec<Node>)
    ensures
        nodes_copy(v@, r@),
    decreases v,
{
    let mut out: Vec<Node> = Vec::new();
    let mut i: usize = 0;
    while i < v.len()
        invariant
            i <= v@.len(),
            nodes_copy(v@.take(i as int), out@),
        decreases v@.len() - i,
    {
        let ghost before = out@;
        out.push(clone_node(&v[i]));
        i = i + 1;
        assert(v@.take(i as int).drop_last() =~= v@.take(i - 1));
        assert(out@.drop_last() =~= before);
    }
    assert(v@.take(i as int) =~= v@);
    out
}

fn clone_node(n: &Node) -> (r: Node)
    ensures
        node_copy(*n, r),
    decreases n,
{
    match n {
        Node::Heading { level, title, head, children } => Node::Heading {
            level: *level,
            title: clone_match(title),
            head: clone_head(head),
            children: clone_nodes(children),
        },
        Node::List { style, item, head, children } => Node::List {
            style: *style,
            item: clone_opt_match(item),
            head: clone_head(head),
            children: clone_nodes(children),
        },
        Node::Prose { text, head } => Node::Prose { text: clone_opt_match(text), head: clone_head(head) },
    }
}

/// The shared annotation head of every node: alias, cardinality, description.
#[derive(Debug, Clone, PartialEq, Eq, Default)]
pub struct Head {
    /// Explicit `@name` capture alias. `None` on a literal-titled heading means
    /// the alias is the slug of the title; on any other node the node is not
    /// captured.
    pub name: Option<String>,
    /// Cardinality (bare = [`Card::Required`]).
    pub card: Card,
    /// The `<? … ?>` description.
    pub desc: Option<String>,
}

/// Which document lists a [`Node::List`] matches.
#[derive(Debug, Clone, Copy, PartialEq, Eq)]
pub enum ListStyle {
    /// An unordered list (schema marker `- `).
    Bullet,
    /// An ordered list (schema marker `1.`).
    Ordered,
    /// An unordered list where some item starts with a checkbox
    /// (schema marker `- [ ]`).
    Checklist,
}

/// A label: a literal the trimmed text must start with, or a regex the text
/// must match.
#[derive(Debug, Clone, PartialEq, Eq)]
pub enum Match {
    /// A case-sensitive prefix of the text (after its leading whitespace).
    Literal(String),
    /// A compiled regex, matched unanchored.
    Regex(Regexp),
}

/// Cardinality. On a list it bounds the item count; on a heading it counts
/// matching sibling sections; on prose it is presence only.
#[derive(Debug, Clone, Copy, PartialEq, Eq, Default)]
pub enum Card {
    /// Bare default: at least one.
    #[default]
    Required,
    /// `?`: at most one.
    Optional,
    /// `*`: any number.
    Star,
    /// `+`: at least one.
    Plus,
    /// `{m}`, `{m,}`, `{m,n}`: an inclusive count range (`None` = unbounded).
    Range(u32, Option<u32>),
}

/// Whether `count` satisfies the cardinality.
pub open spec fn card_allows(card: Card, count: nat) -> bool {
    match card {
        Card::Required | Card::Plus => count >= 1,
        Card::Optional => count <= 1,
        Card::Star => true,
        Card::Range(min, max) => count >= min && match max {
            Some(m) => count <= m,
            None => true,
        },
    }
}

/// Cardinality that yields an array of values (`+`, `*`, `{m,n}`).
pub open spec fn is_repeated(card: Card) -> bool {
    matches!(card, Card::Plus | Card::Star | Card::Range(..))
}

pub fn repeated(card: Card) -> (b: bool)
    ensures
        b == is_repeated(card),
{
    matches!(card, Card::Plus | Card::Star | Card::Range(..))
}

/// Cardinality that lets the node be absent (`?`, `*`, `{0,…}`).
pub open spec fn is_omittable(card: Card) -> bool {
    match card {
        Card::Optional | Card::Star => true,
        Card::Range(m, _) => m == 0,
        _ => false,
    }
}

pub fn omitted(card: Card) -> (b: bool)
    ensures
        b == is_omittable(card),
{
    match card {
        Card::Optional | Card::Star => true,
        Card::Range(m, _) => m == 0,
        _ => false,
    }
}

/// The auto-alias character for one title character.
pub open spec fn slug_char(c: char) -> char {
    if is_upper(c) {
        ((c as u32) + 32) as char
    } else if is_alnum(c) {
        c
    } else {
        '_'
    }
}

/// `s` without leading `c`s.
pub open spec fn trim_start_char(s: Seq<char>, c: char) -> Seq<char>
    decreases s.len(),
{
    if s.len() > 0 && s[0] == c {
        trim_start_char(s.drop_first(), c)
    } else {
        s
    }
}

/// `s` without trailing `c`s.
pub open spec fn trim_end_char(s: Seq<char>, c: char) -> Seq<char>
    decreases s.len(),
{
    if s.len() > 0 && s.last() == c {
        trim_end_char(s.drop_last(), c)
    } else {
        s
    }
}

/// The auto-derived alias of a literal heading title: ASCII-lowercased, every
/// other character replaced by `_` (runs not collapsed), `_` trimmed at both
/// ends.
pub open spec fn slug_spec(s: Seq<char>) -> Seq<char> {
    trim_end_char(trim_start_char(s.map_values(|c: char| slug_char(c)), '_'), '_')
}

proof fn lemma_trim_start_underscores(p: Seq<char>, t: Seq<char>)
    requires
        forall|i: int| 0 <= i < p.len() ==> p[i] == '_',
        t.len() > 0 ==> t[0] != '_',
    ensures
        trim_start_char(p + t, '_') == t,
    decreases p.len(),
{
    if p.len() == 0 {
        assert(p + t =~= t);
    } else {
        assert((p + t).drop_first() =~= p.drop_first() + t);
        lemma_trim_start_underscores(p.drop_first(), t);
    }
}

proof fn lemma_trim_end_underscores(t: Seq<char>, q: Seq<char>)
    requires
        forall|i: int| 0 <= i < q.len() ==> q[i] == '_',
        t.len() > 0 ==> t.last() != '_',
    ensures
        trim_end_char(t + q, '_') == t,
    decreases q.len(),
{
    if q.len() == 0 {
        assert(t + q =~= t);
    } else {
        assert((t + q).drop_last() =~= t + q.drop_last());
        lemma_trim_end_underscores(t, q.drop_last());
    }
}

/// A heading's auto alias: the characters before the title's first ASCII
/// letter or digit and after its last are dropped; between them, an
/// uppercase ASCII letter is lowercased, a lowercase letter or digit kept,
/// and every other character becomes `_`, one for one (runs are not
/// collapsed).
pub proof fn law_slug_keeps_the_core(p: Seq<char>, s: Seq<char>, q: Seq<char>)
    requires
        forall|i: int| 0 <= i < p.len() ==> !is_alnum(#[trigger] p[i]),
        forall|i: int| 0 <= i < q.len() ==> !is_alnum(#[trigger] q[i]),
        s.len() > 0 ==> is_alnum(s[0]) && is_alnum(s[s.len() - 1]),
    ensures
        slug_spec(p + s + q).len() == s.len(),
        forall|i: int| 0 <= i < s.len() ==> #[trigger] slug_spec(p + s + q)[i] == if 'A' <= s[i] && s[i] <= 'Z' {
            ((s[i] as u32) + 32) as char
        } else if ('a' <= s[i] && s[i] <= 'z') || ('0' <= s[i] && s[i] <= '9') {
            s[i]
        } else {
            '_'
        },
{
    let f = |c: char| slug_char(c);
    let mp = p.map_values(f);
    let ms = s.map_values(f);
    let mq = q.map_values(f);
    assert((p + s + q).map_values(f) =~= mp + ms + mq);
    assert forall|i: int| 0 <= i < mp.len() implies mp[i] == '_' by {
        assert(!is_alnum(p[i]));
    }
    assert forall|i: int| 0 <= i < mq.len() implies mq[i] == '_' by {
        assert(!is_alnum(q[i]));
    }
    if s.len() == 0 {
        assert(mp + ms + mq =~= (mp + mq) + Seq::<char>::empty());
        lemma_trim_start_underscores(mp + mq, Seq::empty());
        assert(trim_end_char(Seq::<char>::empty(), '_') =~= Seq::<char>::empty());
    } else {
        assert(ms[0] == slug_char(s[0]));
        assert(ms[ms.len() - 1] == slug_char(s[s.len() - 1]));
        assert(ms.last() == ms[ms.len() - 1]);
        assert((ms + mq)[0] == ms[0]);
        lemma_trim_start_underscores(mp, ms + mq);
        assert(mp + ms + mq =~= mp + (ms + mq));
        lemma_trim_end_underscores(ms, mq);
    }
}

/// Slug a heading title into its auto-derived alias (see [`slug_spec`]).
pub fn slug(s: &str) -> (r: String)
    ensures
        r@ == slug_spec(s@),
{
    let v = chars_of(s);
    let mut m: Vec<char> = Vec::new();
    let mut i: usize = 0;
    while i < v.len()
        invariant
            i <= v@.len(),
            m@ == v@.take(i as int).map_values(|c: char| slug_char(c)),
        decreases v@.len() - i,
    {
        let c = v[i];
        let d = if 'A' <= c && c <= 'Z' {
            char_from_u32_lower(c)
        } else if ('a' <= c && c <= 'z') || ('0' <= c && c <= '9') {
            c
        } else {
            '_'
        };
        m.push(d);
        i = i + 1;
        assert(m@ =~= v@.take(i as int).map_values(|c: char| slug_char(c)));
    }
    assert(v@.take(i as int) =~= v@);
    let mut a: usize = 0;
    assert(m@.skip(0) =~= m@);
    while a < m.len() && m[a] == '_'
        invariant
            a <= m@.len(),
            trim_start_char(m@.skip(a as int), '_') == trim_start_char(m@, '_'),
        decreases m@.len() - a,
    {
        assert(m@.skip(a as int).drop_first() =~= m@.skip(a + 1));
        a = a + 1;
    }
    let mut b: usize = m.len();
    while b > a && m[b - 1] == '_'
        invariant
            a <= b <= m@.len(),
            trim_end_char(m@.subrange(a as int, b as int), '_') == trim_end_char(
                m@.subrange(a as int, m@.len() as int),
                '_',
            ),
        decreases b - a,
    {
        assert(m@.subrange(a as int, b as int).drop_last() =~= m@.subrange(a as int, b - 1));
        b = b - 1;
    }
    assert(m@.skip(a as int) =~= m@.subrange(a as int, m@.len() as int));
    string_of(&m.as_slice()[a..b])
}

/// The ASCII lowercase of an uppercase ASCII letter.
fn char_from_u32_lower(c: char) -> (d: char)
    requires
        is_upper(c),
    ensures
        d == ((c as u32) + 32) as char,
{
    let b: u8 = ((c as u32) + 32) as u8;
    b as char
}

impl Node {
    /// This node's head (alias, cardinality, description).
    pub open spec fn head_of(self) -> Head {
        match self {
            Node::Heading { head, .. } => head,
            Node::List { head, .. } => head,
            Node::Prose { head, .. } => head,
        }
    }

    /// This node's children (prose has none).
    pub open spec fn children_of(self) -> Seq<Node> {
        match self {
            Node::Heading { children, .. } => children@,
            Node::List { children, .. } => children@,
            Node::Prose { .. } => Seq::empty(),
        }
    }

    /// The alias this node captures under, or `None` if it is not captured: an
    /// explicit `@name`; else the slug of a literal heading title.
    pub open spec fn alias(self) -> Option<Seq<char>> {
        match self {
            Node::Heading { head, title, .. } => match head.name {
                Some(n) => Some(n@),
                None => match title {
                    Match::Literal(t) => Some(slug_spec(t@)),
                    Match::Regex(_) => None,
                },
            },
            Node::List { head, .. } => match head.name {
                Some(n) => Some(n@),
                None => None,
            },
            Node::Prose { head, .. } => match head.name {
                Some(n) => Some(n@),
                None => None,
            },
        }
    }

    /// The breadcrumb label of this node in problem paths.
    pub open spec fn problem_alias_spec(self) -> Seq<char> {
        match self.alias() {
            Some(a) => a,
            None => seq!['b', 'l', 'o', 'c', 'k'],
        }
    }

    /// This node's cardinality.
    pub fn card(&self) -> (c: Card)
        ensures
            c == self.head_of().card,
    {
        match self {
            Node::Heading { head, .. } | Node::List { head, .. } | Node::Prose { head, .. } => {
                head.card
            },
        }
    }

    /// The alias this node captures under in extracted data (see [`Node::alias`]).
    pub fn capture_alias(&self) -> (r: Option<String>)
        ensures
            match r {
                Some(s) => self.alias() == Some(s@),
                None => self.alias() is None,
            },
    {
        match self {
            Node::Heading { head, title, .. } => match &head.name {
                Some(n) => Some(n.clone()),
                None => match title {
                    Match::Literal(t) => Some(slug(t.as_str())),
                    Match::Regex(_) => None,
                },
            },
            Node::List { head, .. } | Node::Prose { head, .. } => match &head.name {
                Some(n) => Some(n.clone()),
                None => None,
            },
        }
    }

    /// The breadcrumb label for this node in problem paths: its capture
    /// alias, or `block` for an uncaptured node.
    pub fn problem_alias(&self) -> (r: String)
        ensures
            r@ == self.problem_alias_spec(),
    {
        match self.capture_alias() {
            Some(a) => a,
            None => {
                let mut s = String::new();
                push_str(&mut s, "block");
                proof { reveal_strlit("block"); }
                assert(s@ =~= seq!['b', 'l', 'o', 'c', 'k']);
                s
            },
        }
    }
}

/// The marker family of a list node: `-` bullets and checklists share one,
/// ordered lists have their own; other nodes have none.
pub open spec fn list_group(n: Node) -> Option<u8> {
    match n {
        Node::List { style, .. } => match style {
            ListStyle::Ordered => Some(1u8),
            _ => Some(0u8),
        },
        _ => None,
    }
}

/// In the scope `ns`, and in each node's own child scope, no two nodes share a
/// capture alias; none in `ns` takes one of `taken`.
pub open spec fn aliases_ok(ns: Seq<Node>, taken: Seq<Seq<char>>) -> bool
    decreases ns,
{
    &&& forall|i: int| 0 <= i < ns.len() && (#[trigger] ns[i].alias()) is Some ==> !taken.contains(ns[i].alias()->0)
    &&& forall|i: int, j: int| 0 <= i < j < ns.len() && (#[trigger] ns[i].alias()) is Some ==> ns[i].alias() != #[trigger] ns[j].alias()
    &&& forall|k: int| 0 <= k < ns.len() ==> match #[trigger] ns[k] {
        Node::Heading { children, .. } => aliases_ok(children@, Seq::empty()),
        Node::List { children, .. } => aliases_ok(children@, Seq::empty()),
        Node::Prose { .. } => true,
    }
}

/// In the scope `ns`, and in each child scope, no two adjacent siblings are
/// lists of one marker family (a document would merge them into one list).
pub open spec fn lists_ok(ns: Seq<Node>) -> bool
    decreases ns,
{
    &&& forall|i: int| 0 <= i < ns.len() - 1 && (#[trigger] list_group(ns[i])) is Some ==> list_group(ns[i]) != list_group(ns[i + 1])
    &&& forall|k: int| 0 <= k < ns.len() ==> match #[trigger] ns[k] {
        Node::Heading { children, .. } => lists_ok(children@),
        Node::List { children, .. } => lists_ok(children@),
        Node::Prose { .. } => true,
    }
}

/// The level of a heading node; `None` for any other node.
pub open spec fn heading_level(n: Node) -> Option<u8> {
    match n {
        Node::Heading { level, .. } => Some(level),
        _ => None,
    }
}

/// In the scope `ns`, and in each child scope, a heading's child headings
/// have a greater level than it.
pub open spec fn levels_ok(ns: Seq<Node>) -> bool
    decreases ns,
{
    forall|k: int| 0 <= k < ns.len() ==> match #[trigger] ns[k] {
        Node::Heading { level, children, .. } => (forall|j: int| 0 <= j < children@.len() ==> match heading_level(#[trigger] children@[j]) {
            Some(l) => l > level,
            None => true,
        }) && levels_ok(children@),
        Node::List { children, .. } => levels_ok(children@),
        Node::Prose { .. } => true,
    }
}

/// The nodes `ns` nest at most `d` levels deep, their own level counted.
pub open spec fn nests_within(ns: Seq<Node>, d: nat) -> bool
    decreases ns,
{
    ns.len() > 0 ==> d > 0 && forall|k: int| 0 <= k < ns.len() ==> match #[trigger] ns[k] {
        Node::Heading { children, .. } => nests_within(children@, (d - 1) as nat),
        Node::List { children, .. } => nests_within(children@, (d - 1) as nat),
        Node::Prose { .. } => true,
    }
}

/// The frontmatter aliases of a schema.
pub open spec fn fm_aliases(s: Schema) -> Seq<Seq<char>> {
    s.frontmatter@.map_values(|f: FieldSchema| f.alias@)
}

/// What the parser establishes of every schema it returns: frontmatter
/// aliases are distinct; capture aliases are unique in each scope, and the
/// top-level ones differ from the frontmatter aliases (all share the
/// top-level object of extracted data); no two adjacent sibling lists share a
/// marker family; a heading's child headings are of a greater level; the body
/// nests at most 128 levels deep.
pub open spec fn schema_wf(s: Schema) -> bool {
    &&& forall|i: int, j: int| 0 <= i < j < fm_aliases(s).len() ==> #[trigger] fm_aliases(s)[i] != #[trigger] fm_aliases(s)[j]
    &&& aliases_ok(s.body@, fm_aliases(s))
    &&& lists_ok(s.body@)
    &&& levels_ok(s.body@)
    &&& nests_within(s.body@, 128)
}

} // verus!
