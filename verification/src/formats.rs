//! The data formats that extracted data is written in and rendered data is
//! read from: choosing one by a file's extension, the two codecs that are
//! this project's own (a typed XML dialect, written here, and dropping `null`
//! members, as TOML has no null), and reading and writing a value in each
//! format. JSON, YAML and TOML text themselves are the serde crates' business
//! (see [`serde_text`](crate::serde_text)).

use crate::doc::sat_add;
use crate::json::{Json, JsonV, json_is};
use crate::serde_text::{
    json_compact_text, json_pretty_text, json_text_value, parse_json_text, parse_toml_text, parse_yaml_text,
    toml_text_of, toml_text_value, write_json_compact, write_json_pretty, write_toml, write_yaml, yaml_text_of,
    yaml_text_value,
};
use crate::xml_reader::{parse_xml, xml_events, xml_value_spec};
use crate::text::{chars_of, eq_str, push_char, push_signed, push_str, signed_decimal};
use vstd::prelude::*;

verus! {

/// A data serialization format for `extract` output and `render` input.
#[derive(Clone, Copy, Debug, PartialEq, Eq)]
pub enum Format {
    Json,
    Yaml,
    Toml,
    Xml,
}

/// The extension of a path as `std::path::Path::extension` finds it.
pub uninterp spec fn path_extension(path: Seq<char>) -> Option<Seq<char>>;

/// `std::path::Path::extension` of `path`, as text. The extension of a
/// `&str` path is a piece of it, so it is always text.
#[verifier::external_body]
fn extension_of(path: &str) -> (r: Option<String>)
    ensures
        match r {
            Some(e) => path_extension(path@) == Some(e@),
            None => path_extension(path@) is None,
        },
{
    std::path::Path::new(path).extension().and_then(|e| e.to_str()).map(|e| e.to_string())
}

/// ASCII lowercase of one character (`char::to_ascii_lowercase`).
pub open spec fn ascii_lower(c: char) -> char {
    if 'A' <= c && c <= 'Z' {
        ((c as u32) + 32) as char
    } else {
        c
    }
}

fn lower_char(c: char) -> (d: char)
    ensures
        d == ascii_lower(c),
{
    if 'A' <= c && c <= 'Z' {
        let b: u8 = ((c as u32) + 32) as u8;
        b as char
    } else {
        c
    }
}

/// The format an extension names, compared ASCII-case-insensitively.
pub open spec fn ext_format(ext: Seq<char>) -> Option<Format> {
    let l = ext.map_values(|c: char| ascii_lower(c));
    if l == "json"@ {
        Some(Format::Json)
    } else if l == "yaml"@ || l == "yml"@ {
        Some(Format::Yaml)
    } else if l == "toml"@ {
        Some(Format::Toml)
    } else if l == "xml"@ {
        Some(Format::Xml)
    } else {
        None
    }
}

/// The format a file extension names (see [`ext_format`]).
pub fn format_of_extension(ext: &str) -> (r: Option<Format>)
    ensures
        r == ext_format(ext@),
{
    let v = chars_of(ext);
    let mut l: Vec<char> = Vec::new();
    let mut i: usize = 0;
    while i < v.len()
        invariant
            i <= v@.len(),
            v@ == ext@,
            l@ == v@.take(i as int).map_values(|c: char| ascii_lower(c)),
        decreases v@.len() - i,
    {
        l.push(lower_char(v[i]));
        i = i + 1;
        assert(l@ =~= v@.take(i as int).map_values(|c: char| ascii_lower(c)));
    }
    assert(v@.take(i as int) =~= v@);
    if eq_str(l.as_slice(), "json") {
        Some(Format::Json)
    } else if eq_str(l.as_slice(), "yaml") || eq_str(l.as_slice(), "yml") {
        Some(Format::Yaml)
    } else if eq_str(l.as_slice(), "toml") {
        Some(Format::Toml)
    } else if eq_str(l.as_slice(), "xml") {
        Some(Format::Xml)
    } else {
        None
    }
}

impl Format {
    /// Guesses a format from a path's extension, for `render` input.
    pub fn from_ext(path: &str) -> (r: Option<Format>)
        ensures
            r == match path_extension(path@) {
                Some(e) => ext_format(e),
                None => None,
            },
    {
        match extension_of(path) {
            Some(e) => format_of_extension(e.as_str()),
            None => None,
        }
    }
}

// ---- dropping nulls ------------------------------------------------------------------

/// A value with every `null`-valued object member dropped, at every depth.
pub open spec fn strip_nulls_spec(v: JsonV) -> JsonV
    decreases v, 1int,
{
    match v {
        JsonV::Object(kvs) => JsonV::Object(strip_entries(kvs, kvs.len() as int)),
        JsonV::Array(a) => JsonV::Array(strip_all(a, a.len() as int)),
        _ => v,
    }
}

/// The first `k` members without the `null` ones, the rest stripped.
pub open spec fn strip_entries(kvs: Seq<(Seq<char>, JsonV)>, k: int) -> Seq<(Seq<char>, JsonV)>
    decreases kvs, 0int, k,
{
    if k <= 0 || k > kvs.len() {
        Seq::empty()
    } else {
        let rest = strip_entries(kvs, k - 1);
        let (key, val) = kvs[k - 1];
        if val is Null {
            rest
        } else {
            rest.push((key, strip_nulls_spec(val)))
        }
    }
}

/// The first `k` elements, each stripped.
pub open spec fn strip_all(a: Seq<JsonV>, k: int) -> Seq<JsonV>
    decreases a, 0int, k,
{
    if k <= 0 || k > a.len() {
        Seq::empty()
    } else {
        strip_all(a, k - 1).push(strip_nulls_spec(a[k - 1]))
    }
}

/// Drops `null`-valued object members at every depth (TOML cannot write a
/// null; an absent optional field is left out instead).
pub fn strip_nulls(value: &Json) -> (r: Json)
    ensures
        forall|v: JsonV| #[trigger] json_is(*value, v) ==> json_is(r, strip_nulls_spec(v)),
    decreases value,
{
    match value {
        Json::Object(m) => {
            let out = strip_members(m);
            let r = Json::Object(out);
            assert forall|v: JsonV| #[trigger] json_is(*value, v) implies json_is(r, strip_nulls_spec(v)) by {
                if let JsonV::Object(kvs) = v {
                    assert(crate::json::entries_are(m@, kvs));
                }
            }
            r
        },
        Json::Array(a) => {
            let out = strip_list(a);
            let r = Json::Array(out);
            assert forall|v: JsonV| #[trigger] json_is(*value, v) implies json_is(r, strip_nulls_spec(v)) by {
                if let JsonV::Array(vs) = v {
                    assert(crate::json::jsons_are(a@, vs));
                }
            }
            r
        },
        _ => value.clone(),
    }
}

fn strip_members(m: &Vec<(String, Json)>) -> (out: Vec<(String, Json)>)
    ensures
        forall|kvs: Seq<(Seq<char>, JsonV)>| #[trigger] crate::json::entries_are(m@, kvs) ==>
            crate::json::entries_are(out@, strip_entries(kvs, kvs.len() as int)),
    decreases m,
{
    let mut out: Vec<(String, Json)> = Vec::new();
    let mut i: usize = 0;
    while i < m.len()
        invariant
            i <= m@.len(),
            forall|kvs: Seq<(Seq<char>, JsonV)>| #[trigger] crate::json::entries_are(m@, kvs) ==>
                crate::json::entries_are(out@, strip_entries(kvs, i as int)),
        decreases m@.len() - i,
    {
        let is_null = match &m[i].1 {
            Json::Null => true,
            _ => false,
        };
        let ghost before = out@;
        if !is_null {
            let s = strip_nulls(&m[i].1);
            out.push((m[i].0.clone(), s));
        }
        assert forall|kvs: Seq<(Seq<char>, JsonV)>| #[trigger] crate::json::entries_are(m@, kvs) implies
            crate::json::entries_are(out@, strip_entries(kvs, i + 1)) by {
            assert(m@[i as int].0@ == kvs[i as int].0 && json_is(m@[i as int].1, kvs[i as int].1));
            let prev = strip_entries(kvs, i as int);
            assert(crate::json::entries_are(before, prev));
            if !is_null {
                assert forall|k: int| 0 <= k < strip_entries(kvs, i + 1).len() implies
                    (#[trigger] out@[k]).0@ == strip_entries(kvs, i + 1)[k].0
                    && json_is(out@[k].1, strip_entries(kvs, i + 1)[k].1) by {
                    if k < prev.len() {
                        assert(out@[k] == before[k]);
                    }
                }
            }
        }
        i = i + 1;
    }
    out
}

fn strip_list(a: &Vec<Json>) -> (out: Vec<Json>)
    ensures
        forall|vs: Seq<JsonV>| #[trigger] crate::json::jsons_are(a@, vs) ==>
            crate::json::jsons_are(out@, strip_all(vs, vs.len() as int)),
    decreases a,
{
    let mut out: Vec<Json> = Vec::new();
    let mut i: usize = 0;
    while i < a.len()
        invariant
            i <= a@.len(),
            out@.len() == i,
            forall|vs: Seq<JsonV>| #[trigger] crate::json::jsons_are(a@, vs) ==>
                crate::json::jsons_are(out@, strip_all(vs, i as int)),
        decreases a@.len() - i,
    {
        let ghost before = out@;
        let s = strip_nulls(&a[i]);
        out.push(s);
        assert forall|vs: Seq<JsonV>| #[trigger] crate::json::jsons_are(a@, vs) implies
            crate::json::jsons_are(out@, strip_all(vs, i + 1)) by {
            assert(json_is(a@[i as int], vs[i as int]));
            assert(crate::json::jsons_are(before, strip_all(vs, i as int)));
            assert forall|k: int| 0 <= k < i + 1 implies json_is(#[trigger] out@[k], strip_all(vs, i + 1)[k]) by {
                if k < i {
                    assert(out@[k] == before[k]);
                }
            }
        }
        i = i + 1;
    }
    out
}

// ---- typed XML -------------------------------------------------------------------------
//
// Objects carry `type="object"`, arrays `type="array"` (children named
// `<item>`), scalars carry `type="bool"` or `type="number"` (strings are
// untyped), and null is a self-closing `type="null"` element.

/// One character as XML text: the markup characters as entities, the C0
/// controls other than tab, line feed and carriage return dropped (XML 1.0
/// cannot hold them, not even as references).
pub open spec fn xml_esc_char(c: char) -> Seq<char> {
    if c == '&' {
        "&amp;"@
    } else if c == '<' {
        "&lt;"@
    } else if c == '>' {
        "&gt;"@
    } else if c == '"' {
        "&quot;"@
    } else if (c as u32) < 0x20 && c != '\t' && c != '\n' && c != '\r' {
        Seq::empty()
    } else {
        seq![c]
    }
}

/// Text escaped for XML, character by character (see [`xml_esc_char`]).
pub open spec fn xml_escape_spec(s: Seq<char>) -> Seq<char>
    decreases s.len(),
{
    if s.len() == 0 {
        Seq::empty()
    } else {
        xml_escape_spec(s.drop_last()) + xml_esc_char(s.last())
    }
}

/// Escapes text for XML (see [`xml_escape_spec`]).
pub fn xml_escape(s: &str) -> (r: String)
    ensures
        r@ == xml_escape_spec(s@),
{
    let v = chars_of(s);
    let mut out = String::new();
    let mut i: usize = 0;
    while i < v.len()
        invariant
            i <= v@.len(),
            v@ == s@,
            out@ == xml_escape_spec(v@.take(i as int)),
        decreases v@.len() - i,
    {
        let c = v[i];
        assert(v@.take(i + 1).drop_last() =~= v@.take(i as int));
        if c == '&' {
            push_str(&mut out, "&amp;");
        } else if c == '<' {
            push_str(&mut out, "&lt;");
        } else if c == '>' {
            push_str(&mut out, "&gt;");
        } else if c == '"' {
            push_str(&mut out, "&quot;");
        } else if (c as u32) < 0x20 && c != '\t' && c != '\n' && c != '\r' {
            assert(out@ =~= out@ + Seq::<char>::empty());
        } else {
            push_char(&mut out, c);
        }
        i = i + 1;
    }
    assert(v@.take(i as int) =~= v@);
    out
}

/// Two spaces per level of depth.
pub open spec fn xml_pad(depth: usize) -> Seq<char>
    decreases depth,
{
    if depth == 0 {
        Seq::empty()
    } else {
        xml_pad((depth - 1) as usize) + "  "@
    }
}

fn push_pad(out: &mut String, depth: usize)
    ensures
        final(out)@ == old(out)@ + xml_pad(depth),
{
    let mut i: usize = 0;
    while i < depth
        invariant
            i <= depth,
            out@ == old(out)@ + xml_pad(i),
        decreases depth - i,
    {
        push_str(out, "  ");
        i = i + 1;
        assert(out@ =~= old(out)@ + xml_pad(i));
    }
}

/// One value as an element named `tag`, indented by `depth`; the children
/// of an array are `item` elements and those of an object are named by
/// their keys, one level deeper.
pub open spec fn xml_of(v: JsonV, tag: Seq<char>, depth: usize) -> Seq<char>
    decreases v, 1int,
{
    let pad = xml_pad(depth);
    match v {
        JsonV::Null => pad + "<"@ + tag + " type=\"null\"/>\n"@,
        JsonV::Bool(b) => pad + "<"@ + tag + " type=\"bool\">"@ + (if b { "true"@ } else { "false"@ }) + "</"@ + tag
            + ">\n"@,
        JsonV::Int(n) => pad + "<"@ + tag + " type=\"number\">"@ + signed_decimal(n as int) + "</"@ + tag + ">\n"@,
        JsonV::Num(s) => pad + "<"@ + tag + " type=\"number\">"@ + s + "</"@ + tag + ">\n"@,
        JsonV::Str(s) => pad + "<"@ + tag + ">"@ + xml_escape_spec(s) + "</"@ + tag + ">\n"@,
        JsonV::Array(a) => pad + "<"@ + tag + " type=\"array\">\n"@ + xml_items(a, a.len() as int, sat_add(depth as int, 1))
            + pad + "</"@ + tag + ">\n"@,
        JsonV::Object(kvs) => pad + "<"@ + tag + " type=\"object\">\n"@ + xml_members(
            kvs,
            kvs.len() as int,
            sat_add(depth as int, 1),
        ) + pad + "</"@ + tag + ">\n"@,
    }
}

/// The first `k` array elements as `item` elements.
pub open spec fn xml_items(a: Seq<JsonV>, k: int, depth: usize) -> Seq<char>
    decreases a, 0int, k,
{
    if k <= 0 || k > a.len() {
        Seq::empty()
    } else {
        xml_items(a, k - 1, depth) + xml_of(a[k - 1], "item"@, depth)
    }
}

/// The first `k` object members as elements named by their keys.
pub open spec fn xml_members(kvs: Seq<(Seq<char>, JsonV)>, k: int, depth: usize) -> Seq<char>
    decreases kvs, 0int, k,
{
    if k <= 0 || k > kvs.len() {
        Seq::empty()
    } else {
        xml_members(kvs, k - 1, depth) + xml_of(kvs[k - 1].1, kvs[k - 1].0, depth)
    }
}

/// The XML declaration line.
pub open spec fn xml_decl() -> Seq<char> {
    "<?xml version=\"1.0\" encoding=\"UTF-8\"?>\n"@
}

/// A whole document: the declaration and the value as the `marklens`
/// element.
pub open spec fn to_xml_spec(v: JsonV) -> Seq<char> {
    xml_decl() + xml_of(v, "marklens"@, 0)
}

/// Writes a value as a typed XML document (see [`to_xml_spec`]).
pub fn to_xml(value: &Json) -> (r: String)
    ensures
        forall|v: JsonV| #[trigger] json_is(*value, v) ==> r@ == to_xml_spec(v),
{
    let mut out = String::new();
    push_str(&mut out, "<?xml version=\"1.0\" encoding=\"UTF-8\"?>\n");
    write_xml(&mut out, "marklens", value, 0);
    out
}

fn write_xml(out: &mut String, tag: &str, value: &Json, depth: usize)
    ensures
        forall|v: JsonV| #[trigger] json_is(*value, v) ==> final(out)@ == old(out)@ + xml_of(v, tag@, depth),
    decreases value,
{
    match value {
        Json::Array(a) => {
            write_xml_array(out, tag, a, depth);
            assert forall|v: JsonV| #[trigger] json_is(*value, v) implies out@ == old(out)@ + xml_of(v, tag@, depth) by {
                if let JsonV::Array(vs) = v {
                    assert(crate::json::jsons_are(a@, vs));
                }
            }
        },
        Json::Object(m) => {
            write_xml_object(out, tag, m, depth);
            assert forall|v: JsonV| #[trigger] json_is(*value, v) implies out@ == old(out)@ + xml_of(v, tag@, depth) by {
                if let JsonV::Object(kvs) = v {
                    assert(crate::json::entries_are(m@, kvs));
                }
            }
        },
        _ => write_xml_scalar(out, tag, value, depth),
    }
}

fn write_xml_scalar(out: &mut String, tag: &str, value: &Json, depth: usize)
    requires
        !(*value is Array) && !(*value is Object),
    ensures
        forall|v: JsonV| #[trigger] json_is(*value, v) ==> final(out)@ == old(out)@ + xml_of(v, tag@, depth),
{
    push_pad(out, depth);
    push_str(out, "<");
    push_str(out, tag);
    match value {
        Json::Null => {
            push_str(out, " type=\"null\"/>\n");
        },
        Json::Bool(b) => {
            push_str(out, " type=\"bool\">");
            if *b {
                push_str(out, "true");
            } else {
                push_str(out, "false");
            }
            push_str(out, "</");
            push_str(out, tag);
            push_str(out, ">\n");
        },
        Json::Int(n) => {
            push_str(out, " type=\"number\">");
            push_signed(out, *n);
            push_str(out, "</");
            push_str(out, tag);
            push_str(out, ">\n");
        },
        Json::Num(s) => {
            push_str(out, " type=\"number\">");
            push_str(out, s.as_str());
            push_str(out, "</");
            push_str(out, tag);
            push_str(out, ">\n");
        },
        Json::Str(s) => {
            push_str(out, ">");
            let e = xml_escape(s.as_str());
            push_str(out, e.as_str());
            push_str(out, "</");
            push_str(out, tag);
            push_str(out, ">\n");
        },
        _ => {},
    }
    assert forall|v: JsonV| #[trigger] json_is(*value, v) implies out@ =~= old(out)@ + xml_of(v, tag@, depth) by {}
}

fn write_xml_array(out: &mut String, tag: &str, a: &Vec<Json>, depth: usize)
    ensures
        forall|vs: Seq<JsonV>| #[trigger] crate::json::jsons_are(a@, vs) ==>
            final(out)@ == old(out)@ + xml_of(JsonV::Array(vs), tag@, depth),
    decreases a,
{
    push_pad(out, depth);
    push_str(out, "<");
    push_str(out, tag);
    push_str(out, " type=\"array\">\n");
    let ghost head = out@;
    let d = depth.saturating_add(1);
    let mut i: usize = 0;
    while i < a.len()
        invariant
            i <= a@.len(),
            d == sat_add(depth as int, 1),
            forall|vs: Seq<JsonV>| #[trigger] crate::json::jsons_are(a@, vs) ==>
                out@ == head + xml_items(vs, i as int, d),
        decreases a@.len() - i,
    {
        write_xml(out, "item", &a[i], d);
        assert forall|vs: Seq<JsonV>| #[trigger] crate::json::jsons_are(a@, vs) implies
            out@ == head + xml_items(vs, i + 1, d) by {
            assert(json_is(a@[i as int], vs[i as int]));
            assert(out@ =~= head + xml_items(vs, i + 1, d));
        }
        i = i + 1;
    }
    push_pad(out, depth);
    push_str(out, "</");
    push_str(out, tag);
    push_str(out, ">\n");
    assert forall|vs: Seq<JsonV>| #[trigger] crate::json::jsons_are(a@, vs) implies
        out@ =~= old(out)@ + xml_of(JsonV::Array(vs), tag@, depth) by {}
}

fn write_xml_object(out: &mut String, tag: &str, m: &Vec<(String, Json)>, depth: usize)
    ensures
        forall|kvs: Seq<(Seq<char>, JsonV)>| #[trigger] crate::json::entries_are(m@, kvs) ==>
            final(out)@ == old(out)@ + xml_of(JsonV::Object(kvs), tag@, depth),
    decreases m,
{
    push_pad(out, depth);
    push_str(out, "<");
    push_str(out, tag);
    push_str(out, " type=\"object\">\n");
    let ghost head = out@;
    let d = depth.saturating_add(1);
    let mut i: usize = 0;
    while i < m.len()
        invariant
            i <= m@.len(),
            d == sat_add(depth as int, 1),
            forall|kvs: Seq<(Seq<char>, JsonV)>| #[trigger] crate::json::entries_are(m@, kvs) ==>
                out@ == head + xml_members(kvs, i as int, d),
        decreases m@.len() - i,
    {
        write_xml(out, m[i].0.as_str(), &m[i].1, d);
        assert forall|kvs: Seq<(Seq<char>, JsonV)>| #[trigger] crate::json::entries_are(m@, kvs) implies
            out@ == head + xml_members(kvs, i + 1, d) by {
            assert(m@[i as int].0@ == kvs[i as int].0 && json_is(m@[i as int].1, kvs[i as int].1));
            assert(out@ =~= head + xml_members(kvs, i + 1, d));
        }
        i = i + 1;
    }
    push_pad(out, depth);
    push_str(out, "</");
    push_str(out, tag);
    push_str(out, ">\n");
    assert forall|kvs: Seq<(Seq<char>, JsonV)>| #[trigger] crate::json::entries_are(m@, kvs) implies
        out@ =~= old(out)@ + xml_of(JsonV::Object(kvs), tag@, depth) by {}
}

// ---- reading and writing data text ----------------------------------------------------

/// The value a text in format `f` holds, or the error that refuses it: JSON,
/// YAML and TOML as the serde crates read them, XML as [`parse_xml`] reads
/// the typed dialect.
pub open spec fn data_value(f: Format, text: Seq<char>) -> Result<JsonV, Seq<char>> {
    match f {
        Format::Json => json_text_value(text),
        Format::Yaml => yaml_text_value(text),
        Format::Toml => toml_text_value(text),
        Format::Xml => xml_value_spec(xml_events(text)),
    }
}

/// A text with a line feed added at its end when it does not already end
/// with one.
pub open spec fn with_newline(t: Seq<char>) -> Seq<char> {
    if t.len() > 0 && t.last() == '\n' {
        t
    } else {
        t.push('\n')
    }
}

/// The text written for `v` in format `f` before its end is seen to: JSON
/// compact or pretty as `compact` asks, YAML, TOML of the value without its
/// `null` members (see [`strip_nulls_spec`]), or the typed XML; or the
/// error the writer gives.
pub open spec fn written_text(f: Format, v: JsonV, compact: bool) -> Result<Seq<char>, Seq<char>> {
    match f {
        Format::Json => if compact { json_compact_text(v) } else { json_pretty_text(v) },
        Format::Yaml => yaml_text_of(v),
        Format::Toml => toml_text_of(strip_nulls_spec(v)),
        Format::Xml => Ok(to_xml_spec(v)),
    }
}

/// The text that format `f` writes for `v`, always ending with a line feed,
/// or the writer's error.
pub open spec fn data_text(f: Format, v: JsonV, compact: bool) -> Result<Seq<char>, Seq<char>> {
    match written_text(f, v, compact) {
        Ok(t) => Ok(with_newline(t)),
        Err(e) => Err(e),
    }
}

impl Format {
    /// Parses a value from text in this format (see [`data_value`]); the
    /// error is the reader's message.
    pub fn parse(self, text: &str) -> (r: Result<Json, String>)
        ensures
            match data_value(self, text@) {
                Ok(v) => r matches Ok(j) && json_is(j, v),
                Err(e) => r matches Err(m) && m@ == e,
            },
    {
        match self {
            Format::Json => parse_json_text(text),
            Format::Yaml => parse_yaml_text(text),
            Format::Toml => parse_toml_text(text),
            Format::Xml => parse_xml(text),
        }
    }

    /// Serializes a value, always terminated by a line feed (see
    /// [`data_text`]); `compact` only affects JSON.
    pub fn dump(self, value: &Json, compact: bool) -> (r: Result<String, String>)
        ensures
            forall|v: JsonV| #[trigger] json_is(*value, v) ==> match data_text(self, v, compact) {
                Ok(t) => r matches Ok(s) && s@ == t,
                Err(e) => r matches Err(m) && m@ == e,
            },
    {
        let written = match self {
            Format::Json => if compact { write_json_compact(value) } else { write_json_pretty(value) },
            Format::Yaml => write_yaml(value),
            Format::Toml => write_toml(&strip_nulls(value)),
            Format::Xml => Ok(to_xml(value)),
        };
        match written {
            Ok(mut s) => {
                let cs = chars_of(s.as_str());
                let n = cs.len();
                if n == 0 || cs[n - 1] != '\n' {
                    push_char(&mut s, '\n');
                }
                Ok(s)
            },
            Err(e) => Err(e),
        }
    }
}

} // verus!
