//! Reading the typed XML dialect that [`to_xml`](crate::formats::to_xml)
//! writes. quick-xml's reader turns the text into events; the descent over
//! those events is this library's own: the `type` attribute makes an element
//! an object, an array, `null` or a typed scalar, and a scalar's value is its
//! character data with references resolved.

use crate::formats::xml_esc_char;
use crate::serde_text::{json_text_value, parse_json_text};
use crate::json::{lemma_insert_prefix, obj_insert, str_lt, Json, JsonV, json_is};
use crate::text::{chars_of, eq_str, push_str};
use quick_xml::events::{BytesRef, BytesStart, Event};
use vstd::prelude::*;

verus! {

/// One event of quick-xml's reader, as the descent reads it.
pub enum XmlEv {
    /// An element opens (`<name …>`): its name and the value of its `type`
    /// attribute (`None` when it has none, or none that reads).
    Start(String, Option<String>),
    /// A self-closing element (`<name …/>`): its name and `type` attribute.
    Empty(String, Option<String>),
    /// An element closes.
    End,
    /// Character data (text, or a CDATA section's contents), line ends
    /// normalized; or a character reference, as its character.
    Text(String),
    /// A named entity reference: the replacement text of a predefined entity
    /// (`&amp;`, `&lt;`, `&gt;`, `&quot;`, `&apos;`), `None` for any other.
    Ref(Option<String>),
    /// A character reference that names no character: the error it gives.
    BadRef(String),
    /// A comment, the XML declaration, a processing instruction or a doctype.
    Other,
    /// The reader stopped on malformed input: its error. Always the last
    /// event.
    Error(String),
}

pub enum XmlEvV {
    Start(Seq<char>, Option<Seq<char>>),
    Empty(Seq<char>, Option<Seq<char>>),
    End,
    Text(Seq<char>),
    Ref(Option<Seq<char>>),
    BadRef(Seq<char>),
    Other,
    Error(Seq<char>),
}

pub open spec fn opt_str_v(o: Option<String>) -> Option<Seq<char>> {
    match o {
        Some(s) => Some(s@),
        None => None,
    }
}

pub open spec fn xml_ev_v(e: XmlEv) -> XmlEvV {
    match e {
        XmlEv::Start(n, t) => XmlEvV::Start(n@, opt_str_v(t)),
        XmlEv::Empty(n, t) => XmlEvV::Empty(n@, opt_str_v(t)),
        XmlEv::End => XmlEvV::End,
        XmlEv::Text(s) => XmlEvV::Text(s@),
        XmlEv::Ref(r) => XmlEvV::Ref(opt_str_v(r)),
        XmlEv::BadRef(m) => XmlEvV::BadRef(m@),
        XmlEv::Other => XmlEvV::Other,
        XmlEv::Error(m) => XmlEvV::Error(m@),
    }
}

pub open spec fn xml_evs_v(es: Seq<XmlEv>) -> Seq<XmlEvV> {
    es.map_values(|e: XmlEv| xml_ev_v(e))
}

// ---- what quick-xml reports ------------------------------------------------------------

/// The events quick-xml's `Reader` (default configuration) reads from
/// `text`, up to its `Eof`; when it stops on an error, the error is the last
/// event.
pub uninterp spec fn xml_events(text: Seq<char>) -> Seq<XmlEvV>;

#[verifier::external_type_specification]
#[verifier::external_body]
pub struct ExXmlEvent<'a>(Event<'a>);

#[verifier::external_type_specification]
#[verifier::external_body]
pub struct ExBytesStart<'a>(BytesStart<'a>);

#[verifier::external_type_specification]
#[verifier::external_body]
pub struct ExBytesRef<'a>(BytesRef<'a>);

/// An element's name (`BytesStart::name`) and its `type` attribute
/// (`try_get_attribute`, value normalized by `normalized_value` for XML 1.0),
/// `None` where either reports an error or there is no such attribute.
#[verifier::external_body]
fn xml_tag(e: &BytesStart) -> (String, Option<String>) {
    let ty = e.try_get_attribute("type").ok().flatten();
    let ty = ty.and_then(|a| a.normalized_value(quick_xml::XmlVersion::Explicit1_0).ok());
    (e.name().as_ref().to_string(), ty.map(|c| c.into_owned()))
}

/// A general reference (`BytesRef`): a character reference resolved by
/// `resolve_char_ref` to its character (or its error); any other name to its
/// predefined entity's text (`escape::resolve_predefined_entity`).
#[verifier::external_body]
fn xml_ref(r: &BytesRef) -> XmlEv {
    match r.resolve_char_ref() {
        Ok(Some(c)) => XmlEv::Text(c.to_string()),
        Ok(None) => XmlEv::Ref(quick_xml::escape::resolve_predefined_entity(r.as_ref()).map(|s| s.to_string())),
        Err(e) => XmlEv::BadRef(e.to_string()),
    }
}

/// One quick-xml `Event`, one variant to one: tags through [`xml_tag`], text
/// and CDATA by `xml10_content`, references through [`xml_ref`]; comments,
/// declarations, processing instructions, doctypes (and `Eof`) are `Other`.
#[verifier::external_body]
fn xml_event(e: Event) -> XmlEv {
    match e {
        Event::Start(t) => {
            let (n, ty) = xml_tag(&t);
            XmlEv::Start(n, ty)
        },
        Event::Empty(t) => {
            let (n, ty) = xml_tag(&t);
            XmlEv::Empty(n, ty)
        },
        Event::End(_) => XmlEv::End,
        Event::Text(t) => XmlEv::Text(t.xml10_content().into_owned()),
        Event::CData(t) => XmlEv::Text(t.xml10_content().into_owned()),
        Event::GeneralRef(r) => xml_ref(&r),
        _ => XmlEv::Other,
    }
}

/// Reads `text` with `quick_xml::Reader::from_str` and `read_event` until
/// `Eof`, converting each event with [`xml_event`]; a reader error ends the
/// events as an [`XmlEv::Error`]. The reader depends on `text` alone, so the
/// result is named [`xml_events`] of it.
#[verifier::external_body]
fn read_xml_events(text: &str) -> (r: Vec<XmlEv>)
    ensures
        xml_evs_v(r@) == xml_events(text@),
{
    let mut reader = quick_xml::Reader::from_str(text);
    let mut out = Vec::new();
    loop {
        match reader.read_event() {
            Ok(Event::Eof) => return out,
            Ok(e) => out.push(xml_event(e)),
            Err(e) => {
                out.push(XmlEv::Error(e.to_string()));
                return out;
            },
        }
    }
}

// ---- the descent -----------------------------------------------------------------------

/// An element's type: its `type` attribute, `string` when it has none.
pub open spec fn xml_type(t: Option<Seq<char>>) -> Seq<char> {
    match t {
        Some(s) => s,
        None => "string"@,
    }
}

/// The value of a self-closing element of type `ty`.
pub open spec fn empty_value(ty: Seq<char>) -> JsonV {
    if ty == "null"@ {
        JsonV::Null
    } else if ty == "bool"@ {
        JsonV::Bool(false)
    } else if ty == "number"@ {
        JsonV::Int(0)
    } else {
        JsonV::Str(Seq::empty())
    }
}

/// The value of a scalar element of type `ty` with character data `text`:
/// a `bool` is `true` exactly on the text `true`; a `number` is what
/// serde_json reads from the text, or the text as a string when it reads
/// nothing; any other type is a string.
pub open spec fn scalar_value(ty: Seq<char>, text: Seq<char>) -> JsonV {
    if ty == "bool"@ {
        JsonV::Bool(text == "true"@)
    } else if ty == "number"@ {
        match json_text_value(text) {
            Ok(v) => v,
            Err(_) => JsonV::Str(text),
        }
    } else {
        JsonV::Str(text)
    }
}

/// The character data of a scalar element from event `i` up to the next end
/// tag (other tags in between are passed over), references resolved (an
/// unknown entity adds nothing); and the index after that end tag (or the
/// end of the events).
pub open spec fn read_text(ev: Seq<XmlEvV>, i: int) -> Result<(Seq<char>, int), Seq<char>>
    decreases ev.len() - i,
{
    if i < 0 || i >= ev.len() {
        Ok((Seq::empty(), i))
    } else {
        match ev[i] {
            XmlEvV::End => Ok((Seq::empty(), i + 1)),
            XmlEvV::Error(m) => Err(m),
            XmlEvV::BadRef(m) => Err(m),
            XmlEvV::Text(s) => match read_text(ev, i + 1) {
                Ok((t, j)) => Ok((s + t, j)),
                Err(e) => Err(e),
            },
            XmlEvV::Ref(Some(s)) => match read_text(ev, i + 1) {
                Ok((t, j)) => Ok((s + t, j)),
                Err(e) => Err(e),
            },
            _ => read_text(ev, i + 1),
        }
    }
}

/// The index after the next end tag from `i` (or the end of the events).
pub open spec fn read_skip(ev: Seq<XmlEvV>, i: int) -> Result<int, Seq<char>>
    decreases ev.len() - i,
{
    if i < 0 || i >= ev.len() {
        Ok(i)
    } else {
        match ev[i] {
            XmlEvV::End => Ok(i + 1),
            XmlEvV::Error(m) => Err(m),
            _ => read_skip(ev, i + 1),
        }
    }
}

/// The value of an element of type `ty` whose contents start at event `i`,
/// and the index after its end tag.
pub open spec fn read_elem(ev: Seq<XmlEvV>, i: int, ty: Seq<char>) -> Result<(JsonV, int), Seq<char>>
    decreases ev.len() - i, 1int,
{
    if ty == "object"@ {
        match read_members(ev, i, Seq::empty()) {
            Ok((kvs, j)) => Ok((JsonV::Object(kvs), j)),
            Err(e) => Err(e),
        }
    } else if ty == "array"@ {
        match read_items(ev, i, Seq::empty()) {
            Ok((vs, j)) => Ok((JsonV::Array(vs), j)),
            Err(e) => Err(e),
        }
    } else if ty == "null"@ {
        match read_skip(ev, i) {
            Ok(j) => Ok((JsonV::Null, j)),
            Err(e) => Err(e),
        }
    } else {
        match read_text(ev, i) {
            Ok((t, j)) => Ok((scalar_value(ty, t), j)),
            Err(e) => Err(e),
        }
    }
}

/// The members of an object element from event `i` on, inserted into `acc`
/// in order (a repeated name keeps its last value), each child element named
/// by its tag; other events are passed over.
pub open spec fn read_members(ev: Seq<XmlEvV>, i: int, acc: Seq<(Seq<char>, JsonV)>) -> Result<(Seq<(Seq<char>, JsonV)>, int), Seq<char>>
    decreases ev.len() - i, 0int,
{
    if i < 0 || i >= ev.len() {
        Ok((acc, i))
    } else {
        match ev[i] {
            XmlEvV::Start(n, t) => match read_elem(ev, i + 1, xml_type(t)) {
                Err(e) => Err(e),
                Ok((v, j)) => if j <= i || j > ev.len() {
                    Ok((acc, i))
                } else {
                    read_members(ev, j, obj_insert(acc, n, v))
                },
            },
            XmlEvV::Empty(n, t) => read_members(ev, i + 1, obj_insert(acc, n, empty_value(xml_type(t)))),
            XmlEvV::End => Ok((acc, i + 1)),
            XmlEvV::Error(m) => Err(m),
            _ => read_members(ev, i + 1, acc),
        }
    }
}

/// The elements of an array element from event `i` on, after `acc`; other
/// events are passed over.
pub open spec fn read_items(ev: Seq<XmlEvV>, i: int, acc: Seq<JsonV>) -> Result<(Seq<JsonV>, int), Seq<char>>
    decreases ev.len() - i, 0int,
{
    if i < 0 || i >= ev.len() {
        Ok((acc, i))
    } else {
        match ev[i] {
            XmlEvV::Start(_, t) => match read_elem(ev, i + 1, xml_type(t)) {
                Err(e) => Err(e),
                Ok((v, j)) => if j <= i || j > ev.len() {
                    Ok((acc, i))
                } else {
                    read_items(ev, j, acc.push(v))
                },
            },
            XmlEvV::Empty(_, t) => read_items(ev, i + 1, acc.push(empty_value(xml_type(t)))),
            XmlEvV::End => Ok((acc, i + 1)),
            XmlEvV::Error(m) => Err(m),
            _ => read_items(ev, i + 1, acc),
        }
    }
}

/// The value of the document from event `i`: its first element (events
/// before it are passed over).
pub open spec fn read_root(ev: Seq<XmlEvV>, i: int) -> Result<JsonV, Seq<char>>
    decreases ev.len() - i,
{
    if i < 0 || i >= ev.len() {
        Err("empty XML document"@)
    } else {
        match ev[i] {
            XmlEvV::Start(_, t) => match read_elem(ev, i + 1, xml_type(t)) {
                Ok((v, _)) => Ok(v),
                Err(e) => Err(e),
            },
            XmlEvV::Empty(_, t) => Ok(empty_value(xml_type(t))),
            XmlEvV::Error(m) => Err(m),
            _ => read_root(ev, i + 1),
        }
    }
}

/// The value a typed XML document's events give, or the error that stops
/// the reading. Events after the root element ends are not read.
pub open spec fn xml_value_spec(ev: Seq<XmlEvV>) -> Result<JsonV, Seq<char>> {
    read_root(ev, 0)
}


proof fn lemma_text_range(ev: Seq<XmlEvV>, i: int)
    requires
        0 <= i <= ev.len(),
    ensures
        read_text(ev, i) matches Ok((_, j)) ==> i <= j <= ev.len(),
    decreases ev.len() - i,
{
    if i < ev.len() {
        lemma_text_range(ev, i + 1);
    }
}

proof fn lemma_skip_range(ev: Seq<XmlEvV>, i: int)
    requires
        0 <= i <= ev.len(),
    ensures
        read_skip(ev, i) matches Ok(j) ==> i <= j <= ev.len(),
    decreases ev.len() - i,
{
    if i < ev.len() {
        lemma_skip_range(ev, i + 1);
    }
}

proof fn lemma_elem_range(ev: Seq<XmlEvV>, i: int, ty: Seq<char>)
    requires
        0 <= i <= ev.len(),
    ensures
        read_elem(ev, i, ty) matches Ok((_, j)) ==> i <= j <= ev.len(),
    decreases ev.len() - i, 1int,
{
    if ty == "object"@ {
        lemma_members_range(ev, i, Seq::empty());
    } else if ty == "array"@ {
        lemma_items_range(ev, i, Seq::empty());
    } else if ty == "null"@ {
        lemma_skip_range(ev, i);
    } else {
        lemma_text_range(ev, i);
    }
}

proof fn lemma_members_range(ev: Seq<XmlEvV>, i: int, acc: Seq<(Seq<char>, JsonV)>)
    requires
        0 <= i <= ev.len(),
    ensures
        read_members(ev, i, acc) matches Ok((_, j)) ==> i <= j <= ev.len(),
    decreases ev.len() - i, 0int,
{
    if i < ev.len() {
        match ev[i] {
            XmlEvV::Start(n, t) => {
                lemma_elem_range(ev, i + 1, xml_type(t));
                if let Ok((v, j)) = read_elem(ev, i + 1, xml_type(t)) {
                    lemma_members_range(ev, j, obj_insert(acc, n, v));
                }
            },
            XmlEvV::Empty(n, t) => lemma_members_range(ev, i + 1, obj_insert(acc, n, empty_value(xml_type(t)))),
            XmlEvV::End => {},
            XmlEvV::Error(_) => {},
            _ => lemma_members_range(ev, i + 1, acc),
        }
    }
}

proof fn lemma_items_range(ev: Seq<XmlEvV>, i: int, acc: Seq<JsonV>)
    requires
        0 <= i <= ev.len(),
    ensures
        read_items(ev, i, acc) matches Ok((_, j)) ==> i <= j <= ev.len(),
    decreases ev.len() - i, 0int,
{
    if i < ev.len() {
        match ev[i] {
            XmlEvV::Start(_, t) => {
                lemma_elem_range(ev, i + 1, xml_type(t));
                if let Ok((v, j)) = read_elem(ev, i + 1, xml_type(t)) {
                    lemma_items_range(ev, j, acc.push(v));
                }
            },
            XmlEvV::Empty(_, t) => lemma_items_range(ev, i + 1, acc.push(empty_value(xml_type(t)))),
            XmlEvV::End => {},
            XmlEvV::Error(_) => {},
            _ => lemma_items_range(ev, i + 1, acc),
        }
    }
}

fn type_of(t: &Option<String>) -> (r: Vec<char>)
    ensures
        r@ == xml_type(opt_str_v(*t)),
{
    match t {
        Some(s) => chars_of(s.as_str()),
        None => chars_of("string"),
    }
}

fn empty_json(ty: &[char]) -> (r: Json)
    ensures
        json_is(r, empty_value(ty@)),
{
    if eq_str(ty, "null") {
        Json::Null
    } else if eq_str(ty, "bool") {
        Json::Bool(false)
    } else if eq_str(ty, "number") {
        Json::Int(0)
    } else {
        Json::Str(String::new())
    }
}

fn scalar_json(ty: &[char], text: String) -> (r: Json)
    ensures
        json_is(r, scalar_value(ty@, text@)),
{
    if eq_str(ty, "bool") {
        let tv = chars_of(text.as_str());
        Json::Bool(eq_str(tv.as_slice(), "true"))
    } else if eq_str(ty, "number") {
        match parse_json_text(text.as_str()) {
            Ok(j) => j,
            Err(_) => Json::Str(text),
        }
    } else {
        Json::Str(text)
    }
}

fn text_of(evs: &Vec<XmlEv>, i: usize) -> (r: Result<(String, usize), String>)
    requires
        i <= evs@.len(),
    ensures
        match read_text(xml_evs_v(evs@), i as int) {
            Ok((t, j)) => r matches Ok((s, k)) && s@ == t && k == j,
            Err(e) => r matches Err(m) && m@ == e,
        },
{
    let ghost ev = xml_evs_v(evs@);
    let mut acc = String::new();
    let mut k = i;
    loop
        invariant
            i <= k <= evs@.len(),
            ev == xml_evs_v(evs@),
            read_text(ev, i as int) == match read_text(ev, k as int) {
                Ok((t, j)) => Ok((acc@ + t, j)),
                Err(e) => Err(e),
            },
        decreases evs@.len() - k,
    {
        if k >= evs.len() {
            assert(acc@ + Seq::<char>::empty() =~= acc@);
            return Ok((acc, k));
        }
        assert(ev[k as int] == xml_ev_v(evs@[k as int]));
        match &evs[k] {
            XmlEv::End => {
                assert(acc@ + Seq::<char>::empty() =~= acc@);
                return Ok((acc, k + 1));
            },
            XmlEv::Error(m) => return Err(m.clone()),
            XmlEv::BadRef(m) => return Err(m.clone()),
            XmlEv::Text(s) => {
                let ghost a0 = acc@;
                push_str(&mut acc, s.as_str());
                proof {
                    if let Ok((t, j)) = read_text(ev, k + 1) {
                        assert(a0 + (s@ + t) =~= acc@ + t);
                    }
                }
            },
            XmlEv::Ref(Some(s)) => {
                let ghost a0 = acc@;
                push_str(&mut acc, s.as_str());
                proof {
                    if let Ok((t, j)) = read_text(ev, k + 1) {
                        assert(a0 + (s@ + t) =~= acc@ + t);
                    }
                }
            },
            _ => {},
        }
        k = k + 1;
    }
}

fn skip_to_end(evs: &Vec<XmlEv>, i: usize) -> (r: Result<usize, String>)
    requires
        i <= evs@.len(),
    ensures
        match read_skip(xml_evs_v(evs@), i as int) {
            Ok(j) => r matches Ok(k) && k == j,
            Err(e) => r matches Err(m) && m@ == e,
        },
{
    let ghost ev = xml_evs_v(evs@);
    let mut k = i;
    while k < evs.len()
        invariant
            i <= k <= evs@.len(),
            ev == xml_evs_v(evs@),
            read_skip(ev, i as int) == read_skip(ev, k as int),
        decreases evs@.len() - k,
    {
        assert(ev[k as int] == xml_ev_v(evs@[k as int]));
        match &evs[k] {
            XmlEv::End => return Ok(k + 1),
            XmlEv::Error(m) => return Err(m.clone()),
            _ => {},
        }
        k = k + 1;
    }
    Ok(k)
}

fn elem_json(evs: &Vec<XmlEv>, i: usize, ty: &[char]) -> (r: Result<(Json, usize), String>)
    requires
        i <= evs@.len(),
    ensures
        match read_elem(xml_evs_v(evs@), i as int, ty@) {
            Ok((v, j)) => r matches Ok((x, k)) && json_is(x, v) && k == j,
            Err(e) => r matches Err(m) && m@ == e,
        },
    decreases evs@.len() - i, 1int,
{
    if eq_str(ty, "object") {
        members_json(evs, i)
    } else if eq_str(ty, "array") {
        items_json(evs, i)
    } else if eq_str(ty, "null") {
        match skip_to_end(evs, i) {
            Ok(j) => Ok((Json::Null, j)),
            Err(e) => Err(e),
        }
    } else {
        match text_of(evs, i) {
            Ok((t, j)) => Ok((scalar_json(ty, t), j)),
            Err(e) => Err(e),
        }
    }
}

fn members_json(evs: &Vec<XmlEv>, i: usize) -> (r: Result<(Json, usize), String>)
    requires
        i <= evs@.len(),
    ensures
        match read_members(xml_evs_v(evs@), i as int, Seq::empty()) {
            Ok((kvs, j)) => r matches Ok((x, k)) && json_is(x, JsonV::Object(kvs)) && k == j,
            Err(e) => r matches Err(m) && m@ == e,
        },
    decreases evs@.len() - i, 0int,
{
    let ghost ev = xml_evs_v(evs@);
    let mut obj = Json::object();
    let ghost mut acc: Seq<(Seq<char>, JsonV)> = Seq::empty();
    let mut k = i;
    loop
        invariant
            i <= k <= evs@.len(),
            ev == xml_evs_v(evs@),
            json_is(obj, JsonV::Object(acc)),
            read_members(ev, i as int, Seq::empty()) == read_members(ev, k as int, acc),
        decreases evs@.len() - k,
    {
        if k >= evs.len() {
            return Ok((obj, k));
        }
        assert(ev[k as int] == xml_ev_v(evs@[k as int]));
        match &evs[k] {
            XmlEv::Start(n, t) => {
                let ty = type_of(t);
                proof { lemma_elem_range(ev, k + 1, ty@); }
                match elem_json(evs, k + 1, ty.as_slice()) {
                    Err(e) => return Err(e),
                    Ok((v, j)) => {
                        let ghost vv = read_elem(ev, k + 1, ty@)->Ok_0.0;
                        let ghost a0 = acc;
                        obj.insert(n.clone(), v);
                        proof {
                            acc = obj_insert(a0, n@, vv);
                            assert(json_is(obj, JsonV::Object(obj_insert(a0, n@, vv))));
                        }
                        k = j;
                    },
                }
            },
            XmlEv::Empty(n, t) => {
                let ty = type_of(t);
                let v = empty_json(ty.as_slice());
                let ghost vv = empty_value(ty@);
                let ghost a0 = acc;
                obj.insert(n.clone(), v);
                proof {
                    acc = obj_insert(a0, n@, vv);
                    assert(json_is(obj, JsonV::Object(obj_insert(a0, n@, vv))));
                }
                k = k + 1;
            },
            XmlEv::End => return Ok((obj, k + 1)),
            XmlEv::Error(m) => return Err(m.clone()),
            _ => {
                k = k + 1;
            },
        }
    }
}

fn items_json(evs: &Vec<XmlEv>, i: usize) -> (r: Result<(Json, usize), String>)
    requires
        i <= evs@.len(),
    ensures
        match read_items(xml_evs_v(evs@), i as int, Seq::empty()) {
            Ok((vs, j)) => r matches Ok((x, k)) && json_is(x, JsonV::Array(vs)) && k == j,
            Err(e) => r matches Err(m) && m@ == e,
        },
    decreases evs@.len() - i, 0int,
{
    let ghost ev = xml_evs_v(evs@);
    let mut out: Vec<Json> = Vec::new();
    let ghost mut acc: Seq<JsonV> = Seq::empty();
    let mut k = i;
    loop
        invariant
            i <= k <= evs@.len(),
            ev == xml_evs_v(evs@),
            out@.len() == acc.len(),
            forall|q: int| 0 <= q < acc.len() ==> json_is(#[trigger] out@[q], acc[q]),
            read_items(ev, i as int, Seq::empty()) == read_items(ev, k as int, acc),
        decreases evs@.len() - k,
    {
        if k >= evs.len() {
            return Ok((Json::Array(out), k));
        }
        assert(ev[k as int] == xml_ev_v(evs@[k as int]));
        match &evs[k] {
            XmlEv::Start(_, t) => {
                let ty = type_of(t);
                proof { lemma_elem_range(ev, k + 1, ty@); }
                match elem_json(evs, k + 1, ty.as_slice()) {
                    Err(e) => return Err(e),
                    Ok((v, j)) => {
                        let ghost vv = read_elem(ev, k + 1, ty@)->Ok_0.0;
                        out.push(v);
                        proof { acc = acc.push(vv); }
                        k = j;
                    },
                }
            },
            XmlEv::Empty(_, t) => {
                let ty = type_of(t);
                let v = empty_json(ty.as_slice());
                out.push(v);
                proof { acc = acc.push(empty_value(ty@)); }
                k = k + 1;
            },
            XmlEv::End => return Ok((Json::Array(out), k + 1)),
            XmlEv::Error(m) => return Err(m.clone()),
            _ => {
                k = k + 1;
            },
        }
    }
}

/// The value that the events of a typed XML document give (see
/// [`xml_value_spec`]), or the error that stops the reading.
pub fn value_of_xml_events(evs: &Vec<XmlEv>) -> (r: Result<Json, String>)
    ensures
        match xml_value_spec(xml_evs_v(evs@)) {
            Ok(v) => r matches Ok(x) && json_is(x, v),
            Err(e) => r matches Err(m) && m@ == e,
        },
{
    let ghost ev = xml_evs_v(evs@);
    let mut k: usize = 0;
    while k < evs.len()
        invariant
            k <= evs@.len(),
            ev == xml_evs_v(evs@),
            read_root(ev, 0) == read_root(ev, k as int),
        decreases evs@.len() - k,
    {
        assert(ev[k as int] == xml_ev_v(evs@[k as int]));
        match &evs[k] {
            XmlEv::Start(_, t) => {
                let ty = type_of(t);
                return match elem_json(evs, k + 1, ty.as_slice()) {
                    Ok((v, _)) => Ok(v),
                    Err(e) => Err(e),
                };
            },
            XmlEv::Empty(_, t) => {
                let ty = type_of(t);
                return Ok(empty_json(ty.as_slice()));
            },
            XmlEv::Error(m) => return Err(m.clone()),
            _ => {},
        }
        k = k + 1;
    }
    let mut m = String::new();
    push_str(&mut m, "empty XML document");
    Err(m)
}

/// Reads a typed XML document (as [`to_xml`](crate::formats::to_xml)
/// writes): the value its quick-xml events give (see [`xml_value_spec`]),
/// or the error that stops the reading.
pub fn parse_xml(text: &str) -> (r: Result<Json, String>)
    ensures
        match xml_value_spec(xml_events(text@)) {
            Ok(v) => r matches Ok(x) && json_is(x, v),
            Err(e) => r matches Err(m) && m@ == e,
        },
{
    let evs = read_xml_events(text);
    value_of_xml_events(&evs)
}

// ---- reading back what the writer writes -------------------------------------------------

/// A value whose typed XML reads back as it: no numbers (a number's text is
/// read back through serde_json), no text with a control character that the
/// writer drops, and object keys strictly increasing (as the library's
/// objects keep them), at every depth.
pub open spec fn xml_faithful(v: JsonV) -> bool
    decreases v,
{
    match v {
        JsonV::Int(_) => false,
        JsonV::Num(_) => false,
        JsonV::Str(s) => forall|q: int| 0 <= q < s.len() ==> (#[trigger] xml_esc_char(s[q])).len() > 0,
        JsonV::Array(a) => forall|q: int| 0 <= q < a.len() ==> xml_faithful(#[trigger] a[q]),
        JsonV::Object(kvs) => (forall|p: int, q: int| 0 <= p < q < kvs.len() ==> str_lt(#[trigger] kvs[p].0, #[trigger] kvs[q].0))
            && forall|q: int| 0 <= q < kvs.len() ==> xml_faithful(#[trigger] kvs[q].1),
        _ => true,
    }
}

/// The element events of `v` written as the element `tag` (see
/// [`xml_of`](crate::formats::xml_of)): its tags with their `type`
/// attributes, and its character data as the one text it stands for. The
/// writer's indentation between elements, which the reading passes over, is
/// left out.
pub open spec fn written_events(v: JsonV, tag: Seq<char>) -> Seq<XmlEvV>
    decreases v, 1int,
{
    match v {
        JsonV::Null => seq![XmlEvV::Empty(tag, Some("null"@))],
        JsonV::Bool(b) => seq![XmlEvV::Start(tag, Some("bool"@)), XmlEvV::Text(if b { "true"@ } else { "false"@ }), XmlEvV::End],
        JsonV::Int(n) => seq![XmlEvV::Start(tag, Some("number"@)), XmlEvV::Text(crate::text::signed_decimal(n as int)), XmlEvV::End],
        JsonV::Num(s) => seq![XmlEvV::Start(tag, Some("number"@)), XmlEvV::Text(s), XmlEvV::End],
        JsonV::Str(s) => seq![XmlEvV::Start(tag, None), XmlEvV::Text(s), XmlEvV::End],
        JsonV::Array(a) => seq![XmlEvV::Start(tag, Some("array"@))] + written_items(a, 0) + seq![XmlEvV::End],
        JsonV::Object(kvs) => seq![XmlEvV::Start(tag, Some("object"@))] + written_members(kvs, 0) + seq![XmlEvV::End],
    }
}

/// The `type` attribute the writer gives a value's element.
pub open spec fn written_type(v: JsonV) -> Option<Seq<char>> {
    match v {
        JsonV::Null => Some("null"@),
        JsonV::Bool(_) => Some("bool"@),
        JsonV::Int(_) => Some("number"@),
        JsonV::Num(_) => Some("number"@),
        JsonV::Str(_) => None,
        JsonV::Array(_) => Some("array"@),
        JsonV::Object(_) => Some("object"@),
    }
}

/// The elements from the `j`-th of an array, each an `item` element.
pub open spec fn written_items(a: Seq<JsonV>, j: int) -> Seq<XmlEvV>
    decreases a, 0int, a.len() - j,
{
    if j < 0 || j >= a.len() {
        Seq::empty()
    } else {
        written_events(a[j], "item"@) + written_items(a, j + 1)
    }
}

/// The members from the `j`-th of an object, each an element named by its
/// key.
pub open spec fn written_members(kvs: Seq<(Seq<char>, JsonV)>, j: int) -> Seq<XmlEvV>
    decreases kvs, 0int, kvs.len() - j,
{
    if j < 0 || j >= kvs.len() {
        Seq::empty()
    } else {
        written_events(kvs[j].1, kvs[j].0) + written_members(kvs, j + 1)
    }
}

/// `w` stands in `ev` from index `i` on.
pub open spec fn events_at(ev: Seq<XmlEvV>, i: int, w: Seq<XmlEvV>) -> bool {
    &&& 0 <= i
    &&& i + w.len() <= ev.len()
    &&& forall|q: int| 0 <= q < w.len() ==> ev[i + q] == #[trigger] w[q]
}

proof fn lemma_events_at_split(ev: Seq<XmlEvV>, i: int, a: Seq<XmlEvV>, b: Seq<XmlEvV>)
    requires
        events_at(ev, i, a + b),
    ensures
        events_at(ev, i, a),
        events_at(ev, i + a.len(), b),
{
    assert forall|q: int| 0 <= q < a.len() implies ev[i + q] == #[trigger] a[q] by {
        assert((a + b)[q] == a[q]);
    }
    assert forall|q: int| 0 <= q < b.len() implies ev[i + a.len() + q] == #[trigger] b[q] by {
        assert((a + b)[a.len() + q] == b[q]);
    }
}

proof fn lemma_str_lt_asym(a: Seq<char>, b: Seq<char>)
    requires
        str_lt(a, b),
    ensures
        !str_lt(b, a),
        a != b,
    decreases a.len(),
{
    if a.len() > 0 && b.len() > 0 && a[0] == b[0] {
        lemma_str_lt_asym(a.drop_first(), b.drop_first());
        if a == b {
            assert(a.drop_first() == b.drop_first());
        }
    }
}

/// The type names the reading tells apart are distinct.
proof fn lemma_type_names()
    ensures
        "string"@ != "object"@,
        "string"@ != "array"@,
        "string"@ != "null"@,
        "string"@ != "bool"@,
        "string"@ != "number"@,
        "array"@ != "object"@,
        "bool"@ != "object"@,
        "bool"@ != "array"@,
        "bool"@ != "null"@,
        "true"@ != "false"@,
{
    reveal_strlit("string");
    reveal_strlit("object");
    reveal_strlit("array");
    reveal_strlit("null");
    reveal_strlit("bool");
    reveal_strlit("number");
    reveal_strlit("true");
    reveal_strlit("false");
    assert("string"@[0] != "object"@[0]);
    assert("string"@[0] != "number"@[0]);
    assert("string"@.len() != "array"@.len());
    assert("string"@.len() != "null"@.len());
    assert("string"@.len() != "bool"@.len());
    assert("array"@.len() != "object"@.len());
    assert("bool"@.len() != "object"@.len());
    assert("bool"@.len() != "array"@.len());
    assert("bool"@[0] != "null"@[0]);
    assert("true"@.len() != "false"@.len());
}

proof fn lemma_read_bool(ev: Seq<XmlEvV>, i: int, b: bool)
    requires
        0 <= i,
        i + 2 <= ev.len(),
        ev[i] == XmlEvV::Text(if b { "true"@ } else { "false"@ }),
        ev[i + 1] == XmlEvV::End,
    ensures
        read_elem(ev, i, "bool"@) == Ok::<(JsonV, int), Seq<char>>((JsonV::Bool(b), i + 2)),
{
    lemma_type_names();
    let txt: Seq<char> = if b { "true"@ } else { "false"@ };
    assert(read_text(ev, i + 1) == Ok::<(Seq<char>, int), Seq<char>>((Seq::<char>::empty(), i + 2)));
    assert(txt + Seq::<char>::empty() =~= txt);
    assert(read_text(ev, i) == Ok::<(Seq<char>, int), Seq<char>>((txt, i + 2)));
    assert(scalar_value("bool"@, txt) == JsonV::Bool(b));
    assert(read_elem(ev, i, "bool"@) == Ok::<(JsonV, int), Seq<char>>((scalar_value("bool"@, txt), i + 2)));
}

/// Reading a written element whose contents start at `i` (just after its
/// start tag) gives the value, and stops just after its end tag.
proof fn lemma_read_written(ev: Seq<XmlEvV>, i: int, v: JsonV, tag: Seq<char>)
    requires
        xml_faithful(v),
        !(v is Null),
        events_at(ev, i - 1, written_events(v, tag)),
    ensures
        written_events(v, tag)[0] == XmlEvV::Start(tag, written_type(v)),
        read_elem(ev, i, xml_type(written_type(v))) == Ok::<(JsonV, int), Seq<char>>((v, i - 1 + written_events(v, tag).len())),
    decreases v, 1int,
{
    let w = written_events(v, tag);
    assert(ev[i - 1] == w[0]);
    lemma_type_names();
    match v {
        JsonV::Bool(b) => {
            assert(ev[i] == w[1]);
            assert(ev[i + 1] == w[2]);
            lemma_read_bool(ev, i, b);
        },
        JsonV::Str(s) => {
            assert(ev[i] == w[1]);
            assert(ev[i + 1] == w[2]);
            assert(read_text(ev, i + 1) == Ok::<(Seq<char>, int), Seq<char>>((Seq::<char>::empty(), i + 2)));
            assert(s + Seq::<char>::empty() =~= s);
            assert(read_text(ev, i) == Ok::<(Seq<char>, int), Seq<char>>((s, i + 2)));
        },
        JsonV::Array(a) => {
            let body = written_items(a, 0);
            assert(w == seq![XmlEvV::Start(tag, Some("array"@))] + body + seq![XmlEvV::End]);
            lemma_events_at_split(ev, i - 1, seq![XmlEvV::Start(tag, Some("array"@))] + body, seq![XmlEvV::End]);
            lemma_events_at_split(ev, i - 1, seq![XmlEvV::Start(tag, Some("array"@))], body);
            let end = seq![XmlEvV::End];
            assert(ev[i - 1 + (1 + body.len()) + 0] == end[0]);
            assert(a.take(0) =~= Seq::<JsonV>::empty());
            lemma_read_items(ev, i, a, 0);
        },
        JsonV::Object(kvs) => {
            let body = written_members(kvs, 0);
            assert(w == seq![XmlEvV::Start(tag, Some("object"@))] + body + seq![XmlEvV::End]);
            lemma_events_at_split(ev, i - 1, seq![XmlEvV::Start(tag, Some("object"@))] + body, seq![XmlEvV::End]);
            lemma_events_at_split(ev, i - 1, seq![XmlEvV::Start(tag, Some("object"@))], body);
            let end = seq![XmlEvV::End];
            assert(ev[i - 1 + (1 + body.len()) + 0] == end[0]);
            assert(kvs.take(0) =~= Seq::<(Seq<char>, JsonV)>::empty());
            lemma_read_members(ev, i, kvs, 0);
        },
        _ => {
            assert(!xml_faithful(v));
        },
    }
}

proof fn lemma_read_items(ev: Seq<XmlEvV>, i: int, a: Seq<JsonV>, j: int)
    requires
        0 <= j <= a.len(),
        forall|q: int| 0 <= q < a.len() ==> xml_faithful(#[trigger] a[q]),
        events_at(ev, i, written_items(a, j)),
        i + written_items(a, j).len() < ev.len(),
        ev[i + written_items(a, j).len()] == XmlEvV::End,
    ensures
        read_items(ev, i, a.take(j)) == Ok::<(Seq<JsonV>, int), Seq<char>>((a, i + written_items(a, j).len() + 1)),
    decreases a, 0int, a.len() - j,
{
    if j == a.len() {
        assert(a.take(j) =~= a);
    } else {
        let x = a[j];
        let we = written_events(x, "item"@);
        let rest = written_items(a, j + 1);
        assert(written_items(a, j) == we + rest);
        lemma_events_at_split(ev, i, we, rest);
        assert(xml_faithful(x));
        if x is Null {
            assert(ev[i] == we[0]);
            assert(a.take(j).push(JsonV::Null) =~= a.take(j + 1));
            lemma_read_items(ev, i + 1, a, j + 1);
        } else {
            lemma_read_written(ev, i + 1, x, "item"@);
            assert(ev[i] == we[0]);
            assert(a.take(j).push(x) =~= a.take(j + 1));
            lemma_read_items(ev, i + we.len(), a, j + 1);
        }
    }
}

proof fn lemma_read_members(ev: Seq<XmlEvV>, i: int, kvs: Seq<(Seq<char>, JsonV)>, j: int)
    requires
        0 <= j <= kvs.len(),
        forall|p: int, q: int| 0 <= p < q < kvs.len() ==> str_lt(#[trigger] kvs[p].0, #[trigger] kvs[q].0),
        forall|q: int| 0 <= q < kvs.len() ==> xml_faithful(#[trigger] kvs[q].1),
        events_at(ev, i, written_members(kvs, j)),
        i + written_members(kvs, j).len() < ev.len(),
        ev[i + written_members(kvs, j).len()] == XmlEvV::End,
    ensures
        read_members(ev, i, kvs.take(j)) == Ok::<(Seq<(Seq<char>, JsonV)>, int), Seq<char>>((kvs, i + written_members(kvs, j).len() + 1)),
    decreases kvs, 0int, kvs.len() - j,
{
    if j == kvs.len() {
        assert(kvs.take(j) =~= kvs);
    } else {
        let (k, x) = kvs[j];
        let we = written_events(x, k);
        let rest = written_members(kvs, j + 1);
        assert(written_members(kvs, j) == we + rest);
        lemma_events_at_split(ev, i, we, rest);
        assert(xml_faithful(kvs[j].1));
        let pre = kvs.take(j);
        assert forall|q: int| 0 <= q < pre.len() implies (#[trigger] pre[q]).0 != k && !str_lt(k, pre[q].0) by {
            assert(str_lt(kvs[q].0, kvs[j].0));
            lemma_str_lt_asym(kvs[q].0, kvs[j].0);
        }
        lemma_insert_prefix(pre, k, x, pre.len() as int);
        assert(pre.skip(pre.len() as int) =~= Seq::<(Seq<char>, JsonV)>::empty());
        assert(pre.take(pre.len() as int) =~= pre);
        assert(obj_insert(pre, k, x) =~= kvs.take(j + 1));
        if x is Null {
            assert(ev[i] == we[0]);
            lemma_read_members(ev, i + 1, kvs, j + 1);
        } else {
            lemma_read_written(ev, i + 1, x, k);
            assert(ev[i] == we[0]);
            lemma_read_members(ev, i + we.len(), kvs, j + 1);
        }
    }
}

/// What the typed XML writer writes reads back as the value, for a value
/// whose typed XML is faithful to it ([`xml_faithful`]): the events of the
/// declaration and of the `marklens` element give the value. That quick-xml
/// reports these events for the writer's text ([`xml_events`]) is the
/// reader's own behaviour and is not stated.
pub proof fn law_xml_reads_back_written(v: JsonV)
    requires
        xml_faithful(v),
    ensures
        xml_value_spec(seq![XmlEvV::Other] + written_events(v, "marklens"@)) == Ok::<JsonV, Seq<char>>(v),
{
    let w = written_events(v, "marklens"@);
    let ev = seq![XmlEvV::Other] + w;
    assert forall|q: int| 0 <= q < w.len() implies ev[1 + q] == #[trigger] w[q] by {}
    assert(ev[0] == XmlEvV::Other);
    assert(read_root(ev, 0) == read_root(ev, 1));
    if v is Null {
        assert(ev[1] == w[0]);
    } else {
        lemma_read_written(ev, 2, v, "marklens"@);
        assert(ev[1] == w[0]);
    }
}
} // verus!
