use marklens::cli::{deny_double_stdin, line_col};
use marklens::formats::{format_of_extension, strip_nulls, to_xml, xml_escape};
use marklens::frontmatter::{is_date, parse_flow, quote_scalar, unquote};
use marklens::render::{esc_inline, scaffold_count};
use marklens::schema::slug;
use marklens::xml_reader::parse_xml;
use marklens::{parse_schema, Card, EditError, Format, Json, RenderError, Schema, SchemaOpts, Span};

fn parse(src: &str) -> Schema {
    parse_schema(src).expect("schema parses")
}

fn chars(s: &str) -> Vec<char> {
    s.chars().collect()
}

fn st(s: &str) -> Json {
    Json::Str(s.to_string())
}

fn obj(pairs: Vec<(&str, Json)>) -> Json {
    let mut o = Json::object();
    for (k, v) in pairs {
        o.insert(k.to_string(), v);
    }
    o
}

// ---- rendering and scaffolding, exact output ----------------------------------------

#[test]
fn render_writes_the_documented_example() {
    let schema = parse("## @plan Plan\n  - +@cases\n");
    let data = obj(vec![("plan", obj(vec![("cases", Json::Array(vec![st("a"), st("b")]))]))]);
    assert_eq!(schema.render(&data).unwrap(), "## Plan\n\n- a\n- b\n");
}

#[test]
fn render_escapes_captured_text() {
    let schema = parse("- +@items\n");
    let data = obj(vec![("items", Json::Array(vec![st("*a*"), st("1. x"), st("# h")]))]);
    assert_eq!(schema.render(&data).unwrap(), "- \\*a\\*\n- 1\\. x\n- \\# h\n");
}

#[test]
fn render_writes_frontmatter_checklists_and_prose() {
    let schema = parse("---\ntitle: string\ncount: int\n---\n> @intro\n- [ ] +@todo\n");
    let data = obj(vec![
        ("title", st("a: b")),
        ("count", Json::Int(-7)),
        ("intro", st("Hello")),
        (
            "todo",
            Json::Array(vec![
                obj(vec![("text", st("x")), ("checked", Json::Bool(true))]),
                st("y"),
            ]),
        ),
    ]);
    assert_eq!(
        schema.render(&data).unwrap(),
        "---\ntitle: \"a: b\"\ncount: -7\n---\n\nHello\n\n- [x] x\n- [ ] y\n"
    );
}

#[test]
fn render_accepts_a_lone_string_for_a_list() {
    let schema = parse("- +@items\n");
    let data = obj(vec![("items", st("only"))]);
    assert_eq!(schema.render(&data).unwrap(), "- only\n");
}

#[test]
fn render_skips_absent_optional_nodes() {
    let schema = parse("> @body\n## ?@extra Extra\n  > @x\n");
    let data = obj(vec![("body", st("text"))]);
    assert_eq!(schema.render(&data).unwrap(), "text\n");
}

#[test]
fn render_reports_each_error_kind() {
    let schema = parse("---\nstatus: enum(a, b)\n---\n- +@items\n");
    let bad_enum = obj(vec![("status", st("c")), ("items", Json::Array(vec![st("x")]))]);
    let e = schema.render(&bad_enum).unwrap_err();
    assert_eq!(
        e,
        RenderError::InvalidFrontmatter { key: "status".to_string(), reason: "`c` is not one of a, b".to_string() }
    );
    assert_eq!(e.to_string(), "frontmatter key 'status' has an invalid value: `c` is not one of a, b");

    let missing = obj(vec![("status", st("a"))]);
    let e = schema.render(&missing).unwrap_err();
    assert_eq!(e, RenderError::MissingField("items".to_string()));
    assert_eq!(e.to_string(), "required field 'items' is missing from the data");

    let wrong = obj(vec![("status", st("a")), ("items", Json::Int(1))]);
    let e = schema.render(&wrong).unwrap_err();
    assert_eq!(e, RenderError::WrongType { field: "items".to_string(), expected: "array or string" });
    assert_eq!(e.to_string(), "field 'items' has wrong type: expected array or string");
}

#[test]
fn render_regex_heading_title_must_be_text() {
    let schema = parse("# @sec /.+/\n  > @x\n");
    let data = obj(vec![("sec", obj(vec![("title", Json::Int(3)), ("x", st("y"))]))]);
    assert_eq!(
        schema.render(&data).unwrap_err(),
        RenderError::WrongType { field: "sec.title".to_string(), expected: "string" }
    );
}

#[test]
fn scaffold_writes_placeholders() {
    let schema = parse("---\nn: int\nd: date\nok?: bool\n---\n## @a A\n  - {2,}@xs\n  > @p\n");
    assert_eq!(schema.scaffold(), "---\nn: 0\nd: 1970-01-01\n---\n\n## A\n\n- \n- \n\nTODO\n");
}

#[test]
fn scaffold_fills_items_that_have_children() {
    let schema = parse("1. +@a Step:\n   - +@b\n");
    assert_eq!(schema.scaffold(), "1. Step: ...\n   - ...\n");
}

#[test]
fn rendered_blocks_are_normalized() {
    let schema = parse("# @t T\n  ## @u U\n    > @p\n  - +@l\n");
    let data = obj(vec![("t", obj(vec![("u", obj(vec![("p", st("x")), ("l", Json::Array(vec![st("i")]))]))]))]);
    let md = schema.render(&data).unwrap();
    assert_eq!(md, "# T\n\n## U\n\nx\n\n- i\n");
    assert!(!md.contains("\n\n\n"));
    assert!(md.ends_with('\n') && !md.ends_with("\n\n"));
}

#[test]
fn esc_inline_escapes_and_unescaping_restores() {
    let s = "a\\b *c* -d";
    let e = esc_inline(s);
    assert_eq!(e, "a\\\\b \\*c\\* -d");
    let mut back = String::new();
    let mut it = e.chars().peekable();
    while let Some(c) = it.next() {
        if c == '\\' {
            if let Some(&n) = it.peek() {
                if n.is_ascii_punctuation() {
                    back.push(n);
                    it.next();
                    continue;
                }
            }
        }
        back.push(c);
    }
    assert_eq!(back, s);
    assert_eq!(esc_inline("-x"), "\\-x");
    assert_eq!(esc_inline("12) y"), "12\\) y");
}

#[test]
fn scaffold_count_is_min_and_at_least_one() {
    assert_eq!(scaffold_count(Card::Range(3, None)), 3);
    assert_eq!(scaffold_count(Card::Range(0, Some(4))), 1);
    assert_eq!(scaffold_count(Card::Plus), 1);
}

// ---- error texts ----------------------------------------------------------------------

#[test]
fn edit_error_texts() {
    assert_eq!(EditError::TargetNotFound.to_string(), "target path does not resolve to an editable node");
    assert_eq!(
        EditError::IndexOutOfRange { index: 9, len: 2 }.to_string(),
        "index 9 is out of range (list has 2 items)"
    );
    assert_eq!(
        EditError::InvalidValue { reason: "r".to_string() }.to_string(),
        "replacement value is not valid inline text: r"
    );
}

#[test]
fn schema_error_text_is_located() {
    let e = parse_schema("---\ntitle: string\n").unwrap_err();
    assert!(e.to_string().starts_with("schema:"), "{}", e.to_string());
}

#[test]
fn default_options_are_ordered_strict_closed() {
    let o = SchemaOpts::default();
    assert!(o.ordered && o.strict && !o.frontmatter_open);
}

#[test]
fn span_shift_moves_both_ends() {
    let s = Span { start: 2, end: 5 }.shifted(10);
    assert_eq!((s.start, s.end), (12, 15));
}

// ---- the laws, on concrete values --------------------------------------------------------

#[test]
fn unquote_undoes_quote_scalar() {
    for s in ["plain", "a: b", "#x", "say \"hi\"", "", " lead", "x\\y"] {
        let q = quote_scalar(&chars(s));
        assert_eq!(unquote(&chars(&q)), s, "{q}");
    }
    assert_eq!(quote_scalar(&chars("a: b")), "\"a: b\"");
}

#[test]
fn frontmatter_values_read_back_as_written() {
    let s = parse("---\nt: string\nn: int\nb: bool\nd: date\nl: [string]\nk: [int]\ne: enum(x, y)\n---\n> @body\n");
    let data = obj(vec![
        ("t", st("a: b, [c]")),
        ("n", Json::Int(i64::MIN)),
        ("b", Json::Bool(false)),
        ("d", st("2024-02-29")),
        ("l", Json::Array(vec![st(""), st("p, q"), st("\"r\\"), st(" s"), st("#t")])),
        ("k", Json::Array(vec![Json::Int(-1), Json::Int(20)])),
        ("e", st("y")),
        ("body", st("x")),
    ]);
    let md = s.render(&data).unwrap();
    assert_eq!(s.extract(&md).unwrap(), data, "{md}");
}

#[test]
fn extract_succeeds_exactly_when_valid() {
    let s = parse("## @n Notes\n  > @body\n");
    for doc in ["## Notes\nthe body\n", "## Other\nx\n", "", "## Notes\n"] {
        assert_eq!(s.extract(doc).is_ok(), s.validate(doc).is_empty(), "{doc:?}");
    }
}

#[test]
fn body_only_schema_sees_the_same_body() {
    let s = parse("> @body\n");
    let body = "the body\n";
    let with_fm = format!("---\nk: v\n---\n\n{body}");
    assert_eq!(s.validate(body).is_empty(), s.validate(&with_fm).is_empty());
    assert_eq!(s.extract(body).unwrap(), s.extract(&with_fm).unwrap());
}

#[test]
fn reading_after_writing_an_object() {
    let mut o = Json::object();
    o.insert("b".to_string(), Json::Int(1));
    o.insert("a".to_string(), Json::Int(2));
    o.insert("b".to_string(), Json::Int(3));
    assert_eq!(o.get("b"), Some(&Json::Int(3)));
    assert_eq!(o.get("a"), Some(&Json::Int(2)));
    assert_eq!(o.get("c"), None);
    match &o {
        Json::Object(m) => {
            let keys: Vec<&str> = m.iter().map(|(k, _)| k.as_str()).collect();
            assert_eq!(keys, vec!["a", "b"]);
        },
        _ => panic!(),
    }
}

#[test]
fn parsed_schema_keeps_aliases_unique() {
    assert!(parse_schema("---\nt: string\n---\n> @t\n").is_err());
    assert!(parse_schema("---\na @x: string\nb @x: int\n---\n").is_err());
    assert!(parse_schema("## @s S\n  > @x\n## @s T\n  > @y\n").is_err());
}

// ---- the outside calls, through public functions --------------------------------------

#[test]
fn regex_labels_are_compiled_and_matched() {
    let s = parse("## +@rel /^v[0-9]+$/\n  > @notes\n");
    assert!(s.validate("## v12\nok\n").is_empty());
    assert!(!s.validate("## version\nok\n").is_empty());
    let e = parse_schema("> @x /[/\n").unwrap_err();
    assert!(!e.message.is_empty());
}

#[test]
fn markdown_is_parsed_into_blocks() {
    let s = parse("1. +@steps\n");
    assert_eq!(
        s.extract("1. one\n2. two\n").unwrap(),
        obj(vec![("steps", Json::Array(vec![st("one"), st("two")]))])
    );
}

#[test]
fn formats_from_extensions() {
    assert_eq!(Format::from_ext("dir/data.YML"), Some(Format::Yaml));
    assert_eq!(Format::from_ext("a/b.json"), Some(Format::Json));
    assert_eq!(Format::from_ext("c.toml"), Some(Format::Toml));
    assert_eq!(Format::from_ext("d.Xml"), Some(Format::Xml));
    assert_eq!(Format::from_ext("notes.txt"), None);
    assert_eq!(Format::from_ext("noext"), None);
    assert_eq!(Format::from_ext(".yaml"), None);
    assert_eq!(format_of_extension("YAML"), Some(Format::Yaml));
    assert_eq!(format_of_extension("md"), None);
}

// ---- the front end's own logic -------------------------------------------------------

#[test]
fn xml_escape_handles_markup_and_controls() {
    assert_eq!(xml_escape("a<b>&\"c\u{1}\td"), "a&lt;b&gt;&amp;&quot;c\td");
}

#[test]
fn typed_xml_is_written() {
    let v = obj(vec![
        ("n", Json::Null),
        ("b", Json::Bool(true)),
        ("i", Json::Int(-3)),
        ("s", st("x<y")),
        ("a", Json::Array(vec![Json::Int(1)])),
    ]);
    assert_eq!(
        to_xml(&v),
        "<?xml version=\"1.0\" encoding=\"UTF-8\"?>\n<marklens type=\"object\">\n  <a type=\"array\">\n    <item type=\"number\">1</item>\n  </a>\n  <b type=\"bool\">true</b>\n  <i type=\"number\">-3</i>\n  <n type=\"null\"/>\n  <s>x&lt;y</s>\n</marklens>\n"
    );
}

#[test]
fn nulls_are_stripped_at_every_depth() {
    let v = obj(vec![
        ("a", Json::Null),
        ("b", obj(vec![("c", Json::Null), ("d", Json::Int(1))])),
        ("e", Json::Array(vec![obj(vec![("f", Json::Null)]), Json::Null])),
    ]);
    let want = obj(vec![
        ("b", obj(vec![("d", Json::Int(1))])),
        ("e", Json::Array(vec![Json::object(), Json::Null])),
    ]);
    assert_eq!(strip_nulls(&v), want);
}

#[test]
fn line_and_column_of_a_byte() {
    assert_eq!(line_col("ab\ncd", 4), (2, 2));
    assert_eq!(line_col("ab\ncd", 0), (1, 1));
    assert_eq!(line_col("é\nx", 3), (2, 1));
    assert_eq!(line_col("ab", 99), (1, 3));
}

#[test]
fn two_stdin_inputs_are_refused() {
    assert_eq!(
        deny_double_stdin("-", "-"),
        Err("cannot read two inputs from stdin (`-`); pass one as a file".to_string())
    );
    assert_eq!(deny_double_stdin("-", "doc.md"), Ok(()));
    assert_eq!(deny_double_stdin("s.mdp", "-"), Ok(()));
}

// ---- small helpers ---------------------------------------------------------------------

#[test]
fn slugs_of_titles() {
    assert_eq!(slug("Manual verification"), "manual_verification");
    assert_eq!(slug("  Test plan!"), "test_plan");
}

#[test]
fn dates_and_flow_lists() {
    assert!(is_date(&chars("2024-02-29")));
    assert!(!is_date(&chars("2023-02-29")));
    assert_eq!(parse_flow(&chars("[a, \"b, c\", d]")), vec!["a".to_string(), "b, c".to_string(), "d".to_string()]);
}

// ---- reading typed XML ---------------------------------------------------------------

#[test]
fn typed_xml_reads_back_what_is_written() {
    let v = obj(vec![
        ("n", Json::Null),
        ("b", Json::Bool(true)),
        ("i", Json::Int(-3)),
        ("s", st("x<y & \"z\"")),
        ("a", Json::Array(vec![Json::Int(1), st("two"), Json::Bool(false)])),
        ("o", obj(vec![("k", st("v"))])),
    ]);
    assert_eq!(parse_xml(&to_xml(&v)).unwrap(), v);
}

#[test]
fn typed_xml_scalars_and_empty_elements() {
    let doc = "<r type=\"object\"><a type=\"bool\">yes</a><b type=\"number\">2.5</b><c type=\"number\">abc</c>\
               <d/><e type=\"number\"/><f type=\"bool\"/><g type=\"null\">ignored</g><h>&#65;&amp;&unknown;B</h></r>";
    let want = obj(vec![
        ("a", Json::Bool(false)),
        ("b", Json::Num("2.5".to_string())),
        ("c", st("abc")),
        ("d", st("")),
        ("e", Json::Int(0)),
        ("f", Json::Bool(false)),
        ("g", Json::Null),
        ("h", st("A&B")),
    ]);
    assert_eq!(parse_xml(doc).unwrap(), want);
}

#[test]
fn typed_xml_repeated_member_keeps_the_last() {
    let doc = "<r type=\"object\"><k>1</k><k>2</k></r>";
    assert_eq!(parse_xml(doc).unwrap(), obj(vec![("k", st("2"))]));
}

#[test]
fn typed_xml_errors() {
    assert_eq!(parse_xml("").unwrap_err(), "empty XML document");
    assert_eq!(parse_xml("<!-- only a comment -->").unwrap_err(), "empty XML document");
    assert!(parse_xml("<r type=\"array\"><item></r>").is_err());
    assert!(parse_xml("<r>&#0;</r>").is_err());
    // Malformed text after the root element is never read.
    assert_eq!(parse_xml("<r>ok</r><<<").unwrap(), st("ok"));
}

// ---- reading and writing data text ----------------------------------------------------

#[test]
fn dump_json_compact_and_pretty() {
    let v = obj(vec![("b", Json::Array(vec![Json::Bool(true), Json::Null])), ("a", Json::Int(1))]);
    assert_eq!(Format::Json.dump(&v, true).unwrap(), "{\"a\":1,\"b\":[true,null]}\n");
    assert_eq!(Format::Json.dump(&obj(vec![("a", Json::Int(1))]), false).unwrap(), "{\n  \"a\": 1\n}\n");
    // A number beyond `i64` keeps its text through both directions.
    let big = Format::Json.parse("18446744073709551615").unwrap();
    assert_eq!(big, Json::Num("18446744073709551615".to_string()));
    assert_eq!(Format::Json.dump(&big, true).unwrap(), "18446744073709551615\n");
}

#[test]
fn dump_yaml_toml_and_xml() {
    let v = obj(vec![("a", Json::Int(1)), ("n", Json::Null), ("t", st("x"))]);
    assert_eq!(Format::Yaml.dump(&v, false).unwrap(), "a: 1\nn: null\nt: x\n");
    // TOML has no null: the member is left out.
    assert_eq!(Format::Toml.dump(&v, false).unwrap(), "a = 1\nt = \"x\"\n");
    // A TOML document is a table.
    assert!(Format::Toml.dump(&Json::Array(vec![Json::Int(1)]), false).is_err());
    assert_eq!(
        Format::Xml.dump(&Json::Null, false).unwrap(),
        "<?xml version=\"1.0\" encoding=\"UTF-8\"?>\n<marklens type=\"null\"/>\n"
    );
    // `compact` only affects JSON.
    assert_eq!(Format::Yaml.dump(&v, true).unwrap(), Format::Yaml.dump(&v, false).unwrap());
}

#[test]
fn parse_each_format() {
    let want = obj(vec![("a", Json::Array(vec![Json::Int(1), st("x")])), ("b", Json::Num("2.5".to_string()))]);
    assert_eq!(Format::Json.parse("{\"b\": 2.5, \"a\": [1, \"x\"]}").unwrap(), want);
    assert_eq!(Format::Yaml.parse("b: 2.5\na: [1, x]\n").unwrap(), want);
    assert_eq!(Format::Toml.parse("b = 2.5\na = [1, \"x\"]\n").unwrap(), want);
    let nested = Format::Toml.parse("a = 1\n[t]\nk = \"v\"\n").unwrap();
    assert_eq!(nested, obj(vec![("a", Json::Int(1)), ("t", obj(vec![("k", st("v"))]))]));
    let xml = "<marklens type=\"object\"><a type=\"number\">1</a></marklens>";
    assert_eq!(Format::Xml.parse(xml).unwrap(), obj(vec![("a", Json::Int(1))]));
}

#[test]
fn parse_errors_carry_the_readers_message() {
    assert!(Format::Json.parse("{").unwrap_err().contains("EOF while parsing"));
    assert!(Format::Yaml.parse("a: [1, 2").is_err());
    assert!(Format::Toml.parse("a = ").is_err());
    assert_eq!(Format::Xml.parse("").unwrap_err(), "empty XML document");
}

#[test]
fn dump_then_parse_gives_the_value_back() {
    let v = obj(vec![
        ("count", Json::Int(3)),
        ("list", Json::Array(vec![st("a & b <c> \"d\""), st("plain © 日本")])),
        ("flag", Json::Bool(false)),
    ]);
    for f in [Format::Json, Format::Yaml, Format::Toml, Format::Xml] {
        let text = f.dump(&v, false).unwrap();
        assert!(text.ends_with('\n'));
        assert_eq!(f.parse(&text).unwrap(), v, "{text}");
    }
}

#[test]
fn extract_and_render_round_trip_every_format() {
    let schema = parse("---\ntitle: string\ncount: int\n---\n## @plan Plan\n  - [ ] +@cases\n");
    let doc = "---\ntitle: Dark mode\ncount: 3\n---\n\n## Plan\n- [x] a & b <c> \"d\"\n- [ ] plain © 日本\n";
    let value = schema.extract(doc).expect("conforms");
    let canonical = Format::Json.dump(&value, false).unwrap();
    for f in [Format::Json, Format::Yaml, Format::Toml, Format::Xml] {
        let dumped = f.dump(&value, false).unwrap();
        let data = f.parse(&dumped).unwrap();
        let md = schema.render(&data).unwrap();
        let problems = schema.validate(&md);
        assert!(problems.is_empty(), "{f:?}: {problems:?}");
        let back = schema.extract(&md).expect("re-extracts");
        assert_eq!(Format::Json.dump(&back, false).unwrap(), canonical, "{f:?} round-trip diverged");
    }
}
