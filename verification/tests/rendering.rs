use marklens::{parse_schema, Json, RenderError, Schema};

fn parse(src: &str) -> Schema {
    parse_schema(src).expect("schema parses")
}

fn st(s: &str) -> Json {
    Json::Str(s.to_string())
}

fn strs(v: &[&str]) -> Json {
    Json::Array(v.iter().map(|s| st(s)).collect())
}

fn obj(pairs: Vec<(&str, Json)>) -> Json {
    let mut o = Json::object();
    for (k, v) in pairs {
        o.insert(k.to_string(), v);
    }
    o
}

const SCHEMA: &str = "## @manual Manual verification\n\
    \x20 ### @setup Setup\n\
    \x20   - +@items\n\
    \x20 ### @procedure Procedure\n\
    \x20   1. +@steps\n\
     ## @plan Test plan\n\
    \x20 - [ ] +@cases\n";

#[test]
fn frontmatter_empty_list_element_round_trips() {
    let s = parse("---\ntags: [string]\n---\n> @b\n");
    for tags in [strs(&[""]), strs(&[]), strs(&["", ""]), strs(&["a", ""])] {
        let data = obj(vec![("tags", tags.clone()), ("b", st("body"))]);
        let md = s.render(&data).expect("render");
        assert_eq!(s.extract(&md).expect("extract"), data, "tags={tags:?}\n{md}");
    }
}

#[test]
fn scaffold_emits_required_only_and_validates() {
    let s = parse(
        "---\n\
         title: string\n\
         status: enum(planned, done)\n\
         tags: [string]\n\
         owner?: string\n\
         ---\n\
         ## @manual Manual verification\n\
        \x20 ### @setup Setup\n\
        \x20   - +@items\n\
         ## ?@refs References\n\
        \x20 - *@links\n",
    );
    let out = s.scaffold();
    assert!(out.contains("status: planned\n"), "{out}");
    assert!(out.contains("tags: []\n"), "{out}");
    assert!(!out.contains("owner"), "optional key omitted: {out}");
    assert!(out.contains("## Manual verification\n"), "{out}");
    assert!(out.contains("### Setup\n"), "{out}");
    assert!(!out.contains("References"), "optional heading omitted: {out}");
    assert!(s.validate(&out).is_empty(), "scaffold validates: {out}");
}

#[test]
fn render_produces_conforming_document() {
    let s = parse(SCHEMA);
    let data = obj(vec![
        (
            "manual",
            obj(vec![
                ("setup", obj(vec![("items", strs(&["external monitor", "test device"]))])),
                ("procedure", obj(vec![("steps", strs(&["open a tab", "run it"]))])),
            ]),
        ),
        (
            "plan",
            obj(vec![(
                "cases",
                Json::Array(vec![
                    obj(vec![("text", st("smoke")), ("checked", Json::Bool(true))]),
                    obj(vec![("text", st("edge case")), ("checked", Json::Bool(false))]),
                ]),
            )]),
        ),
    ]);
    let md = s.render(&data).expect("renders");
    let problems = s.validate(&md);
    assert!(problems.is_empty(), "rendered doc fails validate: {problems:?}\n---\n{md}");
    assert_eq!(s.extract(&md).expect("re-extract"), data);
}

#[test]
fn render_errors_on_missing_required_field() {
    let s = parse(SCHEMA);
    let data = obj(vec![(
        "manual",
        obj(vec![
            ("setup", obj(vec![("items", strs(&["a"]))])),
            ("procedure", obj(vec![("steps", strs(&["b"]))])),
        ]),
    )]);
    let err = s.render(&data).unwrap_err();
    assert!(matches!(err, RenderError::MissingField(_)));
}

#[test]
fn round_trip_preserves_markdown_significant_text() {
    let schema = parse("- +@items\n");
    let md = "- run `printf '\\033\\\\x'` then press <ctrl>c\n";
    let data1 = schema.extract(md).expect("extract");
    let text = match data1.get("items") {
        Some(Json::Array(a)) => match &a[0] {
            Json::Str(s) => s.clone(),
            other => panic!("{other:?}"),
        },
        other => panic!("{other:?}"),
    };
    assert!(text.contains("<ctrl>c"), "angle-bracket text lost: {text}");
    assert!(text.contains("\\033\\\\x"), "backslashes lost: {text}");
    let rendered = schema.render(&data1).expect("render");
    let data2 = schema.extract(&rendered).expect("re-extract");
    assert_eq!(data1, data2);
}

#[test]
fn round_trip_survives_markdown_metacharacters() {
    let schema = parse("- +@items\n");
    let data = obj(vec![("items", strs(&["*bold*", "a `code` b", "1. not a list", "# not a heading"]))]);
    let md = schema.render(&data).expect("render");
    assert!(schema.validate(&md).is_empty(), "{md}");
    assert_eq!(schema.extract(&md).expect("re-extract"), data);
}

#[test]
fn regex_titled_heading_title_round_trips_with_metacharacters() {
    let s = parse("# @sec /.+/\n  - +@items\n");
    let data = obj(vec![("sec", obj(vec![("title", st("Plan *v2* [x]")), ("items", strs(&["a"]))]))]);
    let md = s.render(&data).expect("render");
    assert!(s.validate(&md).is_empty(), "{md}");
    assert_eq!(s.extract(&md).expect("extract"), data);
}

#[test]
fn render_errors_on_non_string_item() {
    let s = parse("- +@items\n");
    let err = s.render(&obj(vec![("items", Json::Array(vec![Json::Int(42)]))])).unwrap_err();
    assert!(matches!(err, RenderError::WrongType { .. }));
}

#[test]
fn scaffold_of_checklist_with_children_validates() {
    let s = parse("- [ ] +@a\n  - +@b\n");
    let out = s.scaffold();
    assert!(s.validate(&out).is_empty(), "scaffold:\n{out}\n{:?}", s.validate(&out));
}

#[test]
fn deep_scaffold_nesting_validates() {
    for schema in ["- +@a\n  - +@b\n    1. +@c\n", "- [ ] +@a\n  - +@b\n    - +@c\n"] {
        let s = parse(schema);
        assert!(s.validate(&s.scaffold()).is_empty(), "{schema}\n{}", s.scaffold());
    }
}

#[test]
fn body_round_trips_on_sample_values() {
    let schema = parse(
        "## @report Report\n  ### @intro Intro\n    > @overview\n  ### @items Items\n    - +@bullets\n  ### @steps Steps\n    1. +@ordered\n",
    );
    for (overview, bullets, steps) in [
        ("plain overview", vec!["one", "two"], vec!["first"]),
        ("*stars* and `ticks` — ünïcode", vec!["# not a heading", "1. not ordered"], vec!["- dash", "[x] box", "a_b"]),
    ] {
        let data = obj(vec![(
            "report",
            obj(vec![
                ("intro", obj(vec![("overview", st(overview))])),
                ("items", obj(vec![("bullets", strs(&bullets))])),
                ("steps", obj(vec![("ordered", strs(&steps))])),
            ]),
        )]);
        let md = schema.render(&data).expect("render");
        assert!(schema.validate(&md).is_empty(), "{md}\n{:?}", schema.validate(&md));
        assert_eq!(schema.extract(&md).expect("extract"), data, "\n{md}");
    }
}

#[test]
fn checklist_and_labeled_lists_round_trip() {
    let schema = parse("## @plan Plan\n  - [ ] +@cases\n");
    let cases = Json::Array(vec![
        obj(vec![("text", st("open")), ("checked", Json::Bool(false))]),
        obj(vec![("text", st("done [x]")), ("checked", Json::Bool(true))]),
    ]);
    let data = obj(vec![("plan", obj(vec![("cases", cases)]))]);
    let md = schema.render(&data).expect("render");
    assert!(schema.validate(&md).is_empty(), "{md}");
    assert_eq!(schema.extract(&md).expect("extract"), data, "\n{md}");

    let labeled = parse("- +@docs Docs:\n");
    let data = obj(vec![("docs", strs(&["a", "Docs: b"]))]);
    let md = labeled.render(&data).expect("render");
    assert!(labeled.validate(&md).is_empty(), "{md}");
    assert_eq!(labeled.extract(&md).expect("extract"), data, "\n{md}");
}

#[test]
fn edit_after_render_changes_exactly_the_item() {
    let schema = parse("- +@items\n");
    let bullets = ["α", "b *c*", "d"];
    let md = schema.render(&obj(vec![("items", strs(&bullets))])).expect("render");
    for i in 0..bullets.len() {
        let edited = schema.edit(&md, &format!("items.{i}"), "new `v` ü").expect("edit");
        assert!(schema.validate(&edited).is_empty(), "{edited}");
        let mut expected: Vec<&str> = bullets.to_vec();
        expected[i] = "new `v` ü";
        assert_eq!(schema.extract(&edited).expect("extract").get("items"), Some(&strs(&expected)), "\n{edited}");
    }
}
