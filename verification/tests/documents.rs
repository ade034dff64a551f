use marklens::{parse_schema, Json, Schema};

fn parse(src: &str) -> Schema {
    parse_schema(src).expect("schema parses")
}

fn st(s: &str) -> Json {
    Json::Str(s.to_string())
}

fn obj(pairs: Vec<(&str, Json)>) -> Json {
    let mut o = Json::object();
    for (k, v) in pairs {
        o.insert(k.to_string(), v);
    }
    o
}

fn at<'a>(v: &'a Json, key: &str) -> &'a Json {
    v.get(key).expect("member present")
}

fn nth(v: &Json, i: usize) -> &Json {
    match v {
        Json::Array(a) => &a[i],
        _ => panic!("not an array: {v:?}"),
    }
}

const SCHEMA: &str = "## @manual Manual verification\n\
    \x20 ### @setup Setup\n\
    \x20   - +@items\n\
    \x20 ### @procedure Procedure\n\
    \x20   1. +@steps\n\
     ## @plan Test plan\n\
    \x20 - [ ] +@cases\n";

#[test]
fn validate_accepts_a_conforming_document() {
    let s = parse(SCHEMA);
    let doc = "## Manual verification\n\
        ### Setup\n\
        - external monitor\n\n\
        ### Procedure\n\
        1. open a tab\n\
        2. run it\n\n\
        ## Test plan\n\
        - [x] one\n\
        - [ ] two\n";
    let problems = s.validate(doc);
    assert!(problems.is_empty(), "{problems:?}");
}

#[test]
fn validate_flags_missing_section_and_empty_list() {
    let s = parse(SCHEMA);
    let doc = "## Manual verification\n\
        ### Setup\n\n\
        ### Procedure\n\
        1. open\n";
    let problems = s.validate(doc);
    let joined: Vec<String> = problems.iter().map(|p| p.to_string()).collect();
    let all = joined.join("\n");
    assert!(all.contains("plan"), "missing Test plan: {all}");
    assert!(all.contains("setup") && all.contains("at least one item"), "empty Setup list: {all}");
}

#[test]
fn validate_respects_strict_ordering() {
    let s = parse("## @m M\n  ### @setup Setup\n    > @x\n  ### @proc Procedure\n    > @y\n");
    let reversed = "## M\n### Procedure\nbody\n\n### Setup\nbody\n";
    let problems = s.validate(reversed);
    assert!(!problems.is_empty(), "strict order should flag reversal");
}

#[test]
fn strict_flags_unexpected_block() {
    let s = parse("## @notes Notes\n  > @body\n");
    let doc = "## Notes\nthe body\n\n## Surprise\nnot in the schema\n";
    let problems = s.validate(doc);
    assert!(
        problems.iter().any(|p| p.message.contains("unexpected")),
        "strict should flag the extra section: {problems:?}"
    );
    let lax = parse("%strict = false\n## @notes Notes\n  > @body\n");
    assert!(lax.validate(doc).is_empty(), "{:?}", lax.validate(doc));
}

#[test]
fn frontmatter_is_typed_and_extracted() {
    let s = parse(
        "---\n\
         title: string\n\
         count: int\n\
         status: enum(planned, done)\n\
         tags: [string]\n\
         ---\n\
         > @body\n",
    );
    let doc = "---\ntitle: Hello\ncount: 3\nstatus: done\ntags: [a, b]\n---\n\nsome body\n";
    assert!(s.validate(doc).is_empty(), "{:?}", s.validate(doc));
    let v = s.extract(doc).expect("conforms");
    assert_eq!(*at(&v, "title"), st("Hello"));
    assert_eq!(*at(&v, "count"), Json::Int(3));
    assert_eq!(*at(&v, "status"), st("done"));
    assert_eq!(*at(&v, "tags"), Json::Array(vec![st("a"), st("b")]));

    let bad = "---\ntitle: Hi\ncount: not-a-number\nstatus: done\ntags: []\nextra: x\n---\n\nb\n";
    let problems = s.validate(bad);
    assert!(problems.len() >= 2, "{problems:?}");
}

#[test]
fn body_only_schema_ignores_document_frontmatter() {
    let s = parse("## @notes Notes\n  > @body\n");
    let doc = "---\ntitle: whatever\n---\n\n## Notes\nthe body\n";
    assert!(s.validate(doc).is_empty(), "{:?}", s.validate(doc));
}

#[test]
fn invalid_calendar_dates_are_rejected() {
    let s = parse("---\nd: date\n---\n> @b\n");
    let ok = "---\nd: 2024-02-29\n---\n\nbody\n";
    assert!(s.validate(ok).is_empty(), "{:?}", s.validate(ok));
    for bad in ["2026-02-29", "2026-02-30", "2026-04-31", "2026-13-01"] {
        let doc = format!("---\nd: {bad}\n---\n\nbody\n");
        assert!(!s.validate(&doc).is_empty(), "should reject {bad}");
    }
}

#[test]
fn extract_builds_the_capture_object() {
    let s = parse(SCHEMA);
    let doc = "## Manual verification\n\
        ### Setup\n\
        - external monitor\n\n\
        ### Procedure\n\
        1. open a tab\n\
        2. run it\n\n\
        ## Test plan\n\
        - [x] one\n\
        - [ ] two\n";
    let v = s.extract(doc).expect("conforms");
    assert_eq!(*nth(at(at(at(&v, "manual"), "setup"), "items"), 0), st("external monitor"));
    assert_eq!(*nth(at(at(at(&v, "manual"), "procedure"), "steps"), 1), st("run it"));
    assert_eq!(
        *at(at(&v, "plan"), "cases"),
        Json::Array(vec![
            obj(vec![("text", st("one")), ("checked", Json::Bool(true))]),
            obj(vec![("text", st("two")), ("checked", Json::Bool(false))]),
        ])
    );
}

#[test]
fn extract_errors_on_nonconforming() {
    let s = parse(SCHEMA);
    let bad = "## Manual verification\n### Setup\n\n### Procedure\n1. x\n";
    assert!(s.extract(bad).is_err());
}

#[test]
fn problem_message_includes_description() {
    let s = parse("## @plan Plan\n  - +@cases <? one per behaviour ?>\n");
    let problems = s.validate("## Plan\n");
    assert!(problems.iter().any(|p| p.to_string().contains("one per behaviour")), "{problems:?}");
}

#[test]
fn ordered_repeated_heading_does_not_over_claim() {
    let s = parse("## +@a /^A/\n  > @x\n## @b Foo\n  > @y\n");
    let doc = "## A one\nx1\n\n## Foo\ny\n\n## A two\nx2\n";
    let problems = s.validate(doc);
    let all = problems.iter().map(|p| p.to_string()).collect::<Vec<_>>().join("\n");
    assert!(all.contains("unexpected"), "{all}");
    assert!(!all.contains("b: expected"), "Foo should be found, not missing: {all}");
}

#[test]
fn duplicate_single_section_is_not_silently_swallowed() {
    let s = parse("## @s Sec\n  > @x\n");
    let doc = "## Sec\naa\n\n## Sec\nbb\n";
    let problems = s.validate(doc);
    assert!(!problems.is_empty(), "duplicate section should be flagged");
    assert!(s.extract(doc).is_err());
}

#[test]
fn inserted_code_block_only_adds_its_own_problem() {
    let strict = parse("## @plan Plan\n  - +@cases\n  > @note\n");
    let lax = parse("%strict = false\n## @plan Plan\n  - +@cases\n  > @note\n");
    let doc = "## Plan\n\n- a\n- b\n\nclosing words\n";
    let with_code = "## Plan\n\n```\ncode\n```\n\n- a\n- b\n\n---\n\nclosing words\n";
    let before = strict.validate(doc);
    let after = strict.validate(with_code);
    assert!(before.is_empty(), "{before:?}");
    assert_eq!(after.len(), 2, "{after:?}");
    assert!(after.iter().all(|p| p.message == "unexpected block"), "{after:?}");
    assert!(lax.validate(with_code).is_empty(), "{:?}", lax.validate(with_code));
    assert_eq!(lax.extract(with_code).unwrap(), lax.extract(doc).unwrap());
}
