use marklens::{parse_schema, EditError, Json, Schema};

fn parse(src: &str) -> Schema {
    parse_schema(src).expect("schema parses")
}

fn st(s: &str) -> Json {
    Json::Str(s.to_string())
}

fn obj(pairs: Vec<(&str, Json)>) -> Json {
    let mut o = Json::object();
    for (k, v) in pairs {
        o.insert(k.to_string(), v);
    }
    o
}

const SCHEMA: &str = "## @manual Manual verification\n\
    \x20 ### @setup Setup\n\
    \x20   - +@items\n\
    \x20 ### @procedure Procedure\n\
    \x20   1. +@steps\n\
     ## @plan Test plan\n\
    \x20 - [ ] +@cases\n";

#[test]
fn edit_replaces_list_item_text() {
    let s = parse(SCHEMA);
    let doc = "## Manual verification\n\
        ### Setup\n\
        - external monitor\n\n\
        ### Procedure\n\
        1. open a tab\n\
        2. run it\n\n\
        ## Test plan\n\
        - [x] one\n\
        - [ ] two\n";
    let edited = s.edit(doc, "manual.setup.items.0", "projector").expect("edit succeeds");
    assert!(edited.contains("- projector\n"), "item replaced: {edited}");
    assert!(!edited.contains("external monitor"), "old text gone: {edited}");
    assert!(edited.contains("open a tab"), "rest preserved: {edited}");
    assert!(s.validate(&edited).is_empty());
}

#[test]
fn edit_is_byte_accurate_after_multibyte_content() {
    let s = parse("- +@items\n");
    let doc = "- café ☕ `code`\n- second item\n";
    let edited = s.edit(doc, "items.1", "replaced").expect("edit");
    assert_eq!(edited, "- café ☕ `code`\n- replaced\n", "{edited}");
    let edited2 = s.edit(doc, "items.0", "new").expect("edit");
    assert_eq!(edited2, "- new\n- second item\n", "{edited2}");
}

#[test]
fn edit_replaces_checklist_item_preserving_checkbox() {
    let s = parse(SCHEMA);
    let doc = "## Manual verification\n\
        ### Setup\n\
        - a\n\n\
        ### Procedure\n\
        1. step\n\n\
        ## Test plan\n\
        - [x] old case\n\
        - [ ] second\n";
    let edited = s.edit(doc, "plan.cases.0", "new case").expect("edit succeeds");
    assert!(edited.contains("- [x] new case\n"), "checkbox preserved: {edited}");
    assert!(!edited.contains("old case"), "old text gone: {edited}");
}

#[test]
fn edit_reports_index_out_of_range() {
    let s = parse("- +@items\n");
    let doc = "- a\n- b\n";
    let err = s.edit(doc, "items.9", "x").unwrap_err();
    assert!(matches!(err, EditError::IndexOutOfRange { index: 9, len: 2 }));
}

#[test]
fn edit_rejects_multiline_value() {
    let s = parse("- +@items\n");
    let err = s.edit("- a\n", "items.0", "two\nlines").unwrap_err();
    assert!(matches!(err, EditError::InvalidValue { .. }));
}

#[test]
fn edit_accepts_bare_unique_alias() {
    let s = parse(SCHEMA);
    let doc = "## Manual verification\n\
        ### Setup\n\
        - a\n\n\
        ### Procedure\n\
        1. first step\n\
        2. second step\n\n\
        ## Test plan\n\
        - [ ] c\n";
    let edited = s.edit(doc, "steps.1", "rewritten").expect("edit");
    assert!(edited.contains("2. rewritten\n"), "{edited}");
    assert!(edited.contains("1. first step\n"), "{edited}");
}

#[test]
fn edit_empty_checkbox_item_inserts_separator() {
    let s = parse("- [ ] +@cases\n");
    let doc = "- [x]\n- [ ] two\n";
    let edited = s.edit(doc, "cases.0", "done").expect("edit");
    assert_eq!(edited, "- [x] done\n- [ ] two\n", "{edited}");
    assert!(s.validate(&edited).is_empty());
    let data = s.extract(&edited).unwrap();
    let first = match data.get("cases") {
        Some(Json::Array(a)) => a[0].clone(),
        other => panic!("{other:?}"),
    };
    assert_eq!(first, obj(vec![("text", st("done")), ("checked", Json::Bool(true))]));
}

#[test]
fn edit_empty_item_inserts_after_marker() {
    for (schema, doc, want) in [
        ("- +@items\n", "- \n- b\n", "- filled\n- b\n"),
        ("1. +@items\n", "1. \n2. b\n", "1. filled\n2. b\n"),
    ] {
        let s = parse(schema);
        let edited = s.edit(doc, "items.0", "filled").expect("edit");
        assert_eq!(edited, want, "schema={schema}");
        assert!(s.validate(&edited).is_empty());
    }
}

#[test]
fn edit_scalar_list_by_bare_alias() {
    let s = parse("- ?@item\n");
    let doc = "- the only value\n";
    assert_eq!(s.extract(doc).unwrap().get("item"), Some(&st("the only value")));
    let edited = s.edit(doc, "item", "replaced").expect("edit");
    assert_eq!(edited, "- replaced\n", "{edited}");
}

#[test]
fn edit_labeled_item_preserves_label() {
    let s = parse("- +@refs Ref:\n");
    let doc = "- Ref: alpha\n- Ref: beta\n";
    assert_eq!(s.extract(doc).unwrap().get("refs"), Some(&Json::Array(vec![st("alpha"), st("beta")])));
    let edited = s.edit(doc, "refs.0", "gamma").expect("edit");
    assert_eq!(edited, "- Ref: gamma\n- Ref: beta\n", "{edited}");
    assert!(s.validate(&edited).is_empty(), "{:?}", s.validate(&edited));
}

#[test]
fn edit_of_marked_up_label_does_not_corrupt() {
    let s = parse("- +@refs Ref:\n");
    assert_eq!(s.edit("- Ref: alpha\n", "refs.0", "gamma").unwrap(), "- Ref: gamma\n");
    let edited = s.edit("- *Ref:* target\n", "refs.0", "gamma").unwrap();
    assert!(!edited.contains("Ref:gamma"), "must not splice inside markup: {edited}");
}

#[test]
fn edit_child_of_empty_parent_item() {
    let s = parse("- +@i\n  - +@j\n");
    let doc = "- \n  - c\n";
    assert!(s.validate(doc).is_empty(), "{:?}", s.validate(doc));
    assert_eq!(s.edit(doc, "i.0.j.0", "z").unwrap(), "- \n  - z\n");
}

#[test]
fn labeled_scalar_and_checklist_edits_preserve_label() {
    let scalar = parse("- ?@item Val:\n");
    assert_eq!(scalar.edit("- Val: x\n", "item", "y").unwrap(), "- Val: y\n");
    let checklist = parse("- [ ] +@c Do:\n");
    assert_eq!(checklist.edit("- [x] Do: task\n", "c.0", "new").unwrap(), "- [x] Do: new\n");
}

#[test]
fn edit_returns_target_not_found_for_bad_path() {
    let s = parse(SCHEMA);
    let doc = "## Manual verification\n\
        ### Setup\n\
        - a\n\n\
        ### Procedure\n\
        1. b\n\n\
        ## Test plan\n\
        - [ ] c\n";
    let err = s.edit(doc, "nonexistent.path", "x").unwrap_err();
    assert!(matches!(err, EditError::TargetNotFound));
}

#[test]
fn nested_note_is_addressed_by_index() {
    let s = parse("1. +@ordered\n  - ?@rollback\n");
    let doc = "1. a\n2. b\n   - c\n";
    let err = s.edit(doc, "ordered.1.rollback", "z").unwrap_err();
    assert!(matches!(err, EditError::TargetNotFound), "{err:?}");
    let edited = s.edit(doc, "ordered.1.rollback.0", "z").expect("edit");
    assert_eq!(edited, "1. a\n2. b\n   - z\n", "{edited}");
}
