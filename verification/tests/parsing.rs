use marklens::{parse_schema, Card, FieldType, ListStyle, Match, Node, Schema};

fn parse(src: &str) -> Schema {
    parse_schema(src).expect("schema parses")
}

#[test]
fn defaults_are_strict() {
    let s = parse("> @x");
    assert!(s.opts.ordered && s.opts.strict && !s.opts.frontmatter_open);
}

#[test]
fn directives_override_defaults() {
    let s = parse("%ordered = false\n%strict = false\n%frontmatter = open\n> @x");
    assert!(!s.opts.ordered && !s.opts.strict && s.opts.frontmatter_open);
}

#[test]
fn frontmatter_types_and_alias() {
    let s = parse(
        "---\n\
         title: string\n\
         status: enum(planned, done)\n\
         tags: [string]\n\
         owner?: string\n\
         spec_url? @spec: /^https/\n\
         ---\n",
    );
    let f = &s.frontmatter;
    assert_eq!(f.len(), 5);
    assert_eq!(f[0].key, "title");
    assert_eq!(f[0].ty, FieldType::Str);
    assert_eq!(f[1].ty, FieldType::Enum(vec!["planned".into(), "done".into()]));
    assert_eq!(f[2].ty, FieldType::List(Box::new(FieldType::Str)));
    assert!(f[3].optional && f[3].alias == "owner");
    assert_eq!(f[4].key, "spec_url");
    assert_eq!(f[4].alias, "spec");
    assert!(f[4].optional);
    assert!(matches!(f[4].ty, FieldType::Regex(_)));
}

#[test]
fn trailing_cardinality_on_list_type_is_rejected() {
    assert!(parse_schema("---\ntags: [string]+\n---\n").is_err());
}

#[test]
fn body_head_card_name_label() {
    let s = parse(
        "## @manual Manual verification\n\
        \x20 ### @setup Setup\n\
        \x20   - +@items\n\
        \x20 ### @procedure Procedure\n\
        \x20   1. +@steps\n\
        \x20     - ?@note\n",
    );
    assert_eq!(s.body.len(), 1);
    let Node::Heading { level, title, head, children } = &s.body[0] else {
        panic!("expected heading");
    };
    assert_eq!(*level, 2);
    assert_eq!(head.name.as_deref(), Some("manual"));
    assert_eq!(*title, Match::Literal("Manual verification".into()));
    assert_eq!(children.len(), 2);

    let Node::Heading { children: setup, .. } = &children[0] else {
        panic!();
    };
    assert_eq!(setup.len(), 1);
    let Node::List { style, head, .. } = &setup[0] else {
        panic!("expected list");
    };
    assert_eq!(*style, ListStyle::Bullet);
    assert_eq!(head.name.as_deref(), Some("items"));
    assert_eq!(head.card, Card::Plus);

    let Node::Heading { children: proc, .. } = &children[1] else {
        panic!();
    };
    let Node::List { style, children: steps_kids, .. } = &proc[0] else {
        panic!();
    };
    assert_eq!(*style, ListStyle::Ordered);
    assert_eq!(steps_kids.len(), 1);
    let Node::List { head, .. } = &steps_kids[0] else {
        panic!();
    };
    assert_eq!(head.card, Card::Optional);
    assert_eq!(head.name.as_deref(), Some("note"));
}

#[test]
fn flat_heading_schema_nests_by_level() {
    let s = parse("# @root /.+/\n## @child Child\n  - +@items\n");
    let Node::Heading { children, .. } = &s.body[0] else {
        panic!();
    };
    assert_eq!(children.len(), 1, "## nests under # even flat: {:?}", s.body);
    let doc = "# Anything\n## Child\n- a\n- b\n";
    assert!(s.validate(doc).is_empty(), "{:?}", s.validate(doc));
}

#[test]
fn labels_regex_literal_and_bare_with_card() {
    let s = parse("# @title /.+/");
    let Node::Heading { title: Match::Regex(re), .. } = &s.body[0] else {
        panic!();
    };
    assert_eq!(re.as_str(), ".+");

    let s = parse("## + Docs:");
    let Node::Heading { title, head, .. } = &s.body[0] else {
        panic!();
    };
    assert_eq!(head.card, Card::Plus);
    assert_eq!(head.name, None);
    assert_eq!(*title, Match::Literal("Docs:".into()));

    let s = parse("- {1,5}@points");
    let Node::List { head, .. } = &s.body[0] else {
        panic!();
    };
    assert_eq!(head.card, Card::Range(1, Some(5)));
    assert_eq!(head.name.as_deref(), Some("points"));
}

#[test]
fn invalid_regex_label_is_rejected_at_parse() {
    assert!(parse_schema("# @t /(unclosed/").is_err());
}

#[test]
fn duplicate_alias_in_scope_is_rejected() {
    assert!(parse_schema("### @a First\n  - +@x\n### @a Second\n  - +@x\n").is_err());
}

#[test]
fn node_indented_under_prose_is_rejected() {
    assert!(parse_schema("> @intro\n  - +@points\n").is_err());
}

#[test]
fn adjacent_same_marker_lists_are_rejected() {
    assert!(parse_schema("- +@a\n- +@b\n").is_err());
    assert!(parse_schema("- +@a\n1. +@b\n").is_ok());
    assert!(parse_schema("- +@a\n> @sep\n- +@b\n").is_ok());
}

#[test]
fn description_is_fenced_and_label_may_contain_dashes() {
    let s = parse("## @t Trade-offs: speed -- vs -- safety   <? the desc ?>");
    let Node::Heading { title, head, .. } = &s.body[0] else {
        panic!();
    };
    assert_eq!(*title, Match::Literal("Trade-offs: speed -- vs -- safety".into()));
    assert_eq!(head.desc.as_deref(), Some("the desc"));
}

#[test]
fn escaping_leading_special() {
    let s = parse("- \\+literal-plus");
    let Node::List { item, head, .. } = &s.body[0] else {
        panic!();
    };
    assert_eq!(head.card, Card::Required);
    assert_eq!(*item, Some(Match::Literal("+literal-plus".into())));
}

#[test]
fn unterminated_frontmatter_errors() {
    let err = parse_schema("---\ntitle: string\n").unwrap_err();
    assert!(err.message.contains("unterminated frontmatter"));
}

#[test]
fn nested_list_frontmatter_type_is_rejected() {
    assert!(parse_schema("---\nk: [[string]]\n---\n> @b\n").is_err());
}

#[test]
fn deep_nesting_is_bounded_not_crashed() {
    let deep_schema: String = (0..400).map(|i| format!("{}- +@a{i}\n", "  ".repeat(i))).collect();
    assert!(parse_schema(&deep_schema).is_err());
    let s = parse("- +@items\n");
    let deep_doc: String = (0..400).map(|i| format!("{}- x\n", "  ".repeat(i))).collect();
    let _ = s.validate(&deep_doc);
}

#[test]
fn deep_quotes_and_lists_in_a_document_are_not_walked() {
    // Nothing below a block quote is read, nor lists deeper than the block
    // model follows, so such nesting costs no stack.
    let s = parse("## @a A\n");
    let quotes = format!("{} x\n", ">".repeat(20000));
    let problems = s.validate(&quotes);
    assert!(!problems.is_empty());
    let lists = format!("{}x\n", "- ".repeat(5000));
    assert!(!s.validate(&lists).is_empty());
    let items = parse("- +@items\n");
    assert!(!items.validate(&quotes).is_empty());
}

#[test]
fn duplicate_frontmatter_alias_is_reported_at_its_line() {
    let err = parse_schema("---\na: string\nb @a: int\n---\n").unwrap_err();
    assert_eq!((err.line, err.col), (3, 1));
    assert!(err.message.contains("duplicate frontmatter alias `a`"), "{}", err.message);
}

#[test]
fn deeply_bracketed_field_type_is_rejected_not_crashed() {
    let ty = format!("{}string{}", "[".repeat(5000), "]".repeat(5000));
    let err = parse_schema(&format!("---\nk: {ty}\n---\n")).unwrap_err();
    assert_eq!(err.line, 2);
    assert!(err.message.contains("nested list types"), "{}", err.message);
    let one = parse_schema("---\nk: [ string ]\n---\n").unwrap();
    assert!(matches!(one.frontmatter[0].ty, marklens::FieldType::List(_)));
}

#[test]
fn very_deeply_bracketed_field_type_is_read_in_one_pass() {
    let ty = format!("{}string{}", "[".repeat(200_000), "]".repeat(200_000));
    let err = parse_schema(&format!("---\nk: {ty}\n---\n")).unwrap_err();
    assert_eq!(err.line, 2);
    assert!(err.message.contains("nested list types"), "{}", err.message);
    let spaced = parse_schema("---\nk: [  date  ]  \n---\n").unwrap();
    assert!(matches!(spaced.frontmatter[0].ty, marklens::FieldType::List(_)));
    let trailing = parse_schema("---\nk: [string] x\n---\n").unwrap_err();
    assert!(trailing.message.contains("unexpected `x` after list type"), "{}", trailing.message);
}

#[test]
fn invalid_regex_type_reports_the_regex_error() {
    let err = parse_schema("---\nk: /(unclosed/\n---\n").unwrap_err();
    assert!(err.message.starts_with("invalid regex type: "), "{}", err.message);
    assert!(err.message.len() > "invalid regex type: ".len());
}
