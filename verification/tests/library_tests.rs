use dtd_viewer::display::{scroll_offset, RowStyle};
use dtd_viewer::error::{DeclKind, DtdError};
use dtd_viewer::format::{
    decimal_text, format_attributes, format_entity, format_inline_attrs, join_strings,
    mermaid_lines,
};
use dtd_viewer::keys::{Command, Key};
use dtd_viewer::model::{
    AttrDefault, AttrType, Attribute, ContentModel, Entity, EntityKind, GroupItemContent,
    Quantifier,
};
use dtd_viewer::parser::attlist::parse_attlists;
use dtd_viewer::parser::content_model::parse_content_model;
use dtd_viewer::parser::element::parse_elements;
use dtd_viewer::parser::entity::{expand_parameter_entities, parse_entities};
use dtd_viewer::parser::parse_dtd;
use dtd_viewer::state::{AppState, Overlay};
use dtd_viewer::static_tree::static_lines;
use dtd_viewer::tree::{
    collect_child_names, count_children, find_roots, find_tree_roots, get_direct_children,
};

const BOOK: &str = r#"
<!ENTITY % t "(#PCDATA)">
<!ELEMENT doc (sec+, note?)>
<!ELEMENT sec (title, sec*)>
<!ELEMENT title %t;>
<!ELEMENT note (title)>
<!ATTLIST doc id ID #REQUIRED>
"#;

fn attr(name: &str, attr_type: AttrType, default: AttrDefault) -> Attribute {
    Attribute { name: name.to_string(), attr_type, default }
}

fn row_texts(state: &AppState) -> Vec<String> {
    (0..state.rows.len()).map(|i| state.row_text(i)).collect()
}

// ---------------------------------------------------------------------------
// Errors: one input for each
// ---------------------------------------------------------------------------

#[test]
fn error_unclosed_element() {
    let e = parse_dtd("<!ELEMENT a (b)").unwrap_err();
    assert!(matches!(e, DtdError::Unclosed { decl: DeclKind::Element, position: 0 }));
}

#[test]
fn error_unclosed_attlist() {
    let e = parse_attlists("x <!ATTLIST a b CDATA #IMPLIED").unwrap_err();
    assert!(matches!(e, DtdError::Unclosed { decl: DeclKind::Attlist, position: 2 }));
}

#[test]
fn error_unclosed_entity() {
    let e = parse_entities("<!ENTITY x 'y'").unwrap_err();
    assert!(matches!(e, DtdError::Unclosed { decl: DeclKind::Entity, position: 0 }));
}

#[test]
fn error_missing_content_model() {
    match parse_elements("<!ELEMENT a>").unwrap_err() {
        DtdError::MissingContentModel { text } => assert_eq!(text, "a"),
        other => panic!("unexpected {:?}", other),
    }
}

#[test]
fn error_expected_char() {
    let e = parse_content_model("(a,b").unwrap_err();
    assert!(matches!(e, DtdError::ExpectedChar { expected: b')', position: 4, found: None }));
}

#[test]
fn error_expected_open_paren() {
    assert!(matches!(parse_content_model("foo").unwrap_err(), DtdError::ExpectedOpenParen));
}

#[test]
fn error_expected_pcdata() {
    assert!(matches!(parse_content_model("(#PCDATAX)").unwrap_err(), DtdError::ExpectedPcdata));
}

#[test]
fn error_unexpected_in_group() {
    let e = parse_content_model("(a;b)").unwrap_err();
    assert!(matches!(e, DtdError::UnexpectedInGroup { found: Some(b';') }));
    let e = parse_content_model("(a").unwrap_err();
    assert!(matches!(e, DtdError::UnexpectedInGroup { found: None }));
}

#[test]
fn error_expected_name() {
    let e = parse_content_model("(,a)").unwrap_err();
    assert!(matches!(e, DtdError::ExpectedName { position: 1 }));
}

#[test]
fn error_expected_att_name() {
    let e = parse_attlists("<!ATTLIST $>").unwrap_err();
    assert!(matches!(e, DtdError::ExpectedAttName { position: 0 }));
}

#[test]
fn error_unknown_attr_type_is_upper_cased() {
    match parse_attlists("<!ATTLIST a b foo #IMPLIED>").unwrap_err() {
        DtdError::UnknownAttrType { keyword } => assert_eq!(keyword, "FOO"),
        other => panic!("unexpected {:?}", other),
    }
}

#[test]
fn error_bad_enumeration() {
    let e = parse_attlists("<!ATTLIST a b (x y) 'x'>").unwrap_err();
    assert!(matches!(e, DtdError::BadEnumeration));
}

#[test]
fn error_unknown_default() {
    match parse_attlists("<!ATTLIST a b CDATA #foo>").unwrap_err() {
        DtdError::UnknownDefault { keyword } => assert_eq!(keyword, "FOO"),
        other => panic!("unexpected {:?}", other),
    }
}

#[test]
fn error_expected_default() {
    let e = parse_attlists("<!ATTLIST a b CDATA x>").unwrap_err();
    assert!(matches!(e, DtdError::ExpectedDefault { position: 10 }));
}

#[test]
fn error_expected_quoted_string() {
    let e = parse_attlists("<!ATTLIST a b CDATA #FIXED>").unwrap_err();
    assert!(matches!(e, DtdError::ExpectedQuotedString));
    let e = parse_entities("<!ENTITY x SYSTEM>").unwrap_err();
    assert!(matches!(e, DtdError::ExpectedQuotedString));
}

#[test]
fn error_expected_quote() {
    let e = parse_attlists("<!ATTLIST a b CDATA #FIXED x>").unwrap_err();
    assert!(matches!(e, DtdError::ExpectedQuote));
}

#[test]
fn error_expected_quote_char() {
    let e = parse_entities("<!ENTITY x SYSTEM foo>").unwrap_err();
    assert!(matches!(e, DtdError::ExpectedQuoteChar));
}

#[test]
fn error_unexpected_entity_value() {
    match parse_entities("<!ENTITY x foo>").unwrap_err() {
        DtdError::UnexpectedEntityValue { value } => assert_eq!(value, "foo"),
        other => panic!("unexpected {:?}", other),
    }
}

// ---------------------------------------------------------------------------
// Parsing
// ---------------------------------------------------------------------------

#[test]
fn entity_declaration_without_name_is_skipped() {
    let ents = parse_entities("<!ENTITY > <!ENTITY % > <!ENTITY a 'b'>").unwrap();
    assert_eq!(ents.len(), 1);
    assert_eq!(ents[0].name, "a");
}

#[test]
fn external_entities() {
    let ents = parse_entities(
        r#"<!ENTITY logo SYSTEM "logo.gif"> <!ENTITY % std public "-//X//EN" 'std.dtd'>"#,
    )
    .unwrap();
    assert_eq!(ents.len(), 2);
    match &ents[0].kind {
        EntityKind::ExternalSystem { uri } => assert_eq!(uri, "logo.gif"),
        other => panic!("unexpected {:?}", other),
    }
    assert!(ents[1].is_parameter);
    match &ents[1].kind {
        EntityKind::ExternalPublic { public_id, uri } => {
            assert_eq!(public_id, "-//X//EN");
            assert_eq!(uri, "std.dtd");
        }
        other => panic!("unexpected {:?}", other),
    }
}

#[test]
fn closing_angle_inside_quotes_is_skipped() {
    let al = parse_attlists(r#"<!ATTLIST a b CDATA "x>y">"#).unwrap();
    match &al[0].1[0].default {
        AttrDefault::Default(v) => assert_eq!(v, "x>y"),
        other => panic!("unexpected {:?}", other),
    }
}

#[test]
fn keywords_are_case_insensitive() {
    assert!(matches!(parse_content_model("empty").unwrap(), ContentModel::Empty));
    assert!(matches!(parse_content_model("Any").unwrap(), ContentModel::Any));
    let al = parse_attlists("<!ATTLIST a b nmtokens #fixed 'v'>").unwrap();
    assert!(matches!(al[0].1[0].attr_type, AttrType::Nmtokens));
    assert!(matches!(&al[0].1[0].default, AttrDefault::Fixed(v) if v == "v"));
}

#[test]
fn group_with_quantifier_is_wrapped() {
    match parse_content_model("(a, b)*").unwrap() {
        ContentModel::Children(g) => {
            assert_eq!(g.items.len(), 1);
            assert_eq!(g.items[0].quantifier, Quantifier::ZeroOrMore);
            assert!(matches!(&g.items[0].content, GroupItemContent::Group(inner) if inner.items.len() == 2));
        }
        other => panic!("unexpected {:?}", other),
    }
}

#[test]
fn later_element_declaration_replaces_earlier() {
    let dtd = parse_dtd("<!ELEMENT a (b)> <!ELEMENT c EMPTY> <!ELEMENT a ANY>").unwrap();
    let keys: Vec<&String> = dtd.elements.keys().collect();
    assert_eq!(keys, vec!["a", "c"]);
    assert!(matches!(dtd.elements.get("a").unwrap().content, ContentModel::Any));
}

// ---------------------------------------------------------------------------
// Laws, on concrete values
// ---------------------------------------------------------------------------

#[test]
fn law_content_model_ignores_surrounding_space_example() {
    let a = parse_content_model(" \n (a | b)+ \t").unwrap();
    let b = parse_content_model("(a | b)+").unwrap();
    assert_eq!(format!("{:?}", a), format!("{:?}", b));
    let e1 = parse_content_model("  (a").unwrap_err();
    let e2 = parse_content_model("(a").unwrap_err();
    assert_eq!(format!("{:?}", e1), format!("{:?}", e2));
}

#[test]
fn law_quantifier_text_reads_back_example() {
    for q in [Quantifier::One, Quantifier::Optional, Quantifier::ZeroOrMore, Quantifier::OneOrMore] {
        let text = format!("(a{})", q.text());
        match parse_content_model(&text).unwrap() {
            ContentModel::Children(g) => assert_eq!(g.items[0].quantifier, q),
            other => panic!("unexpected {:?}", other),
        }
    }
}

#[test]
fn law_expansion_without_parameter_entities_example() {
    let ents = vec![
        Entity {
            name: "x".to_string(),
            is_parameter: false,
            kind: EntityKind::Internal { value: "X".to_string() },
        },
        Entity {
            name: "y".to_string(),
            is_parameter: true,
            kind: EntityKind::ExternalSystem { uri: "y.dtd".to_string() },
        },
    ];
    assert_eq!(expand_parameter_entities("a %x; %y; &x;", &ents), "a %x; %y; &x;");
}

#[test]
fn law_replace_absent_pattern_example() {
    let ents = vec![Entity {
        name: "p".to_string(),
        is_parameter: true,
        kind: EntityKind::Internal { value: "Q".to_string() },
    }];
    assert_eq!(expand_parameter_entities("no reference here", &ents), "no reference here");
    assert_eq!(expand_parameter_entities("%p;%p; %p", &ents), "QQ %p");
}

#[test]
fn law_dtd_holds_declared_names_example() {
    let dtd = parse_dtd("<!ATTLIST ghost g CDATA #IMPLIED> <!ELEMENT a EMPTY>").unwrap();
    let keys: Vec<&String> = dtd.elements.keys().collect();
    assert_eq!(keys, vec!["a", "ghost"]);
    let ghost = dtd.elements.get("ghost").unwrap();
    assert!(matches!(ghost.content, ContentModel::Any));
    assert_eq!(ghost.attributes.len(), 1);
}

#[test]
fn attributes_of_several_lists_are_appended() {
    let dtd = parse_dtd(
        "<!ELEMENT a EMPTY> <!ATTLIST a x CDATA #IMPLIED> <!ATTLIST a y ID #REQUIRED>",
    )
    .unwrap();
    let a = dtd.elements.get("a").unwrap();
    let names: Vec<&str> = a.attributes.iter().map(|at| at.name.as_str()).collect();
    assert_eq!(names, vec!["x", "y"]);
}

#[test]
fn law_down_undoes_up_example() {
    let mut s = AppState::new(parse_dtd(BOOK).unwrap());
    s.move_down();
    assert_eq!(s.cursor, 1);
    s.move_up();
    s.move_down();
    assert_eq!(s.cursor, 1);
    s.move_down();
    s.move_down();
    assert_eq!(s.cursor, 2);
    s.move_up();
    s.move_up();
    s.move_up();
    assert_eq!(s.cursor, 0);
}

#[test]
fn law_collapse_undoes_expand_example() {
    let mut s = AppState::new(parse_dtd(BOOK).unwrap());
    let before = row_texts(&s);
    s.move_down();
    s.expand();
    assert_eq!(s.rows.len(), 5);
    s.collapse();
    assert_eq!(row_texts(&s), before);
    assert_eq!(s.expanded, vec!["doc".to_string()]);
}

#[test]
fn law_backspace_undoes_input_example() {
    let mut s = AppState::new(parse_dtd(BOOK).unwrap());
    s.start_search();
    s.search_input('s');
    let matches = s.search_matches.clone();
    s.search_input('x');
    assert!(s.search_matches.is_empty());
    s.search_backspace();
    assert_eq!(s.search_query, "s");
    assert_eq!(s.search_matches, matches);
}

#[test]
fn law_prev_undoes_next_example() {
    let mut s = AppState::new(parse_dtd(BOOK).unwrap());
    s.start_search();
    s.search_input('O');
    s.finish_search();
    assert_eq!(s.search_matches, vec![0, 2]);
    assert_eq!(s.search_match_idx, Some(0));
    s.next_search_match();
    assert_eq!(s.cursor, 2);
    s.prev_search_match();
    assert_eq!(s.search_match_idx, Some(0));
    assert_eq!(s.cursor, 0);
    s.prev_search_match();
    assert_eq!(s.search_match_idx, Some(1));
    s.next_search_match();
    assert_eq!(s.search_match_idx, Some(0));
}

#[test]
fn law_keys_keep_consistent_example() {
    let mut s = AppState::new(parse_dtd(BOOK).unwrap());
    for (key, pressed) in [
        (Key::Char('/'), true),
        (Key::Char('e'), true),
        (Key::Enter, true),
        (Key::Char('n'), true),
        (Key::Char('/'), true),
        (Key::Char('z'), true),
        (Key::Enter, true),
        (Key::Char('N'), true),
    ] {
        assert!(!s.handle_key(key, pressed));
        if let Some(i) = s.search_match_idx {
            assert!(i < s.search_matches.len());
        }
        if s.search_mode {
            assert!(s.search_match_idx.is_none());
        }
    }
}

// ---------------------------------------------------------------------------
// Keys
// ---------------------------------------------------------------------------

#[test]
fn keys_give_commands() {
    let mut s = AppState::new(parse_dtd(BOOK).unwrap());
    assert_eq!(s.command_for(Key::Char('q'), true), Command::Quit);
    assert_eq!(s.command_for(Key::Char('q'), false), Command::Ignore);
    assert_eq!(s.command_for(Key::Char('j'), true), Command::MoveDown);
    assert_eq!(s.command_for(Key::Right, true), Command::Expand);
    assert_eq!(s.command_for(Key::Other, true), Command::Ignore);
    s.show_entities();
    assert_eq!(s.command_for(Key::Char('q'), true), Command::CloseOverlay);
    assert_eq!(s.command_for(Key::Char('j'), true), Command::Ignore);
    s.close_overlay();
    s.start_search();
    assert_eq!(s.command_for(Key::Char('q'), true), Command::SearchInput('q'));
    assert_eq!(s.command_for(Key::Esc, true), Command::CancelSearch);
}

#[test]
fn quit_key_ends_the_view() {
    let mut s = AppState::new(parse_dtd(BOOK).unwrap());
    assert!(!s.handle_key(Key::Char('q'), false));
    assert!(!s.handle_key(Key::Char('a'), true));
    assert!(matches!(&s.overlay, Some(Overlay::Attributes(n)) if n == "doc"));
    assert!(!s.handle_key(Key::Char('q'), true));
    assert!(s.overlay.is_none());
    assert!(s.handle_key(Key::Char('q'), true));
}

// ---------------------------------------------------------------------------
// Texts
// ---------------------------------------------------------------------------

#[test]
fn quantifier_and_attribute_texts() {
    assert_eq!(Quantifier::One.text(), "");
    assert_eq!(Quantifier::Optional.text(), "?");
    assert_eq!(Quantifier::ZeroOrMore.text(), "*");
    assert_eq!(Quantifier::OneOrMore.text(), "+");
    assert_eq!(AttrType::Cdata.text(), "CDATA");
    assert_eq!(AttrType::Idrefs.text(), "IDREFS");
    let e = AttrType::Enumeration(vec!["a".to_string(), "b".to_string(), "c".to_string()]);
    assert_eq!(e.text(), "(a|b|c)");
    assert_eq!(AttrDefault::Required.text(), "#REQUIRED");
    assert_eq!(AttrDefault::Fixed("v".to_string()).text(), "#FIXED \"v\"");
    assert_eq!(AttrDefault::Default("a".to_string()).text(), "\"a\"");
}

#[test]
fn attribute_lists_as_text() {
    let attrs = vec![
        attr("id", AttrType::Id, AttrDefault::Required),
        attr("lang", AttrType::Cdata, AttrDefault::Implied),
    ];
    assert_eq!(format_attributes(&attrs), " [@id: ID #REQUIRED, @lang: CDATA #IMPLIED]");
    assert_eq!(format_inline_attrs(&attrs), " [@id: ID, @lang: CDATA]");
    assert_eq!(format_attributes(&[]), "");
    assert_eq!(format_inline_attrs(&[]), "");
}

#[test]
fn entity_lines() {
    let e = Entity {
        name: "inline".to_string(),
        is_parameter: true,
        kind: EntityKind::Internal { value: "(#PCDATA | em)*".to_string() },
    };
    assert_eq!(format_entity(&e), "  %inline; = \"(#PCDATA | em)*\"");
    let e = Entity {
        name: "logo".to_string(),
        is_parameter: false,
        kind: EntityKind::ExternalSystem { uri: "logo.gif".to_string() },
    };
    assert_eq!(format_entity(&e), "  &logo; = SYSTEM \"logo.gif\"");
    let e = Entity {
        name: "std".to_string(),
        is_parameter: true,
        kind: EntityKind::ExternalPublic { public_id: "-//X//EN".to_string(), uri: "s.dtd".to_string() },
    };
    assert_eq!(format_entity(&e), "  %std; = PUBLIC \"-//X//EN\" \"s.dtd\"");
}

#[test]
fn numbers_and_joins() {
    assert_eq!(decimal_text(0), "0");
    assert_eq!(decimal_text(7), "7");
    assert_eq!(decimal_text(1234), "1234");
    assert_eq!(join_strings(&vec!["a".to_string(), "b".to_string()], ", "), "a, b");
    assert_eq!(join_strings(&vec![], ", "), "");
}

#[test]
fn mermaid_graph() {
    let dtd = parse_dtd("<!ELEMENT a (b, c?)> <!ELEMENT b (#PCDATA | c)*> <!ELEMENT c EMPTY>").unwrap();
    assert_eq!(
        mermaid_lines(&dtd),
        vec!["graph TD", "    a -->b", "    a -->|\"?\"| c", "    b -->c"]
    );
}

#[test]
fn static_view() {
    let dtd = parse_dtd(BOOK).unwrap();
    assert_eq!(
        static_lines(&dtd),
        vec![
            "=== Entities ===",
            "  %t; = \"(#PCDATA)\"",
            "",
            "=== Elements ===",
            "doc [@id: ID #REQUIRED]",
            "├── sec+",
            "│   ├── title",
            "│   └── sec* (recursive)",
            "└── note?",
            "    └── title",
        ]
    );
}

#[test]
fn static_view_shows_repeated_element_once() {
    let dtd = parse_dtd("<!ELEMENT doc (a, b)> <!ELEMENT a (c)> <!ELEMENT b (a)> <!ELEMENT c EMPTY>").unwrap();
    assert_eq!(
        static_lines(&dtd),
        vec![
            "=== Elements ===",
            "doc",
            "├── a",
            "│   └── c",
            "└── b",
            "    └── a → (1 children, see above)",
        ]
    );
}

#[test]
fn static_view_of_nothing() {
    let dtd = parse_dtd("").unwrap();
    assert!(static_lines(&dtd).is_empty());
}

#[test]
fn roots_and_children() {
    let dtd = parse_dtd(BOOK).unwrap();
    assert_eq!(find_roots(&dtd), vec!["doc"]);
    let doc = dtd.elements.get("doc").unwrap();
    let kids = get_direct_children(&doc.content);
    assert_eq!(kids, vec![("sec".to_string(), Quantifier::OneOrMore), ("note".to_string(), Quantifier::Optional)]);
    assert_eq!(count_children(&doc.content), 2);
    let nested = parse_content_model("(a, (b | c)+, #PCDATA)").unwrap();
    assert_eq!(count_children(&nested), 4);
}

#[test]
fn child_names_are_collected_in_order() {
    let mut names = vec!["x".to_string()];
    collect_child_names(&parse_content_model("(a, (b | c)+, d?)").unwrap(), &mut names);
    assert_eq!(names, vec!["x", "a", "b", "c", "d"]);
    collect_child_names(&parse_content_model("(#PCDATA | e)*").unwrap(), &mut names);
    assert_eq!(names.last().unwrap(), "e");
    collect_child_names(&parse_content_model("EMPTY").unwrap(), &mut names);
    assert_eq!(names.len(), 6);
}

// ---------------------------------------------------------------------------
// The interactive view
// ---------------------------------------------------------------------------

#[test]
fn initial_rows() {
    let s = AppState::new(parse_dtd(BOOK).unwrap());
    assert_eq!(s.expanded, vec!["doc".to_string()]);
    assert_eq!(row_texts(&s), vec!["▼ doc [@id: ID]", "  ▶ sec+ (2 children)", "  ▶ note? (1 children)"]);
}

#[test]
fn expanding_marks_cycles() {
    let mut s = AppState::new(parse_dtd(BOOK).unwrap());
    s.move_down();
    s.expand();
    assert_eq!(
        row_texts(&s),
        vec!["▼ doc [@id: ID]", "  ▼ sec+", "      title", "      sec*", "  ▶ note? (1 children)"]
    );
    assert_eq!(s.rows[3].path, "doc/sec/sec");
    assert!(!s.rows[3].has_children);
    s.move_down();
    s.move_down();
    s.collapse();
    assert_eq!(s.cursor, 1);
}

#[test]
fn search_is_case_insensitive() {
    let mut s = AppState::new(parse_dtd(BOOK).unwrap());
    s.start_search();
    s.search_input('S');
    s.search_input('E');
    assert_eq!(s.search_matches, vec![1]);
    assert_eq!(s.help_text(), "Search: SE█");
    s.finish_search();
    assert!(!s.search_mode);
    assert_eq!(s.cursor, 1);
    assert_eq!(s.row_style(1), RowStyle::Cursor);
    assert_eq!(s.row_style(0), RowStyle::Plain);
    s.move_up();
    assert_eq!(s.row_style(1), RowStyle::Match);
    s.cancel_search();
    assert!(s.search_matches.is_empty());
    assert!(s.help_text().starts_with("[↑↓] move"));
}

#[test]
fn overlays() {
    let mut s = AppState::new(parse_dtd(BOOK).unwrap());
    assert_eq!(s.overlay_title(&Overlay::Entities), " Entities ");
    assert_eq!(s.overlay_lines(&Overlay::Entities), vec!["  %t; = \"(#PCDATA)\""]);
    let doc = Overlay::Attributes("doc".to_string());
    assert_eq!(s.overlay_title(&doc), " Attributes: doc ");
    assert_eq!(s.overlay_lines(&doc), vec!["  @id: ID #REQUIRED"]);
    assert_eq!(s.overlay_lines(&Overlay::Attributes("sec".to_string())), vec!["No attributes defined."]);
    assert!(s.overlay_lines(&Overlay::Attributes("nope".to_string())).is_empty());
    s.move_down();
    s.show_attributes();
    assert!(matches!(&s.overlay, Some(Overlay::Attributes(n)) if n == "sec"));
    let empty = AppState::new(parse_dtd("<!ELEMENT a EMPTY>").unwrap());
    assert_eq!(empty.overlay_lines(&Overlay::Entities), vec!["No entities defined."]);
}

#[test]
fn scrolling() {
    assert_eq!(scroll_offset(3, 5), 0);
    assert_eq!(scroll_offset(4, 5), 0);
    assert_eq!(scroll_offset(5, 5), 1);
    assert_eq!(scroll_offset(10, 5), 6);
    assert_eq!(scroll_offset(0, 0), 1);
}

#[test]
fn clones_are_equal() {
    let dtd = parse_dtd(BOOK).unwrap();
    for (_, e) in dtd.elements.iter() {
        assert_eq!(format!("{:?}", e.clone()), format!("{:?}", e));
    }
    let e = dtd.entities[0].clone();
    assert_eq!(format!("{:?}", e), format!("{:?}", dtd.entities[0]));
    let s = AppState::new(dtd);
    assert_eq!(format!("{:?}", s.rows[1].clone()), format!("{:?}", s.rows[1]));
    let o = Overlay::Attributes("doc".to_string());
    assert_eq!(format!("{:?}", o.clone()), format!("{:?}", o));
}

#[test]
fn mixed_content_is_recognised_after_parentheses_and_space() {
    match parse_content_model("( #PCDATA | a)*").unwrap() {
        ContentModel::Mixed(names) => assert_eq!(names, vec!["a"]),
        other => panic!("unexpected {:?}", other),
    }
    let e = parse_content_model("((#PCDATA))").unwrap_err();
    assert!(matches!(e, DtdError::ExpectedName { position: 1 }));
}

#[test]
fn element_naming_itself_is_still_a_root() {
    let dtd = parse_dtd("<!ELEMENT a (a?)>").unwrap();
    assert_eq!(find_roots(&dtd), vec!["a"]);
    assert_eq!(static_lines(&dtd), vec!["=== Elements ===", "a", "└── a? (recursive)"]);
    // The interactive tree counts an element naming itself: it has no root here.
    let s = AppState::new(dtd);
    assert!(s.rows.is_empty());
    assert!(s.expanded.is_empty());
    let dtd = parse_dtd("<!ELEMENT a (b)> <!ELEMENT b (a)>").unwrap();
    assert!(find_roots(&dtd).is_empty());
}

#[test]
fn repeated_children_have_paths_of_their_own() {
    let mut s = AppState::new(parse_dtd("<!ELEMENT r (a, a)> <!ELEMENT a (#PCDATA | b)*> <!ELEMENT b EMPTY>").unwrap());
    let paths: Vec<&str> = s.rows.iter().map(|r| r.path.as_str()).collect();
    assert_eq!(paths, vec!["r", "r/a", "r/a[1]"]);
    s.move_down();
    s.expand();
    assert_eq!(row_texts(&s), vec!["▼ r", "  ▼ a", "      b", "  ▶ a (1 children)"]);
}

#[test]
fn law_dtd_order_example() {
    let dtd = parse_dtd(
        "<!ATTLIST z q CDATA #IMPLIED> <!ELEMENT b EMPTY> <!ELEMENT a EMPTY> \
         <!ATTLIST y q CDATA #IMPLIED> <!ATTLIST a q CDATA #IMPLIED> <!ELEMENT b ANY> \
         <!ATTLIST z r CDATA #IMPLIED>",
    )
    .unwrap();
    let keys: Vec<&String> = dtd.elements.keys().collect();
    assert_eq!(keys, vec!["b", "a", "z", "y"]);
    for (k, e) in dtd.elements.iter() {
        assert_eq!(k, &e.name);
    }
    assert_eq!(dtd.elements.get("z").unwrap().attributes.len(), 2);
}

#[test]
fn law_one_element_declaration_example() {
    for c in ["(a, b?)", "  (#PCDATA | x)* ", "EMPTY", "(a", "   ", "foo"] {
        let input = format!("<!ELEMENT n {}>", c);
        let els = parse_elements(&input);
        let cm = parse_content_model(c);
        assert_eq!(els.is_ok(), cm.is_ok());
        if let (Ok(els), Ok(cm)) = (els, cm) {
            assert_eq!(els.len(), 1);
            assert_eq!(els[0].name, "n");
            assert_eq!(format!("{:?}", els[0].content), format!("{:?}", cm));
            assert!(els[0].attributes.is_empty());
        }
    }
}

#[test]
fn law_rows_shape_example() {
    let mut s = AppState::new(parse_dtd("<!ELEMENT r (a, b)> <!ELEMENT a (b)> <!ELEMENT b EMPTY> <!ELEMENT q EMPTY>").unwrap());
    s.move_down();
    s.expand();
    let tops: Vec<&str> = s.rows.iter().filter(|r| r.depth == 0).map(|r| r.element_name.as_str()).collect();
    assert_eq!(tops, find_tree_roots(&s.dtd).iter().map(|x| x.as_str()).collect::<Vec<_>>());
    for w in s.rows.windows(2) {
        assert!(w[1].depth <= w[0].depth + 1);
        if w[1].depth == w[0].depth + 1 {
            assert!(w[0].is_expanded);
        }
    }
    for r in &s.rows {
        assert_eq!(r.is_expanded, r.has_children && s.expanded.contains(&r.path));
    }
}

#[test]
fn law_collapse_restores_rows_example() {
    let mut s = AppState::new(parse_dtd(BOOK).unwrap());
    s.move_down();
    s.move_down();
    let rows = row_texts(&s);
    let expanded = s.expanded.clone();
    s.expand();
    assert!(s.rows[2].is_expanded);
    s.collapse();
    assert_eq!(row_texts(&s), rows);
    assert_eq!(s.expanded, expanded);
    assert_eq!(s.cursor, 2);
}

#[test]
fn tree_paths_are_names_joined_by_slashes() {
    let s = AppState::new(parse_dtd("<!ELEMENT r (a, b*)><!ELEMENT a (b)><!ELEMENT b EMPTY>").unwrap());
    let rows: Vec<(usize, &str, Quantifier, bool, bool, &str)> = s
        .rows
        .iter()
        .map(|r| (r.depth, r.element_name.as_str(), r.quantifier, r.has_children, r.is_expanded, r.path.as_str()))
        .collect();
    assert_eq!(
        rows,
        vec![
            (0, "r", Quantifier::One, true, true, "r"),
            (1, "a", Quantifier::One, true, false, "r/a"),
            (1, "b", Quantifier::ZeroOrMore, false, false, "r/b"),
        ]
    );
    assert_eq!(s.expanded, vec!["r".to_string()]);
    assert_eq!(s.cursor, 0);
    assert!(!s.search_mode && s.search_query.is_empty() && s.search_matches.is_empty());
    assert!(s.search_match_idx.is_none() && s.overlay.is_none());
}

#[test]
fn cloned_dtd_keeps_elements_and_entities() {
    let d = parse_dtd(BOOK).unwrap();
    let c = d.clone();
    let names: Vec<&String> = c.elements.keys().collect();
    assert_eq!(names, vec!["doc", "sec", "title", "note"]);
    assert_eq!(c.entities.len(), 1);
    assert_eq!(c.entities[0].name, "t");
    assert_eq!(c.elements["doc"].attributes.len(), 1);
    assert_eq!(static_lines(&c), static_lines(&d));
}
