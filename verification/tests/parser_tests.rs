use dtd_viewer::model::{AttrDefault, AttrType, ContentModel, Entity, EntityKind, GroupItemContent, GroupKind, Quantifier};
use dtd_viewer::parser::attlist::parse_attlists;
use dtd_viewer::parser::content_model::parse_content_model;
use dtd_viewer::parser::entity::{expand_parameter_entities, parse_entities};
use dtd_viewer::parser::parse_dtd;

#[test]
fn test_single_attr() {
    let input = r#"<!ATTLIST book id ID #REQUIRED>"#;
    let result = parse_attlists(input).unwrap();
    assert_eq!(result.len(), 1);
    assert_eq!(result[0].0, "book");
    assert_eq!(result[0].1.len(), 1);
    assert_eq!(result[0].1[0].name, "id");
    assert!(matches!(result[0].1[0].attr_type, AttrType::Id));
    assert!(matches!(result[0].1[0].default, AttrDefault::Required));
}

#[test]
fn test_multiple_attrs() {
    let input = r#"<!ATTLIST book
            id ID #REQUIRED
            lang CDATA #IMPLIED
        >"#;
    let result = parse_attlists(input).unwrap();
    assert_eq!(result[0].1.len(), 2);
}

#[test]
fn test_enumeration() {
    let input = r#"<!ATTLIST item type (a|b|c) "a">"#;
    let result = parse_attlists(input).unwrap();
    if let AttrType::Enumeration(ref vals) = result[0].1[0].attr_type {
        assert_eq!(vals, &["a", "b", "c"]);
    } else {
        panic!("expected enumeration");
    }
    if let AttrDefault::Default(ref v) = result[0].1[0].default {
        assert_eq!(v, "a");
    } else {
        panic!("expected default");
    }
}

#[test]
fn test_empty() {
    assert!(matches!(parse_content_model("EMPTY").unwrap(), ContentModel::Empty));
}

#[test]
fn test_any() {
    assert!(matches!(parse_content_model("ANY").unwrap(), ContentModel::Any));
}

#[test]
fn test_pcdata() {
    assert!(matches!(parse_content_model("(#PCDATA)").unwrap(), ContentModel::Pcdata));
}

#[test]
fn test_pcdata_star() {
    assert!(matches!(parse_content_model("(#PCDATA)*").unwrap(), ContentModel::Pcdata));
}

#[test]
fn test_mixed() {
    if let ContentModel::Mixed(names) = parse_content_model("(#PCDATA | em | strong)*").unwrap() {
        assert_eq!(names, vec!["em", "strong"]);
    } else {
        panic!("expected Mixed");
    }
}

#[test]
fn test_sequence() {
    if let ContentModel::Children(g) = parse_content_model("(title, author, year)").unwrap() {
        assert_eq!(g.kind, GroupKind::Sequence);
        assert_eq!(g.items.len(), 3);
    } else {
        panic!("expected Children");
    }
}

#[test]
fn test_choice() {
    if let ContentModel::Children(g) = parse_content_model("(a | b | c)").unwrap() {
        assert_eq!(g.kind, GroupKind::Choice);
        assert_eq!(g.items.len(), 3);
    } else {
        panic!("expected Children");
    }
}

#[test]
fn test_quantifiers() {
    if let ContentModel::Children(g) = parse_content_model("(a+, b?, c*)").unwrap() {
        assert_eq!(g.items[0].quantifier, Quantifier::OneOrMore);
        assert_eq!(g.items[1].quantifier, Quantifier::Optional);
        assert_eq!(g.items[2].quantifier, Quantifier::ZeroOrMore);
    } else {
        panic!("expected Children");
    }
}

#[test]
fn test_nested_group() {
    let m = parse_content_model("(a, (b | c)+)").unwrap();
    if let ContentModel::Children(g) = m {
        assert_eq!(g.kind, GroupKind::Sequence);
        assert_eq!(g.items.len(), 2);
        assert_eq!(g.items[1].quantifier, Quantifier::OneOrMore);
        if let GroupItemContent::Group(ref inner) = g.items[1].content {
            assert_eq!(inner.kind, GroupKind::Choice);
            assert_eq!(inner.items.len(), 2);
        } else {
            panic!("expected nested group");
        }
    } else {
        panic!("expected Children");
    }
}

#[test]
fn test_internal_entity() {
    let input = r#"<!ENTITY copyright "© 2024 Example Corp">"#;
    let entities = parse_entities(input).unwrap();
    assert_eq!(entities.len(), 1);
    assert_eq!(entities[0].name, "copyright");
    assert!(!entities[0].is_parameter);
    if let EntityKind::Internal { ref value } = entities[0].kind {
        assert_eq!(value, "© 2024 Example Corp");
    } else {
        panic!("expected internal entity");
    }
}

#[test]
fn test_parameter_entity() {
    let input = r#"<!ENTITY % common "(#PCDATA | em | strong)*">"#;
    let entities = parse_entities(input).unwrap();
    assert_eq!(entities.len(), 1);
    assert!(entities[0].is_parameter);
    assert_eq!(entities[0].name, "common");
}

#[test]
fn test_expand() {
    let entities = vec![Entity {
        name: "common".to_string(),
        is_parameter: true,
        kind: EntityKind::Internal {
            value: "(#PCDATA | em)*".to_string(),
        },
    }];
    let result = expand_parameter_entities("<!ELEMENT p %common;>", &entities);
    assert_eq!(result, "<!ELEMENT p (#PCDATA | em)*>");
}

#[test]
fn test_full_parse() {
    let input = r#"
<!ENTITY % inline "(#PCDATA | em)*">

<!ELEMENT library (book+)>
<!ELEMENT book (title, author?, chapter+)>
<!ELEMENT title %inline;>
<!ELEMENT author %inline;>
<!ELEMENT chapter (heading, paragraph*)>
<!ELEMENT heading (#PCDATA)>
<!ELEMENT paragraph %inline;>
<!ELEMENT em (#PCDATA)>

<!ATTLIST book
    id ID #REQUIRED
    lang CDATA #IMPLIED
>
        "#;

    let dtd = parse_dtd(input).unwrap();
    assert_eq!(dtd.elements.len(), 8);
    assert!(dtd.elements.contains_key("library"));
    assert!(dtd.elements.contains_key("book"));

    let book = &dtd.elements["book"];
    assert_eq!(book.attributes.len(), 2);
    assert_eq!(book.attributes[0].name, "id");

    assert_eq!(dtd.entities.len(), 1);
    assert!(dtd.entities[0].is_parameter);
}
