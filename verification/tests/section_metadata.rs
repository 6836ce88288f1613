use sysdoc::source_model::section_metadata::{Field, FieldValue, MetadataError};
use sysdoc::source_model::SectionMetadata;

#[test]
fn test_parse_empty() {
    let metadata = SectionMetadata::parse("").unwrap();
    assert_eq!(metadata.section_id, None);
    assert_eq!(metadata.traced_ids, None);
    assert!(!metadata.generate_section_id_to_traced_ids_table);
    assert!(!metadata.generate_traced_ids_to_section_ids_table);
}

#[test]
fn test_parse_section_id_only() {
    let metadata = SectionMetadata::parse(r#"section_id = "REQ-001""#).unwrap();
    assert_eq!(metadata.section_id, Some("REQ-001".to_string()));
    assert_eq!(metadata.traced_ids, None);
}

#[test]
fn test_parse_traced_ids() {
    let metadata = SectionMetadata::parse(r#"traced_ids = ["SRS-001", "SRS-002"]"#).unwrap();
    assert_eq!(
        metadata.traced_ids,
        Some(vec!["SRS-001".to_string(), "SRS-002".to_string()])
    );
}

#[test]
fn test_parse_full_metadata() {
    let content = r#"
section_id = "SDD-3.2.1"
traced_ids = ["SRS-REQ-001", "SRS-REQ-002"]
generate_section_id_to_traced_ids_table = true
generate_traced_ids_to_section_ids_table = false
"#;
    let metadata = SectionMetadata::parse(content).unwrap();
    assert_eq!(metadata.section_id, Some("SDD-3.2.1".to_string()));
    assert_eq!(
        metadata.traced_ids,
        Some(vec!["SRS-REQ-001".to_string(), "SRS-REQ-002".to_string()])
    );
    assert!(metadata.generate_section_id_to_traced_ids_table);
    assert!(!metadata.generate_traced_ids_to_section_ids_table);
}

#[test]
fn test_has_traceability() {
    let empty = SectionMetadata::default();
    assert!(!empty.has_traceability());

    let with_section_id = SectionMetadata {
        section_id: Some("REQ-001".to_string()),
        ..Default::default()
    };
    assert!(with_section_id.has_traceability());

    let with_traced_ids = SectionMetadata {
        traced_ids: Some(vec!["SRS-001".to_string()]),
        ..Default::default()
    };
    assert!(with_traced_ids.has_traceability());
}

#[test]
fn test_requests_table_generation() {
    let empty = SectionMetadata::default();
    assert!(!empty.requests_table_generation());

    let with_forward = SectionMetadata {
        generate_section_id_to_traced_ids_table: true,
        ..Default::default()
    };
    assert!(with_forward.requests_table_generation());

    let with_reverse = SectionMetadata {
        generate_traced_ids_to_section_ids_table: true,
        ..Default::default()
    };
    assert!(with_reverse.requests_table_generation());
}

#[test]
fn empty_block_has_nothing_to_trace() {
    let metadata = SectionMetadata::parse("").unwrap();
    assert!(!metadata.has_traceability());
    assert!(!metadata.requests_table_generation());
    assert_eq!(metadata, SectionMetadata::default());
}

#[test]
fn section_id_alone_is_traceability() {
    let metadata = SectionMetadata::parse(r#"section_id = "REQ-001""#).unwrap();
    assert!(metadata.has_traceability());
    assert!(!metadata.requests_table_generation());
}

#[test]
fn reverse_flag_is_read() {
    let metadata = SectionMetadata::parse("generate_traced_ids_to_section_ids_table = true").unwrap();
    assert!(!metadata.generate_section_id_to_traced_ids_table);
    assert!(metadata.generate_traced_ids_to_section_ids_table);
    assert!(metadata.requests_table_generation());
    assert!(!metadata.has_traceability());
}

#[test]
fn unknown_keys_are_ignored() {
    let content = r#"
owner = "someone"
section_id = "A"
priority = 3

[extra]
nested = [1, 2, 3]
"#;
    let metadata = SectionMetadata::parse(content).unwrap();
    assert_eq!(metadata.section_id, Some("A".to_string()));
    assert_eq!(metadata.traced_ids, None);
}

#[test]
fn empty_list_of_traced_ids_is_present() {
    let metadata = SectionMetadata::parse("traced_ids = []").unwrap();
    assert_eq!(metadata.traced_ids, Some(vec![]));
    assert!(metadata.has_traceability());
}

#[test]
fn malformed_toml_is_a_syntax_error() {
    assert!(matches!(SectionMetadata::parse("section_id = "), Err(MetadataError::Syntax(_))));
    assert!(matches!(SectionMetadata::parse("not toml at all"), Err(MetadataError::Syntax(_))));
    assert!(matches!(
        SectionMetadata::parse("section_id = \"a\"\nsection_id = \"b\""),
        Err(MetadataError::Syntax(_))
    ));
}

#[test]
fn wrong_kind_names_the_key() {
    match SectionMetadata::parse("section_id = 5") {
        Err(MetadataError::WrongKind { key }) => assert_eq!(key, "section_id"),
        other => panic!("unexpected: {:?}", other),
    }
    match SectionMetadata::parse("traced_ids = \"SRS-001\"") {
        Err(MetadataError::WrongKind { key }) => assert_eq!(key, "traced_ids"),
        other => panic!("unexpected: {:?}", other),
    }
    match SectionMetadata::parse("traced_ids = [\"SRS-001\", 2]") {
        Err(MetadataError::WrongKind { key }) => assert_eq!(key, "traced_ids"),
        other => panic!("unexpected: {:?}", other),
    }
    match SectionMetadata::parse("generate_section_id_to_traced_ids_table = \"yes\"") {
        Err(MetadataError::WrongKind { key }) => assert_eq!(key, "generate_section_id_to_traced_ids_table"),
        other => panic!("unexpected: {:?}", other),
    }
    match SectionMetadata::parse("generate_traced_ids_to_section_ids_table = 1") {
        Err(MetadataError::WrongKind { key }) => assert_eq!(key, "generate_traced_ids_to_section_ids_table"),
        other => panic!("unexpected: {:?}", other),
    }
    match SectionMetadata::parse("[section_id]\nname = \"x\"") {
        Err(MetadataError::WrongKind { key }) => assert_eq!(key, "section_id"),
        other => panic!("unexpected: {:?}", other),
    }
}

#[test]
fn first_wrong_field_in_record_order_is_named() {
    let content = "generate_traced_ids_to_section_ids_table = 1\ntraced_ids = 7\n";
    match SectionMetadata::parse(content) {
        Err(MetadataError::WrongKind { key }) => assert_eq!(key, "traced_ids"),
        other => panic!("unexpected: {:?}", other),
    }
}

#[test]
fn from_fields_decodes_each_key() {
    let fields = vec![
        Field { key: "other".to_string(), value: FieldValue::Other },
        Field { key: "traced_ids".to_string(), value: FieldValue::List(vec![Some("b".to_string()), Some("a".to_string())]) },
        Field { key: "section_id".to_string(), value: FieldValue::Text("S".to_string()) },
        Field { key: "generate_section_id_to_traced_ids_table".to_string(), value: FieldValue::Flag(true) },
    ];
    let metadata = SectionMetadata::from_fields(&fields).unwrap();
    assert_eq!(metadata.section_id, Some("S".to_string()));
    assert_eq!(metadata.traced_ids, Some(vec!["b".to_string(), "a".to_string()]));
    assert!(metadata.generate_section_id_to_traced_ids_table);
    assert!(!metadata.generate_traced_ids_to_section_ids_table);
}

#[test]
fn from_fields_reads_the_first_entry_of_a_key() {
    let fields = vec![
        Field { key: "section_id".to_string(), value: FieldValue::Text("first".to_string()) },
        Field { key: "section_id".to_string(), value: FieldValue::Flag(true) },
    ];
    let metadata = SectionMetadata::from_fields(&fields).unwrap();
    assert_eq!(metadata.section_id, Some("first".to_string()));
}

#[test]
fn from_fields_rejects_a_list_with_a_foreign_element() {
    let fields = vec![Field {
        key: "traced_ids".to_string(),
        value: FieldValue::List(vec![Some("a".to_string()), None]),
    }];
    match SectionMetadata::from_fields(&fields) {
        Err(MetadataError::WrongKind { key }) => assert_eq!(key, "traced_ids"),
        other => panic!("unexpected: {:?}", other),
    }
}

#[test]
fn clone_of_metadata_is_equal() {
    let metadata = SectionMetadata {
        section_id: Some("A".to_string()),
        traced_ids: Some(vec!["x".to_string(), "y".to_string()]),
        generate_section_id_to_traced_ids_table: true,
        generate_traced_ids_to_section_ids_table: false,
    };
    assert_eq!(metadata.clone(), metadata);
}
