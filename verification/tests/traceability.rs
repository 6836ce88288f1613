use std::path::PathBuf;
use sysdoc::model::SectionNumber;
use sysdoc::source_model::{MarkdownSection, SectionMetadata};
use sysdoc::traceability::{
    forward_traceability_table, generated_tables, holds, insert_ascending, merge_ascending,
    reverse_traceability_table, traceability_entries, TableKind, TraceabilityRow,
};
use sysdoc::unified_document::{DocumentMetadata, Person, UnifiedDocument};

fn entry(id: Option<&str>, traced: Option<&[&str]>) -> SectionMetadata {
    SectionMetadata {
        section_id: id.map(|s| s.to_string()),
        traced_ids: traced.map(|l| l.iter().map(|s| s.to_string()).collect()),
        ..Default::default()
    }
}

fn pairs(rows: &[TraceabilityRow]) -> Vec<(String, String)> {
    rows.iter().map(|r| (r.key.clone(), r.values.clone())).collect()
}

fn expect(rows: &[(&str, &str)]) -> Vec<(String, String)> {
    rows.iter().map(|(k, v)| (k.to_string(), v.to_string())).collect()
}

fn document_metadata() -> DocumentMetadata {
    DocumentMetadata {
        system_id: None,
        document_id: "D".to_string(),
        title: "T".to_string(),
        subtitle: None,
        description: None,
        doc_type: "SDD".to_string(),
        standard: "S".to_string(),
        template: "t".to_string(),
        owner: Person { name: "o".to_string(), email: "o@example.com".to_string() },
        approver: Person { name: "a".to_string(), email: "a@example.com".to_string() },
        version: None,
        modified: None,
        revision_history: Vec::new(),
        protection_mark: None,
        title_page_background: None,
        heading_color: "#000000".to_string(),
    }
}

fn section(number: &str, metadata: Option<SectionMetadata>) -> MarkdownSection {
    MarkdownSection {
        heading_level: 1,
        heading_text: number.to_string(),
        section_number: SectionNumber::parse(number).unwrap(),
        line_number: 1,
        source_file: PathBuf::from(number),
        content: vec![],
        metadata,
    }
}

#[test]
fn forward_and_reverse_tables_of_two_sections() {
    let entries = vec![entry(Some("A"), Some(&["y", "x"])), entry(Some("B"), Some(&["x"]))];
    assert_eq!(pairs(&forward_traceability_table(&entries)), expect(&[("A", "x,y"), ("B", "x")]));
    assert_eq!(pairs(&reverse_traceability_table(&entries)), expect(&[("x", "A,B"), ("y", "A")]));
}

#[test]
fn tables_do_not_depend_on_the_order_of_entries() {
    let entries = vec![entry(Some("B"), Some(&["x"])), entry(Some("A"), Some(&["y", "x"]))];
    assert_eq!(pairs(&forward_traceability_table(&entries)), expect(&[("A", "x,y"), ("B", "x")]));
    assert_eq!(pairs(&reverse_traceability_table(&entries)), expect(&[("x", "A,B"), ("y", "A")]));

    let many = vec![
        entry(Some("S3"), Some(&["R2", "R10", "R1"])),
        entry(Some("S1"), Some(&["R1"])),
        entry(None, Some(&["R9"])),
        entry(Some("S2"), None),
        entry(Some("S1"), Some(&["R3", "R1"])),
        entry(None, None),
    ];
    let mut turned: Vec<SectionMetadata> = many.iter().cloned().collect();
    turned.reverse();
    turned.swap(1, 3);
    assert_eq!(forward_traceability_table(&many), forward_traceability_table(&turned));
    assert_eq!(reverse_traceability_table(&many), reverse_traceability_table(&turned));
    assert_eq!(
        pairs(&forward_traceability_table(&many)),
        expect(&[("S1", "R1,R3"), ("S2", ""), ("S3", "R1,R10,R2")])
    );
    assert_eq!(
        pairs(&reverse_traceability_table(&many)),
        expect(&[("R1", "S1,S3"), ("R10", "S3"), ("R2", "S3"), ("R3", "S1")])
    );
}

#[test]
fn rows_are_deduplicated_and_sorted_lexically() {
    let entries = vec![
        entry(Some("b"), Some(&["z", "a", "z", "B", "10", "9", ""])),
        entry(Some("B"), Some(&["a"])),
        entry(Some("b"), Some(&["a", "ab"])),
    ];
    assert_eq!(
        pairs(&forward_traceability_table(&entries)),
        expect(&[("B", "a"), ("b", ",10,9,B,a,ab,z")])
    );
    assert_eq!(
        pairs(&reverse_traceability_table(&entries)),
        expect(&[("", "b"), ("10", "b"), ("9", "b"), ("B", "b"), ("a", "B,b"), ("ab", "b"), ("z", "b")])
    );
}

#[test]
fn tables_of_nothing_are_empty() {
    assert!(forward_traceability_table(&vec![]).is_empty());
    assert!(reverse_traceability_table(&vec![]).is_empty());
    let unnamed = vec![entry(None, Some(&["x"])), entry(None, None)];
    assert!(forward_traceability_table(&unnamed).is_empty());
    assert!(reverse_traceability_table(&unnamed).is_empty());
}

#[test]
fn sorted_insertion_keeps_order_and_drops_repeats() {
    let mut list: Vec<String> = Vec::new();
    for item in ["m", "a", "z", "m", "b", "a", "mm", ""] {
        insert_ascending(&mut list, item);
    }
    assert_eq!(list, vec!["", "a", "b", "m", "mm", "z"]);
    merge_ascending(&mut list, &vec!["c".to_string(), "a".to_string(), "zz".to_string()]);
    assert_eq!(list, vec!["", "a", "b", "c", "m", "mm", "z", "zz"]);
    assert!(holds(&list, "mm"));
    assert!(!holds(&list, "n"));
}

#[test]
fn entries_of_a_document_are_those_with_traceability() {
    let mut requester = entry(None, None);
    requester.generate_section_id_to_traced_ids_table = true;
    let sections = vec![
        section("3", Some(entry(Some("C"), None))),
        section("1", Some(entry(Some("A"), Some(&["x"])))),
        section("2", None),
        section("4", Some(requester)),
        section("5", Some(entry(None, Some(&["y"])))),
    ];
    let document = UnifiedDocument::assemble(document_metadata(), PathBuf::from("."), sections).unwrap();
    let entries = traceability_entries(&document);
    let ids: Vec<Option<String>> = entries.iter().map(|e| e.section_id.clone()).collect();
    assert_eq!(ids, vec![Some("A".to_string()), Some("C".to_string()), None]);
}

#[test]
fn each_request_gets_the_table_of_the_whole_document() {
    let mut first = entry(Some("A"), Some(&["y", "x"]));
    first.generate_traced_ids_to_section_ids_table = true;
    let mut second = entry(Some("B"), Some(&["x"]));
    second.generate_section_id_to_traced_ids_table = true;
    second.generate_traced_ids_to_section_ids_table = true;
    let mut third = entry(None, None);
    third.generate_section_id_to_traced_ids_table = true;
    let sections = vec![
        section("2", Some(second)),
        section("1", Some(first)),
        section("3", None),
        section("4", Some(third)),
    ];
    let document = UnifiedDocument::assemble(document_metadata(), PathBuf::from("."), sections).unwrap();
    let tables = generated_tables(&document);
    let places: Vec<(usize, TableKind)> = tables.iter().map(|t| (t.section, t.kind)).collect();
    assert_eq!(
        places,
        vec![
            (0, TableKind::TracedToSection),
            (1, TableKind::SectionToTraced),
            (1, TableKind::TracedToSection),
            (3, TableKind::SectionToTraced),
        ]
    );
    let forward = expect(&[("A", "x,y"), ("B", "x")]);
    let reverse = expect(&[("x", "A,B"), ("y", "A")]);
    assert_eq!(pairs(&tables[0].rows), reverse);
    assert_eq!(pairs(&tables[1].rows), forward);
    assert_eq!(pairs(&tables[2].rows), reverse);
    assert_eq!(pairs(&tables[3].rows), forward);
}

#[test]
fn document_without_requests_has_no_generated_tables() {
    let sections = vec![section("1", Some(entry(Some("A"), Some(&["x"])))), section("2", None)];
    let document = UnifiedDocument::assemble(document_metadata(), PathBuf::from("."), sections).unwrap();
    assert!(generated_tables(&document).is_empty());
}
