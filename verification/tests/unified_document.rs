use std::path::PathBuf;
use sysdoc::model::SectionNumber;
use sysdoc::source_model::{MarkdownBlock, MarkdownSection, TableSource};
use sysdoc::unified_document::{
    format_display_date, revision_history, AssemblyError, DocumentBuilder, DocumentMetadata, Person,
    TagRecord, UnifiedDocument,
};

fn test_metadata() -> DocumentMetadata {
    DocumentMetadata {
        system_id: None,
        document_id: "TEST-001".to_string(),
        title: "Test Document".to_string(),
        subtitle: None,
        description: None,
        doc_type: "SDD".to_string(),
        standard: "DI-IPSC-81435B".to_string(),
        template: "sdd-standard-v1".to_string(),
        owner: Person {
            name: "John Doe".to_string(),
            email: "john@example.com".to_string(),
        },
        approver: Person {
            name: "Jane Smith".to_string(),
            email: "jane@example.com".to_string(),
        },
        version: None,
        modified: None,
        revision_history: Vec::new(),
        protection_mark: None,
        title_page_background: None,
        heading_color: "#2B579A".to_string(),
    }
}

fn section(number: &str, file: &str, content: Vec<MarkdownBlock>) -> MarkdownSection {
    MarkdownSection {
        heading_level: 1,
        heading_text: file.to_string(),
        section_number: SectionNumber::parse(number).unwrap(),
        line_number: 1,
        source_file: PathBuf::from(file),
        content,
        metadata: None,
    }
}

fn text(t: &str) -> MarkdownBlock {
    MarkdownBlock::Text { text: t.to_string() }
}

fn image(url: &str) -> MarkdownBlock {
    MarkdownBlock::Image { url: url.to_string(), alt_text: "alt".to_string() }
}

fn table(path: &str) -> MarkdownBlock {
    MarkdownBlock::TableReference { path: path.to_string() }
}

#[test]
fn test_document_builder() {
    let section = MarkdownSection {
        heading_level: 1,
        heading_text: "Introduction".to_string(),
        section_number: SectionNumber::parse("1").unwrap(),
        line_number: 1,
        source_file: PathBuf::from("test.md"),
        content: vec![],
        metadata: None,
    };

    let mut builder = DocumentBuilder::new(test_metadata(), PathBuf::from("."));
    builder.add_section(section);
    let doc = builder.build().unwrap();

    assert_eq!(doc.sections.len(), 1);
    assert_eq!(doc.sections[0].heading_text, "Introduction");
}

#[test]
fn test_table_count() {
    let doc = UnifiedDocument::new(test_metadata(), PathBuf::from("."));
    assert_eq!(doc.table_count(), 0);
}

#[test]
fn test_format_display_date_iso8601() {
    // Standard ISO 8601 format
    assert_eq!(
        format_display_date("2026-07-06T12:34:56+00:00"),
        "6 Jul 2026"
    );
    assert_eq!(
        format_display_date("2024-01-15T09:00:00+10:00"),
        "15 Jan 2024"
    );
    assert_eq!(
        format_display_date("2025-12-31T23:59:59-05:00"),
        "31 Dec 2025"
    );
}

#[test]
fn test_format_display_date_date_only() {
    // Date only without time component
    assert_eq!(format_display_date("2026-07-06"), "6 Jul 2026");
    assert_eq!(format_display_date("2024-02-29"), "29 Feb 2024");
}

#[test]
fn test_format_display_date_invalid_returns_original() {
    // Invalid formats come back unchanged
    assert_eq!(format_display_date("not a date"), "not a date");
    assert_eq!(format_display_date("2024-13-01"), "2024-13-01"); // Invalid month
    assert_eq!(format_display_date(""), "");
}

#[test]
fn display_date_of_every_month() {
    let names = ["Jan", "Feb", "Mar", "Apr", "May", "Jun", "Jul", "Aug", "Sep", "Oct", "Nov", "Dec"];
    for (i, name) in names.iter().enumerate() {
        let iso = format!("1999-{:02}-09", i + 1);
        assert_eq!(format_display_date(&iso), format!("9 {} 1999", name));
    }
}

#[test]
fn display_date_edge_cases() {
    assert_eq!(format_display_date("2024-00-01"), "2024-00-01");
    assert_eq!(format_display_date("2024-1-1"), "1 Jan 2024");
    assert_eq!(format_display_date("+2024-+1-+1"), "1 Jan 2024");
    assert_eq!(format_display_date("2024-01"), "2024-01");
    assert_eq!(format_display_date("2024-01-15-99"), "15 Jan 2024");
    assert_eq!(format_display_date("2024-01-x"), "2024-01-x");
    assert_eq!(format_display_date("-2024-01-15"), "-2024-01-15");
    assert_eq!(format_display_date("2024-01-15 T"), "2024-01-15 T");
    assert_eq!(format_display_date("T2024-01-15"), "T2024-01-15");
    assert_eq!(format_display_date("0-12-0"), "0 Dec 0");
    assert_eq!(format_display_date("2147483647-12-4294967295"), "4294967295 Dec 2147483647");
    assert_eq!(format_display_date("2147483648-12-01"), "2147483648-12-01");
    assert_eq!(format_display_date("2024-12-4294967296"), "2024-12-4294967296");
    assert_eq!(format_display_date("2024-00000000000000000000000012-31"), "31 Dec 2024");
    assert_eq!(format_display_date("2024-99999999999999999999999999-31"), "2024-99999999999999999999999999-31");
    assert_eq!(format_display_date("2024-06-07Tjunk-with-T"), "7 Jun 2024");
}

#[test]
fn revision_rows_keep_the_order_given() {
    let tags = vec![
        TagRecord { name: "v2.0".to_string(), timestamp: "2025-03-02T10:00:00+00:00".to_string(), message: "second".to_string() },
        TagRecord { name: "v1.0".to_string(), timestamp: "2024-11-30".to_string(), message: "first".to_string() },
        TagRecord { name: "v0".to_string(), timestamp: "unknown".to_string(), message: "".to_string() },
    ];
    let rows = revision_history(&tags);
    assert_eq!(rows.len(), 3);
    assert_eq!(rows[0].version, "v2.0");
    assert_eq!(rows[0].date, "2 Mar 2025");
    assert_eq!(rows[0].description, "second");
    assert_eq!(rows[1].version, "v1.0");
    assert_eq!(rows[1].date, "30 Nov 2024");
    assert_eq!(rows[1].description, "first");
    assert_eq!(rows[2].date, "unknown");
    assert!(revision_history(&vec![]).is_empty());
}

#[test]
fn assembly_sorts_sections_by_number() {
    let sections = vec![
        section("2.1", "c.md", vec![]),
        section("1.10", "b.md", vec![]),
        section("1.2", "a.md", vec![]),
        section("10", "e.md", vec![]),
        section("2", "d.md", vec![]),
        section("1", "z.md", vec![]),
    ];
    let doc = UnifiedDocument::assemble(test_metadata(), PathBuf::from("root"), sections).unwrap();
    assert_eq!(doc.section_count(), 6);
    let order: Vec<String> = doc.sections.iter().map(|s| s.section_number.to_string()).collect();
    assert_eq!(order, vec!["1", "1.2", "1.10", "2", "2.1", "10"]);
    let files: Vec<&str> = doc.sections.iter().map(|s| s.heading_text.as_str()).collect();
    assert_eq!(files, vec!["z.md", "a.md", "b.md", "d.md", "c.md", "e.md"]);
    assert_eq!(doc.root, PathBuf::from("root"));
    assert_eq!(doc.metadata.document_id, "TEST-001");
}

#[test]
fn assembly_does_not_depend_on_the_order_given() {
    let numbers = ["3", "1", "2.5", "2", "1.1"];
    let forward: Vec<MarkdownSection> = numbers.iter().map(|n| section(n, n, vec![])).collect();
    let backward: Vec<MarkdownSection> = numbers.iter().rev().map(|n| section(n, n, vec![])).collect();
    let a = UnifiedDocument::assemble(test_metadata(), PathBuf::from("."), forward).unwrap();
    let b = UnifiedDocument::assemble(test_metadata(), PathBuf::from("."), backward).unwrap();
    let order_a: Vec<String> = a.sections.iter().map(|s| s.section_number.to_string()).collect();
    let order_b: Vec<String> = b.sections.iter().map(|s| s.section_number.to_string()).collect();
    assert_eq!(order_a, vec!["1", "1.1", "2", "2.5", "3"]);
    assert_eq!(order_a, order_b);
}

#[test]
fn assembly_of_nothing_is_an_empty_document() {
    let doc = UnifiedDocument::assemble(test_metadata(), PathBuf::from("."), vec![]).unwrap();
    assert_eq!(doc.section_count(), 0);
    assert_eq!(doc.table_count(), 0);
    assert_eq!(doc.image_count(), 0);
    assert_eq!(doc.word_count(), 0);
}

#[test]
fn duplicate_section_number_is_an_error() {
    let sections = vec![
        section("1", "one.md", vec![]),
        section("2", "two.md", vec![]),
        section("3", "three.md", vec![]),
        section("02", "two-again.md", vec![]),
        section("1", "one-again.md", vec![]),
    ];
    match UnifiedDocument::assemble(test_metadata(), PathBuf::from("."), sections) {
        Err(AssemblyError::DuplicateSectionNumber { number, first_source, second_source }) => {
            assert_eq!(number.parts, vec![2]);
            assert_eq!(first_source, PathBuf::from("two.md"));
            assert_eq!(second_source, PathBuf::from("two-again.md"));
        },
        Ok(_) => panic!("duplicate was accepted"),
    }
}

#[test]
fn duplicate_names_the_earliest_carrier() {
    let sections = vec![
        section("5", "a.md", vec![]),
        section("5", "b.md", vec![]),
        section("5", "c.md", vec![]),
    ];
    match UnifiedDocument::assemble(test_metadata(), PathBuf::from("."), sections) {
        Err(AssemblyError::DuplicateSectionNumber { number, first_source, second_source }) => {
            assert_eq!(number.parts, vec![5]);
            assert_eq!(first_source, PathBuf::from("a.md"));
            assert_eq!(second_source, PathBuf::from("b.md"));
        },
        Ok(_) => panic!("duplicate was accepted"),
    }
}

#[test]
fn tables_are_collected_section_by_section() {
    let sections = vec![
        section("2", "two.md", vec![table("late.csv"), text("x"), table("later.csv")]),
        section("1", "one.md", vec![text("intro"), table("early.csv"), image("i.png")]),
        section("3", "three.md", vec![table("early.csv")]),
    ];
    let doc = UnifiedDocument::assemble(test_metadata(), PathBuf::from("."), sections).unwrap();
    assert_eq!(doc.table_count(), 4);
    let found: Vec<(String, String)> =
        doc.tables.iter().map(|t| (t.path.clone(), t.section.to_string())).collect();
    assert_eq!(
        found,
        vec![
            ("early.csv".to_string(), "1".to_string()),
            ("late.csv".to_string(), "2".to_string()),
            ("later.csv".to_string(), "2".to_string()),
            ("early.csv".to_string(), "3".to_string()),
        ]
    );
}

#[test]
fn image_count_counts_only_images() {
    let sections = vec![
        section("1", "one.md", vec![image("a.png"), text("t"), image("b.png")]),
        section("2", "two.md", vec![table("t.csv")]),
        section("3", "three.md", vec![image("c.png")]),
    ];
    let mut doc = UnifiedDocument::assemble(test_metadata(), PathBuf::from("."), sections).unwrap();
    assert_eq!(doc.image_count(), 3);
    assert_eq!(doc.word_count(), 5);

    doc.sections[0].content.push(text("more"));
    doc.sections[1].content.insert(0, table("u.csv"));
    doc.sections[2].content.push(MarkdownBlock::CodeBlock { language: None, content: "c".to_string() });
    doc.sections[2].content.push(MarkdownBlock::Other { source: pulldown_cmark::Event::Rule });
    assert_eq!(doc.image_count(), 3);
    assert_eq!(doc.word_count(), 9);

    doc.sections[1].content.push(image("d.png"));
    assert_eq!(doc.image_count(), 4);
    assert_eq!(doc.checked_image_count(), Some(4));
    assert_eq!(doc.checked_word_count(), Some(10));
}

#[test]
fn checked_counts_agree_with_the_counts() {
    let empty = UnifiedDocument::new(test_metadata(), PathBuf::from("."));
    assert_eq!(empty.checked_image_count(), Some(0));
    assert_eq!(empty.checked_word_count(), Some(0));
    let sections = vec![
        section("1", "one.md", vec![text("t"), image("a.png")]),
        section("2", "two.md", vec![image("b.png"), table("t.csv"), image("c.png")]),
    ];
    let doc = UnifiedDocument::assemble(test_metadata(), PathBuf::from("."), sections).unwrap();
    assert_eq!(doc.checked_image_count(), Some(doc.image_count()));
    assert_eq!(doc.checked_word_count(), Some(doc.word_count()));
    assert_eq!(doc.image_count(), 3);
    assert_eq!(doc.word_count(), 5);
}

#[test]
fn builder_sorts_sections_and_keeps_tables_as_added() {
    let mut builder = DocumentBuilder::new(test_metadata(), PathBuf::from("src"));
    builder.add_section(section("02.01", "two-one.md", vec![text("b")]));
    builder.add_section(section("01.02", "one-two.md", vec![image("i.png")]));
    builder.add_section(section("1", "one.md", vec![]));
    builder.add_table(TableSource { path: "b.csv".to_string(), section: SectionNumber::parse("2.1").unwrap() });
    builder.add_table(TableSource { path: "a.csv".to_string(), section: SectionNumber::parse("1.2").unwrap() });
    let doc = builder.build().unwrap();
    assert_eq!(doc.section_count(), 3);
    assert_eq!(doc.table_count(), 2);
    let order: Vec<String> = doc.sections.iter().map(|s| s.section_number.to_string()).collect();
    assert_eq!(order, vec!["1", "1.2", "2.1"]);
    assert_eq!(doc.sections[1].heading_text, "one-two.md");
    assert_eq!(doc.sections[2].heading_text, "two-one.md");
    assert!(doc.is_well_formed());
    assert_eq!(doc.tables[0].path, "b.csv");
    assert_eq!(doc.tables[1].path, "a.csv");
    assert_eq!(doc.root, PathBuf::from("src"));
    assert_eq!(doc.image_count(), 1);
    assert_eq!(doc.word_count(), 2);
}

#[test]
fn builder_rejects_a_number_added_twice() {
    let mut builder = DocumentBuilder::new(test_metadata(), PathBuf::from("."));
    builder.add_section(section("01.01", "a/01.01_purpose.md", vec![]));
    builder.add_section(section("02", "02_design.md", vec![]));
    builder.add_section(section("01.01", "b/01.01_scope.md", vec![]));
    match builder.build() {
        Err(AssemblyError::DuplicateSectionNumber { number, first_source, second_source }) => {
            assert_eq!(number.parts, vec![1, 1]);
            assert_eq!(first_source, PathBuf::from("a/01.01_purpose.md"));
            assert_eq!(second_source, PathBuf::from("b/01.01_scope.md"));
        },
        Ok(_) => panic!("duplicate was accepted"),
    }
}

#[test]
fn empty_builder_gives_an_empty_document() {
    let doc = DocumentBuilder::new(test_metadata(), PathBuf::from(".")).build().unwrap();
    assert_eq!(doc.section_count(), 0);
    assert_eq!(doc.table_count(), 0);
    assert!(doc.is_well_formed());
}

#[test]
fn new_document_is_empty() {
    let doc = UnifiedDocument::new(test_metadata(), PathBuf::from("."));
    assert_eq!(doc.section_count(), 0);
    assert_eq!(doc.image_count(), 0);
    assert_eq!(doc.word_count(), 0);
    assert_eq!(doc.metadata.title, "Test Document");
}

#[test]
fn order_of_sections_can_be_checked() {
    let mut builder = DocumentBuilder::new(test_metadata(), PathBuf::from("."));
    assert!(UnifiedDocument::new(test_metadata(), PathBuf::from(".")).is_well_formed());
    builder.add_section(section("1", "a.md", vec![]));
    builder.add_section(section("1.1", "b.md", vec![]));
    builder.add_section(section("2", "c.md", vec![]));
    let mut doc = builder.build().unwrap();
    assert!(doc.is_well_formed());
    doc.sections.push(section("2", "d.md", vec![]));
    assert!(!doc.is_well_formed());
    doc.sections.pop();
    doc.sections.push(section("1.5", "e.md", vec![]));
    assert!(!doc.is_well_formed());
    doc.sections.swap(2, 3);
    assert!(doc.is_well_formed());

    let assembled = UnifiedDocument::assemble(
        test_metadata(),
        PathBuf::from("."),
        vec![section("3", "x", vec![]), section("1", "y", vec![]), section("2", "z", vec![])],
    )
    .unwrap();
    assert!(assembled.is_well_formed());
}
