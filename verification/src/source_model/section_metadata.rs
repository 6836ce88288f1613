//! Traceability metadata that a section embeds as a block of TOML.

use crate::text::{text_equal, texts};
use vstd::prelude::*;

verus! {

/// `toml::de::Error`: the parser's report of a document that it rejects. The
/// library keeps it for the caller and never looks into it.
#[verifier::external_type_specification]
#[verifier::external_body]
pub struct ExTomlError(toml::de::Error);

/// The value of one top-level entry of a metadata block, as far as the
/// metadata record reads it.
#[derive(Debug)]
pub enum FieldValue {
    /// A string.
    Text(String),
    /// A boolean.
    Flag(bool),
    /// An array; an element that is not a string stands as `None`.
    List(Vec<Option<String>>),
    /// Any other kind of value.
    Other,
}

/// One top-level entry of a metadata block.
#[derive(Debug)]
pub struct Field {
    /// The key of the entry.
    pub key: String,
    /// What the entry holds.
    pub value: FieldValue,
}

/// The value of an entry by its characters.
pub enum FieldValueView {
    Text(Seq<char>),
    Flag(bool),
    List(Seq<Option<Seq<char>>>),
    Other,
}

/// An entry by its characters.
pub struct FieldView {
    pub key: Seq<char>,
    pub value: FieldValueView,
}

/// An array element by its characters.
pub open spec fn element_view(element: Option<String>) -> Option<Seq<char>> {
    match element {
        Some(text) => Some(text@),
        None => None,
    }
}

impl View for FieldValue {
    type V = FieldValueView;

    open spec fn view(&self) -> FieldValueView {
        match self {
            FieldValue::Text(text) => FieldValueView::Text(text@),
            FieldValue::Flag(flag) => FieldValueView::Flag(*flag),
            FieldValue::List(items) => FieldValueView::List(
                items@.map_values(|e: Option<String>| element_view(e)),
            ),
            FieldValue::Other => FieldValueView::Other,
        }
    }
}

impl View for Field {
    type V = FieldView;

    open spec fn view(&self) -> FieldView {
        FieldView { key: self.key@, value: self.value@ }
    }
}

/// The entries of a list by their views.
pub open spec fn field_views(fields: Seq<Field>) -> Seq<FieldView> {
    fields.map_values(|f: Field| f@)
}

/// Traceability metadata of one section. Every field may be left out of the
/// block: an identifier or a list that is left out is absent, a flag that is
/// left out is `false`.
#[derive(Debug, PartialEq, Eq)]
pub struct SectionMetadata {
    /// Identifier of this section, such as `REQ-001`.
    pub section_id: Option<String>,
    /// Identifiers that this section traces to.
    pub traced_ids: Option<Vec<String>>,
    /// Asks for the table from section identifiers to traced identifiers at
    /// this section.
    pub generate_section_id_to_traced_ids_table: bool,
    /// Asks for the table from traced identifiers to section identifiers at
    /// this section.
    pub generate_traced_ids_to_section_ids_table: bool,
}

/// A metadata record by its characters.
pub struct SectionMetadataView {
    pub section_id: Option<Seq<char>>,
    pub traced_ids: Option<Seq<Seq<char>>>,
    pub generate_section_id_to_traced_ids_table: bool,
    pub generate_traced_ids_to_section_ids_table: bool,
}

impl View for SectionMetadata {
    type V = SectionMetadataView;

    open spec fn view(&self) -> SectionMetadataView {
        SectionMetadataView {
            section_id: match self.section_id {
                Some(id) => Some(id@),
                None => None,
            },
            traced_ids: match self.traced_ids {
                Some(ids) => Some(texts(ids@)),
                None => None,
            },
            generate_section_id_to_traced_ids_table: self.generate_section_id_to_traced_ids_table,
            generate_traced_ids_to_section_ids_table: self.generate_traced_ids_to_section_ids_table,
        }
    }
}

/// Why a metadata block yields no record.
#[derive(Debug)]
pub enum MetadataError {
    /// The block is not a TOML document; the parser's own report is kept.
    Syntax(toml::de::Error),
    /// The entry under `key` holds a value of the wrong kind.
    WrongKind { key: String },
}

/// Why a block yields no record, without the parser's report.
pub enum MetadataFault {
    Syntax,
    WrongKind { key: Seq<char> },
}

impl View for MetadataError {
    type V = MetadataFault;

    open spec fn view(&self) -> MetadataFault {
        match self {
            MetadataError::Syntax(_) => MetadataFault::Syntax,
            MetadataError::WrongKind { key } => MetadataFault::WrongKind { key: key@ },
        }
    }
}

/// A result of decoding by its views.
pub open spec fn outcome(result: Result<SectionMetadata, MetadataError>) -> Result<
    SectionMetadataView,
    MetadataFault,
> {
    match result {
        Ok(metadata) => Ok(metadata@),
        Err(error) => Err(error@),
    }
}

/// The value of the first entry under `key`.
pub open spec fn find_field(fields: Seq<FieldView>, key: Seq<char>) -> Option<FieldValueView>
    decreases fields.len(),
{
    if fields.len() == 0 {
        None
    } else if fields[0].key == key {
        Some(fields[0].value)
    } else {
        find_field(fields.drop_first(), key)
    }
}

/// An optional string entry: absent, a string, or of the wrong kind (the
/// outer `None`).
pub open spec fn text_entry(value: Option<FieldValueView>) -> Option<Option<Seq<char>>> {
    match value {
        None => Some(None),
        Some(FieldValueView::Text(text)) => Some(Some(text)),
        Some(_) => None,
    }
}

/// An optional entry that lists strings: absent, an array of strings only, or
/// of the wrong kind (the outer `None`).
pub open spec fn list_entry(value: Option<FieldValueView>) -> Option<Option<Seq<Seq<char>>>> {
    match value {
        None => Some(None),
        Some(FieldValueView::List(items)) => if forall|i: int|
            0 <= i < items.len() ==> (#[trigger] items[i]) is Some {
            Some(Some(items.map_values(|e: Option<Seq<char>>| e.unwrap())))
        } else {
            None
        },
        Some(_) => None,
    }
}

/// A flag entry: `false` when absent, a boolean, or of the wrong kind
/// (`None`).
pub open spec fn flag_entry(value: Option<FieldValueView>) -> Option<bool> {
    match value {
        None => Some(false),
        Some(FieldValueView::Flag(flag)) => Some(flag),
        Some(_) => None,
    }
}

/// The record that the entries of a block denote. Each of the four keys is
/// read on its own, from the first entry that carries it; entries under
/// other keys are ignored. Where several entries are of the wrong kind, the
/// fault names the first of them in the order of the record's fields.
pub open spec fn decode_fields(fields: Seq<FieldView>) -> Result<SectionMetadataView, MetadataFault> {
    let section_id = text_entry(find_field(fields, "section_id"@));
    let traced_ids = list_entry(find_field(fields, "traced_ids"@));
    let forward = flag_entry(find_field(fields, "generate_section_id_to_traced_ids_table"@));
    let reverse = flag_entry(find_field(fields, "generate_traced_ids_to_section_ids_table"@));
    if section_id is None {
        Err(MetadataFault::WrongKind { key: "section_id"@ })
    } else if traced_ids is None {
        Err(MetadataFault::WrongKind { key: "traced_ids"@ })
    } else if forward is None {
        Err(MetadataFault::WrongKind { key: "generate_section_id_to_traced_ids_table"@ })
    } else if reverse is None {
        Err(MetadataFault::WrongKind { key: "generate_traced_ids_to_section_ids_table"@ })
    } else {
        Ok(
            SectionMetadataView {
                section_id: section_id.unwrap(),
                traced_ids: traced_ids.unwrap(),
                generate_section_id_to_traced_ids_table: forward.unwrap(),
                generate_traced_ids_to_section_ids_table: reverse.unwrap(),
            },
        )
    }
}

/// The top-level entries of `content` read as a TOML document, or `None`
/// where `content` is no TOML document.
pub uninterp spec fn toml_fields(content: Seq<char>) -> Option<Seq<FieldView>>;

/// The record that the literal text of a metadata block denotes.
pub open spec fn parsed_metadata(content: Seq<char>) -> Result<SectionMetadataView, MetadataFault> {
    match toml_fields(content) {
        Some(fields) => decode_fields(fields),
        None => Err(MetadataFault::Syntax),
    }
}

/// Parses `content` with `toml::from_str` into a `toml::Table` and hands out
/// its top-level entries in the table's own order. Claimed: the outcome is a
/// function of `content` alone, named `toml_fields`; an `Err` comes exactly
/// where the crate rejects the document.
#[verifier::external_body]
fn read_toml(content: &str) -> (result: Result<Vec<Field>, toml::de::Error>)
    ensures
        match result {
            Ok(fields) => toml_fields(content@) == Some(field_views(fields@)),
            Err(_) => toml_fields(content@) is None,
        },
{
    let table: toml::Table = toml::from_str(content)?;
    Ok(table.into_iter().map(|(key, value)| Field { key, value: match value {
        toml::Value::String(text) => FieldValue::Text(text),
        toml::Value::Boolean(flag) => FieldValue::Flag(flag),
        toml::Value::Array(items) => FieldValue::List(items.into_iter().map(|item| match item {
            toml::Value::String(text) => Some(text),
            _ => None,
        }).collect()),
        _ => FieldValue::Other,
    } }).collect())
}

fn find<'a>(fields: &'a Vec<Field>, key: &str) -> (found: Option<&'a FieldValue>)
    ensures
        match found {
            Some(value) => find_field(field_views(fields@), key@) == Some(value@),
            None => find_field(field_views(fields@), key@) is None,
        },
{
    let ghost all = field_views(fields@);
    assert(all.skip(0) =~= all);
    let mut i: usize = 0;
    while i < fields.len()
        invariant
            i <= fields.len(),
            all == field_views(fields@),
            find_field(all, key@) == find_field(all.skip(i as int), key@),
        decreases fields.len() - i,
    {
        proof {
            assert(all.skip(i as int)[0] == fields@[i as int]@);
            assert(all.skip(i as int).drop_first() =~= all.skip(i + 1));
        }
        if text_equal(fields[i].key.as_str(), key) {
            return Some(&fields[i].value);
        }
        i = i + 1;
    }
    None
}

fn read_text(value: Option<&FieldValue>) -> (entry: Option<Option<String>>)
    ensures
        match entry {
            Some(Some(text)) => text_entry(view_of(value)) == Some(Some(text@)),
            Some(None) => text_entry(view_of(value)) == Some(None::<Seq<char>>),
            None => text_entry(view_of(value)) is None,
        },
{
    match value {
        None => Some(None),
        Some(FieldValue::Text(text)) => Some(Some(text.clone())),
        Some(_) => None,
    }
}

fn read_list(value: Option<&FieldValue>) -> (entry: Option<Option<Vec<String>>>)
    ensures
        match entry {
            Some(Some(ids)) => list_entry(view_of(value)) == Some(Some(texts(ids@))),
            Some(None) => list_entry(view_of(value)) == Some(None::<Seq<Seq<char>>>),
            None => list_entry(view_of(value)) is None,
        },
{
    match value {
        None => Some(None),
        Some(FieldValue::List(items)) => {
            let ghost views = items@.map_values(|e: Option<String>| element_view(e));
            let mut ids: Vec<String> = Vec::new();
            let mut i: usize = 0;
            while i < items.len()
                invariant
                    i <= items.len(),
                    views == items@.map_values(|e: Option<String>| element_view(e)),
                    view_of(value) == Some(FieldValueView::List(views)),
                    ids@.len() == i,
                    forall|k: int| 0 <= k < i ==> (#[trigger] views[k]) == Some(ids@[k]@),
                decreases items.len() - i,
            {
                assert(views[i as int] == element_view(items@[i as int]));
                match &items[i] {
                    Some(text) => {
                        ids.push(text.clone());
                    },
                    None => {
                        assert(views[i as int] is None);
                        return None;
                    },
                }
                i = i + 1;
            }
            assert(texts(ids@) =~= views.map_values(|e: Option<Seq<char>>| e.unwrap()));
            Some(Some(ids))
        },
        Some(_) => None,
    }
}

fn read_flag(value: Option<&FieldValue>) -> (entry: Option<bool>)
    ensures
        entry == flag_entry(view_of(value)),
{
    match value {
        None => Some(false),
        Some(FieldValue::Flag(flag)) => Some(*flag),
        Some(_) => None,
    }
}

/// A value that may be missing, by its view.
pub open spec fn view_of(value: Option<&FieldValue>) -> Option<FieldValueView> {
    match value {
        Some(v) => Some(v@),
        None => None,
    }
}

impl SectionMetadata {
    /// Decodes the top-level entries of a metadata block into a record.
    pub fn from_fields(fields: &Vec<Field>) -> (result: Result<SectionMetadata, MetadataError>)
        ensures
            outcome(result) == decode_fields(field_views(fields@)),
    {
        let section_id = match read_text(find(fields, "section_id")) {
            Some(entry) => entry,
            None => {
                return Err(MetadataError::WrongKind { key: "section_id".to_owned() });
            },
        };
        let traced_ids = match read_list(find(fields, "traced_ids")) {
            Some(entry) => entry,
            None => {
                return Err(MetadataError::WrongKind { key: "traced_ids".to_owned() });
            },
        };
        let forward = match read_flag(find(fields, "generate_section_id_to_traced_ids_table")) {
            Some(flag) => flag,
            None => {
                return Err(
                    MetadataError::WrongKind { key: "generate_section_id_to_traced_ids_table".to_owned() },
                );
            },
        };
        let reverse = match read_flag(find(fields, "generate_traced_ids_to_section_ids_table")) {
            Some(flag) => flag,
            None => {
                return Err(
                    MetadataError::WrongKind { key: "generate_traced_ids_to_section_ids_table".to_owned() },
                );
            },
        };
        Ok(
            SectionMetadata {
                section_id,
                traced_ids,
                generate_section_id_to_traced_ids_table: forward,
                generate_traced_ids_to_section_ids_table: reverse,
            },
        )
    }

    /// Parses the literal text of a metadata block. The text must be a TOML
    /// document; its entries are then decoded as `from_fields` does.
    pub fn parse(content: &str) -> (result: Result<SectionMetadata, MetadataError>)
        ensures
            outcome(result) == parsed_metadata(content@),
    {
        match read_toml(content) {
            Ok(fields) => SectionMetadata::from_fields(&fields),
            Err(error) => Err(MetadataError::Syntax(error)),
        }
    }

    /// Whether the record carries anything to trace: an identifier of its own
    /// or a list of traced identifiers.
    pub fn has_traceability(&self) -> (yes: bool)
        ensures
            yes == (self@.section_id is Some || self@.traced_ids is Some),
    {
        self.section_id.is_some() || self.traced_ids.is_some()
    }

    /// Whether the record asks for one of the two generated tables.
    pub fn requests_table_generation(&self) -> (yes: bool)
        ensures
            yes == (self@.generate_section_id_to_traced_ids_table
                || self@.generate_traced_ids_to_section_ids_table),
    {
        self.generate_section_id_to_traced_ids_table || self.generate_traced_ids_to_section_ids_table
    }
}

impl Default for SectionMetadata {
    fn default() -> (metadata: Self)
        ensures
            metadata@ == (SectionMetadataView {
                section_id: None,
                traced_ids: None,
                generate_section_id_to_traced_ids_table: false,
                generate_traced_ids_to_section_ids_table: false,
            }),
    {
        SectionMetadata {
            section_id: None,
            traced_ids: None,
            generate_section_id_to_traced_ids_table: false,
            generate_traced_ids_to_section_ids_table: false,
        }
    }
}

impl Clone for SectionMetadata {
    fn clone(&self) -> (copy: Self)
        ensures
            copy@ == self@,
    {
        let section_id = match &self.section_id {
            Some(id) => Some(id.clone()),
            None => None,
        };
        let traced_ids = match &self.traced_ids {
            Some(ids) => {
                let mut copies: Vec<String> = Vec::new();
                let mut i: usize = 0;
                while i < ids.len()
                    invariant
                        i <= ids.len(),
                        copies@.len() == i,
                        forall|k: int| 0 <= k < i ==> (#[trigger] copies@[k])@ == ids@[k]@,
                    decreases ids.len() - i,
                {
                    copies.push(ids[i].clone());
                    i = i + 1;
                }
                assert(texts(copies@) =~= texts(ids@));
                Some(copies)
            },
            None => None,
        };
        SectionMetadata {
            section_id,
            traced_ids,
            generate_section_id_to_traced_ids_table: self.generate_section_id_to_traced_ids_table,
            generate_traced_ids_to_section_ids_table: self.generate_traced_ids_to_section_ids_table,
        }
    }
}

} // verus!
