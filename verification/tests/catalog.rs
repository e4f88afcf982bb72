//! The column-type catalog builder: continuation rows, the default-format
//! marker, and the fail-fast error cases.

use taskweb::tw::{
    attribute_type_from_str, build_column_name_to_type_map, AttributeType, CatalogError,
    ColumnType,
};

fn listing(rows: &[String]) -> String {
    let mut s = String::new();
    s.push_str("Columns    Type    Modifiable   Supported Formats    Example\n");
    s.push_str("---------- ------- ------------ -------------------- ----------\n");
    for r in rows {
        s.push_str(r);
        s.push('\n');
    }
    s
}

fn record(name: &str, type_: &str, modifiable: &str, formats: &str, example: &str) -> String {
    format!(
        "{:<11}{:<8}{:<13}{:<21}{}",
        name, type_, modifiable, formats, example
    )
}

#[test]
fn continuation_rows_inherit_name_and_type() {
    // Two consecutive records: a named date column with a default-marked
    // format, then a continuation record carrying only another format.
    let out = listing(&[
        record("Due", "date", "Yes", "relative*", "2d"),
        record("", "", "", "iso", "2024-01-01"),
    ]);
    let catalog = build_column_name_to_type_map(&out).unwrap();
    let expected = ColumnType {
        type_: AttributeType::DateTime,
        read_only: false,
    };
    assert_eq!(catalog.get("Due"), Some(expected));
    assert_eq!(catalog.get("Due.relative"), Some(expected));
    assert_eq!(catalog.get("Due.iso"), Some(expected));
    assert_eq!(catalog.get("Due.countdown"), None);
    assert_eq!(catalog.get(""), None);
}

#[test]
fn wildcard_row_catalogues_two_keys() {
    let out = listing(&[record("Urgency", "numeric", "Read Only", "real*", "4.2")]);
    let catalog = build_column_name_to_type_map(&out).unwrap();
    let expected = ColumnType {
        type_: AttributeType::Numeric,
        read_only: true,
    };
    assert_eq!(catalog.get("Urgency"), Some(expected));
    assert_eq!(catalog.get("Urgency.real"), Some(expected));
    assert_eq!(catalog.get("Urgency.real*"), None);
}

#[test]
fn plain_row_catalogues_only_qualified_key() {
    let out = listing(&[record("Project", "string", "Yes", "full", "Home")]);
    let catalog = build_column_name_to_type_map(&out).unwrap();
    let expected = ColumnType {
        type_: AttributeType::String,
        read_only: false,
    };
    assert_eq!(catalog.get("Project.full"), Some(expected));
    assert_eq!(catalog.get("Project"), None);
}

#[test]
fn read_only_needs_verbatim_text() {
    let out = listing(&[
        record("ID", "numeric", "Read Only", "number*", "12"),
        record("Tags", "string", "read only", "list*", "home"),
    ]);
    let catalog = build_column_name_to_type_map(&out).unwrap();
    assert!(catalog.get("ID").unwrap().read_only);
    assert!(!catalog.get("Tags").unwrap().read_only);
}

#[test]
fn user_defined_attribute_type() {
    let out = listing(&[record("Estimate", "<type>", "Yes", "default*", "3")]);
    let catalog = build_column_name_to_type_map(&out).unwrap();
    assert_eq!(catalog.get("Estimate").unwrap().type_, AttributeType::Uda);
}

#[test]
fn unknown_type_string_is_a_hard_error() {
    let out = listing(&[record("Due", "frobnicate", "Yes", "relative*", "2d")]);
    assert!(matches!(
        build_column_name_to_type_map(&out),
        Err(CatalogError::UnknownAttributeType)
    ));
}

#[test]
fn continuation_before_any_named_record_is_an_error() {
    let out = listing(&[record("", "", "", "iso", "")]);
    assert!(matches!(
        build_column_name_to_type_map(&out),
        Err(CatalogError::ContinuationWithoutBase)
    ));
}

#[test]
fn missing_header_lines_are_an_error() {
    assert!(matches!(
        build_column_name_to_type_map(""),
        Err(CatalogError::MissingHeader)
    ));
    assert!(matches!(
        build_column_name_to_type_map("Columns Type\n"),
        Err(CatalogError::MissingHeader)
    ));
}

#[test]
fn too_few_columns_is_an_error() {
    assert!(matches!(
        build_column_name_to_type_map("A B C\n- - -\n"),
        Err(CatalogError::TooFewColumns)
    ));
}

#[test]
fn blank_line_ends_the_table() {
    let out = listing(&[
        record("Due", "date", "Yes", "relative*", "2d"),
        "".to_string(),
        record("Junk", "frobnicate", "Yes", "bad*", ""),
    ]);
    // The malformed record after the blank line is never parsed.
    let catalog = build_column_name_to_type_map(&out).unwrap();
    assert!(catalog.get("Due").is_some());
    assert!(catalog.get("Junk").is_none());
}

#[test]
fn separator_row_is_skipped_without_ending_the_table() {
    // A record with both name and formats empty is a separator; parsing
    // continues past it.
    let out = listing(&[
        record("Due", "date", "Yes", "relative*", "2d"),
        record("", "", "", "", "stray example"),
        record("Project", "string", "Yes", "full*", "Home"),
    ]);
    let catalog = build_column_name_to_type_map(&out).unwrap();
    assert!(catalog.get("Due").is_some());
    assert!(catalog.get("Project").is_some());
}

#[test]
fn attribute_type_vocabulary() {
    assert_eq!(attribute_type_from_str("date"), Ok(AttributeType::DateTime));
    assert_eq!(
        attribute_type_from_str("numeric"),
        Ok(AttributeType::Numeric)
    );
    assert_eq!(attribute_type_from_str("string"), Ok(AttributeType::String));
    assert_eq!(attribute_type_from_str("<type>"), Ok(AttributeType::Uda));
    assert_eq!(
        attribute_type_from_str("Date"),
        Err(CatalogError::UnknownAttributeType)
    );
    assert_eq!(
        attribute_type_from_str(""),
        Err(CatalogError::UnknownAttributeType)
    );
}
