//! Header offset parsing, row slicing, and the text primitives.

use taskweb::text::{join_commas, split_commas, split_lines, str_eq, trim_str, usize_to_string};
use taskweb::tw::{parse_label_lines, slice_row};

#[test]
fn header_offsets_shape() {
    // One more offset than labels; offsets start at 0 and end at the
    // underline row's length.
    let (labels, offsets) = parse_label_lines("ID Desc", "-- ----");
    assert_eq!(offsets, vec![0, 3, 7]);
    assert_eq!(labels, vec!["ID".to_string(), "Desc".to_string()]);
    assert_eq!(offsets.len(), labels.len() + 1);
    assert_eq!(offsets[0], 0);
    assert_eq!(*offsets.last().unwrap(), "-- ----".len());
}

#[test]
fn header_offsets_every_space_counts() {
    // Every whitespace character of the underline row opens a new column.
    let (labels, offsets) = parse_label_lines("A  B", "-  -");
    assert_eq!(offsets, vec![0, 2, 3, 4]);
    assert_eq!(labels, vec!["A".to_string(), "".to_string(), "B".to_string()]);
}

#[test]
fn header_and_row_scenario() {
    // A report header with single-space gaps in the underline row, and a
    // data row sliced at its offsets.
    let label_row = "ID    Description  Due       ";
    let underline = "----- ------------ ----------";
    let (labels, offsets) = parse_label_lines(label_row, underline);
    assert_eq!(
        labels,
        vec!["ID".to_string(), "Description".to_string(), "Due".to_string()]
    );
    let row = "1     buy milk     2024-01-01";
    let fields = slice_row(row, &offsets);
    assert_eq!(
        fields,
        vec![
            "1".to_string(),
            "buy milk".to_string(),
            "2024-01-01".to_string()
        ]
    );
}

#[test]
fn ragged_label_row_gives_empty_labels() {
    // The label row may be shorter than the underline row: columns past
    // its end get empty labels, never an error.
    let (labels, offsets) = parse_label_lines("AB", "-- --- -");
    assert_eq!(offsets, vec![0, 3, 7, 8]);
    assert_eq!(
        labels,
        vec!["AB".to_string(), "".to_string(), "".to_string()]
    );
}

#[test]
fn short_row_slices_clamp() {
    // A data row shorter than the offsets yields empty trailing fields.
    let (_, offsets) = parse_label_lines("A B C", "- - -");
    let fields = slice_row("x", &offsets);
    assert_eq!(
        fields,
        vec!["x".to_string(), "".to_string(), "".to_string()]
    );
}

#[test]
fn offsets_and_slices_count_characters() {
    // Offsets are character positions, so fields holding multibyte
    // characters stay aligned.
    let (labels, offsets) = parse_label_lines("Name   Due", "------ ---");
    assert_eq!(offsets, vec![0, 7, 10]);
    let fields = slice_row("caf\u{e9}   2d", &offsets);
    assert_eq!(fields, vec!["caf\u{e9}".to_string(), "2d".to_string()]);
    assert_eq!(labels, vec!["Name".to_string(), "Due".to_string()]);
}

#[test]
fn underline_with_trailing_whitespace() {
    // A whitespace character at the underline row's end yields a final
    // empty column: the offset past it coincides with the row length.
    let (labels, offsets) = parse_label_lines("A", "- ");
    assert_eq!(offsets, vec![0, 2, 2]);
    assert_eq!(labels, vec!["A".to_string(), "".to_string()]);
}

#[test]
fn text_past_the_last_offset_is_ignored() {
    // The underline row is the sole boundary source: label or row text
    // beyond its length falls outside every column.
    let (labels, offsets) = parse_label_lines("ABCDEF", "---");
    assert_eq!(offsets, vec![0, 3]);
    assert_eq!(labels, vec!["ABC".to_string()]);
    assert_eq!(slice_row("abcdef", &offsets), vec!["abc".to_string()]);
}

#[test]
fn trim_both_sides() {
    assert_eq!(trim_str("  buy milk \t "), "buy milk".to_string());
    assert_eq!(trim_str(""), "".to_string());
    assert_eq!(trim_str("   "), "".to_string());
    assert_eq!(trim_str("x"), "x".to_string());
}

#[test]
fn string_equality() {
    assert!(str_eq("abc", "abc"));
    assert!(!str_eq("abc", "abd"));
    assert!(!str_eq("abc", "ab"));
    assert!(str_eq("", ""));
}

#[test]
fn lines_split_like_std() {
    assert_eq!(
        split_lines("foo\r\nbar\n\nbaz\r"),
        vec![
            "foo".to_string(),
            "bar".to_string(),
            "".to_string(),
            "baz\r".to_string()
        ]
    );
    assert_eq!(split_lines(""), Vec::<String>::new());
    assert_eq!(split_lines("a\n"), vec!["a".to_string()]);
}

#[test]
fn commas_split_and_join() {
    assert_eq!(
        split_commas("a,,b,"),
        vec![
            "a".to_string(),
            "".to_string(),
            "b".to_string(),
            "".to_string()
        ]
    );
    assert_eq!(split_commas(""), vec!["".to_string()]);
    let joined = join_commas(&vec!["a".to_string(), "b".to_string()]);
    assert_eq!(joined, "a,b".to_string());
    assert_eq!(join_commas(&Vec::new()), "".to_string());
}

#[test]
fn decimal_rendering() {
    assert_eq!(usize_to_string(0), "0".to_string());
    assert_eq!(usize_to_string(7), "7".to_string());
    assert_eq!(usize_to_string(40123), "40123".to_string());
}
