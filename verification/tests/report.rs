//! Report materialization: identity-column injection and stripping, the
//! empty-result convention, classification, and the invocation policy.

use taskweb::opts::get_default_opts;
use taskweb::tw::{
    build_invocation_args, column_label_to_type, invocation_output, parse_dom_output, report,
    report_args, AttributeType, ColumnCatalog, ColumnType, InvokeError, ReportError,
};

fn demo_catalog() -> ColumnCatalog {
    let mut catalog = ColumnCatalog::new();
    catalog.insert(
        "description".to_string(),
        ColumnType {
            type_: AttributeType::String,
            read_only: false,
        },
    );
    catalog.insert(
        "due".to_string(),
        ColumnType {
            type_: AttributeType::DateTime,
            read_only: false,
        },
    );
    catalog
}

fn demo_columns() -> Vec<String> {
    vec!["description".to_string(), "due".to_string()]
}

fn demo_labels() -> Vec<String> {
    vec!["Description".to_string(), "Due".to_string()]
}

#[test]
fn injection_prepends_identity_column() {
    let args = report_args("next", &demo_columns(), &demo_labels());
    assert_eq!(args.len(), 3);
    assert_eq!(args[0], "next".to_string());
    assert_eq!(
        args[1],
        "rc.report.next.columns:uuid,description,due".to_string()
    );
    assert_eq!(
        args[2],
        "rc.report.next.labels:UUID,Description,Due".to_string()
    );
}

#[test]
fn round_trip_strips_identity_column() {
    // The output header carries the injected UUID label first; the
    // materialized report drops it, and each task's identity is the first
    // sliced field of its row.
    let output = "\
UUID      Description  Due\n\
--------- ------------ ---\n\
abc-123   buy milk     2d\n\
def-456   pay rent     5d\n";
    let rep = report(&demo_columns(), &demo_labels(), output, &demo_catalog()).unwrap();
    assert_eq!(rep.labels, demo_labels());
    assert_eq!(rep.tasks.len(), 2);
    assert_eq!(rep.tasks[0].uuid, "abc-123".to_string());
    assert_eq!(
        rep.tasks[0].attributes,
        vec!["buy milk".to_string(), "2d".to_string()]
    );
    assert_eq!(rep.tasks[1].uuid, "def-456".to_string());
    assert_eq!(
        rep.tasks[1].attributes,
        vec!["pay rent".to_string(), "5d".to_string()]
    );
    assert_eq!(
        rep.column_types,
        vec![
            ColumnType {
                type_: AttributeType::String,
                read_only: false
            },
            ColumnType {
                type_: AttributeType::DateTime,
                read_only: false
            },
        ]
    );
    // The report invariant: one type per label, one attribute per label.
    assert_eq!(rep.column_types.len(), rep.labels.len());
    for t in &rep.tasks {
        assert_eq!(t.attributes.len(), rep.labels.len());
    }
}

#[test]
fn empty_output_is_the_empty_report() {
    let rep = report(&demo_columns(), &demo_labels(), "", &demo_catalog()).unwrap();
    assert!(rep.column_types.is_empty());
    assert!(rep.labels.is_empty());
    assert!(rep.tasks.is_empty());
}

#[test]
fn no_results_exit_code_yields_empty_report() {
    // Exit code 1 with empty output is the tool's "no matching results"
    // convention: not an InvokeError, and the report comes back empty.
    let stdout = invocation_output(1, "".to_string()).unwrap();
    let rep = report(&demo_columns(), &demo_labels(), &stdout, &demo_catalog()).unwrap();
    assert!(rep.tasks.is_empty());
    assert!(rep.labels.is_empty());
}

#[test]
fn exit_code_one_with_output_is_an_error() {
    assert_eq!(
        invocation_output(1, "oops".to_string()),
        Err(InvokeError::CommandFailed { code: 1 })
    );
}

#[test]
fn invocation_policy_other_codes() {
    assert_eq!(invocation_output(0, "rows".to_string()), Ok("rows".to_string()));
    assert_eq!(
        invocation_output(2, "".to_string()),
        Err(InvokeError::CommandFailed { code: 2 })
    );
}

#[test]
fn column_label_list_length_mismatch() {
    let columns = vec!["description".to_string()];
    assert!(matches!(
        report(&columns, &demo_labels(), "", &demo_catalog()),
        Err(ReportError::ColumnLabelCountMismatch)
    ));
}

#[test]
fn single_line_output_misses_the_header() {
    assert!(matches!(
        report(&demo_columns(), &demo_labels(), "UUID Description\n", &demo_catalog()),
        Err(ReportError::MissingHeader)
    ));
}

#[test]
fn unresolvable_label_is_an_error() {
    let output = "\
UUID      Nope\n\
--------- ----\n";
    assert!(matches!(
        report(&demo_columns(), &demo_labels(), output, &demo_catalog()),
        Err(ReportError::UnknownLabel)
    ));
}

#[test]
fn uncatalogued_column_is_an_error() {
    let mut catalog = ColumnCatalog::new();
    catalog.insert(
        "description".to_string(),
        ColumnType {
            type_: AttributeType::String,
            read_only: false,
        },
    );
    // "Due" resolves to the column "due", which this catalog lacks.
    let output = "\
UUID      Description  Due\n\
--------- ------------ ---\n";
    assert!(matches!(
        report(&demo_columns(), &demo_labels(), output, &catalog),
        Err(ReportError::UnknownColumn)
    ));
}

#[test]
fn duplicate_labels_last_wins() {
    let labels = vec!["X".to_string(), "X".to_string()];
    let columns = vec!["description".to_string(), "due".to_string()];
    let ct = column_label_to_type("X", &labels, &columns, &demo_catalog()).unwrap();
    assert_eq!(ct.type_, AttributeType::DateTime);
}

#[test]
fn label_lookup_errors() {
    assert_eq!(
        column_label_to_type("Nope", &demo_labels(), &demo_columns(), &demo_catalog()),
        Err(ReportError::UnknownLabel)
    );
    let empty = ColumnCatalog::new();
    assert_eq!(
        column_label_to_type("Due", &demo_labels(), &demo_columns(), &empty),
        Err(ReportError::UnknownColumn)
    );
}

#[test]
fn invocation_args_for_reports() {
    let args = build_invocation_args(&vec!["next".to_string()], 120, false);
    assert_eq!(
        args,
        vec![
            "rc.verbose=label".to_string(),
            "limit:4294967296".to_string(),
            "rc.recurrence:0".to_string(),
            "rc.gc:0".to_string(),
            "rc.defaultwidth:120".to_string(),
            "next".to_string(),
        ]
    );
}

#[test]
fn invocation_args_for_static_listings() {
    // A static listing must not receive the output-shaping flags.
    let args = build_invocation_args(&vec!["columns".to_string()], 0, true);
    assert_eq!(
        args,
        vec![
            "rc.recurrence:0".to_string(),
            "rc.gc:0".to_string(),
            "rc.defaultwidth:0".to_string(),
            "columns".to_string(),
        ]
    );
}

#[test]
fn dom_output_first_line_fields() {
    assert_eq!(
        parse_dom_output("description,due\nsecond line\n").unwrap(),
        vec!["description".to_string(), "due".to_string()]
    );
    assert_eq!(parse_dom_output("plain\n").unwrap(), vec!["plain".to_string()]);
    assert_eq!(parse_dom_output(""), Err(ReportError::MissingOutput));
}

#[test]
fn default_options() {
    let opts = get_default_opts();
    assert!(!opts.dry_run);
    assert_eq!(opts.report_width, 0);
}
