use submission_similarity::notebook::{extract_cell_source, NotebookError};

fn err_name(e: &NotebookError) -> &'static str {
    match e {
        NotebookError::InvalidJson(_) => "invalid",
        NotebookError::MissingCells => "missing_cells",
        NotebookError::NoMatchingCell => "no_match",
        NotebookError::MissingSource => "missing_source",
        NotebookError::NonStringSourceEntry => "non_string",
        NotebookError::UnsupportedSourceType => "unsupported",
    }
}

#[test]
fn extracts_nbgrader_cell_source() {
    let notebook = r#"{
  "cells": [
    {"cell_type":"code","metadata":{"nbgrader":{"grade_id":"q1"}},"source":["x = 1\n"]},
    {"cell_type":"code","metadata":{"nbgrader":{"grade_id":"target-cell"}},"source":["print(42)\n","y=3\n"]}
  ]
}"#;
    let source = extract_cell_source(notebook, "target-cell").ok().expect("should extract source");
    assert_eq!(source, "print(42)\ny=3\n");
}

#[test]
fn source_may_be_a_single_string() {
    let nb = r#"{"cells":[{"metadata":{"nbgrader":{"grade_id":"a"}},"source":"x = 1"}]}"#;
    assert_eq!(extract_cell_source(nb, "a").ok(), Some("x = 1".to_string()));
}

#[test]
fn first_matching_cell_wins() {
    let nb = r#"{"cells":[
        {"metadata":{"nbgrader":{"grade_id":"a"}},"source":"first"},
        {"metadata":{"nbgrader":{"grade_id":"a"}},"source":"second"}]}"#;
    assert_eq!(extract_cell_source(nb, "a").ok(), Some("first".to_string()));
}

#[test]
fn cells_without_grade_id_are_skipped() {
    let nb = r#"{"cells":[
        {"metadata":{},"source":7},
        {"metadata":{"nbgrader":{"grade_id":5}},"source":7},
        {"metadata":{"nbgrader":{"grade_id":"a"}},"source":["p", "q"]}]}"#;
    assert_eq!(extract_cell_source(nb, "a").ok(), Some("pq".to_string()));
}

#[test]
fn notebook_errors() {
    let cases = [
        ("not json", "invalid"),
        (r#"{"cell": []}"#, "missing_cells"),
        (r#"{"cells": {}}"#, "missing_cells"),
        (r#"[1, 2]"#, "missing_cells"),
        (r#"{"cells": [{"metadata":{"nbgrader":{"grade_id":"b"}},"source":""}]}"#, "no_match"),
        (r#"{"cells": [{"metadata":{"nbgrader":{"grade_id":"a"}}}]}"#, "missing_source"),
        (r#"{"cells": [{"metadata":{"nbgrader":{"grade_id":"a"}},"source":["x", 1]}]}"#, "non_string"),
        (r#"{"cells": [{"metadata":{"nbgrader":{"grade_id":"a"}},"source":null}]}"#, "unsupported"),
    ];
    for (text, expected) in cases {
        match extract_cell_source(text, "a") {
            Ok(s) => panic!("{text}: unexpected source {s}"),
            Err(e) => assert_eq!(err_name(&e), expected, "{text}"),
        }
    }
}

#[test]
fn error_messages() {
    assert_eq!(NotebookError::MissingCells.message("a"), "notebook missing 'cells' array");
    assert_eq!(NotebookError::NoMatchingCell.message("q7"), "no cell found with nbgrader.grade_id='q7'");
    assert_eq!(NotebookError::MissingSource.message("a"), "cell is missing source field");
    assert_eq!(
        NotebookError::NonStringSourceEntry.message("a"),
        "source array contained a non-string entry"
    );
    assert_eq!(
        NotebookError::UnsupportedSourceType.message("a"),
        "cell source has unsupported JSON type"
    );
    assert_eq!(
        NotebookError::InvalidJson("boom".to_string()).message("a"),
        "invalid notebook JSON: boom"
    );
    match extract_cell_source("{", "a") {
        Err(e) => assert!(e.message("a").starts_with("invalid notebook JSON: EOF")),
        Ok(_) => panic!("expected an error"),
    }
}
