use sc_ui_schema::report::{next_exit_code, semantic_report, FileOutcome};

#[test]
fn exit_code_follows_each_outcome() {
    assert_eq!(next_exit_code(0, &FileOutcome::ReadFailed), 1);
    assert_eq!(next_exit_code(0, &FileOutcome::LoadFailed), 1);
    assert_eq!(next_exit_code(0, &FileOutcome::SchemaRejected(Some(4))), 4);
    assert_eq!(next_exit_code(3, &FileOutcome::SchemaRejected(None)), 1);
    assert_eq!(next_exit_code(0, &FileOutcome::Checked(2)), 1);
    assert_eq!(next_exit_code(4, &FileOutcome::Checked(0)), 4);
    assert_eq!(next_exit_code(0, &FileOutcome::Checked(0)), 0);
}

#[test]
fn semantic_report_lines() {
    let errors = vec!["a: x".to_string(), "b: y".to_string()];
    assert_eq!(
        semantic_report("./menu.ui", &errors, 0),
        vec!["  Semantic errors in ./menu.ui:", "    - a: x", "    - b: y"]
    );
    assert!(semantic_report("./menu.ui", &Vec::new(), 1).is_empty());
    assert_eq!(semantic_report("./menu.ui", &Vec::new(), 2), vec!["  ./menu.ui OK"]);
}
