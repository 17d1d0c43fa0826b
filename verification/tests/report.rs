use submission_similarity::report::{
    candidate_pairs, check_settings, choose_notebook, enough_submissions, flagged_pairs,
    is_question_notebook, select_table_rows, NotebookChoice, SettingError,
};

#[test]
fn notebook_names_match_question() {
    assert!(is_question_notebook("question-fibonacci.ipynb", "fibonacci"));
    assert!(!is_question_notebook("question-fibonacci.py", "fibonacci"));
    assert!(!is_question_notebook("question-squares.ipynb", "fibonacci"));
    assert!(is_question_notebook("x.ipynb", ""));
    assert!(!is_question_notebook("ipynb", ""));
    assert!(is_question_notebook(".ipynb", "ipy"));
}

#[test]
fn notebook_choice() {
    assert_eq!(choose_notebook(false, 3), NotebookChoice::MissingAssignmentDir);
    assert_eq!(choose_notebook(true, 0), NotebookChoice::NoMatchingNotebook);
    assert_eq!(choose_notebook(true, 1), NotebookChoice::UseFirst { ambiguous: false });
    assert_eq!(choose_notebook(true, 2), NotebookChoice::UseFirst { ambiguous: true });
}

fn names(v: &[&str]) -> Vec<String> {
    v.iter().map(|s| s.to_string()).collect()
}

#[test]
fn all_pairs_without_target() {
    let s = names(&["alice", "bob", "carla", "diego"]);
    assert_eq!(
        candidate_pairs(&s, None),
        vec![(0, 1), (0, 2), (0, 3), (1, 2), (1, 3), (2, 3)]
    );
    assert_eq!(candidate_pairs(&names(&["solo"]), None), vec![]);
}

#[test]
fn pairs_with_target() {
    let s = names(&["alice", "bob", "carla", "diego"]);
    assert_eq!(candidate_pairs(&s, Some("carla")), vec![(0, 2), (1, 2), (2, 3)]);
    assert_eq!(candidate_pairs(&s, Some("nobody")), vec![]);
}

#[test]
fn table_rows() {
    let flags = [true, false, true, true, false];
    assert_eq!(flagged_pairs(&flags), vec![0, 2, 3]);
    assert_eq!(select_table_rows(&flags, 2, true), vec![0, 2]);
    assert_eq!(select_table_rows(&flags, 10, true), vec![0, 2, 3]);
    assert_eq!(select_table_rows(&flags, 2, false), vec![0, 1]);
    assert_eq!(select_table_rows(&flags, 10, false), vec![0, 1, 2, 3, 4]);
    assert_eq!(select_table_rows(&[], 3, false), Vec::<usize>::new());
}

#[test]
fn settings_checks() {
    assert_eq!(check_settings(true, false, 10), Err(SettingError::BoilerplateCellIdMissing));
    assert_eq!(check_settings(true, false, 0), Err(SettingError::BoilerplateCellIdMissing));
    assert_eq!(check_settings(false, false, 0), Err(SettingError::MaxResultsZero));
    assert_eq!(check_settings(true, true, 0), Err(SettingError::MaxResultsZero));
    assert_eq!(check_settings(true, true, 1), Ok(()));
    assert_eq!(check_settings(false, true, 20), Ok(()));
}

#[test]
fn two_submissions_are_needed() {
    assert!(!enough_submissions(0));
    assert!(!enough_submissions(1));
    assert!(enough_submissions(2));
    assert!(enough_submissions(30));
}
