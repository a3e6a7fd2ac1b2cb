use sqs::adapter::{check_delete_list, edit_outcome, EditOutcome};
use sqs::config::gitignore_update;
use sqs::errors::AppError;

fn strs(v: &[&str]) -> Vec<String> {
    v.iter().map(|s| s.to_string()).collect()
}

fn usage_text(r: Result<(), AppError>) -> String {
    match r {
        Err(AppError::Usage(m)) => m,
        other => panic!("expected a usage error, got {other:?}"),
    }
}

#[test]
fn deleting_an_unknown_list_is_refused() {
    let r = check_delete_list(&strs(&["now", "done"]), &"later".to_string(), false);
    assert_eq!(usage_text(r), "unknown list: later");
}

#[test]
fn the_last_list_stays() {
    let r = check_delete_list(&strs(&["now"]), &"now".to_string(), false);
    assert_eq!(usage_text(r), "cannot delete the last remaining list");
}

#[test]
fn a_list_with_items_stays() {
    let r = check_delete_list(&strs(&["now", "done"]), &"now".to_string(), true);
    assert_eq!(usage_text(r), "list 'now' is not empty — move its items first");
}

#[test]
fn an_empty_list_among_others_may_go() {
    assert!(check_delete_list(&strs(&["now", "done"]), &"done".to_string(), false).is_ok());
}

#[test]
fn init_adds_the_cache_to_gitignore_once() {
    assert_eq!(gitignore_update(&None), Some("cache/\n".to_string()));
    assert_eq!(gitignore_update(&Some("target/\n".to_string())), Some("target/\ncache/\n".to_string()));
    assert_eq!(gitignore_update(&Some("target/\ncache/\n".to_string())), None);
}

#[test]
fn edits_are_classified() {
    assert_eq!(edit_outcome("a", "a").ok(), Some(EditOutcome::Unchanged));
    assert_eq!(edit_outcome("a", "b").ok(), Some(EditOutcome::Applied));
    match edit_outcome("a", " \n\t") {
        Err(AppError::Message(m)) => assert_eq!(m, "file cannot be empty"),
        other => panic!("expected an error, got {other:?}"),
    }
}

#[test]
fn the_adapter_keeps_its_root() {
    let adapter = sqs::adapter::MarkdownTodolistsAdapter::new(std::path::PathBuf::from("/tmp/tasks"));
    assert_eq!(adapter.root(), &std::path::PathBuf::from("/tmp/tasks"));
}
