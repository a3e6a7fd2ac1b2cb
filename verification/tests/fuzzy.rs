use sqs::fuzzy::{expand_command, fuzzy_match, pick_unique_shortest};

#[test]
fn test_fuzzy_match_exact_match() {
    assert!(fuzzy_match("add", "add"));
    assert!(fuzzy_match("list", "list"));
}

#[test]
fn test_fuzzy_match_subset_in_order() {
    assert!(fuzzy_match("l", "list"));
    assert!(fuzzy_match("ls", "list"));
    assert!(fuzzy_match("lst", "list"));
    assert!(fuzzy_match("ad", "add"));
    assert!(fuzzy_match("dn", "done"));
    assert!(fuzzy_match("shw", "show"));
    assert!(fuzzy_match("fnd", "find"));
    assert!(fuzzy_match("m", "move"));
    assert!(fuzzy_match("mov", "move"));
}

#[test]
fn test_fuzzy_match_not_matching() {
    assert!(!fuzzy_match("rm", "move"));
    assert!(!fuzzy_match("xyz", "add"));
    assert!(!fuzzy_match("ab", "list"));
}

#[test]
fn test_fuzzy_match_empty_input() {
    assert!(!fuzzy_match("", "add"));
    assert!(!fuzzy_match("list", ""));
}

#[test]
fn test_fuzzy_match_case_insensitive() {
    assert!(fuzzy_match("A", "add"));
    assert!(fuzzy_match("AD", "add"));
    assert!(fuzzy_match("L", "list"));
    assert!(fuzzy_match("LIST", "list"));
}

#[test]
fn test_expand_command_ad() {
    let args = vec!["sqs".to_string(), "ad".to_string()];
    let expanded = expand_command(args);
    assert_eq!(expanded[1], "add");
}

#[test]
fn test_expand_command_l() {
    let args = vec!["sqs".to_string(), "l".to_string()];
    let expanded = expand_command(args);
    assert_eq!(expanded[1], "list");
}

#[test]
fn test_expand_command_list() {
    let args = vec!["sqs".to_string(), "lst".to_string()];
    let expanded = expand_command(args);
    assert_eq!(expanded[1], "list");
}

#[test]
fn test_expand_command_delete() {
    let args = vec!["sqs".to_string(), "del".to_string()];
    let expanded = expand_command(args);
    assert_eq!(expanded[1], "delete");
}

#[test]
fn test_expand_command_old_command_is_not_rewritten() {
    let args = vec!["sqs".to_string(), "create".to_string()];
    let expanded = expand_command(args);
    assert_eq!(expanded[1], "create");
}

#[test]
fn test_expand_command_m() {
    let args = vec!["sqs".to_string(), "m".to_string()];
    let expanded = expand_command(args);
    assert_eq!(expanded[1], "move");
}

#[test]
fn test_expand_command_with_global_flags_before() {
    let args = vec![
        "sqs".to_string(),
        "--root".to_string(),
        "/path".to_string(),
        "l".to_string(),
    ];
    let expanded = expand_command(args);
    assert_eq!(expanded[3], "list");
    assert_eq!(expanded[1], "--root");
}

#[test]
fn test_expand_command_with_global_flag_equals_value_before() {
    let args = vec![
        "sqs".to_string(),
        "--root=/path".to_string(),
        "l".to_string(),
    ];
    let expanded = expand_command(args);
    assert_eq!(expanded[2], "list");
    assert_eq!(expanded[1], "--root=/path");
}

#[test]
fn test_expand_command_with_global_flags_after() {
    let args = vec![
        "sqs".to_string(),
        "l".to_string(),
        "--root".to_string(),
        "/path".to_string(),
    ];
    let expanded = expand_command(args);
    assert_eq!(expanded[1], "list");
    assert_eq!(expanded[2], "--root");
}

#[test]
fn test_expand_command_no_match() {
    let args = vec!["sqs".to_string(), "xyz".to_string()];
    let expanded = expand_command(args);
    assert_eq!(expanded[1], "xyz");
}

#[test]
fn test_expand_command_with_args() {
    let args = vec!["sqs".to_string(), "l".to_string(), "keyword".to_string()];
    let expanded = expand_command(args);
    assert_eq!(expanded[1], "list");
    assert_eq!(expanded[2], "keyword");
}

#[test]
fn test_expand_command_empty_args() {
    let args = vec!["sqs".to_string()];
    let expanded = expand_command(args);
    assert_eq!(expanded.len(), 1);
}

#[test]
fn test_expand_command_no_match_first_arg_is_flag() {
    let args = vec!["sqs".to_string(), "--help".to_string(), "list".to_string()];
    let expanded = expand_command(args);
    assert_eq!(expanded[1], "--help");
}

#[test]
fn test_expand_command_unique_fuzzy_match_still_works_without_aliases() {
    let args = vec!["sqs".to_string(), "shw".to_string()];
    let expanded = expand_command(args);
    assert_eq!(expanded[1], "show");
}

#[test]
fn test_expand_command_canonical_preferred_over_alias_fuzzy() {
    let args = vec!["sqs".to_string(), "a".to_string()];
    let expanded = expand_command(args);
    assert_eq!(expanded[1], "add");
}

#[test]
fn test_pick_unique_shortest_ambiguous_returns_none() {
    let candidates = vec![("alpha", 3), ("beta", 3)];
    assert_eq!(pick_unique_shortest(&candidates), None);
}


#[test]
fn expanding_an_expanded_command_line_changes_nothing() {
    let cases: Vec<Vec<&str>> = vec![
        vec!["sqs", "l"],
        vec!["sqs", "--root", "/p", "ad", "title"],
        vec!["sqs", "--root=/p", "DEL", "a001"],
        vec!["sqs", "-v", "ren"],
        vec!["sqs", "--", "l"],
        vec!["sqs", "xyz"],
        vec!["sqs"],
    ];
    for case in cases {
        let args: Vec<String> = case.iter().map(|s| s.to_string()).collect();
        let once = expand_command(args);
        let twice = expand_command(once.clone());
        assert_eq!(twice, once);
    }
}
