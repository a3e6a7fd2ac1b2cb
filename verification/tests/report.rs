use sqs::report::{dashboard_lines, find_lines, list_lines, show_lines};

fn rows(v: &[(&str, &str, &str)]) -> Vec<(String, String, String)> {
    v.iter().map(|(a, b, c)| (a.to_string(), b.to_string(), c.to_string())).collect()
}

fn strs(v: &[&str]) -> Vec<String> {
    v.iter().map(|s| s.to_string()).collect()
}

#[test]
fn dashboard_skips_empty_lists() {
    let items = rows(&[("a001", "Write docs", "now"), ("b001", "Triage", "inbox"), ("a002", "Ship", "now")]);
    let lines = dashboard_lines(&strs(&["now", "next", "inbox"]), &items);
    assert_eq!(
        lines,
        strs(&["now (2)", "  a001  Write docs", "  a002  Ship", "", "inbox (1)", "  b001  Triage", ""])
    );
}

#[test]
fn dashboard_of_no_items_is_empty() {
    assert!(dashboard_lines(&strs(&["now"]), &Vec::new()).is_empty());
}

#[test]
fn one_list_shows_its_count_even_when_empty() {
    let items = rows(&[("a001", "Write docs", "now")]);
    assert_eq!(list_lines("now", &items), strs(&["now (1)", "  a001  Write docs"]));
    assert_eq!(list_lines("done", &items), strs(&["done (0)"]));
}

#[test]
fn find_lines_name_list_id_and_title() {
    let hits = rows(&[("a001", "Write docs", "now")]);
    assert_eq!(find_lines(&hits), strs(&["[now] a001  Write docs"]));
    assert_eq!(find_lines(&Vec::new()), strs(&["No items found"]));
}

#[test]
fn show_lines_include_the_path_when_known() {
    let with_path = show_lines("a001", "now", "Write docs", &Some("/t/now/a001.md".to_string()), "body\n");
    assert_eq!(
        with_path,
        strs(&["ID:    a001", "List:  now", "Title: Write docs", "Path:  /t/now/a001.md", "", "body\n"])
    );
    let without = show_lines("a001", "now", "Write docs", &None, "");
    assert_eq!(without, strs(&["ID:    a001", "List:  now", "Title: Write docs", "", ""]));
}
