use sqs::search::{ranked_find, resolve_item, search_items, SearchItem, MAX_FIND_RESULTS};

fn item(id: &str, list: &str, tags: &[&str], title: &str, body: &str) -> SearchItem {
    SearchItem {
        ext_id: id.into(),
        title: title.into(),
        body: body.into(),
        list: list.into(),
        tags: tags.iter().map(|s| s.to_string()).collect(),
    }
}

#[test]
fn ranked_find_prefers_title_prefix_over_body() {
    let items = vec![
        item("a1", "now", &[], "Investigate billing", ""),
        item("a2", "now", &[], "Random task with billing in body content here", ""),
    ];
    let r = ranked_find(&items, "billing");
    assert_eq!(r.len(), 2);
    assert_eq!(r[0].0, "a1");
}

#[test]
fn ranked_find_tag_only_filter() {
    let items = vec![
        item("a1", "now", &["MIL010"], "Title with MIL010 in body", ""),
        item("a2", "now", &["MIL020"], "Plain", ""),
    ];
    let r = ranked_find(&items, "#MIL010");
    assert_eq!(r.len(), 1);
    assert_eq!(r[0].0, "a1");
}

#[test]
fn ranked_find_orders_by_score_then_input_order() {
    let items = vec![
        item("b", "later", &[], "body only", "needle here"),
        item("t", "now", &[], "has needle inside", ""),
        item("p", "next", &[], "Needle first", ""),
        item("g", "now", &["needle"], "tagged", ""),
        item("x", "now", &[], "nothing", ""),
        item("p2", "done", &[], "needle again", ""),
    ];
    let r = ranked_find(&items, "  NEEDLE ");
    let ids: Vec<&str> = r.iter().map(|(id, _)| id.as_str()).collect();
    assert_eq!(ids, vec!["p", "p2", "g", "t", "b"]);
    assert_eq!(r[0].1, "next");
}

#[test]
fn ranked_find_blank_queries_find_nothing() {
    let items = vec![item("a", "now", &["x"], "x", "")];
    assert!(ranked_find(&items, "").is_empty());
    assert!(ranked_find(&items, "   ").is_empty());
    assert!(ranked_find(&items, "#").is_empty());
}

#[test]
fn ranked_find_keeps_at_most_fifty() {
    let items: Vec<SearchItem> = (0..60).map(|i| item(&format!("i{i}"), "now", &[], "same title", "")).collect();
    let r = ranked_find(&items, "same");
    assert_eq!(r.len(), MAX_FIND_RESULTS);
    assert_eq!(r[0].0, "i0");
    assert_eq!(r[49].0, "i49");
}

#[test]
fn search_matches_title_id_body_and_tags_ignoring_case() {
    let items = vec![
        item("ab12", "now", &[], "Buy groceries", ""),
        item("cd34", "next", &["Errand"], "Other", ""),
        item("ef56", "inbox", &[], "Plain", "milk and EGGS"),
        item("gh78", "done", &[], "Nothing", ""),
    ];
    let r = search_items(&items, "GROC");
    assert_eq!(r, vec![("ab12".to_string(), "now".to_string())]);
    assert_eq!(search_items(&items, "errand").len(), 1);
    assert_eq!(search_items(&items, "eggs")[0].0, "ef56");
    assert_eq!(search_items(&items, "CD3")[0].0, "cd34");
    assert!(items[3].matches_query("nothing"));
    assert!(!items[3].matches_query("missing"));
}

fn refs(pairs: &[(&str, &str)]) -> Vec<(String, String)> {
    pairs.iter().map(|(a, b)| (a.to_string(), b.to_string())).collect()
}

#[test]
fn show_resolves_unique_title_substring() {
    let items = refs(&[("ab12", "Ship the release"), ("cd34", "Buy milk")]);
    assert_eq!(resolve_item(&items, &"release".to_string()).ok(), Some(0));
    assert_eq!(resolve_item(&items, &"MILK".to_string()).ok(), Some(1));
}

#[test]
fn unique_prefix_wins_over_titles() {
    let items = refs(&[("ab12", "ab title"), ("cd34", "other ab")]);
    assert_eq!(resolve_item(&items, &"ab".to_string()).ok(), Some(0));
}

#[test]
fn ambiguous_task_reference_is_reported() {
    let items = refs(&[("ab12", "x"), ("ab34", "y")]);
    let err = resolve_item(&items, &"ab".to_string()).err().expect("ambiguous");
    assert_eq!(err.describe(), "task reference is ambiguous: ab");
    let items = refs(&[("x1", "Ship it"), ("y2", "ship that")]);
    assert!(resolve_item(&items, &"ship".to_string()).is_err());
}

#[test]
fn missing_reference_is_not_found() {
    let items = refs(&[("ab12", "x")]);
    let err = resolve_item(&items, &"zz".to_string()).err().expect("not found");
    assert_eq!(err.describe(), "task not found: zz");
}

#[test]
fn an_exact_id_wins_over_longer_ids_it_prefixes() {
    let items = refs(&[("abc12", "same"), ("abc1", "same")]);
    assert_eq!(resolve_item(&items, &"abc1".to_string()).ok(), Some(1));
    assert!(resolve_item(&items, &"abc".to_string()).is_err());
}
