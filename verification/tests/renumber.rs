use sqs::renumber::{item_key_in_list, list_key_for_index, renumber};

fn strs(v: &[&str]) -> Vec<String> {
    v.iter().map(|s| s.to_string()).collect()
}

fn rows(v: &[(&str, &str)]) -> Vec<(String, String)> {
    v.iter().map(|(a, b)| (a.to_string(), b.to_string())).collect()
}

#[test]
fn list_key_spacing_is_thousand() {
    assert_eq!(list_key_for_index(0), 1000);
    assert_eq!(list_key_for_index(1), 2000);
    assert_eq!(list_key_for_index(4), 5000);
}

#[test]
fn item_key_starts_just_after_list_marker() {
    assert_eq!(item_key_in_list(1000, 0), 1001);
    assert_eq!(item_key_in_list(1000, 9), 1010);
}

#[test]
fn renormalize_preserves_visible_order() {
    let lists = strs(&["now", "next", "later", "inbox", "done"]);
    let items = rows(&[("a001", "now"), ("a002", "now"), ("a003", "now"), ("b001", "inbox")]);
    let (new_lists, updates) = renumber(&lists, &items);
    assert_eq!(new_lists[0], ("now".to_string(), 1000));
    assert_eq!(new_lists[4], ("done".to_string(), 5000));
    let ids: Vec<&str> = updates.iter().map(|(id, _)| id.as_str()).collect();
    assert_eq!(ids, vec!["a001", "a002", "a003", "b001"]);
    let keys: Vec<u64> = updates.iter().map(|(_, k)| *k).collect();
    assert_eq!(keys, vec![1001, 1002, 1003, 4001]);
}

#[test]
fn renormalize_is_idempotent() {
    let lists = strs(&["now", "next"]);
    let items = rows(&[("x", "now"), ("y", "next"), ("z", "next")]);
    let first = renumber(&lists, &items);
    let read_back: Vec<(String, String)> = first
        .1
        .iter()
        .map(|(id, key)| (id.clone(), lists[(*key / 1000 - 1) as usize].clone()))
        .collect();
    assert_eq!(read_back, items);
    let second = renumber(&lists, &read_back);
    assert_eq!(first, second);
    assert_eq!(first.1, vec![("x".to_string(), 1001), ("y".to_string(), 2001), ("z".to_string(), 2002)]);
}

#[test]
fn items_of_unknown_lists_get_no_key() {
    let lists = strs(&["now"]);
    let items = rows(&[("x", "elsewhere"), ("y", "now")]);
    let (_, updates) = renumber(&lists, &items);
    assert_eq!(updates, vec![("y".to_string(), 1001)]);
}

#[test]
fn renormalize_is_idempotent_with_full_lists() {
    let lists = strs(&["now", "next"]);
    let mut items: Vec<(String, String)> = (0..999).map(|k| (format!("a{k}"), "now".to_string())).collect();
    items.extend((0..1500).map(|k| (format!("b{k}"), "next".to_string())));
    let first = renumber(&lists, &items);
    let read_back: Vec<(String, String)> = first
        .1
        .iter()
        .map(|(id, key)| {
            let index = ((*key / 1000 - 1) as usize).min(lists.len() - 1);
            (id.clone(), lists[index].clone())
        })
        .collect();
    assert_eq!(read_back, items);
    assert_eq!(first.1[998], ("a998".to_string(), 1999));
    assert_eq!(first.1[999], ("b0".to_string(), 2001));
    assert_eq!(first.1[2498], ("b1499".to_string(), 3500));
    assert_eq!(renumber(&lists, &read_back), first);
}
