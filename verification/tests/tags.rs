use sqs::tags::{
    intersect_tag_sets, merge_tags, normalize_tags, sort_dedup, sort_strings, str_less, tag_picker_changes,
    toggle_tag, union_tags,
};

fn strs(v: &[&str]) -> Vec<String> {
    v.iter().map(|s| s.to_string()).collect()
}

#[test]
fn strings_order_like_string_ord() {
    let words = ["", "a", "B", "b", "ab", "abc", "é", "z", "Z9"];
    for x in words {
        for y in words {
            assert_eq!(str_less(&x.to_string(), &y.to_string()), x < y, "{x} {y}");
        }
    }
}

#[test]
fn sorting_keeps_duplicates_and_dedup_removes_them() {
    let v = strs(&["beta", "alpha", "beta", "gamma"]);
    assert_eq!(sort_strings(&v), strs(&["alpha", "beta", "beta", "gamma"]));
    assert_eq!(sort_dedup(&v), strs(&["alpha", "beta", "gamma"]));
}

#[test]
fn merge_tags_adds_removes_sorts() {
    let merged = merge_tags(&strs(&["b", "a", "c"]), &strs(&["d", "a"]), &strs(&["c"]));
    assert_eq!(merged, strs(&["a", "b", "d"]));
    // Doing the same edit again changes nothing.
    assert_eq!(merge_tags(&merged, &strs(&["d", "a"]), &strs(&["c"])), merged);
}

#[test]
fn set_item_tags_persists_normalized() {
    assert_eq!(normalize_tags(&strs(&["SCOPE-foo", "", "MIL010", "SCOPE-foo"])), strs(&["MIL010", "SCOPE-foo"]));
}

#[test]
fn all_tags_returns_sorted_distinct() {
    let groups = vec![strs(&["beta", "alpha"]), strs(&["beta", "gamma"]), Vec::new()];
    assert_eq!(union_tags(&groups), strs(&["alpha", "beta", "gamma"]));
}

#[test]
fn intersection_of_tag_sets() {
    let sets = vec![strs(&["x", "y", "z"]), strs(&["y", "x"]), strs(&["x", "y", "w"])];
    assert_eq!(intersect_tag_sets(&sets), strs(&["x", "y"]));
    assert!(intersect_tag_sets(&Vec::new()).is_empty());
}

#[test]
fn tag_picker_diff() {
    let (add, remove) = tag_picker_changes(&strs(&["b", "a"]), &strs(&["a", "c"]), &"  new ".to_string());
    assert_eq!(add, strs(&["b", "new"]));
    assert_eq!(remove, strs(&["c"]));
    let (add, remove) = tag_picker_changes(&strs(&["a"]), &strs(&["a"]), &"   ".to_string());
    assert!(add.is_empty() && remove.is_empty());
}

#[test]
fn toggling_a_tag_filter() {
    let on = toggle_tag(&strs(&["b", "d"]), &"c".to_string());
    assert_eq!(on, strs(&["b", "c", "d"]));
    let off = toggle_tag(&on, &"b".to_string());
    assert_eq!(off, strs(&["c", "d"]));
}

#[test]
fn the_tag_filter_needs_every_tag() {
    let tags = vec!["a".to_string(), "b".to_string()];
    assert!(sqs::tags::has_all_tags(&tags, &vec!["b".to_string()]));
    assert!(sqs::tags::has_all_tags(&tags, &Vec::new()));
    assert!(!sqs::tags::has_all_tags(&tags, &vec!["a".to_string(), "c".to_string()]));
}
