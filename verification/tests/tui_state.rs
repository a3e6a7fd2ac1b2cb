use sqs::sidebar::{
    insert_sublist, list_names, position_of_list, selected_sublist_names, swap_list_block, swap_list_down, swap_list_up,
};
use sqs::tui_state::{
    default_sidebar_entries, sidebar_from_list_names, visual_anchor_for, visual_cursor_for, FocusedPanel,
    ListCounts, ListFilter, SidebarEntry, VisualMarkers,
};

fn names(entries: &Vec<SidebarEntry>) -> Vec<String> {
    list_names(entries)
}

#[test]
fn list_filter_display() {
    assert_eq!(ListFilter::Single("now".into()).to_string(), "now");
    assert_eq!(ListFilter::All.to_string(), "all");
}

#[test]
fn default_sidebar_has_all_at_end() {
    let entries = default_sidebar_entries();
    assert!(matches!(entries.last(), Some(SidebarEntry::All)));
    assert!(entries.len() >= 6);
}

#[test]
fn visual_anchor_only_in_focused_pane() {
    let anchor = Some(2);
    assert_eq!(visual_anchor_for(FocusedPanel::TaskList, FocusedPanel::TaskList, anchor), Some(2));
    assert_eq!(visual_anchor_for(FocusedPanel::TaskList, FocusedPanel::Sidebar, anchor), None);
    assert_eq!(visual_anchor_for(FocusedPanel::Sidebar, FocusedPanel::Sidebar, anchor), Some(2));
    assert_eq!(visual_anchor_for(FocusedPanel::Sidebar, FocusedPanel::TaskList, anchor), None);
    assert_eq!(visual_anchor_for(FocusedPanel::Sidebar, FocusedPanel::Sidebar, None), None);
}

#[test]
fn visual_cursor_follows_the_owning_pane() {
    assert_eq!(visual_cursor_for(FocusedPanel::Sidebar, FocusedPanel::Sidebar, true, 3, Some(7)), Some(3));
    assert_eq!(visual_cursor_for(FocusedPanel::TaskList, FocusedPanel::TaskList, true, 3, Some(7)), Some(7));
    assert_eq!(visual_cursor_for(FocusedPanel::TaskList, FocusedPanel::TaskList, true, 3, None), Some(0));
    assert_eq!(visual_cursor_for(FocusedPanel::TaskList, FocusedPanel::Sidebar, true, 3, Some(7)), None);
    assert_eq!(visual_cursor_for(FocusedPanel::TaskList, FocusedPanel::TaskList, false, 3, Some(7)), None);
}

#[test]
fn create_sublist_inserts_and_jumps() {
    let entries = default_sidebar_entries();
    let updated = insert_sublist(&entries, &"waiting".to_string(), 2).expect("list should be added");
    assert!(names(&updated).iter().any(|n| n == "waiting"));
    let at = position_of_list(&updated, &"waiting".to_string()).expect("list should be shown");
    assert_eq!(at, 2);
    assert_eq!(names(&updated), vec!["now", "next", "waiting", "later", "inbox", "done"]);
}

#[test]
fn create_sublist_refuses_empty_and_taken_names() {
    let entries = default_sidebar_entries();
    let empty = insert_sublist(&entries, &String::new(), 0).err().expect("empty name refused");
    assert_eq!(empty.describe(), "sublist name cannot be empty");
    assert_eq!(empty.exit_code(), 2);
    let taken = insert_sublist(&entries, &"now".to_string(), 0).err().expect("taken name refused");
    assert_eq!(taken.describe(), "list 'now' already exists");
}

#[test]
fn create_sublist_past_the_end_goes_after_the_last_list() {
    let entries = default_sidebar_entries();
    let updated = insert_sublist(&entries, &"someday".to_string(), 99).expect("list should be added");
    assert_eq!(names(&updated), vec!["now", "next", "later", "inbox", "done", "someday"]);
    assert!(matches!(updated.last(), Some(SidebarEntry::All)));
}

#[test]
fn swapping_lists_down_then_up_restores_the_sidebar() {
    let mut entries = default_sidebar_entries();
    assert_eq!(swap_list_down(&mut entries, 1), Some(2));
    assert_eq!(names(&entries), vec!["now", "later", "next", "inbox", "done"]);
    assert_eq!(swap_list_up(&mut entries, 2), Some(1));
    assert_eq!(names(&entries), vec!["now", "next", "later", "inbox", "done"]);
    // The last list does not swap with "all", and the first does not move up.
    assert_eq!(swap_list_down(&mut entries, 4), None);
    assert_eq!(swap_list_up(&mut entries, 0), None);
    assert_eq!(swap_list_up(&mut entries, 5), None);
    // Rows past the end move nothing.
    assert_eq!(swap_list_down(&mut entries, 9), None);
    assert_eq!(swap_list_up(&mut entries, 9), None);
    assert_eq!(names(&entries), vec!["now", "next", "later", "inbox", "done"]);
}

#[test]
fn selected_sublists_of_a_range() {
    let entries = default_sidebar_entries();
    assert_eq!(selected_sublist_names(&entries, 1, 2), vec!["next", "later"]);
    assert_eq!(selected_sublist_names(&entries, 4, 9), vec!["done"]);
    assert!(selected_sublist_names(&entries, 3, 1).is_empty());
}

#[test]
fn swapping_a_block_of_lists() {
    let mut entries = default_sidebar_entries();
    assert_eq!(swap_list_block(&mut entries, 0, 1, true), Some((2, 1)));
    assert_eq!(names(&entries), vec!["later", "now", "next", "inbox", "done"]);
    assert_eq!(swap_list_block(&mut entries, 1, 2, false), Some((1, 0)));
    assert_eq!(names(&entries), vec!["now", "next", "later", "inbox", "done"]);
    assert_eq!(swap_list_block(&mut entries, 3, 4, true), None);
}

#[test]
fn sidebar_lists_the_given_lists_then_all() {
    let entries = sidebar_from_list_names(&vec!["a".to_string(), "b".to_string()]);
    assert_eq!(names(&entries), vec!["a", "b"]);
    assert!(matches!(entries.last(), Some(SidebarEntry::All)));
    let fallback = sidebar_from_list_names(&Vec::new());
    assert_eq!(fallback.len(), 6);
}

#[test]
fn list_counts_count_items_per_list() {
    let lists = vec!["now".to_string(), "inbox".to_string(), "now".to_string()];
    let counts = ListCounts::from_item_lists(&lists);
    assert_eq!(counts.get("now"), 2);
    assert_eq!(counts.get("inbox"), 1);
    assert_eq!(counts.get("done"), 0);
    assert_eq!(counts.total, 3);
    assert_eq!(counts.counts.iter().map(|(_, n)| *n).sum::<usize>(), counts.total);
}

#[test]
fn list_counts_follow_the_tag_filter() {
    let item = |list: &str, tags: &[&str]| (list.to_string(), tags.iter().map(|t| t.to_string()).collect::<Vec<_>>());
    let items = vec![item("now", &["a", "b"]), item("now", &["a"]), item("inbox", &["b"]), item("later", &[])];
    let all = ListCounts::from_items(&items, &Vec::new());
    assert_eq!((all.get("now"), all.get("inbox"), all.get("later"), all.total), (2, 1, 1, 4));
    let b = ListCounts::from_items(&items, &vec!["b".to_string()]);
    assert_eq!((b.get("now"), b.get("inbox"), b.get("later"), b.total), (1, 1, 0, 2));
    let ab = ListCounts::from_items(&items, &vec!["a".to_string(), "b".to_string()]);
    assert_eq!((ab.get("now"), ab.get("inbox"), ab.total), (1, 0, 1));
    assert_eq!(ab.counts.iter().map(|(_, n)| *n).sum::<usize>(), ab.total);
}

#[test]
fn focus_moves_between_panes() {
    assert_eq!(FocusedPanel::Sidebar.left(), FocusedPanel::Sidebar);
    assert_eq!(FocusedPanel::TaskList.left(), FocusedPanel::Sidebar);
    assert_eq!(FocusedPanel::Detail.right(), FocusedPanel::Tags);
    assert_eq!(FocusedPanel::Tags.right(), FocusedPanel::Tags);
}

#[test]
fn visual_markers_cover_the_selected_range() {
    let m = VisualMarkers::for_pane(Some(1), Some(4), Some(2));
    assert_eq!(m.range, Some((2, 4)));
    assert_eq!(m.cursor_glyph(2), ">");
    assert_eq!(m.anchor_glyph(4), "o");
    assert!(m.is_in_range(3));
    assert!(!m.is_in_range(5));
    assert!(m.should_highlight(2));
    assert!(!m.should_highlight(1));
}
