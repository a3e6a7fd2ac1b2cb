use sqs::reorder::{
    block_to_edge, move_to_edge, next_list_for, prev_list_for, reorder_down, reorder_up, selection_bounds,
    shift_down, shift_up, without, BlockMove,
};

fn strs(v: &[&str]) -> Vec<String> {
    v.iter().map(|s| s.to_string()).collect()
}

fn rows(v: &[(&str, &str)]) -> Vec<(String, String)> {
    v.iter().map(|(a, b)| (a.to_string(), b.to_string())).collect()
}

fn lists() -> Vec<String> {
    strs(&["now", "next", "later"])
}

#[test]
fn shifting_down_then_up_restores_the_order() {
    let order = strs(&["a", "b", "c", "d", "e"]);
    let down = shift_down(&order, 1, 2);
    assert_eq!(down, strs(&["a", "d", "b", "c", "e"]));
    let back = shift_up(&down, 2, 2);
    assert_eq!(back, order);
    // Nothing below the block: unchanged.
    assert_eq!(shift_down(&order, 3, 2), order);
    // Nothing above the block: unchanged.
    assert_eq!(shift_up(&order, 0, 2), order);
}

#[test]
fn block_to_edge_keeps_the_others_in_order() {
    let order = strs(&["a", "b", "c", "d"]);
    let sel = strs(&["c", "a"]);
    assert_eq!(block_to_edge(&order, &sel, true), strs(&["c", "a", "b", "d"]));
    assert_eq!(block_to_edge(&order, &sel, false), strs(&["b", "d", "c", "a"]));
    assert_eq!(without(&order, &sel), strs(&["b", "d"]));
}

#[test]
fn reorder_down_within_a_list() {
    let r = rows(&[("a", "now"), ("b", "now"), ("c", "now")]);
    let plan = reorder_down(&r, 0, 0, &lists());
    assert_eq!(
        plan,
        BlockMove::Shift { list: "now".into(), order: strs(&["b", "a", "c"]), changed: true, cursor: 1, anchor: 1 }
    );
}

#[test]
fn reorder_down_at_the_bottom_crosses_to_the_next_list() {
    let r = rows(&[("a", "now"), ("b", "now"), ("c", "next")]);
    let plan = reorder_down(&r, 1, 1, &lists());
    assert_eq!(plan, BlockMove::Gather { list: "next".into(), ids: strs(&["b"]), to_front: true });
}

#[test]
fn reorder_down_in_the_last_list_stays() {
    let r = rows(&[("a", "later")]);
    assert_eq!(reorder_down(&r, 0, 0, &lists()), BlockMove::Stay);
    assert_eq!(reorder_down(&Vec::new(), 0, 0, &lists()), BlockMove::Stay);
}

#[test]
fn reorder_across_lists_gathers_first() {
    let r = rows(&[("a", "now"), ("b", "next"), ("c", "next")]);
    assert_eq!(
        reorder_down(&r, 0, 1, &lists()),
        BlockMove::Gather { list: "next".into(), ids: strs(&["a"]), to_front: true }
    );
    assert_eq!(
        reorder_up(&r, 0, 1, &lists()),
        BlockMove::Gather { list: "now".into(), ids: strs(&["b"]), to_front: false }
    );
}

#[test]
fn reorder_up_within_a_list_and_across() {
    let r = rows(&[("a", "now"), ("b", "next"), ("c", "next")]);
    assert_eq!(
        reorder_up(&r, 2, 2, &lists()),
        BlockMove::Shift { list: "next".into(), order: strs(&["c", "b"]), changed: true, cursor: 1, anchor: 1 }
    );
    assert_eq!(
        reorder_up(&r, 1, 1, &lists()),
        BlockMove::Gather { list: "now".into(), ids: strs(&["b"]), to_front: false }
    );
    assert_eq!(reorder_up(&r, 0, 0, &lists()), BlockMove::Stay);
}

#[test]
fn move_to_top_and_bottom() {
    let r = rows(&[("a", "now"), ("b", "now"), ("c", "now"), ("d", "now")]);
    assert_eq!(move_to_edge(&r, 2, 3, true), Some(("now".to_string(), strs(&["c", "d", "a", "b"]))));
    assert_eq!(move_to_edge(&r, 0, 1, false), Some(("now".to_string(), strs(&["c", "d", "a", "b"]))));
    assert_eq!(move_to_edge(&Vec::new(), 0, 0, true), None);
}

#[test]
fn adjacent_lists() {
    let names = lists();
    assert_eq!(next_list_for(&names, &"now".to_string()), Some("next".to_string()));
    assert_eq!(next_list_for(&names, &"later".to_string()), None);
    assert_eq!(prev_list_for(&names, &"next".to_string()), Some("now".to_string()));
    assert_eq!(prev_list_for(&names, &"now".to_string()), None);
    assert_eq!(prev_list_for(&names, &"elsewhere".to_string()), None);
}

#[test]
fn selection_bounds_find_the_first_and_last_rows() {
    let view = strs(&["a", "b", "c", "d"]);
    assert_eq!(selection_bounds(&view, &strs(&["d", "b"])), Some((1, 3)));
    assert_eq!(selection_bounds(&view, &strs(&["z"])), None);
}

#[test]
fn a_new_item_is_placed_at_the_cursor() {
    let order: Vec<String> = ["a", "b", "c", "new"].iter().map(|s| s.to_string()).collect();
    let placed = sqs::reorder::place_id(&order, &"new".to_string(), 1);
    assert_eq!(placed, vec!["a", "new", "b", "c"]);
    let last = sqs::reorder::place_id(&order, &"new".to_string(), 9);
    assert_eq!(last, vec!["a", "b", "c", "new"]);
}
