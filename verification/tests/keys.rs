use sqs::keys::{
    add_form_action, add_sublist_action, carry_action, confirm_delete_action, next_index, next_task_cursor,
    normal_action, prev_index, prev_task_cursor, query_action, selection_range, tag_picker_action, visual_action,
    wrap_next, wrap_prev, EntryAction, Key, NormalAction, VisualAction,
};
use sqs::tui_state::FocusedPanel;

#[test]
fn normal_keys() {
    assert_eq!(normal_action(Key::Char('q'), false, FocusedPanel::TaskList, false), NormalAction::Quit);
    assert_eq!(normal_action(Key::Char('c'), true, FocusedPanel::TaskList, false), NormalAction::Quit);
    assert_eq!(normal_action(Key::Char('c'), false, FocusedPanel::TaskList, false), NormalAction::Ignore);
    assert_eq!(normal_action(Key::Esc, false, FocusedPanel::Sidebar, false), NormalAction::Quit);
    assert_eq!(
        normal_action(Key::Char('h'), false, FocusedPanel::Detail, false),
        NormalAction::Focus(FocusedPanel::TaskList)
    );
    assert_eq!(normal_action(Key::Char('j'), false, FocusedPanel::Sidebar, false), NormalAction::NextQueue);
    assert_eq!(normal_action(Key::Down, false, FocusedPanel::Tags, false), NormalAction::NextTag);
    assert_eq!(normal_action(Key::Char('3'), false, FocusedPanel::TaskList, false), NormalAction::SelectQueue(2));
    assert_eq!(
        normal_action(Key::Char('J'), false, FocusedPanel::Sidebar, true),
        NormalAction::ListReorderBlocked
    );
    assert_eq!(normal_action(Key::Char('J'), false, FocusedPanel::Sidebar, false), NormalAction::SwapListDown);
    assert_eq!(normal_action(Key::Char('K'), false, FocusedPanel::Detail, false), NormalAction::ReorderUp);
    assert_eq!(
        normal_action(Key::Char('o'), false, FocusedPanel::Sidebar, false),
        NormalAction::AddSublist { before: false }
    );
    assert_eq!(
        normal_action(Key::Char('i'), false, FocusedPanel::TaskList, false),
        NormalAction::AddItem { before: true }
    );
    assert_eq!(normal_action(Key::Char('g'), false, FocusedPanel::Detail, false), NormalAction::Ignore);
    assert_eq!(normal_action(Key::Char('['), false, FocusedPanel::Sidebar, false), NormalAction::Ignore);
    assert_eq!(normal_action(Key::Char(' '), false, FocusedPanel::Tags, false), NormalAction::ToggleTagAtCursor);
    assert_eq!(
        normal_action(Key::Char(' '), false, FocusedPanel::Detail, false),
        NormalAction::Focus(FocusedPanel::Sidebar)
    );
    assert_eq!(normal_action(Key::Char('v'), false, FocusedPanel::Detail, false), NormalAction::Ignore);
    assert_eq!(normal_action(Key::Enter, false, FocusedPanel::Tags, false), NormalAction::ToggleTagAtCursor);
}

#[test]
fn visual_keys() {
    assert_eq!(visual_action(Key::Esc, false), VisualAction::Exit);
    assert_eq!(visual_action(Key::Char('j'), true), VisualAction::SidebarDown);
    assert_eq!(visual_action(Key::Char('J'), false), VisualAction::ReorderDown);
    assert_eq!(visual_action(Key::Char('H'), true), VisualAction::Ignore);
    assert_eq!(visual_action(Key::Char('x'), true), VisualAction::DeleteSelectedLists);
    assert_eq!(visual_action(Key::Char('l'), false), VisualAction::ExitFocus(FocusedPanel::Detail));
}

#[test]
fn entry_keys() {
    assert_eq!(add_form_action(Key::Tab), EntryAction::Next);
    assert_eq!(add_form_action(Key::Char(' ')), EntryAction::Push(' '));
    assert_eq!(add_sublist_action(Key::Char(' ')), EntryAction::Ignore);
    assert_eq!(add_sublist_action(Key::Char('-')), EntryAction::Push('-'));
    assert_eq!(confirm_delete_action(Key::Char('y')), EntryAction::Submit);
    assert_eq!(confirm_delete_action(Key::Char('n')), EntryAction::Cancel);
    assert_eq!(query_action(Key::BackTab), EntryAction::Prev);
    assert_eq!(carry_action(Key::Char('k'), true), EntryAction::Ignore);
    assert_eq!(carry_action(Key::Char('L'), false), EntryAction::Submit);
    assert_eq!(tag_picker_action(Key::Char(' ')), EntryAction::Toggle);
    assert_eq!(tag_picker_action(Key::Char('!')), EntryAction::Ignore);
}

#[test]
fn cyclic_and_cursor_moves() {
    assert_eq!(wrap_next(2, 3), 0);
    assert_eq!(wrap_prev(0, 3), 2);
    assert_eq!(wrap_prev(wrap_next(1, 3), 3), 1);
    assert_eq!(next_index(5, 6), 0);
    assert_eq!(prev_index(0, 6), 5);
    assert_eq!(next_task_cursor(Some(1), 3), Some(2));
    assert_eq!(next_task_cursor(Some(2), 3), Some(2));
    assert_eq!(next_task_cursor(None, 3), Some(1));
    assert_eq!(next_task_cursor(Some(0), 0), None);
    assert_eq!(prev_task_cursor(Some(0), 3), Some(0));
    assert_eq!(prev_task_cursor(Some(2), 3), Some(1));
    assert_eq!(selection_range(4, 1), (1, 4));
}
