//! The terminal UI's key bindings: which action a key press asks for in
//! each mode. Carrying the action out is the event loop's job.
use vstd::prelude::*;
use crate::tui_state::FocusedPanel;

verus! {

/// A key press, reduced to what the bindings distinguish.
#[derive(Clone, Copy, Debug, PartialEq, Eq, Structural)]
pub enum Key {
    Char(char),
    Left,
    Right,
    Up,
    Down,
    Tab,
    BackTab,
    Enter,
    Esc,
    Backspace,
    Other,
}

/// What a key asks for in normal mode.
#[derive(Clone, Copy, Debug, PartialEq, Eq, Structural)]
pub enum NormalAction {
    /// Leave the program.
    Quit,
    /// Move keyboard focus to this pane.
    Focus(FocusedPanel),
    /// Toggle the tag under the cursor in the tag filter.
    ToggleTagAtCursor,
    NextQueue,
    PrevQueue,
    NextTask,
    PrevTask,
    NextTag,
    PrevTag,
    /// Show the sidebar entry at this position.
    SelectQueue(usize),
    /// Pick up the selected item to carry it to another list.
    CarrySelected,
    /// Ask to delete the lists selected in the sidebar.
    DeleteSelectedLists,
    /// Ask to delete the selected item.
    DeleteSelectedItem,
    OpenSearch,
    OpenFind,
    /// Start adding a list before (or after) the sidebar cursor.
    AddSublist { before: bool },
    /// Start adding an item before (or after) the item cursor.
    AddItem { before: bool },
    /// Open the selected item in the editor.
    EditSelected,
    FirstTask,
    LastTask,
    SwapListDown,
    SwapListUp,
    /// Lists cannot be reordered while a tag filter is active: say so.
    ListReorderBlocked,
    ReorderDown,
    ReorderUp,
    MoveToTop,
    MoveToBottom,
    Renormalize,
    /// Open the tag picker for the selected lists.
    TagListsPicker,
    /// Open the tag picker for the selected item.
    TagItemPicker,
    EnterVisual,
    Refresh,
    /// The key does nothing here.
    Ignore,
}

/// The action of `key` in normal mode, with focus on `panel`; `ctrl` tells
/// whether Control was held and `tag_filter_active` whether a tag filter
/// is on.
pub open spec fn spec_normal_action(key: Key, ctrl: bool, panel: FocusedPanel, tag_filter_active: bool) -> NormalAction {
    let sidebar = panel == FocusedPanel::Sidebar;
    let items_pane = panel == FocusedPanel::TaskList || panel == FocusedPanel::Detail;
    match key {
        Key::Char(c) => {
            if c == 'q' {
                NormalAction::Quit
            } else if c == 'c' && ctrl {
                NormalAction::Quit
            } else if c == 'h' {
                NormalAction::Focus(spec_left(panel))
            } else if c == 'l' {
                NormalAction::Focus(spec_right(panel))
            } else if c == ' ' {
                if panel == FocusedPanel::Tags {
                    NormalAction::ToggleTagAtCursor
                } else if sidebar {
                    NormalAction::Focus(FocusedPanel::TaskList)
                } else {
                    NormalAction::Focus(FocusedPanel::Sidebar)
                }
            } else if c == 'j' {
                spec_down_action(panel)
            } else if c == 'k' {
                spec_up_action(panel)
            } else if '1' <= c && c <= '6' {
                NormalAction::SelectQueue((c as int - '1' as int) as usize)
            } else if c == 'm' {
                NormalAction::CarrySelected
            } else if c == 'x' {
                if sidebar {
                    NormalAction::DeleteSelectedLists
                } else {
                    NormalAction::DeleteSelectedItem
                }
            } else if c == '/' {
                NormalAction::OpenSearch
            } else if c == 'f' {
                NormalAction::OpenFind
            } else if c == 'O' || c == 'i' || c == 'o' || c == 'a' {
                let before = c == 'O' || c == 'i';
                if sidebar {
                    NormalAction::AddSublist { before }
                } else {
                    NormalAction::AddItem { before }
                }
            } else if c == 'e' {
                NormalAction::EditSelected
            } else if c == 'g' && panel == FocusedPanel::TaskList {
                NormalAction::FirstTask
            } else if c == 'G' && panel == FocusedPanel::TaskList {
                NormalAction::LastTask
            } else if c == 'J' {
                if sidebar {
                    if tag_filter_active {
                        NormalAction::ListReorderBlocked
                    } else {
                        NormalAction::SwapListDown
                    }
                } else if items_pane {
                    NormalAction::ReorderDown
                } else {
                    NormalAction::Ignore
                }
            } else if c == 'K' {
                if sidebar {
                    if tag_filter_active {
                        NormalAction::ListReorderBlocked
                    } else {
                        NormalAction::SwapListUp
                    }
                } else if items_pane {
                    NormalAction::ReorderUp
                } else {
                    NormalAction::Ignore
                }
            } else if c == '>' {
                NormalAction::NextQueue
            } else if c == '<' {
                NormalAction::PrevQueue
            } else if c == '[' && !sidebar {
                NormalAction::FirstTask
            } else if c == ']' && !sidebar {
                NormalAction::LastTask
            } else if c == '{' && !sidebar {
                NormalAction::MoveToTop
            } else if c == '}' && !sidebar {
                NormalAction::MoveToBottom
            } else if c == '=' {
                NormalAction::Renormalize
            } else if c == 't' {
                if sidebar {
                    NormalAction::TagListsPicker
                } else if items_pane {
                    NormalAction::TagItemPicker
                } else {
                    NormalAction::Ignore
                }
            } else if (c == 'v' || c == 'V') && (panel == FocusedPanel::TaskList || sidebar) {
                NormalAction::EnterVisual
            } else if c == 'r' {
                NormalAction::Refresh
            } else {
                NormalAction::Ignore
            }
        },
        Key::Left => NormalAction::Focus(spec_left(panel)),
        Key::Right => NormalAction::Focus(spec_right(panel)),
        Key::Down => spec_down_action(panel),
        Key::Up => spec_up_action(panel),
        Key::Tab => NormalAction::NextQueue,
        Key::BackTab => NormalAction::PrevQueue,
        Key::Esc => NormalAction::Quit,
        Key::Enter => {
            if panel == FocusedPanel::Tags {
                NormalAction::ToggleTagAtCursor
            } else {
                NormalAction::Ignore
            }
        },
        _ => NormalAction::Ignore,
    }
}

/// The pane to the left of `p`.
pub open spec fn spec_left(p: FocusedPanel) -> FocusedPanel {
    match p {
        FocusedPanel::Tags => FocusedPanel::Detail,
        FocusedPanel::Detail => FocusedPanel::TaskList,
        FocusedPanel::TaskList => FocusedPanel::Sidebar,
        FocusedPanel::Sidebar => FocusedPanel::Sidebar,
    }
}

/// The pane to the right of `p`.
pub open spec fn spec_right(p: FocusedPanel) -> FocusedPanel {
    match p {
        FocusedPanel::Sidebar => FocusedPanel::TaskList,
        FocusedPanel::TaskList => FocusedPanel::Detail,
        FocusedPanel::Detail => FocusedPanel::Tags,
        FocusedPanel::Tags => FocusedPanel::Tags,
    }
}

/// Moving down in pane `p`.
pub open spec fn spec_down_action(p: FocusedPanel) -> NormalAction {
    match p {
        FocusedPanel::Sidebar => NormalAction::NextQueue,
        FocusedPanel::TaskList | FocusedPanel::Detail => NormalAction::NextTask,
        FocusedPanel::Tags => NormalAction::NextTag,
    }
}

/// Moving up in pane `p`.
pub open spec fn spec_up_action(p: FocusedPanel) -> NormalAction {
    match p {
        FocusedPanel::Sidebar => NormalAction::PrevQueue,
        FocusedPanel::TaskList | FocusedPanel::Detail => NormalAction::PrevTask,
        FocusedPanel::Tags => NormalAction::PrevTag,
    }
}

fn down_action(p: FocusedPanel) -> (r: NormalAction)
    ensures
        r == spec_down_action(p),
{
    match p {
        FocusedPanel::Sidebar => NormalAction::NextQueue,
        FocusedPanel::TaskList | FocusedPanel::Detail => NormalAction::NextTask,
        FocusedPanel::Tags => NormalAction::NextTag,
    }
}

fn up_action(p: FocusedPanel) -> (r: NormalAction)
    ensures
        r == spec_up_action(p),
{
    match p {
        FocusedPanel::Sidebar => NormalAction::PrevQueue,
        FocusedPanel::TaskList | FocusedPanel::Detail => NormalAction::PrevTask,
        FocusedPanel::Tags => NormalAction::PrevTag,
    }
}

/// The action of a key in normal mode.
pub fn normal_action(key: Key, ctrl: bool, panel: FocusedPanel, tag_filter_active: bool) -> (r: NormalAction)
    ensures
        r == spec_normal_action(key, ctrl, panel, tag_filter_active),
{
    let sidebar = panel == FocusedPanel::Sidebar;
    let items_pane = panel == FocusedPanel::TaskList || panel == FocusedPanel::Detail;
    match key {
        Key::Char(c) => {
            if c == 'q' {
                NormalAction::Quit
            } else if c == 'c' && ctrl {
                NormalAction::Quit
            } else if c == 'h' {
                NormalAction::Focus(panel.left())
            } else if c == 'l' {
                NormalAction::Focus(panel.right())
            } else if c == ' ' {
                if panel == FocusedPanel::Tags {
                    NormalAction::ToggleTagAtCursor
                } else if sidebar {
                    NormalAction::Focus(FocusedPanel::TaskList)
                } else {
                    NormalAction::Focus(FocusedPanel::Sidebar)
                }
            } else if c == 'j' {
                down_action(panel)
            } else if c == 'k' {
                up_action(panel)
            } else if '1' <= c && c <= '6' {
                NormalAction::SelectQueue(((c as u32) - ('1' as u32)) as usize)
            } else if c == 'm' {
                NormalAction::CarrySelected
            } else if c == 'x' {
                if sidebar {
                    NormalAction::DeleteSelectedLists
                } else {
                    NormalAction::DeleteSelectedItem
                }
            } else if c == '/' {
                NormalAction::OpenSearch
            } else if c == 'f' {
                NormalAction::OpenFind
            } else if c == 'O' || c == 'i' || c == 'o' || c == 'a' {
                let before = c == 'O' || c == 'i';
                if sidebar {
                    NormalAction::AddSublist { before }
                } else {
                    NormalAction::AddItem { before }
                }
            } else if c == 'e' {
                NormalAction::EditSelected
            } else if c == 'g' && panel == FocusedPanel::TaskList {
                NormalAction::FirstTask
            } else if c == 'G' && panel == FocusedPanel::TaskList {
                NormalAction::LastTask
            } else if c == 'J' {
                if sidebar {
                    if tag_filter_active {
                        NormalAction::ListReorderBlocked
                    } else {
                        NormalAction::SwapListDown
                    }
                } else if items_pane {
                    NormalAction::ReorderDown
                } else {
                    NormalAction::Ignore
                }
            } else if c == 'K' {
                if sidebar {
                    if tag_filter_active {
                        NormalAction::ListReorderBlocked
                    } else {
                        NormalAction::SwapListUp
                    }
                } else if items_pane {
                    NormalAction::ReorderUp
                } else {
                    NormalAction::Ignore
                }
            } else if c == '>' {
                NormalAction::NextQueue
            } else if c == '<' {
                NormalAction::PrevQueue
            } else if c == '[' && !sidebar {
                NormalAction::FirstTask
            } else if c == ']' && !sidebar {
                NormalAction::LastTask
            } else if c == '{' && !sidebar {
                NormalAction::MoveToTop
            } else if c == '}' && !sidebar {
                NormalAction::MoveToBottom
            } else if c == '=' {
                NormalAction::Renormalize
            } else if c == 't' {
                if sidebar {
                    NormalAction::TagListsPicker
                } else if items_pane {
                    NormalAction::TagItemPicker
                } else {
                    NormalAction::Ignore
                }
            } else if (c == 'v' || c == 'V') && (panel == FocusedPanel::TaskList || sidebar) {
                NormalAction::EnterVisual
            } else if c == 'r' {
                NormalAction::Refresh
            } else {
                NormalAction::Ignore
            }
        },
        Key::Left => NormalAction::Focus(panel.left()),
        Key::Right => NormalAction::Focus(panel.right()),
        Key::Down => down_action(panel),
        Key::Up => up_action(panel),
        Key::Tab => NormalAction::NextQueue,
        Key::BackTab => NormalAction::PrevQueue,
        Key::Esc => NormalAction::Quit,
        Key::Enter => {
            if panel == FocusedPanel::Tags {
                NormalAction::ToggleTagAtCursor
            } else {
                NormalAction::Ignore
            }
        },
        _ => NormalAction::Ignore,
    }
}

/// What a key asks for in visual (selection) mode.
#[derive(Clone, Copy, Debug, PartialEq, Eq, Structural)]
pub enum VisualAction {
    /// Leave visual mode.
    Exit,
    /// Leave visual mode and move focus to this pane.
    ExitFocus(FocusedPanel),
    /// Extend the sidebar selection down, not onto the "all" entry.
    SidebarDown,
    /// Extend the sidebar selection up.
    SidebarUp,
    NextTask,
    PrevTask,
    SwapListBlockDown,
    SwapListBlockUp,
    ReorderDown,
    ReorderUp,
    /// Pick up the selected items to carry them to another list.
    CarrySelection,
    /// Send the selected items to the next list.
    SendNext,
    /// Send the selected items to the previous list.
    SendPrev,
    FirstTask,
    LastTask,
    MoveToTop,
    MoveToBottom,
    DeleteSelectedLists,
    DeleteSelection,
    TagListsPicker,
    TagSelectionPicker,
    Quit,
    Ignore,
}

/// The action of `key` in visual mode; `in_sidebar` tells whether the
/// selection is in the sidebar.
pub open spec fn spec_visual_action(key: Key, in_sidebar: bool) -> VisualAction {
    match key {
        Key::Esc => VisualAction::Exit,
        Key::Left => VisualAction::ExitFocus(spec_left(if in_sidebar { FocusedPanel::Sidebar } else { FocusedPanel::TaskList })),
        Key::Right => VisualAction::ExitFocus(spec_right(if in_sidebar { FocusedPanel::Sidebar } else { FocusedPanel::TaskList })),
        Key::Down => if in_sidebar { VisualAction::SidebarDown } else { VisualAction::NextTask },
        Key::Up => if in_sidebar { VisualAction::SidebarUp } else { VisualAction::PrevTask },
        Key::Char(c) => {
            if c == 'v' {
                VisualAction::Exit
            } else if c == 'h' {
                VisualAction::ExitFocus(spec_left(if in_sidebar { FocusedPanel::Sidebar } else { FocusedPanel::TaskList }))
            } else if c == 'l' {
                VisualAction::ExitFocus(spec_right(if in_sidebar { FocusedPanel::Sidebar } else { FocusedPanel::TaskList }))
            } else if c == 'j' {
                if in_sidebar { VisualAction::SidebarDown } else { VisualAction::NextTask }
            } else if c == 'k' {
                if in_sidebar { VisualAction::SidebarUp } else { VisualAction::PrevTask }
            } else if c == 'J' {
                if in_sidebar { VisualAction::SwapListBlockDown } else { VisualAction::ReorderDown }
            } else if c == 'K' {
                if in_sidebar { VisualAction::SwapListBlockUp } else { VisualAction::ReorderUp }
            } else if c == 'H' && !in_sidebar {
                VisualAction::CarrySelection
            } else if c == '>' {
                VisualAction::SendNext
            } else if c == '<' {
                VisualAction::SendPrev
            } else if c == '[' || c == 'g' {
                VisualAction::FirstTask
            } else if c == ']' || c == 'G' {
                VisualAction::LastTask
            } else if c == '{' && !in_sidebar {
                VisualAction::MoveToTop
            } else if c == '}' && !in_sidebar {
                VisualAction::MoveToBottom
            } else if c == 'm' {
                VisualAction::CarrySelection
            } else if c == 'x' {
                if in_sidebar { VisualAction::DeleteSelectedLists } else { VisualAction::DeleteSelection }
            } else if c == 't' {
                if in_sidebar { VisualAction::TagListsPicker } else { VisualAction::TagSelectionPicker }
            } else if c == 'q' {
                VisualAction::Quit
            } else {
                VisualAction::Ignore
            }
        },
        _ => VisualAction::Ignore,
    }
}

/// The action of a key in visual mode. Visual mode is entered from the
/// sidebar or the item pane, so the focus is one of the two.
pub fn visual_action(key: Key, in_sidebar: bool) -> (r: VisualAction)
    ensures
        r == spec_visual_action(key, in_sidebar),
{
    let pane = if in_sidebar { FocusedPanel::Sidebar } else { FocusedPanel::TaskList };
    match key {
        Key::Esc => VisualAction::Exit,
        Key::Left => VisualAction::ExitFocus(pane.left()),
        Key::Right => VisualAction::ExitFocus(pane.right()),
        Key::Down => if in_sidebar { VisualAction::SidebarDown } else { VisualAction::NextTask },
        Key::Up => if in_sidebar { VisualAction::SidebarUp } else { VisualAction::PrevTask },
        Key::Char(c) => {
            if c == 'v' {
                VisualAction::Exit
            } else if c == 'h' {
                VisualAction::ExitFocus(pane.left())
            } else if c == 'l' {
                VisualAction::ExitFocus(pane.right())
            } else if c == 'j' {
                if in_sidebar { VisualAction::SidebarDown } else { VisualAction::NextTask }
            } else if c == 'k' {
                if in_sidebar { VisualAction::SidebarUp } else { VisualAction::PrevTask }
            } else if c == 'J' {
                if in_sidebar { VisualAction::SwapListBlockDown } else { VisualAction::ReorderDown }
            } else if c == 'K' {
                if in_sidebar { VisualAction::SwapListBlockUp } else { VisualAction::ReorderUp }
            } else if c == 'H' && !in_sidebar {
                VisualAction::CarrySelection
            } else if c == '>' {
                VisualAction::SendNext
            } else if c == '<' {
                VisualAction::SendPrev
            } else if c == '[' || c == 'g' {
                VisualAction::FirstTask
            } else if c == ']' || c == 'G' {
                VisualAction::LastTask
            } else if c == '{' && !in_sidebar {
                VisualAction::MoveToTop
            } else if c == '}' && !in_sidebar {
                VisualAction::MoveToBottom
            } else if c == 'm' {
                VisualAction::CarrySelection
            } else if c == 'x' {
                if in_sidebar { VisualAction::DeleteSelectedLists } else { VisualAction::DeleteSelection }
            } else if c == 't' {
                if in_sidebar { VisualAction::TagListsPicker } else { VisualAction::TagSelectionPicker }
            } else if c == 'q' {
                VisualAction::Quit
            } else {
                VisualAction::Ignore
            }
        },
        _ => VisualAction::Ignore,
    }
}

/// What a key asks for while text is being entered or a choice is open.
#[derive(Clone, Copy, Debug, PartialEq, Eq, Structural)]
pub enum EntryAction {
    /// Accept (add, confirm, select, drop).
    Submit,
    /// Leave the mode without doing anything.
    Cancel,
    /// Move to the next choice.
    Next,
    /// Move to the previous choice.
    Prev,
    /// Delete the last typed character.
    Pop,
    /// Type this character.
    Push(char),
    /// Toggle the choice under the cursor.
    Toggle,
    Ignore,
}

/// Keys in the add-item form: Enter adds, Esc cancels, Tab and Shift-Tab
/// cycle the target list, Backspace and characters edit the title.
pub open spec fn spec_add_form_action(key: Key) -> EntryAction {
    match key {
        Key::Enter => EntryAction::Submit,
        Key::Esc => EntryAction::Cancel,
        Key::Tab => EntryAction::Next,
        Key::BackTab => EntryAction::Prev,
        Key::Backspace => EntryAction::Pop,
        Key::Char(c) => EntryAction::Push(c),
        _ => EntryAction::Ignore,
    }
}

pub fn add_form_action(key: Key) -> (r: EntryAction)
    ensures
        r == spec_add_form_action(key),
{
    match key {
        Key::Enter => EntryAction::Submit,
        Key::Esc => EntryAction::Cancel,
        Key::Tab => EntryAction::Next,
        Key::BackTab => EntryAction::Prev,
        Key::Backspace => EntryAction::Pop,
        Key::Char(c) => EntryAction::Push(c),
        _ => EntryAction::Ignore,
    }
}

/// Keys in the add-list form: list names take no white space.
pub open spec fn spec_add_sublist_action(key: Key) -> EntryAction {
    match key {
        Key::Enter => EntryAction::Submit,
        Key::Esc => EntryAction::Cancel,
        Key::Backspace => EntryAction::Pop,
        Key::Char(c) => if !crate::text::is_white_space(c) || c == '-' || c == '_' {
            EntryAction::Push(c)
        } else {
            EntryAction::Ignore
        },
        _ => EntryAction::Ignore,
    }
}

pub fn add_sublist_action(key: Key) -> (r: EntryAction)
    ensures
        r == spec_add_sublist_action(key),
{
    match key {
        Key::Enter => EntryAction::Submit,
        Key::Esc => EntryAction::Cancel,
        Key::Backspace => EntryAction::Pop,
        Key::Char(c) => if !crate::text::white_space(c) || c == '-' || c == '_' {
            EntryAction::Push(c)
        } else {
            EntryAction::Ignore
        },
        _ => EntryAction::Ignore,
    }
}

/// Keys in a delete confirmation: `y` or Enter confirms, anything else
/// cancels.
pub open spec fn spec_confirm_delete_action(key: Key) -> EntryAction {
    match key {
        Key::Enter => EntryAction::Submit,
        Key::Char(c) => if c == 'y' { EntryAction::Submit } else { EntryAction::Cancel },
        _ => EntryAction::Cancel,
    }
}

pub fn confirm_delete_action(key: Key) -> (r: EntryAction)
    ensures
        r == spec_confirm_delete_action(key),
{
    match key {
        Key::Enter => EntryAction::Submit,
        Key::Char(c) => if c == 'y' { EntryAction::Submit } else { EntryAction::Cancel },
        _ => EntryAction::Cancel,
    }
}

/// Keys in search and find: Enter jumps to the result, Down/Tab and
/// Up/Shift-Tab cycle the results, Backspace and characters edit the query.
pub open spec fn spec_query_action(key: Key) -> EntryAction {
    match key {
        Key::Esc => EntryAction::Cancel,
        Key::Enter => EntryAction::Submit,
        Key::Down | Key::Tab => EntryAction::Next,
        Key::Up | Key::BackTab => EntryAction::Prev,
        Key::Backspace => EntryAction::Pop,
        Key::Char(c) => EntryAction::Push(c),
        _ => EntryAction::Ignore,
    }
}

pub fn query_action(key: Key) -> (r: EntryAction)
    ensures
        r == spec_query_action(key),
{
    match key {
        Key::Esc => EntryAction::Cancel,
        Key::Enter => EntryAction::Submit,
        Key::Down | Key::Tab => EntryAction::Next,
        Key::Up | Key::BackTab => EntryAction::Prev,
        Key::Backspace => EntryAction::Pop,
        Key::Char(c) => EntryAction::Push(c),
        _ => EntryAction::Ignore,
    }
}

/// Keys while carrying items: `j`/Down and `k`/Up move the sidebar cursor
/// (up only when not at the top), `L`/Enter drops, Esc cancels.
pub open spec fn spec_carry_action(key: Key, at_top: bool) -> EntryAction {
    match key {
        Key::Esc => EntryAction::Cancel,
        Key::Down => EntryAction::Next,
        Key::Up => if !at_top { EntryAction::Prev } else { EntryAction::Ignore },
        Key::Enter => EntryAction::Submit,
        Key::Char(c) => if c == 'j' {
            EntryAction::Next
        } else if c == 'k' && !at_top {
            EntryAction::Prev
        } else if c == 'L' {
            EntryAction::Submit
        } else {
            EntryAction::Ignore
        },
        _ => EntryAction::Ignore,
    }
}

pub fn carry_action(key: Key, at_top: bool) -> (r: EntryAction)
    ensures
        r == spec_carry_action(key, at_top),
{
    match key {
        Key::Esc => EntryAction::Cancel,
        Key::Down => EntryAction::Next,
        Key::Up => if !at_top { EntryAction::Prev } else { EntryAction::Ignore },
        Key::Enter => EntryAction::Submit,
        Key::Char(c) => if c == 'j' {
            EntryAction::Next
        } else if c == 'k' && !at_top {
            EntryAction::Prev
        } else if c == 'L' {
            EntryAction::Submit
        } else {
            EntryAction::Ignore
        },
        _ => EntryAction::Ignore,
    }
}

/// Whether `c` is an ASCII letter or digit.
pub open spec fn is_ascii_alphanumeric(c: char) -> bool {
    ('0' <= c && c <= '9') || ('a' <= c && c <= 'z') || ('A' <= c && c <= 'Z')
}

/// Keys in the tag picker: Enter applies, Esc cancels, Down/Up move the
/// cursor, Space toggles the tag under it, and letters, digits, `-` and `_`
/// type a new tag.
pub open spec fn spec_tag_picker_action(key: Key) -> EntryAction {
    match key {
        Key::Esc => EntryAction::Cancel,
        Key::Enter => EntryAction::Submit,
        Key::Down => EntryAction::Next,
        Key::Up => EntryAction::Prev,
        Key::Backspace => EntryAction::Pop,
        Key::Char(c) => if c == ' ' {
            EntryAction::Toggle
        } else if is_ascii_alphanumeric(c) || c == '-' || c == '_' {
            EntryAction::Push(c)
        } else {
            EntryAction::Ignore
        },
        _ => EntryAction::Ignore,
    }
}

pub fn tag_picker_action(key: Key) -> (r: EntryAction)
    ensures
        r == spec_tag_picker_action(key),
{
    match key {
        Key::Esc => EntryAction::Cancel,
        Key::Enter => EntryAction::Submit,
        Key::Down => EntryAction::Next,
        Key::Up => EntryAction::Prev,
        Key::Backspace => EntryAction::Pop,
        Key::Char(c) => if c == ' ' {
            EntryAction::Toggle
        } else if ('0' <= c && c <= '9') || ('a' <= c && c <= 'z') || ('A' <= c && c <= 'Z') || c == '-' || c == '_' {
            EntryAction::Push(c)
        } else {
            EntryAction::Ignore
        },
        _ => EntryAction::Ignore,
    }
}

/// The next position in a cyclic list of `count` entries.
pub fn wrap_next(current: usize, count: usize) -> (r: usize)
    requires
        count > 0,
    ensures
        r == if current + 1 >= count { 0 } else { current + 1 },
{
    if current >= count - 1 {
        0
    } else {
        current + 1
    }
}

/// The previous position in a cyclic list of `count` entries.
pub fn wrap_prev(current: usize, count: usize) -> (r: usize)
    requires
        count > 0,
    ensures
        r == if current == 0 { count - 1 } else { current - 1 },
{
    if current == 0 {
        count - 1
    } else {
        current - 1
    }
}

/// Going forward then back in a cycle returns to the start.
pub proof fn lemma_wrap_round_trip(current: int, count: int)
    requires
        0 <= current < count,
    ensures
        ({
            let n = if current + 1 >= count { 0 } else { current + 1 };
            (if n == 0 { count - 1 } else { n - 1 }) == current
        }),
{
}

/// The next sidebar entry, cyclically (`next_queue`).
pub fn next_index(index: usize, len: usize) -> (r: usize)
    requires
        index < len,
    ensures
        r == (index + 1) % (len as int),
        r < len,
{
    if index + 1 == len {
        proof {
            vstd::arithmetic::div_mod::lemma_mod_self_0(len as int);
        }
        0
    } else {
        proof {
            vstd::arithmetic::div_mod::lemma_small_mod((index + 1) as nat, len as nat);
        }
        index + 1
    }
}

/// The previous sidebar entry, cyclically (`prev_queue`).
pub fn prev_index(index: usize, len: usize) -> (r: usize)
    requires
        index < len,
    ensures
        r == (index + len - 1) % (len as int),
        r < len,
{
    if index == 0 {
        proof {
            vstd::arithmetic::div_mod::lemma_small_mod((len - 1) as nat, len as nat);
        }
        len - 1
    } else {
        proof {
            vstd::arithmetic::div_mod::lemma_mod_add_multiples_vanish(index - 1, len as int);
            vstd::arithmetic::div_mod::lemma_small_mod((index - 1) as nat, len as nat);
        }
        index - 1
    }
}

/// The selected row, or 0 with none.
pub open spec fn row_or_first(selected: Option<usize>) -> int {
    match selected {
        Some(c) => c as int,
        None => 0,
    }
}

/// The item cursor after moving down: `None` when the list is empty (the
/// caller then shows the next list), else one row down unless already on
/// the last row.
pub fn next_task_cursor(selected: Option<usize>, count: usize) -> (r: Option<usize>)
    ensures
        count == 0 ==> r is None,
        count > 0 ==> r == if row_or_first(selected) + 1 < count {
            Some((row_or_first(selected) + 1) as usize)
        } else {
            selected
        },
{
    if count == 0 {
        return None;
    }
    let cur = match selected {
        Some(c) => c,
        None => 0,
    };
    if cur < count - 1 {
        Some(cur + 1)
    } else {
        selected
    }
}

/// The item cursor after moving up: `None` when the list is empty (the
/// caller then shows the previous list), else one row up unless already on
/// the first row.
pub fn prev_task_cursor(selected: Option<usize>, count: usize) -> (r: Option<usize>)
    ensures
        count == 0 ==> r is None,
        count > 0 ==> match selected {
            Some(c) => r == Some(if c > 0 { (c - 1) as usize } else { c }),
            None => r is None,
        },
{
    if count == 0 {
        return None;
    }
    match selected {
        Some(c) => if c > 0 {
            Some(c - 1)
        } else {
            Some(c)
        },
        None => None,
    }
}

/// The selected rows of a visual selection: from the lower to the higher of
/// anchor and cursor.
pub fn selection_range(anchor: usize, cursor: usize) -> (r: (usize, usize))
    ensures
        r.0 == if anchor <= cursor { anchor } else { cursor },
        r.1 == if anchor <= cursor { cursor } else { anchor },
        r.0 <= r.1,
{
    if anchor <= cursor {
        (anchor, cursor)
    } else {
        (cursor, anchor)
    }
}

// ---------------------------------------------------------------------------
// The documented bindings
// ---------------------------------------------------------------------------

/// The normal-mode bindings of the key table: `q` and `Esc` quit; `j`/`k`
/// act as the down/up arrows and `h`/`l` as the left/right arrows; `<`/`>`
/// switch list (as `BackTab`/`Tab`); outside the sidebar `[`/`]` jump to
/// the first/last item and `{`/`}` move the item to the top/bottom of its
/// list; in the item panes `J`/`K` reorder the item down/up, in the sidebar
/// they reorder lists (refused while a tag filter is on); `o`/`a` add after
/// the cursor and `O`/`i` before it; `m` carries the item to a list, `e`
/// edits it, `x` deletes (the selected lists in the sidebar), `/` searches,
/// `f` finds, `=` renumbers, `r` refreshes, `v`/`V` enter visual mode in
/// the sidebar and the item list, and the digits `1`..`6` pick a list.
pub proof fn lemma_normal_bindings(ctrl: bool, panel: FocusedPanel, tag_filter_active: bool)
    ensures
        ({
            let act = |k: Key| spec_normal_action(k, ctrl, panel, tag_filter_active);
            let sidebar = panel == FocusedPanel::Sidebar;
            let items_pane = panel == FocusedPanel::TaskList || panel == FocusedPanel::Detail;
            &&& act(Key::Char('q')) == NormalAction::Quit
            &&& act(Key::Esc) == NormalAction::Quit
            &&& act(Key::Char('j')) == act(Key::Down)
            &&& act(Key::Char('k')) == act(Key::Up)
            &&& act(Key::Char('h')) == act(Key::Left)
            &&& act(Key::Char('l')) == act(Key::Right)
            &&& act(Key::Char('>')) == NormalAction::NextQueue && act(Key::Tab) == NormalAction::NextQueue
            &&& act(Key::Char('<')) == NormalAction::PrevQueue && act(Key::BackTab) == NormalAction::PrevQueue
            &&& !sidebar ==> act(Key::Char('[')) == NormalAction::FirstTask
            &&& !sidebar ==> act(Key::Char(']')) == NormalAction::LastTask
            &&& !sidebar ==> act(Key::Char('{')) == NormalAction::MoveToTop
            &&& !sidebar ==> act(Key::Char('}')) == NormalAction::MoveToBottom
            &&& items_pane ==> act(Key::Char('J')) == NormalAction::ReorderDown
            &&& items_pane ==> act(Key::Char('K')) == NormalAction::ReorderUp
            &&& sidebar && !tag_filter_active ==> act(Key::Char('J')) == NormalAction::SwapListDown
            &&& sidebar && !tag_filter_active ==> act(Key::Char('K')) == NormalAction::SwapListUp
            &&& sidebar && tag_filter_active ==> act(Key::Char('J')) == NormalAction::ListReorderBlocked
                && act(Key::Char('K')) == NormalAction::ListReorderBlocked
            &&& !sidebar ==> act(Key::Char('o')) == (NormalAction::AddItem { before: false })
                && act(Key::Char('a')) == (NormalAction::AddItem { before: false })
                && act(Key::Char('O')) == (NormalAction::AddItem { before: true })
                && act(Key::Char('i')) == (NormalAction::AddItem { before: true })
            &&& sidebar ==> act(Key::Char('o')) == (NormalAction::AddSublist { before: false })
                && act(Key::Char('O')) == (NormalAction::AddSublist { before: true })
            &&& act(Key::Char('m')) == NormalAction::CarrySelected
            &&& act(Key::Char('e')) == NormalAction::EditSelected
            &&& act(Key::Char('x')) == (if sidebar {
                NormalAction::DeleteSelectedLists
            } else {
                NormalAction::DeleteSelectedItem
            })
            &&& act(Key::Char('/')) == NormalAction::OpenSearch
            &&& act(Key::Char('f')) == NormalAction::OpenFind
            &&& act(Key::Char('=')) == NormalAction::Renormalize
            &&& act(Key::Char('r')) == NormalAction::Refresh
            &&& (sidebar || panel == FocusedPanel::TaskList) ==> act(Key::Char('v')) == NormalAction::EnterVisual
                && act(Key::Char('V')) == NormalAction::EnterVisual
            &&& forall|d: int| 1 <= d <= 6 ==> #[trigger] act(Key::Char(('0' as int + d) as char))
                == NormalAction::SelectQueue((d - 1) as usize)
        }),
{
    assert forall|d: int| 1 <= d <= 6 implies #[trigger] spec_normal_action(
        Key::Char(('0' as int + d) as char),
        ctrl,
        panel,
        tag_filter_active,
    ) == NormalAction::SelectQueue((d - 1) as usize) by {
        let c = ('0' as int + d) as char;
        assert(c as int == '0' as int + d);
        assert('1' <= c && c <= '6');
    }
}

/// The visual-mode bindings of the key table: `Esc` and `v` leave visual
/// mode; `h`/`l` act as the left/right arrows and `j`/`k` as the down/up
/// arrows; `J`/`K` reorder the selection as a block (a block of lists in
/// the sidebar); `<`/`>` send the selection to the previous/next list;
/// outside the sidebar `{`/`}` move it to the top/bottom of its list;
/// `[`/`]` extend it to the first/last item; `m` carries it to a list.
pub proof fn lemma_visual_bindings(in_sidebar: bool)
    ensures
        ({
            let act = |k: Key| spec_visual_action(k, in_sidebar);
            &&& act(Key::Esc) == VisualAction::Exit && act(Key::Char('v')) == VisualAction::Exit
            &&& act(Key::Char('h')) == act(Key::Left)
            &&& act(Key::Char('l')) == act(Key::Right)
            &&& act(Key::Char('j')) == act(Key::Down)
            &&& act(Key::Char('k')) == act(Key::Up)
            &&& act(Key::Char('J')) == (if in_sidebar {
                VisualAction::SwapListBlockDown
            } else {
                VisualAction::ReorderDown
            })
            &&& act(Key::Char('K')) == (if in_sidebar {
                VisualAction::SwapListBlockUp
            } else {
                VisualAction::ReorderUp
            })
            &&& act(Key::Char('>')) == VisualAction::SendNext
            &&& act(Key::Char('<')) == VisualAction::SendPrev
            &&& !in_sidebar ==> act(Key::Char('{')) == VisualAction::MoveToTop
            &&& !in_sidebar ==> act(Key::Char('}')) == VisualAction::MoveToBottom
            &&& act(Key::Char('[')) == VisualAction::FirstTask
            &&& act(Key::Char(']')) == VisualAction::LastTask
            &&& act(Key::Char('m')) == VisualAction::CarrySelection
        }),
{
}

} // verus!
