//! The storage of items as Markdown files under a root directory. Reading
//! and writing the files is the caller's part.
use vstd::prelude::*;
use std::path::PathBuf;

use crate::errors::AppError;
use crate::text::concat;
use crate::tui_state::names_view;

verus! {

/// What applying an edit made of an item.
#[derive(Clone, Copy, Debug, PartialEq, Eq, Structural)]
pub enum EditOutcome {
    /// The file was left as it was.
    Unchanged,
    /// The edited file was accepted.
    Applied,
}

/// Items stored as Markdown files with front matter under `root`: one
/// directory per list, and `lists.yaml` for the lists.
pub struct MarkdownTodolistsAdapter {
    root: PathBuf,
}

impl MarkdownTodolistsAdapter {
    /// The adapter for the items under `root`.
    pub fn new(root: PathBuf) -> (r: Self)
        ensures
            r.root_dir() == root,
    {
        MarkdownTodolistsAdapter { root }
    }

    /// The directory holding the items.
    pub closed spec fn root_dir(&self) -> PathBuf {
        self.root
    }

    /// The directory holding the items.
    pub fn root(&self) -> (r: &PathBuf)
        ensures
            *r == self.root_dir(),
    {
        &self.root
    }
}

/// The outcome of an edit: unchanged when the text is the same as before;
/// an empty (blank) text is refused.
pub fn edit_outcome(original: &str, edited: &str) -> (r: Result<EditOutcome, crate::errors::AppError>)
    ensures
        crate::text::trim(edited@).len() == 0 ==> (r matches Err(crate::errors::AppError::Message(m)) && m@
            == "file cannot be empty"@),
        crate::text::trim(edited@).len() > 0 && edited@ == original@ ==> r == Ok::<
            EditOutcome,
            crate::errors::AppError,
        >(EditOutcome::Unchanged),
        crate::text::trim(edited@).len() > 0 && edited@ != original@ ==> r == Ok::<
            EditOutcome,
            crate::errors::AppError,
        >(EditOutcome::Applied),
{
    let t = crate::text::trim_string(edited);
    if t.as_str().is_empty() {
        return Err(crate::errors::AppError::message(crate::text::copy_str("file cannot be empty")));
    }
    if crate::text::str_eq(edited, original) {
        Ok(EditOutcome::Unchanged)
    } else {
        Ok(EditOutcome::Applied)
    }
}

/// The error for a list name that is not defined.
pub open spec fn unknown_list_message(name: Seq<char>) -> Seq<char> {
    "unknown list: "@ + name
}

/// The error for deleting a list that still holds items.
pub open spec fn list_not_empty_message(name: Seq<char>) -> Seq<char> {
    "list '"@ + name + "' is not empty \u{2014} move its items first"@
}

/// Whether list `name` may be deleted from the lists named `lists`: it must
/// be one of them, not the only one, and hold no items (`occupied` tells
/// whether any item falls in it). Each refusal is a usage error.
pub fn check_delete_list(lists: &Vec<String>, name: &String, occupied: bool) -> (r: Result<(), AppError>)
    ensures
        !names_view(lists@).contains(name@) ==> (r matches Err(AppError::Usage(m)) && m@ == unknown_list_message(
            name@,
        )),
        names_view(lists@).contains(name@) && lists@.len() <= 1 ==> (r matches Err(AppError::Usage(m)) && m@
            == "cannot delete the last remaining list"@),
        names_view(lists@).contains(name@) && lists@.len() > 1 && occupied ==> (r matches Err(AppError::Usage(m))
            && m@ == list_not_empty_message(name@)),
        names_view(lists@).contains(name@) && lists@.len() > 1 && !occupied ==> r is Ok,
{
    if !crate::reorder::contains_string(lists, name) {
        return Err(AppError::usage(concat("unknown list: ", name.as_str())));
    }
    if lists.len() <= 1 {
        return Err(AppError::usage(crate::text::copy_str("cannot delete the last remaining list")));
    }
    if occupied {
        let head = concat("list '", name.as_str());
        return Err(AppError::usage(concat(head.as_str(), "' is not empty \u{2014} move its items first")));
    }
    Ok(())
}

} // verus!
