//! Editing the sidebar: the order of lists, selections in it, and adding a
//! list. The caller stores the resulting list order.
use vstd::prelude::*;
use crate::errors::AppError;
use crate::tui_state::{SidebarEntry, entries_view, entry_view, names_view};

verus! {

/// The list names of the sidebar, in order (the "all" entry skipped).
pub open spec fn names_of(entries: Seq<Option<Seq<char>>>) -> Seq<Seq<char>>
    decreases entries.len(),
{
    if entries.len() == 0 {
        Seq::empty()
    } else {
        let prev = names_of(entries.drop_last());
        match entries.last() {
            Some(n) => prev.push(n),
            None => prev,
        }
    }
}

/// The list names of `entries` from `lo` to `hi`.
fn names_in_range(entries: &Vec<SidebarEntry>, lo: usize, hi: usize) -> (r: Vec<String>)
    requires
        lo <= hi <= entries@.len(),
    ensures
        names_view(r@) == names_of(entries_view(entries@).subrange(lo as int, hi as int)),
{
    let ghost ev = entries_view(entries@);
    let mut r: Vec<String> = Vec::new();
    let mut i: usize = lo;
    while i < hi
        invariant
            lo <= i <= hi,
            hi <= entries@.len(),
            ev == entries_view(entries@),
            names_view(r@) == names_of(ev.subrange(lo as int, i as int)),
        decreases hi - i,
    {
        proof {
            assert(ev.subrange(lo as int, i + 1).drop_last() =~= ev.subrange(lo as int, i as int));
            assert(ev[i as int] == entry_view(entries@[i as int]));
        }
        match &entries[i] {
            SidebarEntry::List(n) => {
                let ghost before = r@;
                r.push(n.clone());
                proof {
                    assert(names_view(r@) =~= names_view(before).push(n@));
                }
            },
            SidebarEntry::All => {},
        }
        i += 1;
    }
    r
}

/// The names of the lists in the sidebar, in order.
pub fn list_names(entries: &Vec<SidebarEntry>) -> (r: Vec<String>)
    ensures
        names_view(r@) == names_of(entries_view(entries@)),
{
    let r = names_in_range(entries, 0, entries.len());
    proof {
        assert(entries_view(entries@).subrange(0, entries@.len() as int) =~= entries_view(entries@));
    }
    r
}

/// The names of the lists among sidebar rows `start..=end` (rows past the
/// end ignored, the "all" entry skipped); none when `start > end`.
pub fn selected_sublist_names(entries: &Vec<SidebarEntry>, start: usize, end: usize) -> (r: Vec<String>)
    ensures
        start > end ==> r@.len() == 0,
        start <= end ==> names_view(r@) == names_of(
            entries_view(entries@).subrange(
                if start < entries@.len() { start as int } else { entries@.len() as int },
                if end < entries@.len() { end + 1 } else { entries@.len() as int },
            ),
        ),
{
    if start > end {
        return Vec::new();
    }
    let hi = if end < entries.len() { end + 1 } else { entries.len() };
    let lo = if start < entries.len() { start } else { entries.len() };
    names_in_range(entries, lo, hi)
}

/// Whether row `i` is the "all" entry.
fn is_all(entries: &Vec<SidebarEntry>, i: usize) -> (r: bool)
    requires
        i < entries@.len(),
    ensures
        r == (entries_view(entries@)[i as int] is None),
{
    match &entries[i] {
        SidebarEntry::All => true,
        SidebarEntry::List(_) => false,
    }
}

/// Moving the list at `index` one row down, when it and the row below are
/// lists: the rows swapped and the new cursor row; otherwise (also when
/// `index` is past the end) `None`, with the rows unchanged.
pub fn swap_list_down(entries: &mut Vec<SidebarEntry>, index: usize) -> (r: Option<usize>)
    ensures
        ({
            let e = entries_view(old(entries)@);
            let movable = index + 1 < e.len() && e[index as int] is Some && e[index + 1] is Some;
            &&& movable ==> r == Some((index + 1) as usize) && entries_view(final(entries)@) == e.update(
                index as int,
                e[index + 1],
            ).update(index + 1, e[index as int])
            &&& !movable ==> r is None && entries_view(final(entries)@) == e
        }),
{
    let ghost e = entries_view(entries@);
    if index >= entries.len() || index + 1 >= entries.len() || is_all(entries, index) || is_all(entries, index + 1) {
        return None;
    }
    let moved = entries.remove(index + 1);
    entries.insert(index, moved);
    proof {
        assert(entries_view(entries@) =~= e.update(index as int, e[index + 1]).update(index + 1, e[index as int]));
    }
    Some(index + 1)
}

/// Moving the list at `index` one row up, when it is a list and not the
/// first row: the rows swapped and the new cursor row; otherwise (also when
/// `index` is past the end) `None`, with the rows unchanged.
pub fn swap_list_up(entries: &mut Vec<SidebarEntry>, index: usize) -> (r: Option<usize>)
    ensures
        ({
            let e = entries_view(old(entries)@);
            let movable = 0 < index < e.len() && e[index as int] is Some;
            &&& movable ==> r == Some((index - 1) as usize) && entries_view(final(entries)@) == e.update(
                index as int,
                e[index - 1],
            ).update(index - 1, e[index as int])
            &&& !movable ==> r is None && entries_view(final(entries)@) == e
        }),
{
    let ghost e = entries_view(entries@);
    if index == 0 || index >= entries.len() || is_all(entries, index) {
        return None;
    }
    let moved = entries.remove(index);
    entries.insert(index - 1, moved);
    proof {
        assert(entries_view(entries@) =~= e.update(index as int, e[index - 1]).update(index - 1, e[index as int]));
    }
    Some(index - 1)
}

/// Moving the selected rows `start..=end` one row down (`down`) or up, by
/// moving the row just past the block to its other side. Down needs a list
/// row below the block; up needs a row above it. Returns the new cursor and
/// anchor rows, or `None` when nothing moves.
pub fn swap_list_block(entries: &mut Vec<SidebarEntry>, start: usize, end: usize, down: bool) -> (r: Option<(usize, usize)>)
    requires
        start <= end < old(entries)@.len(),
    ensures
        ({
            let e = entries_view(old(entries)@);
            let s = start as int;
            let t = end as int;
            if down {
                if t + 1 < e.len() && e[t + 1] is Some {
                    &&& r == Some(((end + 1) as usize, (start + 1) as usize))
                    &&& entries_view(final(entries)@) == e.subrange(0, s) + seq![e[t + 1]] + e.subrange(s, t + 1)
                        + e.subrange(t + 2, e.len() as int)
                } else {
                    r is None && entries_view(final(entries)@) == e
                }
            } else {
                if s > 0 {
                    &&& r == Some(((end - 1) as usize, (start - 1) as usize))
                    &&& entries_view(final(entries)@) == e.subrange(0, s - 1) + e.subrange(s, t + 1) + seq![e[s - 1]]
                        + e.subrange(t + 1, e.len() as int)
                } else {
                    r is None && entries_view(final(entries)@) == e
                }
            }
        }),
{
    let ghost e = entries_view(entries@);
    if down {
        if end >= entries.len() - 1 || is_all(entries, end + 1) {
            return None;
        }
        let moved = entries.remove(end + 1);
        entries.insert(start, moved);
        proof {
            assert(entries_view(entries@) =~= e.subrange(0, start as int) + seq![e[end + 1]] + e.subrange(
                start as int,
                end + 1,
            ) + e.subrange(end + 2, e.len() as int));
        }
        Some((end + 1, start + 1))
    } else {
        if start == 0 {
            return None;
        }
        let moved = entries.remove(start - 1);
        entries.insert(end, moved);
        proof {
            assert(entries_view(entries@) =~= e.subrange(0, start - 1) + e.subrange(start as int, end + 1) + seq![
                e[start - 1],
            ] + e.subrange(end + 1, e.len() as int));
        }
        Some((end - 1, start - 1))
    }
}

/// The row a new list goes to when added after the sidebar cursor: the
/// cursor row itself on the "all" entry, else the row after it.
pub fn sidebar_after_index(entries: &Vec<SidebarEntry>, index: usize) -> (r: usize)
    requires
        index < usize::MAX,
    ensures
        r == if index < entries@.len() && entries_view(entries@)[index as int] is None {
            index as int
        } else {
            index + 1
        },
{
    if index < entries.len() && is_all(entries, index) {
        index
    } else {
        index + 1
    }
}

/// The sidebar cursor after moving down within the lists: one row down
/// unless that row is past the end or is the "all" entry.
pub fn sidebar_step_down(entries: &Vec<SidebarEntry>, index: usize) -> (r: usize)
    ensures
        r == if index + 1 < entries@.len() && entries_view(entries@)[index + 1] is Some {
            index + 1
        } else {
            index as int
        },
{
    if index < entries.len() && index + 1 < entries.len() && !is_all(entries, index + 1) {
        index + 1
    } else {
        index
    }
}

/// The first sidebar row showing list `name`.
pub fn position_of_list(entries: &Vec<SidebarEntry>, name: &String) -> (r: Option<usize>)
    ensures
        match r {
            Some(k) => k < entries@.len() && entries_view(entries@)[k as int] == Some(name@) && forall|j: int|
                0 <= j < k ==> #[trigger] entries_view(entries@)[j] != Some(name@),
            None => forall|j: int| 0 <= j < entries@.len() ==> #[trigger] entries_view(entries@)[j] != Some(name@),
        },
{
    let mut i: usize = 0;
    while i < entries.len()
        invariant
            i <= entries@.len(),
            forall|j: int| 0 <= j < i ==> #[trigger] entries_view(entries@)[j] != Some(name@),
        decreases entries@.len() - i,
    {
        match &entries[i] {
            SidebarEntry::List(n) => {
                if *n == *name {
                    return Some(i);
                }
            },
            SidebarEntry::All => {},
        }
        i += 1;
    }
    None
}

/// The error for a list name that is already taken.
pub open spec fn list_exists_message(name: Seq<char>) -> Seq<char> {
    "list '"@ + name + "' already exists"@
}

/// Adding a list named `name` to the sidebar: refused with a usage error
/// when the name is empty or already a list; otherwise the sidebar with the
/// list inserted at row `insert_at`, or after the last list when that is
/// further down.
pub fn insert_sublist(entries: &Vec<SidebarEntry>, name: &String, insert_at: usize) -> (r: Result<Vec<SidebarEntry>, AppError>)
    ensures
        ({
            let e = entries_view(entries@);
            let names = names_of(e);
            match r {
                Ok(v) => name@.len() > 0 && !names.contains(name@) && entries_view(v@) == e.insert(
                    if insert_at < names.len() { insert_at as int } else { names.len() as int },
                    Some(name@),
                ),
                Err(err) => if name@.len() == 0 {
                    err == AppError::Usage(err->Usage_0) && err->Usage_0@ == "sublist name cannot be empty"@
                } else {
                    names.contains(name@) && err == AppError::Usage(err->Usage_0) && err->Usage_0@
                        == list_exists_message(name@)
                },
            }
        }),
{
    if name.as_str().is_empty() {
        return Err(AppError::usage(crate::text::copy_str("sublist name cannot be empty")));
    }
    let names = list_names(entries);
    if crate::reorder::contains_string(&names, name) {
        let parts = ["list '", name.as_str(), "' already exists"];
        let message = crate::text::concat_strs(&parts);
        proof {
            let pv = parts@.map_values(|p: &str| p@);
            assert(pv =~= seq!["list '"@, name@, "' already exists"@]);
            reveal_with_fuel(crate::text::concat_all, 4);
            assert(pv.drop_last().drop_last().drop_last() =~= Seq::<Seq<char>>::empty());
            assert(pv.drop_last().drop_last() =~= seq!["list '"@]);
            assert(pv.drop_last() =~= seq!["list '"@, name@]);
            assert(crate::text::concat_all(pv.drop_last().drop_last()) =~= "list '"@);
        }
        return Err(AppError::usage(message));
    }
    let at = if insert_at < names.len() { insert_at } else { names.len() };
    proof {
        lemma_names_of_len(entries_view(entries@));
    }
    let mut v = copy_entries(entries);
    v.insert(at, SidebarEntry::List(name.clone()));
    proof {
        assert(entries_view(v@) =~= entries_view(entries@).insert(at as int, Some(name@)));
    }
    Ok(v)
}

/// A sidebar has at least as many rows as lists.
proof fn lemma_names_of_len(e: Seq<Option<Seq<char>>>)
    ensures
        names_of(e).len() <= e.len(),
    decreases e.len(),
{
    if e.len() > 0 {
        lemma_names_of_len(e.drop_last());
    }
}

/// A copy of the sidebar.
pub fn copy_entries(entries: &Vec<SidebarEntry>) -> (r: Vec<SidebarEntry>)
    ensures
        entries_view(r@) == entries_view(entries@),
{
    let mut r: Vec<SidebarEntry> = Vec::new();
    let mut i: usize = 0;
    while i < entries.len()
        invariant
            i <= entries@.len(),
            entries_view(r@) == entries_view(entries@).take(i as int),
        decreases entries@.len() - i,
    {
        let e = match &entries[i] {
            SidebarEntry::List(n) => SidebarEntry::List(n.clone()),
            SidebarEntry::All => SidebarEntry::All,
        };
        let ghost before = entries_view(r@);
        r.push(e);
        proof {
            assert(entries_view(r@) =~= before.push(entry_view(entries@[i as int])));
            assert(entries_view(entries@).take(i + 1) =~= entries_view(entries@).take(i as int).push(
                entry_view(entries@[i as int]),
            ));
        }
        i += 1;
    }
    proof {
        assert(entries_view(entries@).take(entries@.len() as int) =~= entries_view(entries@));
    }
    r
}

/// Moving a list down and then up again restores the sidebar.
pub proof fn lemma_swap_down_then_up(e: Seq<Option<Seq<char>>>, index: int)
    requires
        0 <= index,
        index + 1 < e.len(),
    ensures
        ({
            let d = e.update(index, e[index + 1]).update(index + 1, e[index]);
            d.update(index + 1, d[index]).update(index, d[index + 1]) == e
        }),
{
    let d = e.update(index, e[index + 1]).update(index + 1, e[index]);
    assert(d.update(index + 1, d[index]).update(index, d[index + 1]) =~= e);
}

} // verus!
