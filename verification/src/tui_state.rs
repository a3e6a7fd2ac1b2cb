//! State of the terminal interface that is independent of drawing: the
//! sidebar of lists, pane focus, visual selections and per-list counts.
use vstd::prelude::*;

use crate::text::{chars_eq, chars_of, string_from_chars};

verus! {

broadcast use vstd::string::group_string_axioms;

/// One row of the sidebar: a named list, or the synthetic "all" view.
#[derive(Debug, Clone, PartialEq, Eq)]
pub enum SidebarEntry {
    List(String),
    All,
}

/// The sidebar as plain values: `Some(name)` for a list, `None` for "all".
pub open spec fn entry_view(e: SidebarEntry) -> Option<Seq<char>> {
    match e {
        SidebarEntry::List(n) => Some(n@),
        SidebarEntry::All => None,
    }
}

pub open spec fn entries_view(es: Seq<SidebarEntry>) -> Seq<Option<Seq<char>>> {
    es.map_values(|e: SidebarEntry| entry_view(e))
}

/// The sidebar shown when no lists are defined: now, next, later, inbox,
/// done, then "all".
pub open spec fn spec_default_sidebar() -> Seq<Option<Seq<char>>> {
    seq![
        Some(seq!['n', 'o', 'w']),
        Some(seq!['n', 'e', 'x', 't']),
        Some(seq!['l', 'a', 't', 'e', 'r']),
        Some(seq!['i', 'n', 'b', 'o', 'x']),
        Some(seq!['d', 'o', 'n', 'e']),
        None,
    ]
}

fn list_entry(name: &[char]) -> (r: SidebarEntry)
    ensures
        entry_view(r) == Some(name@),
{
    SidebarEntry::List(string_from_chars(name))
}

/// The sidebar shown when no lists are defined.
pub fn default_sidebar_entries() -> (r: Vec<SidebarEntry>)
    ensures
        entries_view(r@) == spec_default_sidebar(),
{
    let mut r: Vec<SidebarEntry> = Vec::new();
    r.push(list_entry(&['n', 'o', 'w']));
    r.push(list_entry(&['n', 'e', 'x', 't']));
    r.push(list_entry(&['l', 'a', 't', 'e', 'r']));
    r.push(list_entry(&['i', 'n', 'b', 'o', 'x']));
    r.push(list_entry(&['d', 'o', 'n', 'e']));
    r.push(SidebarEntry::All);
    proof {
        assert(entries_view(r@) =~= spec_default_sidebar());
    }
    r
}

pub open spec fn names_view(v: Seq<String>) -> Seq<Seq<char>> {
    v.map_values(|s: String| s@)
}

/// The sidebar for the given lists: one row per list in order, then "all";
/// with no lists, the default sidebar.
pub open spec fn spec_sidebar_for(names: Seq<Seq<char>>) -> Seq<Option<Seq<char>>> {
    if names.len() == 0 {
        spec_default_sidebar()
    } else {
        names.map_values(|n: Seq<char>| Some(n)).push(None)
    }
}

/// The sidebar for the given list names.
pub fn sidebar_from_list_names(names: &Vec<String>) -> (r: Vec<SidebarEntry>)
    ensures
        entries_view(r@) == spec_sidebar_for(names_view(names@)),
{
    if names.len() == 0 {
        return default_sidebar_entries();
    }
    let mut r: Vec<SidebarEntry> = Vec::new();
    let mut i: usize = 0;
    while i < names.len()
        invariant
            i <= names@.len(),
            r@.len() == i,
            entries_view(r@) == names_view(names@).take(i as int).map_values(|n: Seq<char>| Some(n)),
        decreases names@.len() - i,
    {
        let cs = chars_of(names[i].as_str());
        let ghost prev = r@;
        r.push(SidebarEntry::List(string_from_chars(cs.as_slice())));
        proof {
            let nv = names_view(names@);
            assert(nv[i as int] == names@[i as int]@);
            assert(entry_view(r@[i as int]) == Some(nv[i as int]));
            assert(entries_view(r@) =~= entries_view(prev).push(Some(nv[i as int])));
            assert(nv.take(i + 1).map_values(|n: Seq<char>| Some(n)) =~= nv.take(i as int).map_values(
                |n: Seq<char>| Some(n),
            ).push(Some(nv[i as int])));
        }
        i += 1;
    }
    r.push(SidebarEntry::All);
    proof {
        assert(names_view(names@).take(names@.len() as int) =~= names_view(names@));
        assert(entries_view(r@) =~= spec_sidebar_for(names_view(names@)));
    }
    r
}

/// Which items the item pane shows: one list, or all of them.
#[derive(Debug, Clone, PartialEq, Eq)]
pub enum ListFilter {
    Single(String),
    All,
}

impl ListFilter {
    /// The name shown for the filter: the list's name, or `all`.
    pub fn to_string(&self) -> (r: String)
        ensures
            self matches ListFilter::Single(n) ==> r@ == n@,
            self is All ==> r@ == seq!['a', 'l', 'l'],
    {
        match self {
            ListFilter::Single(name) => {
                let cs = chars_of(name.as_str());
                string_from_chars(cs.as_slice())
            },
            ListFilter::All => string_from_chars(&['a', 'l', 'l']),
        }
    }
}

/// The filter selected by a sidebar row.
pub fn filter_for_entry(e: &SidebarEntry) -> (r: ListFilter)
    ensures
        e matches SidebarEntry::List(n) ==> r matches ListFilter::Single(m) && m@ == n@,
        e is All ==> r is All,
{
    match e {
        SidebarEntry::List(name) => {
            let cs = chars_of(name.as_str());
            ListFilter::Single(string_from_chars(cs.as_slice()))
        },
        SidebarEntry::All => ListFilter::All,
    }
}

/// How often `n` occurs in `s`.
pub open spec fn occurrences(s: Seq<Seq<char>>, n: Seq<char>) -> nat
    decreases s.len(),
{
    if s.len() == 0 {
        0
    } else {
        occurrences(s.drop_last(), n) + if s.last() == n {
            1nat
        } else {
            0nat
        }
    }
}

/// The sum of the counts of `entries`.
pub open spec fn sum_counts(entries: Seq<(String, usize)>) -> nat
    decreases entries.len(),
{
    if entries.len() == 0 {
        0
    } else {
        sum_counts(entries.drop_last()) + entries.last().1 as nat
    }
}

/// Raising one count by one raises the sum by one.
proof fn lemma_sum_counts_bump(entries: Seq<(String, usize)>, k: int, e: (String, usize))
    requires
        0 <= k < entries.len(),
        e.1 == entries[k].1 + 1,
    ensures
        sum_counts(entries.update(k, e)) == sum_counts(entries) + 1,
    decreases entries.len(),
{
    let u = entries.update(k, e);
    if k == entries.len() - 1 {
        assert(u.drop_last() =~= entries.drop_last());
    } else {
        assert(u.drop_last() =~= entries.drop_last().update(k, e));
        lemma_sum_counts_bump(entries.drop_last(), k, e);
    }
}

/// Whether an item with tags `tags` passes the tag filter `filter`: it
/// carries every tag of the filter.
pub open spec fn passes_filter(tags: Seq<String>, filter: Seq<String>) -> bool {
    forall|k: int| 0 <= k < filter.len() ==> names_view(tags).contains(#[trigger] filter[k]@)
}

/// The lists of the items (each given as its list and its tags) that pass
/// the tag filter `filter`, in order.
pub open spec fn passing_lists(items: Seq<(String, Vec<String>)>, filter: Seq<String>) -> Seq<Seq<char>>
    decreases items.len(),
{
    if items.len() == 0 {
        Seq::empty()
    } else {
        let prev = passing_lists(items.drop_last(), filter);
        if passes_filter(items.last().1@, filter) {
            prev.push(items.last().0@)
        } else {
            prev
        }
    }
}

/// Number of items per list, and in total.
pub struct ListCounts {
    pub counts: Vec<(String, usize)>,
    pub total: usize,
}

impl ListCounts {
    /// The count recorded for `name`: that of its entry, or 0 without one.
    pub open spec fn count_of(&self, name: Seq<char>) -> nat {
        if exists|k: int| 0 <= k < self.counts@.len() && #[trigger] self.counts@[k].0@ == name {
            self.counts@[choose|k: int| 0 <= k < self.counts@.len() && #[trigger] self.counts@[k].0@ == name].1 as nat
        } else {
            0
        }
    }

    /// Every name has at most one entry.
    pub open spec fn well_formed(&self) -> bool {
        forall|a: int, b: int|
            0 <= a < b < self.counts@.len() ==> #[trigger] self.counts@[a].0@ != #[trigger] self.counts@[b].0@
    }

    /// Counts the items of each list, given the list of each item in turn.
    pub fn from_item_lists(item_lists: &Vec<String>) -> (r: Self)
        ensures
            r.well_formed(),
            r.total == item_lists@.len(),
            forall|n: Seq<char>| #[trigger] r.count_of(n) == occurrences(names_view(item_lists@), n),
            sum_counts(r.counts@) == r.total,
            forall|k: int| 0 <= k < r.counts@.len() ==> #[trigger] r.counts@[k].1 >= 1,
    {
        let ghost iv = names_view(item_lists@);
        let mut counts: Vec<(String, usize)> = Vec::new();
        let mut i: usize = 0;
        while i < item_lists.len()
            invariant
                iv == names_view(item_lists@),
                i <= item_lists@.len(),
                forall|a: int, b: int|
                    0 <= a < b < counts@.len() ==> #[trigger] counts@[a].0@ != #[trigger] counts@[b].0@,
                forall|k: int| 0 <= k < counts@.len() ==> #[trigger] counts@[k].1 == occurrences(iv.take(i as int), counts@[k].0@),
                forall|n: Seq<char>|
                    occurrences(iv.take(i as int), n) > 0 ==> exists|k: int| 0 <= k < counts@.len() && #[trigger] counts@[k].0@ == n,
                forall|k: int| 0 <= k < counts@.len() ==> #[trigger] counts@[k].1 <= i,
                forall|k: int| 0 <= k < counts@.len() ==> #[trigger] counts@[k].1 >= 1,
                sum_counts(counts@) == i,
            decreases item_lists@.len() - i,
        {
            let name = chars_of(item_lists[i].as_str());
            let ghost old_counts = counts@;
            proof {
                assert(iv.take(i + 1).drop_last() =~= iv.take(i as int));
                assert(iv.take(i + 1).last() == name@);
            }
            let mut k: usize = 0;
            let mut found = false;
            while k < counts.len()
                invariant
                    k <= counts@.len(),
                    counts@.len() == old_counts.len(),
                    forall|x: int| 0 <= x < counts@.len() ==> #[trigger] counts@[x].0 == old_counts[x].0,
                    forall|x: int| k <= x < counts@.len() ==> #[trigger] counts@[x] == old_counts[x],
                    forall|x: int| 0 <= x < k && #[trigger] counts@[x].0@ != name@ ==> counts@[x] == old_counts[x],
                    found ==> exists|x: int| 0 <= x < k && #[trigger] counts@[x].0@ == name@,
                    !found ==> forall|x: int| 0 <= x < k ==> #[trigger] counts@[x].0@ != name@,
                    forall|x: int| 0 <= x < k && #[trigger] counts@[x].0@ == name@ ==> counts@[x].1 == old_counts[x].1 + 1,
                    forall|x: int| 0 <= x < old_counts.len() ==> #[trigger] old_counts[x].1 <= i,
                    forall|x: int| 0 <= x < old_counts.len() ==> #[trigger] old_counts[x].1 >= 1,
                    sum_counts(counts@) == sum_counts(old_counts) + if found { 1nat } else { 0nat },
                    i < item_lists@.len(),
                    item_lists@.len() <= usize::MAX,
                    iv == names_view(item_lists@),
                    forall|a: int, b: int|
                        0 <= a < b < old_counts.len() ==> #[trigger] old_counts[a].0@ != #[trigger] old_counts[b].0@,
                    forall|x: int| 0 <= x < old_counts.len() ==> #[trigger] old_counts[x].1 == occurrences(iv.take(i as int), old_counts[x].0@),
                    forall|n: Seq<char>|
                        occurrences(iv.take(i as int), n) > 0 ==> exists|x: int| 0 <= x < old_counts.len() && #[trigger] old_counts[x].0@ == n,
                decreases counts@.len() - k,
            {
                let entry_name = chars_of(counts[k].0.as_str());
                if chars_eq(entry_name.as_slice(), name.as_slice()) {
                    let c = counts[k].1;
                    assert(c <= i);
                    let n = counts[k].0.clone();
                    proof {
                        assert(!found) by {
                            if found {
                                let x = choose|x: int| 0 <= x < k && #[trigger] counts@[x].0@ == name@;
                                assert(counts@[x].0 == old_counts[x].0);
                                assert(counts@[k as int].0 == old_counts[k as int].0);
                            }
                        }
                        lemma_sum_counts_bump(counts@, k as int, (n, (c + 1) as usize));
                    }
                    counts.set(k, (n, c + 1));
                    found = true;
                    assert(counts@[k as int].0@ == name@);
                }
                k += 1;
            }
            if !found {
                let ghost before_push = counts@;
                counts.push((string_from_chars(name.as_slice()), 1));
                proof {
                    assert(counts@.drop_last() =~= before_push);
                }
            }
            proof {
                let it = iv.take(i + 1);
                assert forall|x: int| 0 <= x < counts@.len() implies #[trigger] counts@[x].1 >= 1 by {
                    if x < old_counts.len() {
                        assert(counts@[x].0 == old_counts[x].0);
                        assert(old_counts[x].1 >= 1);
                        if counts@[x].0@ != name@ {
                            assert(counts@[x] == old_counts[x]);
                        } else {
                            assert(counts@[x].1 == old_counts[x].1 + 1);
                        }
                    }
                }
                assert(it.drop_last() =~= iv.take(i as int));
                assert(it.last() == name@);
                assert forall|x: int| 0 <= x < counts@.len() implies #[trigger] counts@[x].1 == occurrences(it, counts@[x].0@) by {
                    if x < old_counts.len() {
                        assert(counts@[x].0 == old_counts[x].0);
                    } else {
                        assert(occurrences(iv.take(i as int), name@) == 0) by {
                            if occurrences(iv.take(i as int), name@) > 0 {
                                let y = choose|y: int| 0 <= y < old_counts.len() && #[trigger] old_counts[y].0@ == name@;
                                assert(counts@[y].0 == old_counts[y].0);
                            }
                        }
                    }
                }
                assert forall|a: int, b: int|
                    0 <= a < b < counts@.len() implies #[trigger] counts@[a].0@ != #[trigger] counts@[b].0@ by {
                    if b < old_counts.len() {
                        assert(counts@[a].0 == old_counts[a].0);
                        assert(counts@[b].0 == old_counts[b].0);
                    } else {
                        assert(counts@[a].0 == old_counts[a].0);
                    }
                }
                assert forall|n: Seq<char>| occurrences(it, n) > 0 implies exists|x: int|
                    0 <= x < counts@.len() && #[trigger] counts@[x].0@ == n by {
                    if n == name@ {
                        if !found {
                            assert(counts@[counts@.len() - 1].0@ == n);
                        } else {
                            let x = choose|x: int| 0 <= x < k && #[trigger] counts@[x].0@ == name@;
                            assert(counts@[x].0@ == n);
                        }
                    } else {
                        assert(occurrences(it, n) == occurrences(iv.take(i as int), n));
                        assert(occurrences(iv.take(i as int), n) > 0);
                        let y = choose|y: int| 0 <= y < old_counts.len() && #[trigger] old_counts[y].0@ == n;
                        assert(counts@[y].0 == old_counts[y].0);
                        assert(counts@[y].0@ == n);
                    }
                }
                assert forall|x: int| 0 <= x < counts@.len() implies #[trigger] counts@[x].1 <= i + 1 by {
                    if x < old_counts.len() {
                        assert(old_counts[x].1 <= i);
                    }
                }
            }
            i += 1;
        }
        proof {
            assert(iv.take(item_lists@.len() as int) =~= iv);
        }
        let r = ListCounts { counts, total: item_lists.len() };
        proof {
            assert forall|n: Seq<char>| #[trigger] r.count_of(n) == occurrences(iv, n) by {
                if exists|k: int| 0 <= k < r.counts@.len() && #[trigger] r.counts@[k].0@ == n {
                    let k = choose|k: int| 0 <= k < r.counts@.len() && #[trigger] r.counts@[k].0@ == n;
                    assert(r.counts@[k].1 == occurrences(iv, n));
                } else {
                    if occurrences(iv, n) > 0 {
                        let k = choose|k: int| 0 <= k < counts@.len() && #[trigger] counts@[k].0@ == n;
                        assert(r.counts@[k].0@ == n);
                    }
                }
            }
        }
        r
    }

    /// Counts, per list and in total, the items that pass the tag filter
    /// `filter` (all items when it is empty), given each item as its list
    /// and its tags.
    pub fn from_items(items: &Vec<(String, Vec<String>)>, filter: &Vec<String>) -> (r: Self)
        ensures
            r.well_formed(),
            r.total == passing_lists(items@, filter@).len(),
            forall|n: Seq<char>| #[trigger] r.count_of(n) == occurrences(passing_lists(items@, filter@), n),
            sum_counts(r.counts@) == r.total,
            forall|k: int| 0 <= k < r.counts@.len() ==> #[trigger] r.counts@[k].1 >= 1,
    {
        let mut lists: Vec<String> = Vec::new();
        let mut i: usize = 0;
        while i < items.len()
            invariant
                i <= items@.len(),
                names_view(lists@) == passing_lists(items@.take(i as int), filter@),
            decreases items@.len() - i,
        {
            proof {
                assert(items@.take(i + 1).drop_last() =~= items@.take(i as int));
            }
            if crate::tags::has_all_tags(&items[i].1, filter) {
                let ghost before = lists@;
                lists.push(items[i].0.clone());
                proof {
                    assert(names_view(lists@) =~= names_view(before).push(items@[i as int].0@));
                }
            }
            i += 1;
        }
        proof {
            assert(items@.take(items@.len() as int) =~= items@);
        }
        Self::from_item_lists(&lists)
    }

    /// The number of items in list `name` (0 for a list with none).
    pub fn get(&self, name: &str) -> (r: usize)
        requires
            self.well_formed(),
        ensures
            r == self.count_of(name@),
    {
        let target = chars_of(name);
        let mut k: usize = 0;
        while k < self.counts.len()
            invariant
                self.well_formed(),
                k <= self.counts@.len(),
                target@ == name@,
                forall|x: int| 0 <= x < k ==> #[trigger] self.counts@[x].0@ != name@,
            decreases self.counts@.len() - k,
        {
            let entry_name = chars_of(self.counts[k].0.as_str());
            if chars_eq(entry_name.as_slice(), target.as_slice()) {
                proof {
                    let j = choose|j: int| 0 <= j < self.counts@.len() && #[trigger] self.counts@[j].0@ == name@;
                    if j != k {
                        if j < k {
                            assert(self.counts@[j].0@ != self.counts@[k as int].0@);
                        } else {
                            assert(self.counts@[k as int].0@ != self.counts@[j].0@);
                        }
                    }
                }
                return self.counts[k].1;
            }
            k += 1;
        }
        0
    }
}

/// The pane that has keyboard focus.
#[derive(Clone, Copy, Debug, PartialEq, Eq, Structural)]
pub enum FocusedPanel {
    Sidebar,
    TaskList,
    Detail,
    Tags,
}

impl FocusedPanel {
    /// The pane to the left (the sidebar stays where it is).
    pub fn left(self) -> (r: Self)
        ensures
            r == match self {
                FocusedPanel::Tags => FocusedPanel::Detail,
                FocusedPanel::Detail => FocusedPanel::TaskList,
                FocusedPanel::TaskList => FocusedPanel::Sidebar,
                FocusedPanel::Sidebar => FocusedPanel::Sidebar,
            },
    {
        match self {
            FocusedPanel::Tags => FocusedPanel::Detail,
            FocusedPanel::Detail => FocusedPanel::TaskList,
            FocusedPanel::TaskList => FocusedPanel::Sidebar,
            FocusedPanel::Sidebar => FocusedPanel::Sidebar,
        }
    }

    /// The pane to the right. Detail and Tags share the right column, Tags
    /// below Detail: moving right from Detail descends into Tags, which stays.
    pub fn right(self) -> (r: Self)
        ensures
            r == match self {
                FocusedPanel::Sidebar => FocusedPanel::TaskList,
                FocusedPanel::TaskList => FocusedPanel::Detail,
                FocusedPanel::Detail => FocusedPanel::Tags,
                FocusedPanel::Tags => FocusedPanel::Tags,
            },
    {
        match self {
            FocusedPanel::Sidebar => FocusedPanel::TaskList,
            FocusedPanel::TaskList => FocusedPanel::Detail,
            FocusedPanel::Detail => FocusedPanel::Tags,
            FocusedPanel::Tags => FocusedPanel::Tags,
        }
    }
}

/// What a delete confirmation is about.
#[derive(Debug, Clone)]
pub enum DeleteScope {
    Items(Vec<String>),
    /// Lists by name. Non-empty ones go through carry mode first.
    Lists(Vec<String>),
}

/// What the tag picker applies its tags to.
#[derive(Debug, Clone)]
pub enum TagTarget {
    Items(Vec<String>),
    Lists(Vec<String>),
}

/// What the event loop must do after handling a key.
pub enum SideEffect {
    /// Nothing further to do.
    Nothing,
    Quit,
    SuspendForEditor { task_id: String },
}

/// Markers of one pane's rows: the cursor row, the visual anchor row, and the
/// selected range.
#[derive(Clone, Copy, Debug)]
pub struct VisualMarkers {
    pub cursor: Option<usize>,
    pub anchor: Option<usize>,
    pub range: Option<(usize, usize)>,
}

impl VisualMarkers {
    /// Markers for a pane: with both a visual anchor and a visual cursor the
    /// range between them (in either order); the visual cursor takes the
    /// place of the plain cursor when there is one.
    pub fn for_pane(cursor: Option<usize>, visual_anchor: Option<usize>, visual_cursor: Option<usize>) -> (r: Self)
        ensures
            r.range == match (visual_anchor, visual_cursor) {
                (Some(a), Some(c)) => Some((if a <= c { a } else { c }, if a <= c { c } else { a })),
                _ => None::<(usize, usize)>,
            },
            r.cursor == (if visual_cursor is Some { visual_cursor } else { cursor }),
            r.anchor == visual_anchor,
    {
        let range = match (visual_anchor, visual_cursor) {
            (Some(a), Some(c)) => Some((if a <= c { a } else { c }, if a <= c { c } else { a })),
            _ => None,
        };
        let cursor = match visual_cursor {
            Some(c) => Some(c),
            None => cursor,
        };
        VisualMarkers { cursor, anchor: visual_anchor, range }
    }

    /// `>` on the cursor row, a blank elsewhere.
    pub fn cursor_glyph(&self, row: usize) -> (r: &'static str)
        ensures
            r@ == (if self.cursor == Some(row) { ">"@ } else { " "@ }),
    {
        if self.cursor == Some(row) {
            ">"
        } else {
            " "
        }
    }

    /// `o` on the anchor row in visual mode (also when it is the cursor row),
    /// a blank elsewhere.
    pub fn anchor_glyph(&self, row: usize) -> (r: &'static str)
        ensures
            r@ == (if self.anchor == Some(row) { "o"@ } else { " "@ }),
    {
        match self.anchor {
            Some(a) => {
                if row == a {
                    "o"
                } else {
                    " "
                }
            },
            None => " ",
        }
    }

    /// Whether `row` lies in the visual range.
    pub fn is_in_range(&self, row: usize) -> (r: bool)
        ensures
            r == match self.range {
                Some((s, e)) => s <= row && row <= e,
                None => false,
            },
    {
        match self.range {
            Some((s, e)) => row >= s && row <= e,
            None => false,
        }
    }

    /// Whether the row gets the highlight background: every row of the
    /// visual range, and always the cursor row.
    pub fn should_highlight(&self, row: usize) -> (r: bool)
        ensures
            r == (match self.range {
                Some((s, e)) => s <= row && row <= e,
                None => false,
            } || self.cursor == Some(row)),
    {
        self.is_in_range(row) || self.cursor == Some(row)
    }
}

/// The anchor row of a visual selection, shown only in the pane that owns
/// it (the focused one): `visual_anchor` is the anchor when in visual mode.
pub fn visual_anchor_for(focused: FocusedPanel, pane: FocusedPanel, visual_anchor: Option<usize>) -> (r: Option<usize>)
    ensures
        r == (if focused != pane { None } else { visual_anchor }),
{
    if focused != pane {
        None
    } else {
        visual_anchor
    }
}

/// The cursor row of a visual selection in the pane that owns it: the
/// sidebar cursor for the sidebar, the item cursor (first row when none)
/// for the others.
pub fn visual_cursor_for(
    focused: FocusedPanel,
    pane: FocusedPanel,
    in_visual: bool,
    sidebar_index: usize,
    selected: Option<usize>,
) -> (r: Option<usize>)
    ensures
        r == (if focused != pane || !in_visual {
            None
        } else if pane == FocusedPanel::Sidebar {
            Some(sidebar_index)
        } else {
            Some(
                match selected {
                    Some(s) => s,
                    None => 0,
                },
            )
        }),
{
    if focused != pane || !in_visual {
        None
    } else if pane == FocusedPanel::Sidebar {
        Some(sidebar_index)
    } else {
        match selected {
            Some(s) => Some(s),
            None => Some(0),
        }
    }
}

} // verus!
