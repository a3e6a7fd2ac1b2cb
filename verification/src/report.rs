//! The text the commands print: the dashboard of all lists, one list,
//! search hits and one item's details, line by line.
use vstd::prelude::*;

use crate::reorder::append_strings;
use crate::text::{concat, copy_str, decimal, decimal_string};
use crate::tui_state::names_view;

verus! {

broadcast use vstd::string::group_string_axioms;

/// An item as the reports show it: its id, title and list.
pub type ReportRow = (String, String, String);

/// The view of report rows.
pub open spec fn report_view(v: Seq<ReportRow>) -> Seq<(Seq<char>, Seq<char>, Seq<char>)> {
    v.map_values(|t: ReportRow| (t.0@, t.1@, t.2@))
}

/// The items of list `l`, in order.
pub open spec fn in_list(items: Seq<(Seq<char>, Seq<char>, Seq<char>)>, l: Seq<char>) -> Seq<
    (Seq<char>, Seq<char>, Seq<char>),
>
    decreases items.len(),
{
    if items.len() == 0 {
        Seq::empty()
    } else {
        let prev = in_list(items.drop_last(), l);
        if items.last().2 == l {
            prev.push(items.last())
        } else {
            prev
        }
    }
}

/// The line of an item under its list's heading.
pub open spec fn item_line(id: Seq<char>, title: Seq<char>) -> Seq<char> {
    "  "@ + id + "  "@ + title
}

/// A list's heading: its name and how many items it shows.
pub open spec fn heading(name: Seq<char>, n: nat) -> Seq<char> {
    name + " ("@ + decimal(n) + ")"@
}

/// The lines of the items `its`, in order.
pub open spec fn item_lines(its: Seq<(Seq<char>, Seq<char>, Seq<char>)>) -> Seq<Seq<char>> {
    its.map_values(|x: (Seq<char>, Seq<char>, Seq<char>)| item_line(x.0, x.1))
}

/// A list's heading followed by its items' lines.
pub open spec fn section(name: Seq<char>, its: Seq<(Seq<char>, Seq<char>, Seq<char>)>) -> Seq<Seq<char>> {
    seq![heading(name, its.len())] + item_lines(its)
}

/// The dashboard: for each list in turn that has items, its section and a
/// blank line.
pub open spec fn dashboard(lists: Seq<Seq<char>>, items: Seq<(Seq<char>, Seq<char>, Seq<char>)>) -> Seq<Seq<char>>
    decreases lists.len(),
{
    if lists.len() == 0 {
        Seq::empty()
    } else {
        let prev = dashboard(lists.drop_last(), items);
        let its = in_list(items, lists.last());
        if its.len() > 0 {
            prev + section(lists.last(), its) + seq![Seq::<char>::empty()]
        } else {
            prev
        }
    }
}

/// `a + b + c` as one string.
fn concat3(a: &str, b: &str, c: &str) -> (r: String)
    ensures
        r@ == a@ + b@ + c@,
{
    let ab = concat(a, b);
    concat(ab.as_str(), c)
}

/// The section of list `name`, and how many items it shows.
fn section_lines(name: &str, items: &Vec<ReportRow>) -> (r: (Vec<String>, usize))
    ensures
        r.1 == in_list(report_view(items@), name@).len(),
        names_view(r.0@) == section(name@, in_list(report_view(items@), name@)),
{
    let ghost rv = report_view(items@);
    let mut body: Vec<String> = Vec::new();
    let mut count: usize = 0;
    let mut i: usize = 0;
    while i < items.len()
        invariant
            i <= items@.len(),
            rv == report_view(items@),
            count == in_list(rv.take(i as int), name@).len(),
            count <= i,
            names_view(body@) == item_lines(in_list(rv.take(i as int), name@)),
        decreases items@.len() - i,
    {
        proof {
            assert(rv.take(i + 1).drop_last() =~= rv.take(i as int));
            assert(rv.take(i + 1).last() == rv[i as int]);
        }
        if crate::text::str_eq(items[i].2.as_str(), name) {
            let ghost before = in_list(rv.take(i as int), name@);
            let line = concat3("  ", items[i].0.as_str(), "  ");
            let line = concat(line.as_str(), items[i].1.as_str());
            body.push(line);
            count += 1;
            proof {
                assert(item_lines(before.push(rv[i as int])) =~= item_lines(before).push(
                    item_line(rv[i as int].0, rv[i as int].1),
                ));
                assert(names_view(body@) =~= item_lines(in_list(rv.take(i + 1), name@)));
            }
        }
        i += 1;
    }
    proof {
        assert(rv.take(items@.len() as int) =~= rv);
    }
    let num = decimal_string(count);
    let head = concat3(name, " (", num.as_str());
    let head = concat(head.as_str(), ")");
    let mut lines: Vec<String> = Vec::new();
    lines.push(head);
    let ghost first = names_view(lines@);
    append_strings(&mut lines, &body);
    proof {
        assert(first =~= seq![heading(name@, count as nat)]);
    }
    (lines, count)
}

/// `sqs list NAME`: the heading of list `name` and its items' lines;
/// `items` are `(id, title, list)` in order.
pub fn list_lines(name: &str, items: &Vec<ReportRow>) -> (r: Vec<String>)
    ensures
        names_view(r@) == section(name@, in_list(report_view(items@), name@)),
{
    section_lines(name, items).0
}

/// `sqs list` and the bare `sqs`: each of `lists` in turn that has items,
/// with its items and a blank line; `items` are `(id, title, list)` in
/// order.
pub fn dashboard_lines(lists: &Vec<String>, items: &Vec<ReportRow>) -> (r: Vec<String>)
    ensures
        names_view(r@) == dashboard(names_view(lists@), report_view(items@)),
{
    let ghost lv = names_view(lists@);
    let ghost rv = report_view(items@);
    let mut out: Vec<String> = Vec::new();
    let mut k: usize = 0;
    while k < lists.len()
        invariant
            k <= lists@.len(),
            lv == names_view(lists@),
            rv == report_view(items@),
            names_view(out@) == dashboard(lv.take(k as int), rv),
        decreases lists@.len() - k,
    {
        proof {
            assert(lv.take(k + 1).drop_last() =~= lv.take(k as int));
            assert(lv.take(k + 1).last() == lv[k as int]);
        }
        let (sec, n) = section_lines(lists[k].as_str(), items);
        if n > 0 {
            append_strings(&mut out, &sec);
            out.push(String::new());
            proof {
                assert(names_view(out@) =~= dashboard(lv.take(k + 1), rv));
            }
        }
        k += 1;
    }
    proof {
        assert(lv.take(lists@.len() as int) =~= lv);
    }
    out
}

/// The line of a search hit: its list, id and title.
pub open spec fn hit_line(x: (Seq<char>, Seq<char>, Seq<char>)) -> Seq<char> {
    "["@ + x.2 + "] "@ + x.0 + "  "@ + x.1
}

/// `sqs find`: one line per hit, or a line saying there is none.
pub open spec fn spec_find_lines(hits: Seq<(Seq<char>, Seq<char>, Seq<char>)>) -> Seq<Seq<char>> {
    if hits.len() == 0 {
        seq!["No items found"@]
    } else {
        hits.map_values(|x: (Seq<char>, Seq<char>, Seq<char>)| hit_line(x))
    }
}

/// The lines `sqs find` prints for `hits`, `(id, title, list)` in order.
pub fn find_lines(hits: &Vec<ReportRow>) -> (r: Vec<String>)
    ensures
        names_view(r@) == spec_find_lines(report_view(hits@)),
{
    let ghost hv = report_view(hits@);
    let mut out: Vec<String> = Vec::new();
    if hits.len() == 0 {
        out.push(copy_str("No items found"));
        return out;
    }
    let mut i: usize = 0;
    while i < hits.len()
        invariant
            i <= hits@.len(),
            hv == report_view(hits@),
            names_view(out@) == hv.take(i as int).map_values(|x: (Seq<char>, Seq<char>, Seq<char>)| hit_line(x)),
        decreases hits@.len() - i,
    {
        let a = concat3("[", hits[i].2.as_str(), "] ");
        let b = concat3(a.as_str(), hits[i].0.as_str(), "  ");
        let line = concat(b.as_str(), hits[i].1.as_str());
        let ghost before = out@;
        out.push(line);
        proof {
            assert(hv[i as int] == (hits@[i as int].0@, hits@[i as int].1@, hits@[i as int].2@));
            assert(hv.take(i + 1) =~= hv.take(i as int).push(hv[i as int]));
            assert(names_view(out@) =~= names_view(before).push(line@));
            assert(names_view(out@) =~= hv.take(i + 1).map_values(
                |x: (Seq<char>, Seq<char>, Seq<char>)| hit_line(x),
            ));
        }
        i += 1;
    }
    proof {
        assert(hv.take(hits@.len() as int) =~= hv);
    }
    out
}

/// `sqs show`: the id, list and title, the file's path when it is known,
/// a blank line and the body.
pub open spec fn spec_show_lines(
    id: Seq<char>,
    list: Seq<char>,
    title: Seq<char>,
    path: Option<Seq<char>>,
    body: Seq<char>,
) -> Seq<Seq<char>> {
    seq!["ID:    "@ + id, "List:  "@ + list, "Title: "@ + title] + match path {
        Some(p) => seq!["Path:  "@ + p],
        None => Seq::empty(),
    } + seq![Seq::<char>::empty(), body]
}

/// The lines `sqs show` prints for one item.
pub fn show_lines(id: &str, list: &str, title: &str, path: &Option<String>, body: &str) -> (r: Vec<String>)
    ensures
        names_view(r@) == spec_show_lines(id@, list@, title@, crate::config::opt_view(*path), body@),
{
    let mut out: Vec<String> = Vec::new();
    out.push(concat("ID:    ", id));
    out.push(concat("List:  ", list));
    out.push(concat("Title: ", title));
    match path {
        Some(p) => out.push(concat("Path:  ", p.as_str())),
        None => {},
    }
    out.push(String::new());
    out.push(copy_str(body));
    proof {
        assert(names_view(out@) =~= spec_show_lines(id@, list@, title@, crate::config::opt_view(*path), body@));
    }
    out
}

} // verus!
