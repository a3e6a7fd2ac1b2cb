//! Rebuilding spaced order keys.
//!
//! Lists and items share one ordering: each list has a marker key and an
//! item belongs to the last list whose marker is not above its own key.
//! Renumbering gives the `i`-th list the key `(i + 1) * 1000` and the `j`-th
//! item of a list the key just after its list's marker plus `j`. Keys are
//! whole numbers here; the caller stores them as order keys.
use vstd::prelude::*;
use crate::reorder::{ids_where, rows_view};
use crate::tui_state::names_view;

verus! {

/// Distance between consecutive list markers.
pub const LIST_SPACING: u64 = 1000;

/// The marker key of the list at position `index`.
pub open spec fn list_key(index: int) -> int {
    (index + 1) * LIST_SPACING
}

/// The key of the item at `position` within the list whose marker is
/// `list_key`.
pub open spec fn item_key(list_key: int, position: int) -> int {
    list_key + 1 + position
}

/// The marker key of the list at position `index` (`list_key`).
pub fn list_key_for_index(index: u64) -> (r: u64)
    requires
        (index + 1) * LIST_SPACING <= u64::MAX,
    ensures
        r == list_key(index as int),
{
    (index + 1) * LIST_SPACING
}

/// The key of the item at `position` within a list (`item_key`).
pub fn item_key_in_list(list_key: u64, position: u64) -> (r: u64)
    requires
        list_key + 1 + position <= u64::MAX,
    ensures
        r == item_key(list_key as int, position as int),
{
    list_key + 1 + position
}

/// The new keys of the items of the first `n` lists: for each list in
/// turn, its items (those whose derived list has its name) in order.
pub open spec fn item_updates(lists: Seq<Seq<char>>, items: Seq<(Seq<char>, Seq<char>)>, n: int) -> Seq<(Seq<char>, int)>
    decreases n,
{
    if n <= 0 || n > lists.len() {
        Seq::empty()
    } else {
        item_updates(lists, items, n - 1) + ids_where(items, lists[n - 1], true).map(
            |j: int, id: Seq<char>| (id, item_key(list_key(n - 1), j)),
        )
    }
}

/// The new marker keys of the lists, in order.
pub open spec fn list_updates(lists: Seq<Seq<char>>) -> Seq<(Seq<char>, int)> {
    lists.map(|i: int, name: Seq<char>| (name, list_key(i)))
}

/// The view of `(name, key)` pairs.
pub open spec fn keyed_view(v: Seq<(String, u64)>) -> Seq<(Seq<char>, int)> {
    v.map_values(|p: (String, u64)| (p.0@, p.1 as int))
}

/// Renumbering: `lists` are the list names ordered by their current keys;
/// `items` are `(id, list)` ordered by their current keys, where `list` is
/// the list each item currently belongs to. Returns the new list keys and
/// the new item keys.
pub fn renumber(lists: &Vec<String>, items: &Vec<(String, String)>) -> (r: (Vec<(String, u64)>, Vec<(String, u64)>))
    requires
        (lists@.len() + 1) * LIST_SPACING + items@.len() <= u64::MAX,
    ensures
        keyed_view(r.0@) == list_updates(names_view(lists@)),
        keyed_view(r.1@) == item_updates(names_view(lists@), rows_view(items@), lists@.len() as int),
{
    let ghost lv = names_view(lists@);
    let ghost iv = rows_view(items@);
    let mut new_lists: Vec<(String, u64)> = Vec::new();
    let mut updates: Vec<(String, u64)> = Vec::new();
    let mut i: usize = 0;
    while i < lists.len()
        invariant
            i <= lists@.len(),
            lv == names_view(lists@),
            iv == rows_view(items@),
            (lists@.len() + 1) * LIST_SPACING + items@.len() <= u64::MAX,
            keyed_view(new_lists@) == list_updates(lv).take(i as int),
            keyed_view(updates@) == item_updates(lv, iv, i as int),
        decreases lists@.len() - i,
    {
        proof {
            assert((i + 1) * LIST_SPACING <= (lists@.len() + 1) * LIST_SPACING) by (nonlinear_arith)
                requires
                    i <= lists@.len(),
            ;
        }
        let lk = list_key_for_index(i as u64);
        let ghost before_lists = keyed_view(new_lists@);
        new_lists.push((lists[i].clone(), lk));
        proof {
            assert(keyed_view(new_lists@) =~= before_lists.push((lv[i as int], list_key(i as int))));
            assert(list_updates(lv).take(i + 1) =~= list_updates(lv).take(i as int).push(
                (lv[i as int], list_key(i as int)),
            ));
        }
        let ids = crate::reorder::ids_where_range(items, 0, items.len(), &lists[i], true);
        proof {
            assert(iv.subrange(0, items@.len() as int) =~= iv);
            lemma_ids_where_len(iv, lv[i as int]);
        }
        let ghost before = keyed_view(updates@);
        let ghost idv = names_view(ids@);
        let mut j: usize = 0;
        while j < ids.len()
            invariant
                j <= ids@.len(),
                idv == names_view(ids@),
                idv.len() <= items@.len(),
                lk == list_key(i as int),
                lk + 1 + items@.len() <= u64::MAX,
                keyed_view(updates@) == before + idv.take(j as int).map(
                    |k: int, id: Seq<char>| (id, item_key(list_key(i as int), k)),
                ),
            decreases ids@.len() - j,
        {
            let key = item_key_in_list(lk, j as u64);
            let ghost prev = keyed_view(updates@);
            updates.push((ids[j].clone(), key));
            proof {
                assert(keyed_view(updates@) =~= prev.push((idv[j as int], item_key(list_key(i as int), j as int))));
                assert(idv.take(j + 1).map(|k: int, id: Seq<char>| (id, item_key(list_key(i as int), k))) =~= idv.take(
                    j as int,
                ).map(|k: int, id: Seq<char>| (id, item_key(list_key(i as int), k))).push(
                    (idv[j as int], item_key(list_key(i as int), j as int)),
                ));
            }
            j += 1;
        }
        proof {
            assert(idv.take(ids@.len() as int) =~= idv);
        }
        i += 1;
    }
    proof {
        assert(list_updates(lv).take(lists@.len() as int) =~= list_updates(lv));
    }
    (new_lists, updates)
}

/// `ids_where` keeps at most all rows.
proof fn lemma_ids_where_len(rows: Seq<(Seq<char>, Seq<char>)>, l: Seq<char>)
    ensures
        ids_where(rows, l, true).len() <= rows.len(),
    decreases rows.len(),
{
    if rows.len() > 0 {
        lemma_ids_where_len(rows.drop_last(), l);
    }
}

/// How many of `idx` are below `n`.
pub open spec fn below(idx: Seq<int>, n: int) -> int
    decreases idx.len(),
{
    if idx.len() == 0 {
        0
    } else {
        below(idx.drop_last(), n) + if idx.last() < n {
            1int
        } else {
            0int
        }
    }
}

/// Each entry is at most the next ones.
pub open spec fn nondecreasing(idx: Seq<int>) -> bool {
    forall|p: int, q: int| 0 <= p < q < idx.len() ==> idx[p] <= idx[q]
}

/// In a non-decreasing sequence the entries below `n` are a prefix.
proof fn lemma_below(idx: Seq<int>, n: int)
    requires
        nondecreasing(idx),
    ensures
        0 <= below(idx, n) <= idx.len(),
        forall|p: int| 0 <= p < idx.len() ==> (p < below(idx, n) <==> idx[p] < n),
    decreases idx.len(),
{
    if idx.len() > 0 {
        let dl = idx.drop_last();
        lemma_below(dl, n);
        if idx.last() < n {
            if idx.len() >= 2 {
                assert(dl[idx.len() - 2] == idx[idx.len() - 2]);
                assert(idx[idx.len() - 2] <= idx.last());
            }
            assert forall|p: int| 0 <= p < idx.len() implies (p < below(idx, n) <==> idx[p] < n) by {
                if p < idx.len() - 1 {
                    assert(dl[p] == idx[p]);
                    assert(idx[p] <= idx.last());
                }
            }
        } else {
            assert forall|p: int| 0 <= p < idx.len() implies (p < below(idx, n) <==> idx[p] < n) by {
                if p < idx.len() - 1 {
                    assert(dl[p] == idx[p]);
                }
            }
        }
    }
}

/// The ids kept by `ids_where` when the rows of `l` are exactly those at
/// positions `a..b`.
proof fn lemma_ids_where_block(rows: Seq<(Seq<char>, Seq<char>)>, l: Seq<char>, a: int, b: int)
    requires
        0 <= a <= b <= rows.len(),
        forall|p: int| 0 <= p < rows.len() ==> ((#[trigger] rows[p].1 == l) <==> (a <= p < b)),
    ensures
        ids_where(rows, l, true) == rows.subrange(a, b).map_values(|r: (Seq<char>, Seq<char>)| r.0),
    decreases rows.len(),
{
    if rows.len() == 0 {
        assert(rows.subrange(a, b).map_values(|r: (Seq<char>, Seq<char>)| r.0) =~= Seq::<Seq<char>>::empty());
    } else {
        let n = rows.len() as int;
        let dl = rows.drop_last();
        if a < n && b == n {
            assert forall|p: int| 0 <= p < dl.len() implies ((#[trigger] dl[p].1 == l) <==> (a <= p < n - 1)) by {
                assert(dl[p] == rows[p]);
            }
            lemma_ids_where_block(dl, l, a, n - 1);
            assert(rows[n - 1].1 == l);
            assert(rows.subrange(a, n).map_values(|r: (Seq<char>, Seq<char>)| r.0) =~= dl.subrange(a, n - 1).map_values(
                |r: (Seq<char>, Seq<char>)| r.0,
            ).push(rows.last().0));
        } else {
            let a2 = if a < n - 1 { a } else { n - 1 };
            let b2 = if b < n - 1 { b } else { n - 1 };
            assert(rows.last().1 != l) by {
                assert(!(a <= n - 1 < b));
            }
            assert forall|p: int| 0 <= p < dl.len() implies ((#[trigger] dl[p].1 == l) <==> (a2 <= p < b2)) by {
                assert(dl[p] == rows[p]);
            }
            lemma_ids_where_block(dl, l, a2, b2);
            assert(rows.subrange(a, b).map_values(|r: (Seq<char>, Seq<char>)| r.0) =~= dl.subrange(a2, b2).map_values(
                |r: (Seq<char>, Seq<char>)| r.0,
            ));
        }
    }
}

/// The new key of the item at position `p`, whose list is at position
/// `idx[p]`: after its list's marker, by its rank within the list.
pub open spec fn renumbered_key(idx: Seq<int>, p: int) -> int {
    item_key(list_key(idx[p]), p - below(idx, idx[p]))
}

/// Items grouped by list in list order: `idx[p]` is the position of item
/// `p`'s list among distinct `lists`.
pub open spec fn grouped(lists: Seq<Seq<char>>, items: Seq<(Seq<char>, Seq<char>)>, idx: Seq<int>) -> bool {
    &&& idx.len() == items.len()
    &&& nondecreasing(idx)
    &&& forall|p: int| 0 <= p < items.len() ==> 0 <= #[trigger] idx[p] < lists.len() && items[p].1 == lists[idx[p]]
    &&& forall|a: int, b: int| 0 <= a < b < lists.len() ==> #[trigger] lists[a] != #[trigger] lists[b]
}

proof fn lemma_item_updates_prefix(lists: Seq<Seq<char>>, items: Seq<(Seq<char>, Seq<char>)>, idx: Seq<int>, n: int)
    requires
        grouped(lists, items, idx),
        0 <= n <= lists.len(),
    ensures
        item_updates(lists, items, n) == Seq::new(
            below(idx, n) as nat,
            |p: int| (items[p].0, renumbered_key(idx, p)),
        ),
    decreases n,
{
    lemma_below(idx, n);
    if n == 0 {
        assert(below(idx, 0) == 0) by {
            if below(idx, 0) > 0 {
                assert(idx[0] < 0);
            }
        }
        assert(item_updates(lists, items, 0) =~= Seq::new(0, |p: int| (items[p].0, renumbered_key(idx, p))));
    } else {
        lemma_item_updates_prefix(lists, items, idx, n - 1);
        lemma_below(idx, n - 1);
        let a = below(idx, n - 1);
        let b = below(idx, n);
        assert(a <= b) by {
            if a > b {
                assert(idx[b] < n - 1);
            }
        }
        assert forall|p: int| 0 <= p < items.len() implies ((#[trigger] items[p].1 == lists[n - 1]) <==> (a <= p < b)) by {
            if items[p].1 == lists[n - 1] {
                if idx[p] != n - 1 {
                    if idx[p] < n - 1 {
                        assert(lists[idx[p]] != lists[n - 1]);
                    } else {
                        assert(lists[n - 1] != lists[idx[p]]);
                    }
                }
            }
        }
        lemma_ids_where_block(items, lists[n - 1], a, b);
        let block = items.subrange(a, b).map_values(|r: (Seq<char>, Seq<char>)| r.0);
        let appended = block.map(|j: int, id: Seq<char>| (id, item_key(list_key(n - 1), j)));
        assert forall|p: int| a <= p < b implies idx[p] == n - 1 && below(idx, idx[p]) == a by {}
        assert(item_updates(lists, items, n) =~= Seq::new(
            b as nat,
            |p: int| (items[p].0, renumbered_key(idx, p)),
        ));
    }
}

/// Renumbering keeps the items in their order and in their lists: with
/// distinct list names, items grouped by list in list order, and at most
/// 999 items in each list but the last (which may hold any number), the
/// new item keys list the items in their original order, increase
/// strictly, and each lies above its list's new marker and, but in the last
/// list, below the next list's.
pub proof fn lemma_renumber_keeps_order(lists: Seq<Seq<char>>, items: Seq<(Seq<char>, Seq<char>)>, idx: Seq<int>)
    requires
        grouped(lists, items, idx),
        forall|i: int| 0 <= i < lists.len() - 1 ==> #[trigger] ids_where(items, lists[i], true).len() < LIST_SPACING,
    ensures
        ({
            let u = item_updates(lists, items, lists.len() as int);
            &&& u.len() == items.len()
            &&& forall|p: int| 0 <= p < items.len() ==> #[trigger] u[p].0 == items[p].0
            &&& forall|p: int| 0 <= p < items.len() ==> list_key(idx[p]) < #[trigger] u[p].1
            &&& forall|p: int| 0 <= p < items.len() && idx[p] + 1 < lists.len() ==> #[trigger] u[p].1 < list_key(idx[p] + 1)
            &&& forall|p: int, q: int| 0 <= p < q < items.len() ==> #[trigger] u[p].1 < #[trigger] u[q].1
        }),
{
    let n = lists.len() as int;
    lemma_item_updates_prefix(lists, items, idx, n);
    lemma_below(idx, n);
    assert(below(idx, n) == items.len()) by {
        if below(idx, n) < items.len() {
            assert(idx[below(idx, n)] < n);
        }
    }
    let u = item_updates(lists, items, n);
    assert forall|p: int| 0 <= p < items.len() implies 0 <= p - below(idx, #[trigger] idx[p]) && (idx[p] < n - 1 ==> p
        - below(idx, idx[p]) < LIST_SPACING - 1) by {
        let i = idx[p];
        lemma_below(idx, i);
        lemma_below(idx, i + 1);
        let a = below(idx, i);
        let b = below(idx, i + 1);
        assert(a <= p < b);
        assert forall|q: int| 0 <= q < items.len() implies ((#[trigger] items[q].1 == lists[i]) <==> (a <= q < b)) by {
            if items[q].1 == lists[i] {
                if idx[q] != i {
                    if idx[q] < i {
                        assert(lists[idx[q]] != lists[i]);
                    } else {
                        assert(lists[i] != lists[idx[q]]);
                    }
                }
            }
        }
        lemma_ids_where_block(items, lists[i], a, b);
        assert(ids_where(items, lists[i], true).len() == b - a);
    }
    assert forall|p: int| 0 <= p < items.len() && idx[p] + 1 < lists.len() implies #[trigger] u[p].1 < list_key(
        idx[p] + 1,
    ) by {
        assert(list_key(idx[p] + 1) == list_key(idx[p]) + LIST_SPACING) by (nonlinear_arith);
    }
    assert forall|p: int, q: int| 0 <= p < q < items.len() implies #[trigger] u[p].1 < #[trigger] u[q].1 by {
        assert(idx[p] <= idx[q]);
        if idx[p] < idx[q] {
            assert(idx[p] + 1 < lists.len());
            assert(u[p].1 < list_key(idx[p] + 1));
            assert(list_key(idx[p] + 1) <= list_key(idx[q])) by (nonlinear_arith)
                requires
                    idx[p] + 1 <= idx[q],
            ;
        }
    }
}

/// The position among `n` lists of the list a key above the first marker
/// falls in: the list with the largest marker not above the key.
pub open spec fn list_index_of_key(key: int, n: int) -> int {
    let i = key / (LIST_SPACING as int) - 1;
    if i < n - 1 {
        i
    } else {
        n - 1
    }
}

/// The `(id, list)` rows read back from renumbered keys: each id with the
/// list its new key falls in.
pub open spec fn rows_from_keys(lists: Seq<Seq<char>>, u: Seq<(Seq<char>, int)>) -> Seq<(Seq<char>, Seq<char>)> {
    u.map_values(|e: (Seq<char>, int)| (e.0, lists[list_index_of_key(e.1, lists.len() as int)]))
}

/// Renumbering is idempotent: under the conditions of
/// `lemma_renumber_keeps_order`, reading each item's list back from its new
/// key gives the items as they were, in the same order, so renumbering
/// again gives the same keys.
pub proof fn lemma_renumber_idempotent(lists: Seq<Seq<char>>, items: Seq<(Seq<char>, Seq<char>)>, idx: Seq<int>)
    requires
        grouped(lists, items, idx),
        forall|i: int| 0 <= i < lists.len() - 1 ==> #[trigger] ids_where(items, lists[i], true).len() < LIST_SPACING,
    ensures
        ({
            let n = lists.len() as int;
            let u = item_updates(lists, items, n);
            &&& rows_from_keys(lists, u) == items
            &&& item_updates(lists, rows_from_keys(lists, u), n) == u
        }),
{
    let n = lists.len() as int;
    lemma_renumber_keeps_order(lists, items, idx);
    let u = item_updates(lists, items, n);
    let back = rows_from_keys(lists, u);
    assert forall|p: int| 0 <= p < items.len() implies #[trigger] back[p] == items[p] by {
        let j = idx[p];
        let k = u[p].1;
        assert(list_key(j) < k);
        if j + 1 < n {
            assert(k < list_key(j + 1));
            assert(k / 1000 == j + 1) by (nonlinear_arith)
                requires
                    (j + 1) * 1000 < k,
                    k < (j + 2) * 1000,
            ;
        } else {
            assert(k / 1000 >= j + 1) by (nonlinear_arith)
                requires
                    (j + 1) * 1000 < k,
            ;
        }
        assert(list_index_of_key(k, n) == j);
    }
    assert(back =~= items);
}

} // verus!
