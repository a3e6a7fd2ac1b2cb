//! Reordering of item ids within and across lists.
//!
//! The item pane shows rows `(id, list)` in display order. Moving the
//! selected block up or down either shifts it past its neighbour inside its
//! list, carries it into the adjacent list, or first gathers a block that
//! spans several lists into one list. The functions here compute the new id
//! orders; storing order keys is left to the caller.
use vstd::prelude::*;
use crate::tui_state::names_view;
use vstd::seq_lib::lemma_multiset_commutative;

verus! {

/// The predicate "not one of `sel`".
pub open spec fn not_in(sel: Seq<Seq<char>>) -> spec_fn(Seq<char>) -> bool {
    |x: Seq<char>| !sel.contains(x)
}

/// `order` without the entries that occur in `sel`, in order.
pub open spec fn spec_without(order: Seq<Seq<char>>, sel: Seq<Seq<char>>) -> Seq<Seq<char>> {
    order.filter(not_in(sel))
}

/// Whether `x` is one of `v`.
pub fn contains_string(v: &Vec<String>, x: &String) -> (r: bool)
    ensures
        r == names_view(v@).contains(x@),
{
    let mut i: usize = 0;
    while i < v.len()
        invariant
            i <= v@.len(),
            forall|k: int| 0 <= k < i ==> #[trigger] v@[k]@ != x@,
        decreases v@.len() - i,
    {
        if v[i] == *x {
            proof {
                assert(names_view(v@)[i as int] == x@);
            }
            return true;
        }
        i += 1;
    }
    proof {
        if names_view(v@).contains(x@) {
            let k = choose|k: int| 0 <= k < names_view(v@).len() && names_view(v@)[k] == x@;
            assert(v@[k]@ == x@);
        }
    }
    false
}

/// `order` with the entries of `sel` removed.
pub fn without(order: &Vec<String>, sel: &Vec<String>) -> (r: Vec<String>)
    ensures
        names_view(r@) == spec_without(names_view(order@), names_view(sel@)),
{
    let ghost ov = names_view(order@);
    let ghost sv = names_view(sel@);
    let mut r: Vec<String> = Vec::new();
    let mut i: usize = 0;
    while i < order.len()
        invariant
            i <= order@.len(),
            ov == names_view(order@),
            sv == names_view(sel@),
            names_view(r@) == ov.take(i as int).filter(not_in(sv)),
        decreases order@.len() - i,
    {
        let keep = !contains_string(sel, &order[i]);
        proof {
            assert(ov.take(i + 1) =~= ov.take(i as int).push(ov[i as int]));
            ov.take(i as int).lemma_filter_push(ov[i as int], not_in(sv));
        }
        if keep {
            let ghost before = r@;
            r.push(order[i].clone());
            proof {
                assert(names_view(r@) =~= names_view(before).push(ov[i as int]));
            }
        }
        i += 1;
    }
    proof {
        assert(ov.take(order@.len() as int) =~= ov);
    }
    r
}

/// Appends the entries of `tail` to `head`.
pub fn append_strings(head: &mut Vec<String>, tail: &Vec<String>)
    ensures
        names_view(final(head)@) == names_view(old(head)@) + names_view(tail@),
{
    let ghost start = names_view(head@);
    let mut i: usize = 0;
    while i < tail.len()
        invariant
            i <= tail@.len(),
            names_view(head@) == start + names_view(tail@).take(i as int),
        decreases tail@.len() - i,
    {
        let ghost before = head@;
        head.push(tail[i].clone());
        proof {
            assert(names_view(head@) =~= names_view(before).push(tail@[i as int]@));
            assert(names_view(tail@).take(i + 1) =~= names_view(tail@).take(i as int).push(
                tail@[i as int]@,
            ));
        }
        i += 1;
    }
    proof {
        assert(names_view(tail@).take(tail@.len() as int) =~= names_view(tail@));
    }
}

/// `order` with `id` taken out and put back at position `at` (or last, when
/// `at` is past the end).
pub open spec fn spec_place_id(order: Seq<Seq<char>>, id: Seq<char>, at: int) -> Seq<Seq<char>> {
    let rest = spec_without(order, seq![id]);
    rest.insert(if at < rest.len() { at } else { rest.len() as int }, id)
}

/// Places `id` at position `at` of `order` (last when `at` is past the end),
/// taking it out of wherever it was.
pub fn place_id(order: &Vec<String>, id: &String, at: usize) -> (r: Vec<String>)
    ensures
        names_view(r@) == spec_place_id(names_view(order@), id@, at as int),
{
    let mut single: Vec<String> = Vec::new();
    single.push(id.clone());
    proof {
        assert(names_view(single@) =~= seq![id@]);
    }
    let mut rest = without(order, &single);
    let pos = if at < rest.len() { at } else { rest.len() };
    let ghost before = names_view(rest@);
    rest.insert(pos, id.clone());
    proof {
        assert(names_view(rest@) =~= before.insert(pos as int, id@));
    }
    rest
}

/// The block `sel` moved to the front (or the back) of `order`, keeping the
/// relative order of everything else.
pub open spec fn spec_block_to_edge(order: Seq<Seq<char>>, sel: Seq<Seq<char>>, to_top: bool) -> Seq<Seq<char>> {
    if to_top {
        sel + spec_without(order, sel)
    } else {
        spec_without(order, sel) + sel
    }
}

/// `order` with the ids of `sel` taken out and put back, in the order of
/// `sel`, at the front (`to_top`) or at the back.
pub fn block_to_edge(order: &Vec<String>, sel: &Vec<String>, to_top: bool) -> (r: Vec<String>)
    ensures
        names_view(r@) == spec_block_to_edge(names_view(order@), names_view(sel@), to_top),
{
    let rest = without(order, sel);
    if to_top {
        let mut r: Vec<String> = Vec::new();
        append_strings(&mut r, sel);
        append_strings(&mut r, &rest);
        proof {
            assert(names_view(Seq::<String>::empty()) =~= Seq::<Seq<char>>::empty());
            assert(Seq::<Seq<char>>::empty() + names_view(sel@) =~= names_view(sel@));
        }
        r
    } else {
        let mut r = rest;
        append_strings(&mut r, sel);
        r
    }
}


/// Rows of the item pane as `(id, list)` pairs of character sequences.
pub open spec fn rows_view(v: Seq<(String, String)>) -> Seq<(Seq<char>, Seq<char>)> {
    v.map_values(|r: (String, String)| (r.0@, r.1@))
}

/// The ids of the rows that are in `list` (`inside`) or not in it (`!inside`),
/// in display order.
pub open spec fn ids_where(rows: Seq<(Seq<char>, Seq<char>)>, list: Seq<char>, inside: bool) -> Seq<Seq<char>>
    decreases rows.len(),
{
    if rows.len() == 0 {
        Seq::empty()
    } else {
        let prev = ids_where(rows.drop_last(), list, inside);
        if (rows.last().1 == list) == inside {
            prev.push(rows.last().0)
        } else {
            prev
        }
    }
}

/// The ids of rows `lo..=hi`.
pub open spec fn row_ids(rows: Seq<(Seq<char>, Seq<char>)>, lo: int, hi: int) -> Seq<Seq<char>> {
    rows.subrange(lo, hi + 1).map_values(|r: (Seq<char>, Seq<char>)| r.0)
}

/// `k` is the first position of `order` holding one of `sel`.
pub open spec fn is_first_hit(order: Seq<Seq<char>>, sel: Seq<Seq<char>>, k: int) -> bool {
    &&& 0 <= k < order.len()
    &&& sel.contains(order[k])
    &&& forall|j: int| 0 <= j < k ==> !sel.contains(#[trigger] order[j])
}

/// The first position of `order` holding one of `sel`, or 0 if there is none.
pub open spec fn first_hit(order: Seq<Seq<char>>, sel: Seq<Seq<char>>) -> int {
    if exists|k: int| is_first_hit(order, sel, k) {
        choose|k: int| is_first_hit(order, sel, k)
    } else {
        0
    }
}

/// The block of `k` entries at `f` swapped with the entry just below it
/// (unchanged when there is no such entry).
pub open spec fn spec_shift_down(order: Seq<Seq<char>>, f: int, k: int) -> Seq<Seq<char>> {
    if 0 <= f && 1 <= k && f + k < order.len() {
        order.subrange(0, f) + seq![order[f + k]] + order.subrange(f, f + k) + order.subrange(
            f + k + 1,
            order.len() as int,
        )
    } else {
        order
    }
}

/// The block of `k` entries at `f` swapped with the entry just above it
/// (unchanged when there is no such entry).
pub open spec fn spec_shift_up(order: Seq<Seq<char>>, f: int, k: int) -> Seq<Seq<char>> {
    if 0 < f && 1 <= k && f + k <= order.len() {
        order.subrange(0, f - 1) + order.subrange(f, f + k) + seq![order[f - 1]] + order.subrange(
            f + k,
            order.len() as int,
        )
    } else {
        order
    }
}

/// The first position of one of `sel` in `order`, or 0 if none occurs.
pub fn first_hit_index(order: &Vec<String>, sel: &Vec<String>) -> (r: usize)
    ensures
        r == first_hit(names_view(order@), names_view(sel@)),
        r == 0 || r < order@.len(),
{
    let ghost ov = names_view(order@);
    let ghost sv = names_view(sel@);
    let mut i: usize = 0;
    while i < order.len()
        invariant
            i <= order@.len(),
            ov == names_view(order@),
            sv == names_view(sel@),
            forall|j: int| 0 <= j < i ==> !sv.contains(#[trigger] ov[j]),
        decreases order@.len() - i,
    {
        if contains_string(sel, &order[i]) {
            proof {
                assert(is_first_hit(ov, sv, i as int));
                let c = choose|k: int| is_first_hit(ov, sv, k);
                if c < i {
                    assert(!sv.contains(ov[c]));
                } else if c > i {
                    assert(!sv.contains(ov[i as int]));
                }
            }
            return i;
        }
        i += 1;
    }
    proof {
        assert forall|k: int| !is_first_hit(ov, sv, k) by {
            if 0 <= k < ov.len() {
                assert(!sv.contains(ov[k]));
            }
        }
    }
    0
}

/// Appends entries `lo..hi` of `src` to `r`.
pub fn push_range(r: &mut Vec<String>, src: &Vec<String>, lo: usize, hi: usize)
    requires
        lo <= hi <= src@.len(),
    ensures
        names_view(final(r)@) == names_view(old(r)@) + names_view(src@).subrange(lo as int, hi as int),
{
    let ghost start = names_view(r@);
    let ghost sv = names_view(src@);
    let mut i: usize = lo;
    while i < hi
        invariant
            lo <= i <= hi,
            hi <= src@.len(),
            sv == names_view(src@),
            names_view(r@) == start + sv.subrange(lo as int, i as int),
        decreases hi - i,
    {
        let ghost before = r@;
        r.push(src[i].clone());
        proof {
            assert(names_view(r@) =~= names_view(before).push(sv[i as int]));
            assert(sv.subrange(lo as int, i + 1) =~= sv.subrange(lo as int, i as int).push(sv[i as int]));
            assert(start + sv.subrange(lo as int, i + 1) =~= (start + sv.subrange(lo as int, i as int)).push(
                sv[i as int],
            ));
        }
        i += 1;
    }
}

/// A copy of `order`.
pub fn copy_strings(order: &Vec<String>) -> (r: Vec<String>)
    ensures
        names_view(r@) == names_view(order@),
{
    let mut r: Vec<String> = Vec::new();
    push_range(&mut r, order, 0, order.len());
    proof {
        assert(names_view(Seq::<String>::empty()) + names_view(order@).subrange(0, order@.len() as int)
            =~= names_view(order@));
    }
    r
}

/// Moves the block of `k` entries at `f` one place down.
pub fn shift_down(order: &Vec<String>, f: usize, k: usize) -> (r: Vec<String>)
    ensures
        names_view(r@) == spec_shift_down(names_view(order@), f as int, k as int),
{
    let ghost ov = names_view(order@);
    if 1 <= k && f < order.len() && k < order.len() - f {
        let mut r: Vec<String> = Vec::new();
        push_range(&mut r, order, 0, f);
        push_range(&mut r, order, f + k, f + k + 1);
        push_range(&mut r, order, f, f + k);
        push_range(&mut r, order, f + k + 1, order.len());
        proof {
            assert(ov.subrange(f + k, f + k + 1) =~= seq![ov[f + k]]);
            assert(names_view(Seq::<String>::empty()) + ov.subrange(0, f as int) =~= ov.subrange(0, f as int));
        }
        r
    } else {
        copy_strings(order)
    }
}

/// Moves the block of `k` entries at `f` one place up.
pub fn shift_up(order: &Vec<String>, f: usize, k: usize) -> (r: Vec<String>)
    ensures
        names_view(r@) == spec_shift_up(names_view(order@), f as int, k as int),
{
    let ghost ov = names_view(order@);
    if 0 < f && 1 <= k && f <= order.len() && k <= order.len() - f {
        let mut r: Vec<String> = Vec::new();
        push_range(&mut r, order, 0, f - 1);
        push_range(&mut r, order, f, f + k);
        push_range(&mut r, order, f - 1, f);
        push_range(&mut r, order, f + k, order.len());
        proof {
            assert(ov.subrange(f - 1, f as int) =~= seq![ov[f - 1]]);
            assert(names_view(Seq::<String>::empty()) + ov.subrange(0, f - 1) =~= ov.subrange(0, f - 1));
        }
        r
    } else {
        copy_strings(order)
    }
}

/// Filtering keeps a sequence whose entries all pass.
proof fn lemma_filter_keeps_all(s: Seq<Seq<char>>, p: spec_fn(Seq<char>) -> bool)
    requires
        forall|i: int| 0 <= i < s.len() ==> p(#[trigger] s[i]),
    ensures
        s.filter(p) == s,
    decreases s.len(),
{
    reveal(Seq::filter);
    if s.len() > 0 {
        lemma_filter_keeps_all(s.drop_last(), p);
        assert(s.drop_last().push(s.last()) =~= s);
    }
}

/// Filtering drops a sequence whose entries all fail.
proof fn lemma_filter_drops_all(s: Seq<Seq<char>>, p: spec_fn(Seq<char>) -> bool)
    requires
        forall|i: int| 0 <= i < s.len() ==> !p(#[trigger] s[i]),
    ensures
        s.filter(p) == Seq::<Seq<char>>::empty(),
    decreases s.len(),
{
    reveal(Seq::filter);
    if s.len() > 0 {
        lemma_filter_drops_all(s.drop_last(), p);
    }
}

/// Moving a block down one place and then up one place gives back the
/// original order.
pub proof fn lemma_shift_down_then_up(order: Seq<Seq<char>>, f: int, k: int)
    requires
        0 <= f,
        1 <= k,
        f + k < order.len(),
    ensures
        spec_shift_up(spec_shift_down(order, f, k), f + 1, k) == order,
{
    let d = spec_shift_down(order, f, k);
    assert(d.len() == order.len());
    assert forall|i: int| 0 <= i < order.len() implies #[trigger] d[i] == (if i < f {
        order[i]
    } else if i == f {
        order[f + k]
    } else if i <= f + k {
        order[i - 1]
    } else {
        order[i]
    }) by {}
    assert(spec_shift_up(d, f + 1, k) =~= order);
}

/// Moving a block up one place and then down one place gives back the
/// original order.
pub proof fn lemma_shift_up_then_down(order: Seq<Seq<char>>, f: int, k: int)
    requires
        0 < f,
        1 <= k,
        f + k <= order.len(),
    ensures
        spec_shift_down(spec_shift_up(order, f, k), f - 1, k) == order,
{
    let u = spec_shift_up(order, f, k);
    assert(u.len() == order.len());
    assert forall|i: int| 0 <= i < order.len() implies #[trigger] u[i] == (if i < f - 1 {
        order[i]
    } else if i < f + k - 1 {
        order[i + 1]
    } else if i == f + k - 1 {
        order[f - 1]
    } else {
        order[i]
    }) by {}
    assert(spec_shift_down(u, f - 1, k) =~= order);
}

/// Shifting a block down moves the block one place down, as it was, and
/// leaves the other entries in their relative order (the entry below the
/// block now stands just above it).
pub proof fn lemma_shift_down_moves_block(order: Seq<Seq<char>>, f: int, k: int)
    requires
        0 <= f,
        1 <= k,
        f + k < order.len(),
    ensures
        ({
            let d = spec_shift_down(order, f, k);
            &&& d.len() == order.len()
            &&& d.subrange(f + 1, f + k + 1) == order.subrange(f, f + k)
            &&& d.subrange(0, f + 1) + d.subrange(f + k + 1, d.len() as int) == order.subrange(0, f) + order.subrange(
                f + k,
                order.len() as int,
            )
        }),
{
    let d = spec_shift_down(order, f, k);
    assert(d.subrange(f + 1, f + k + 1) =~= order.subrange(f, f + k));
    assert(d.subrange(0, f + 1) + d.subrange(f + k + 1, d.len() as int) =~= order.subrange(0, f) + order.subrange(
        f + k,
        order.len() as int,
    ));
}

/// Shifting a block up moves the block one place up, as it was, and leaves
/// the other entries in their relative order (the entry above the block now
/// stands just below it).
pub proof fn lemma_shift_up_moves_block(order: Seq<Seq<char>>, f: int, k: int)
    requires
        0 < f,
        1 <= k,
        f + k <= order.len(),
    ensures
        ({
            let u = spec_shift_up(order, f, k);
            &&& u.len() == order.len()
            &&& u.subrange(f - 1, f + k - 1) == order.subrange(f, f + k)
            &&& u.subrange(0, f - 1) + u.subrange(f + k - 1, u.len() as int) == order.subrange(0, f) + order.subrange(
                f + k,
                order.len() as int,
            )
        }),
{
    let u = spec_shift_up(order, f, k);
    assert(u.subrange(f - 1, f + k - 1) =~= order.subrange(f, f + k));
    assert(u.subrange(0, f - 1) + u.subrange(f + k - 1, u.len() as int) =~= order.subrange(0, f) + order.subrange(
        f + k,
        order.len() as int,
    ));
}

/// Shifting a block down only rearranges the entries.
pub proof fn lemma_shift_down_permutes(order: Seq<Seq<char>>, f: int, k: int)
    ensures
        spec_shift_down(order, f, k).to_multiset() == order.to_multiset(),
{
    broadcast use lemma_multiset_commutative;

    if 0 <= f && 1 <= k && f + k < order.len() {
        let a = order.subrange(0, f);
        let b = order.subrange(f, f + k);
        let c = seq![order[f + k]];
        let d = order.subrange(f + k + 1, order.len() as int);
        assert(order =~= a + b + c + d);
        assert(a + c + b + d == spec_shift_down(order, f, k));
        assert((a + c + b + d).to_multiset() =~= (a + b + c + d).to_multiset());
    }
}

/// Shifting a block up only rearranges the entries.
pub proof fn lemma_shift_up_permutes(order: Seq<Seq<char>>, f: int, k: int)
    ensures
        spec_shift_up(order, f, k).to_multiset() == order.to_multiset(),
{
    broadcast use lemma_multiset_commutative;

    if 0 < f && 1 <= k && f + k <= order.len() {
        let a = order.subrange(0, f - 1);
        let c = seq![order[f - 1]];
        let b = order.subrange(f, f + k);
        let d = order.subrange(f + k, order.len() as int);
        assert(order =~= a + c + b + d);
        assert(a + b + c + d == spec_shift_up(order, f, k));
        assert((a + b + c + d).to_multiset() =~= (a + c + b + d).to_multiset());
    }
}

/// Moving a block to the top or bottom keeps every other entry in its
/// relative order.
pub proof fn lemma_block_to_edge_keeps_others(order: Seq<Seq<char>>, sel: Seq<Seq<char>>, to_top: bool)
    ensures
        spec_without(spec_block_to_edge(order, sel, to_top), sel) == spec_without(order, sel),
{
    broadcast use Seq::filter_distributes_over_add;
    broadcast use vstd::seq_lib::group_filter_ensures;

    let rest = spec_without(order, sel);
    lemma_filter_drops_all(sel, not_in(sel));
    assert forall|i: int| 0 <= i < rest.len() implies #[trigger] not_in(sel)(rest[i]) by {
        order.lemma_filter_pred(not_in(sel), i);
    }
    lemma_filter_keeps_all(rest, not_in(sel));
    if to_top {
        assert((sel + rest).filter(not_in(sel)) == sel.filter(not_in(sel)) + rest.filter(not_in(sel)));
        assert(Seq::<Seq<char>>::empty() + rest =~= rest);
    } else {
        assert((rest + sel).filter(not_in(sel)) == rest.filter(not_in(sel)) + sel.filter(not_in(sel)));
        assert(rest + Seq::<Seq<char>>::empty() =~= rest);
    }
}

/// The view of an optional string.
pub open spec fn opt_str_view(o: Option<String>) -> Option<Seq<char>> {
    match o {
        Some(s) => Some(s@),
        None => None,
    }
}

/// `k` is the first position of `x` in `names`.
pub open spec fn is_first_index(names: Seq<Seq<char>>, x: Seq<char>, k: int) -> bool {
    &&& 0 <= k < names.len()
    &&& names[k] == x
    &&& forall|j: int| 0 <= j < k ==> #[trigger] names[j] != x
}

/// The list after `x` in `names`, if `x` occurs and is not last.
pub open spec fn spec_next_list(names: Seq<Seq<char>>, x: Seq<char>) -> Option<Seq<char>> {
    if exists|k: int| is_first_index(names, x, k) {
        let k = choose|k: int| is_first_index(names, x, k);
        if k + 1 < names.len() {
            Some(names[k + 1])
        } else {
            None
        }
    } else {
        None
    }
}

/// The list before `x` in `names`, if `x` occurs and is not first.
pub open spec fn spec_prev_list(names: Seq<Seq<char>>, x: Seq<char>) -> Option<Seq<char>> {
    if exists|k: int| is_first_index(names, x, k) {
        let k = choose|k: int| is_first_index(names, x, k);
        if k > 0 {
            Some(names[k - 1])
        } else {
            None
        }
    } else {
        None
    }
}

/// The first position of `x` in `names`.
fn first_index_of(names: &Vec<String>, x: &String) -> (r: Option<usize>)
    ensures
        match r {
            Some(k) => is_first_index(names_view(names@), x@, k as int),
            None => !exists|k: int| is_first_index(names_view(names@), x@, k),
        },
{
    let ghost nv = names_view(names@);
    let mut i: usize = 0;
    while i < names.len()
        invariant
            i <= names@.len(),
            nv == names_view(names@),
            forall|j: int| 0 <= j < i ==> #[trigger] nv[j] != x@,
        decreases names@.len() - i,
    {
        if names[i] == *x {
            return Some(i);
        }
        i += 1;
    }
    proof {
        assert forall|k: int| !is_first_index(nv, x@, k) by {
            if 0 <= k < nv.len() {
                assert(nv[k] != x@);
            }
        }
    }
    None
}

/// The list that follows `list` among `names`.
pub fn next_list_for(names: &Vec<String>, list: &String) -> (r: Option<String>)
    ensures
        opt_str_view(r) == spec_next_list(names_view(names@), list@),
{
    let ghost nv = names_view(names@);
    match first_index_of(names, list) {
        Some(k) => {
            proof {
                let c = choose|c: int| is_first_index(nv, list@, c);
                if c < k {
                    assert(nv[c] != list@);
                } else if c > k {
                    assert(nv[k as int] != list@);
                }
            }
            if k < names.len() && k + 1 < names.len() {
                Some(names[k + 1].clone())
            } else {
                None
            }
        },
        None => None,
    }
}

/// The list that precedes `list` among `names`.
pub fn prev_list_for(names: &Vec<String>, list: &String) -> (r: Option<String>)
    ensures
        opt_str_view(r) == spec_prev_list(names_view(names@), list@),
{
    let ghost nv = names_view(names@);
    match first_index_of(names, list) {
        Some(k) => {
            proof {
                let c = choose|c: int| is_first_index(nv, list@, c);
                if c < k {
                    assert(nv[c] != list@);
                } else if c > k {
                    assert(nv[k as int] != list@);
                }
            }
            if k > 0 {
                Some(names[k - 1].clone())
            } else {
                None
            }
        },
        None => None,
    }
}

/// The ids of rows `lo..hi` that are (`inside`) or are not in `list`.
pub fn ids_where_range(rows: &Vec<(String, String)>, lo: usize, hi: usize, list: &String, inside: bool) -> (r: Vec<String>)
    requires
        lo <= hi <= rows@.len(),
    ensures
        names_view(r@) == ids_where(rows_view(rows@).subrange(lo as int, hi as int), list@, inside),
{
    let ghost rv = rows_view(rows@);
    let mut r: Vec<String> = Vec::new();
    let mut i: usize = lo;
    while i < hi
        invariant
            lo <= i <= hi,
            hi <= rows@.len(),
            rv == rows_view(rows@),
            names_view(r@) == ids_where(rv.subrange(lo as int, i as int), list@, inside),
        decreases hi - i,
    {
        proof {
            assert(rv.subrange(lo as int, i + 1).drop_last() =~= rv.subrange(lo as int, i as int));
            assert(rv[i as int] == (rows@[i as int].0@, rows@[i as int].1@));
        }
        if (rows[i].1 == *list) == inside {
            let ghost before = r@;
            r.push(rows[i].0.clone());
            proof {
                assert(names_view(r@) =~= names_view(before).push(rows@[i as int].0@));
            }
        }
        i += 1;
    }
    r
}

/// The ids of rows `lo..hi`.
pub fn ids_range(rows: &Vec<(String, String)>, lo: usize, hi: usize) -> (r: Vec<String>)
    requires
        lo <= hi <= rows@.len(),
    ensures
        names_view(r@) == rows_view(rows@).subrange(lo as int, hi as int).map_values(
            |x: (Seq<char>, Seq<char>)| x.0,
        ),
{
    let ghost rv = rows_view(rows@);
    let mut r: Vec<String> = Vec::new();
    let mut i: usize = lo;
    while i < hi
        invariant
            lo <= i <= hi,
            hi <= rows@.len(),
            rv == rows_view(rows@),
            names_view(r@) == rv.subrange(lo as int, i as int).map_values(|x: (Seq<char>, Seq<char>)| x.0),
        decreases hi - i,
    {
        let ghost before = r@;
        r.push(rows[i].0.clone());
        proof {
            assert(names_view(r@) =~= names_view(before).push(rows@[i as int].0@));
            assert(rv.subrange(lo as int, i + 1).map_values(|x: (Seq<char>, Seq<char>)| x.0) =~= rv.subrange(
                lo as int,
                i as int,
            ).map_values(|x: (Seq<char>, Seq<char>)| x.0).push(rows@[i as int].0@));
        }
        i += 1;
    }
    r
}

/// The first id kept by `ids_where` is that of the first row, when the
/// first row is in the list.
proof fn lemma_ids_where_first(rows: Seq<(Seq<char>, Seq<char>)>, l: Seq<char>)
    requires
        rows.len() > 0,
        rows[0].1 == l,
    ensures
        ids_where(rows, l, true).len() > 0,
        ids_where(rows, l, true)[0] == rows[0].0,
    decreases rows.len(),
{
    if rows.len() > 1 {
        assert(rows.drop_last()[0] == rows[0]);
        lemma_ids_where_first(rows.drop_last(), l);
    } else {
        assert(ids_where(rows.drop_last(), l, true) == Seq::<Seq<char>>::empty());
    }
}

/// What moving the selected block of rows does.
#[derive(Debug, Clone, PartialEq, Eq)]
pub enum BlockMove {
    /// Nothing changes.
    Stay,
    /// Move `ids` to the bottom of `list`, then place them first
    /// (`to_front`) or last in `list`, in the order given.
    Gather { list: String, ids: Vec<String>, to_front: bool },
    /// Store `order` as the order of `list` (when `changed`), then put the
    /// cursor on row `cursor` and a visual anchor on row `anchor`.
    Shift { list: String, order: Vec<String>, changed: bool, cursor: usize, anchor: usize },
}

/// A `BlockMove` seen through the views of its strings.
pub enum BlockMoveView {
    Stay,
    Gather(Seq<char>, Seq<Seq<char>>, bool),
    Shift(Seq<char>, Seq<Seq<char>>, bool, int, int),
}

impl View for BlockMove {
    type V = BlockMoveView;

    open spec fn view(&self) -> BlockMoveView {
        match self {
            BlockMove::Stay => BlockMoveView::Stay,
            BlockMove::Gather { list, ids, to_front } => BlockMoveView::Gather(list@, names_view(ids@), *to_front),
            BlockMove::Shift { list, order, changed, cursor, anchor } => BlockMoveView::Shift(
                list@,
                names_view(order@),
                *changed,
                *cursor as int,
                *anchor as int,
            ),
        }
    }
}

/// Moving rows `start..=end` down one place. A block spanning several lists
/// is first gathered at the top of the last row's list; a block at the
/// bottom of its list crosses to the top of the next list; otherwise the
/// block swaps with the item below it.
pub open spec fn spec_reorder_down(rows: Seq<(Seq<char>, Seq<char>)>, start: int, end: int, names: Seq<Seq<char>>) -> BlockMoveView {
    if rows.len() == 0 {
        BlockMoveView::Stay
    } else {
        let bottom = rows[end].1;
        let sel = row_ids(rows, start, end);
        if rows[start].1 != bottom {
            BlockMoveView::Gather(bottom, ids_where(rows.subrange(start, end + 1), bottom, false), true)
        } else {
            let lids = ids_where(rows, bottom, true);
            if lids.len() > 0 && lids.last() == rows[end].0 {
                match spec_next_list(names, bottom) {
                    Some(t) => BlockMoveView::Gather(t, sel, true),
                    None => BlockMoveView::Stay,
                }
            } else {
                let f = first_hit(lids, sel);
                BlockMoveView::Shift(
                    bottom,
                    spec_shift_down(lids, f, sel.len() as int),
                    f + sel.len() < lids.len(),
                    end + 1,
                    start + 1,
                )
            }
        }
    }
}

/// Moving rows `start..=end` up one place: the mirror image of
/// `spec_reorder_down`, gathering into the first row's list and crossing to
/// the bottom of the previous list.
pub open spec fn spec_reorder_up(rows: Seq<(Seq<char>, Seq<char>)>, start: int, end: int, names: Seq<Seq<char>>) -> BlockMoveView {
    if rows.len() == 0 {
        BlockMoveView::Stay
    } else {
        let top = rows[start].1;
        let sel = row_ids(rows, start, end);
        if top != rows[end].1 {
            BlockMoveView::Gather(top, ids_where(rows.subrange(start, end + 1), top, false), false)
        } else {
            let lids = ids_where(rows, top, true);
            if lids.len() > 0 && lids[0] == rows[start].0 {
                match spec_prev_list(names, top) {
                    Some(t) => BlockMoveView::Gather(t, sel, false),
                    None => BlockMoveView::Stay,
                }
            } else {
                let f = first_hit(lids, sel);
                BlockMoveView::Shift(
                    top,
                    spec_shift_up(lids, f, sel.len() as int),
                    0 < f && f + sel.len() <= lids.len(),
                    end - 1,
                    start - 1,
                )
            }
        }
    }
}

/// Plans moving the selected rows `start..=end` down one place; `names`
/// are the lists in sidebar order.
pub fn reorder_down(rows: &Vec<(String, String)>, start: usize, end: usize, names: &Vec<String>) -> (r: BlockMove)
    requires
        rows@.len() == 0 || start <= end < rows@.len(),
    ensures
        r@ == spec_reorder_down(rows_view(rows@), start as int, end as int, names_view(names@)),
{
    let ghost rv = rows_view(rows@);
    if rows.len() == 0 {
        return BlockMove::Stay;
    }
    proof {
        assert(rv[end as int] == (rows@[end as int].0@, rows@[end as int].1@));
        assert(rv[start as int] == (rows@[start as int].0@, rows@[start as int].1@));
    }
    let bottom = rows[end].1.clone();
    let sel = ids_range(rows, start, end + 1);
    if rows[start].1 != bottom {
        let ids = ids_where_range(rows, start, end + 1, &bottom, false);
        return BlockMove::Gather { list: bottom, ids, to_front: true };
    }
    let lids = ids_where_range(rows, 0, rows.len(), &bottom, true);
    proof {
        assert(rv.subrange(0, rows@.len() as int) =~= rv);
    }
    let at_bottom = lids.len() > 0 && lids[lids.len() - 1] == rows[end].0;
    if at_bottom {
        match next_list_for(names, &bottom) {
            Some(t) => BlockMove::Gather { list: t, ids: sel, to_front: true },
            None => BlockMove::Stay,
        }
    } else {
        let f = first_hit_index(&lids, &sel);
        let k = sel.len();
        let changed = f < lids.len() && k < lids.len() - f;
        let order = shift_down(&lids, f, k);
        BlockMove::Shift { list: bottom, order, changed, cursor: end + 1, anchor: start + 1 }
    }
}

/// Plans moving the selected rows `start..=end` up one place; `names` are
/// the lists in sidebar order.
pub fn reorder_up(rows: &Vec<(String, String)>, start: usize, end: usize, names: &Vec<String>) -> (r: BlockMove)
    requires
        rows@.len() == 0 || start <= end < rows@.len(),
    ensures
        r@ == spec_reorder_up(rows_view(rows@), start as int, end as int, names_view(names@)),
{
    let ghost rv = rows_view(rows@);
    if rows.len() == 0 {
        return BlockMove::Stay;
    }
    proof {
        assert(rv[end as int] == (rows@[end as int].0@, rows@[end as int].1@));
        assert(rv[start as int] == (rows@[start as int].0@, rows@[start as int].1@));
    }
    let top = rows[start].1.clone();
    let sel = ids_range(rows, start, end + 1);
    if rows[end].1 != top {
        let ids = ids_where_range(rows, start, end + 1, &top, false);
        return BlockMove::Gather { list: top, ids, to_front: false };
    }
    let lids = ids_where_range(rows, 0, rows.len(), &top, true);
    proof {
        assert(rv.subrange(0, rows@.len() as int) =~= rv);
    }
    let at_top = lids.len() > 0 && lids[0] == rows[start].0;
    if at_top {
        match prev_list_for(names, &top) {
            Some(t) => BlockMove::Gather { list: t, ids: sel, to_front: false },
            None => BlockMove::Stay,
        }
    } else {
        proof {
            if start == 0 {
                lemma_ids_where_first(rv, top@);
            }
        }
        let f = first_hit_index(&lids, &sel);
        let k = sel.len();
        let changed = 0 < f && f <= lids.len() && k <= lids.len() - f;
        let order = shift_up(&lids, f, k);
        BlockMove::Shift { list: top, order, changed, cursor: end - 1, anchor: start - 1 }
    }
}

/// Moving rows `start..=end` to the top (or bottom) of the first row's list:
/// that list, and its new order.
pub open spec fn spec_move_to_edge(rows: Seq<(Seq<char>, Seq<char>)>, start: int, end: int, to_top: bool) -> Option<(Seq<char>, Seq<Seq<char>>)> {
    if rows.len() == 0 {
        None
    } else {
        let l = rows[start].1;
        Some((l, spec_block_to_edge(ids_where(rows, l, true), row_ids(rows, start, end), to_top)))
    }
}

/// Plans moving the selected rows to the top or bottom of the list of the
/// first selected row; `None` when there are no rows.
pub fn move_to_edge(rows: &Vec<(String, String)>, start: usize, end: usize, to_top: bool) -> (r: Option<(String, Vec<String>)>)
    requires
        rows@.len() == 0 || start <= end < rows@.len(),
    ensures
        match r {
            Some(p) => spec_move_to_edge(rows_view(rows@), start as int, end as int, to_top) == Some(
                (p.0@, names_view(p.1@)),
            ),
            None => spec_move_to_edge(rows_view(rows@), start as int, end as int, to_top) is None,
        },
{
    let ghost rv = rows_view(rows@);
    if rows.len() == 0 {
        return None;
    }
    proof {
        assert(rv[start as int] == (rows@[start as int].0@, rows@[start as int].1@));
        assert(rv.subrange(0, rows@.len() as int) =~= rv);
    }
    let l = rows[start].1.clone();
    let sel = ids_range(rows, start, end + 1);
    let lids = ids_where_range(rows, 0, rows.len(), &l, true);
    let order = block_to_edge(&lids, &sel, to_top);
    Some((l, order))
}

/// The first and last row of `view` (the ids shown, in order) that show one
/// of `ids` (each id at its first row); `None` when none is shown.
pub fn selection_bounds(view: &Vec<String>, ids: &Vec<String>) -> (r: Option<(usize, usize)>)
    ensures
        match r {
            None => forall|p: int| 0 <= p < view@.len() ==> !names_view(ids@).contains(#[trigger] names_view(view@)[p]),
            Some((lo, hi)) => {
                &&& lo <= hi < view@.len()
                &&& names_view(ids@).contains(names_view(view@)[lo as int])
                &&& names_view(ids@).contains(names_view(view@)[hi as int])
                &&& forall|p: int| 0 <= p < view@.len() && names_view(ids@).contains(#[trigger] names_view(view@)[p])
                    ==> lo <= p && (p <= hi || !is_first_index(names_view(view@), names_view(view@)[p], p))
            },
        },
{
    let ghost vv = names_view(view@);
    let ghost iv = names_view(ids@);
    let mut lo: usize = 0;
    let mut hi: usize = 0;
    let mut found = false;
    let mut p: usize = 0;
    while p < view.len()
        invariant
            p <= view@.len(),
            vv == names_view(view@),
            iv == names_view(ids@),
            !found ==> forall|q: int| 0 <= q < p ==> !iv.contains(#[trigger] vv[q]),
            found ==> lo <= hi < p && iv.contains(vv[lo as int]) && iv.contains(vv[hi as int]),
            found ==> forall|q: int| 0 <= q < p && iv.contains(#[trigger] vv[q]) ==> lo <= q && (q <= hi
                || !is_first_index(vv, vv[q], q)),
        decreases view@.len() - p,
    {
        if contains_string(ids, &view[p]) {
            let first = match first_index_of(view, &view[p]) {
                Some(k) => k == p,
                None => false,
            };
            if !found {
                lo = p;
                hi = p;
                found = true;
            } else if first {
                hi = p;
            }
        }
        p += 1;
    }
    if found {
        Some((lo, hi))
    } else {
        None
    }
}

// ---------------------------------------------------------------------------
// What a block move does
// ---------------------------------------------------------------------------

/// No two rows carry the same id.
pub open spec fn distinct_ids(rows: Seq<(Seq<char>, Seq<char>)>) -> bool {
    forall|p: int, q: int| 0 <= p < q < rows.len() ==> #[trigger] rows[p].0 != #[trigger] rows[q].0
}

/// Rows `start..=end` exist and all belong to the list of row `start`.
pub open spec fn block_in_one_list(rows: Seq<(Seq<char>, Seq<char>)>, start: int, end: int) -> bool {
    &&& 0 <= start <= end < rows.len()
    &&& forall|p: int| start <= p <= end ==> #[trigger] rows[p].1 == rows[start].1
}

proof fn lemma_ids_where_add(a: Seq<(Seq<char>, Seq<char>)>, b: Seq<(Seq<char>, Seq<char>)>, l: Seq<char>)
    ensures
        ids_where(a + b, l, true) == ids_where(a, l, true) + ids_where(b, l, true),
    decreases b.len(),
{
    if b.len() == 0 {
        assert(a + b =~= a);
        assert(ids_where(a, l, true) + Seq::<Seq<char>>::empty() =~= ids_where(a, l, true));
    } else {
        assert((a + b).drop_last() =~= a + b.drop_last());
        lemma_ids_where_add(a, b.drop_last(), l);
        assert((a + b).last() == b.last());
        if b.last().1 == l {
            assert(ids_where(a, l, true) + ids_where(b.drop_last(), l, true).push(b.last().0) =~= (ids_where(a, l, true)
                + ids_where(b.drop_last(), l, true)).push(b.last().0));
        }
    }
}

proof fn lemma_ids_where_all(rows: Seq<(Seq<char>, Seq<char>)>, l: Seq<char>)
    requires
        forall|p: int| 0 <= p < rows.len() ==> #[trigger] rows[p].1 == l,
    ensures
        ids_where(rows, l, true) == rows.map_values(|r: (Seq<char>, Seq<char>)| r.0),
    decreases rows.len(),
{
    if rows.len() > 0 {
        let d = rows.drop_last();
        assert forall|p: int| 0 <= p < d.len() implies #[trigger] d[p].1 == l by {
            assert(d[p] == rows[p]);
        }
        lemma_ids_where_all(d, l);
        assert(rows[rows.len() - 1].1 == l);
        assert(rows.map_values(|r: (Seq<char>, Seq<char>)| r.0) =~= d.map_values(|r: (Seq<char>, Seq<char>)| r.0).push(
            rows.last().0,
        ));
    }
}

/// Every id `ids_where` keeps is the id of one of the rows.
proof fn lemma_ids_where_from(rows: Seq<(Seq<char>, Seq<char>)>, l: Seq<char>)
    ensures
        forall|i: int|
            0 <= i < ids_where(rows, l, true).len() ==> exists|p: int|
                0 <= p < rows.len() && rows[p].0 == #[trigger] ids_where(rows, l, true)[i],
    decreases rows.len(),
{
    if rows.len() > 0 {
        let d = rows.drop_last();
        lemma_ids_where_from(d, l);
        let ids = ids_where(rows, l, true);
        let prev = ids_where(d, l, true);
        assert forall|i: int| 0 <= i < ids.len() implies exists|p: int| 0 <= p < rows.len() && rows[p].0 == #[trigger] ids[i] by {
            if i < prev.len() {
                assert(ids[i] == prev[i]);
                let p = choose|p: int| 0 <= p < d.len() && d[p].0 == #[trigger] prev[i];
                assert(rows[p] == d[p]);
            } else {
                assert(rows[rows.len() - 1].0 == ids[i]);
            }
        }
    }
}

/// A row of list `l` gives `ids_where` an entry.
proof fn lemma_ids_where_nonempty(rows: Seq<(Seq<char>, Seq<char>)>, l: Seq<char>, q: int)
    requires
        0 <= q < rows.len(),
        rows[q].1 == l,
    ensures
        ids_where(rows, l, true).len() > 0,
    decreases rows.len(),
{
    if q < rows.len() - 1 {
        assert(rows.drop_last()[q] == rows[q]);
        lemma_ids_where_nonempty(rows.drop_last(), l, q);
    }
}

proof fn lemma_first_hit_is(order: Seq<Seq<char>>, sel: Seq<Seq<char>>, k: int)
    requires
        is_first_hit(order, sel, k),
    ensures
        first_hit(order, sel) == k,
{
    let c = choose|c: int| is_first_hit(order, sel, c);
    assert(is_first_hit(order, sel, c));
    if c < k {
        assert(!sel.contains(order[c]));
    }
    if k < c {
        assert(!sel.contains(order[k]));
    }
}

/// The ids of `list` split around the block `start..=end`: those before
/// it, the block's own ids, those after it.
proof fn lemma_list_ids_split(rows: Seq<(Seq<char>, Seq<char>)>, start: int, end: int)
    requires
        block_in_one_list(rows, start, end),
        distinct_ids(rows),
    ensures
        ({
            let l = rows[start].1;
            let lids = ids_where(rows, l, true);
            let before = ids_where(rows.subrange(0, start), l, true);
            let after = ids_where(rows.subrange(end + 1, rows.len() as int), l, true);
            let sel = row_ids(rows, start, end);
            &&& lids == before + sel + after
            &&& sel.len() == end - start + 1
            &&& forall|i: int| 0 <= i < before.len() ==> !sel.contains(#[trigger] before[i])
            &&& forall|i: int| 0 <= i < after.len() ==> !sel.contains(#[trigger] after[i])
        }),
{
    let l = rows[start].1;
    let a = rows.subrange(0, start);
    let b = rows.subrange(start, end + 1);
    let c = rows.subrange(end + 1, rows.len() as int);
    assert(rows =~= a + b + c);
    lemma_ids_where_add(a + b, c, l);
    lemma_ids_where_add(a, b, l);
    assert forall|p: int| 0 <= p < b.len() implies #[trigger] b[p].1 == l by {
        assert(b[p] == rows[start + p]);
    }
    lemma_ids_where_all(b, l);
    let sel = row_ids(rows, start, end);
    assert(ids_where(b, l, true) == sel);
    lemma_ids_where_from(a, l);
    lemma_ids_where_from(c, l);
    let before = ids_where(a, l, true);
    let after = ids_where(c, l, true);
    assert forall|i: int| 0 <= i < before.len() implies !sel.contains(#[trigger] before[i]) by {
        let p = choose|p: int| 0 <= p < a.len() && a[p].0 == #[trigger] before[i];
        if sel.contains(before[i]) {
            let j = choose|j: int| 0 <= j < sel.len() && sel[j] == before[i];
            assert(sel[j] == rows[start + j].0);
            assert(a[p] == rows[p]);
            assert(rows[p].0 != rows[start + j].0);
        }
    }
    assert forall|i: int| 0 <= i < after.len() implies !sel.contains(#[trigger] after[i]) by {
        let p = choose|p: int| 0 <= p < c.len() && c[p].0 == #[trigger] after[i];
        if sel.contains(after[i]) {
            let j = choose|j: int| 0 <= j < sel.len() && sel[j] == after[i];
            assert(sel[j] == rows[start + j].0);
            assert(c[p] == rows[end + 1 + p]);
            assert(rows[start + j].0 != rows[end + 1 + p].0);
        }
    }
}

/// Moving a block down inside its list (`J`): when the selected rows all
/// belong to one list, the ids are distinct, and some row of that list
/// follows the block, the plan reorders that list by moving the whole
/// block, in its order, one place down, with the id that stood just below
/// it now just above it; the rest of the list keeps its order, and the
/// cursor and anchor move down one row.
pub proof fn lemma_reorder_down_shifts_block(
    rows: Seq<(Seq<char>, Seq<char>)>,
    start: int,
    end: int,
    names: Seq<Seq<char>>,
)
    requires
        block_in_one_list(rows, start, end),
        distinct_ids(rows),
        exists|q: int| end < q < rows.len() && #[trigger] rows[q].1 == rows[start].1,
    ensures
        ({
            let l = rows[start].1;
            let lids = ids_where(rows, l, true);
            let sel = row_ids(rows, start, end);
            let k = end - start + 1;
            spec_reorder_down(rows, start, end, names) matches BlockMoveView::Shift(list, order, changed, cursor, anchor)
                && list == l && changed && cursor == end + 1 && anchor == start + 1 && exists|f: int|
                0 <= f && f + k < lids.len() && #[trigger] lids.subrange(f, f + k) == sel && order == lids.subrange(0, f)
                    + seq![lids[f + k]] + sel + lids.subrange(f + k + 1, lids.len() as int)
        }),
{
    let l = rows[start].1;
    lemma_list_ids_split(rows, start, end);
    let lids = ids_where(rows, l, true);
    let sel = row_ids(rows, start, end);
    let k = end - start + 1;
    let a = rows.subrange(0, start);
    let c = rows.subrange(end + 1, rows.len() as int);
    let before = ids_where(a, l, true);
    let after = ids_where(c, l, true);
    let q = choose|q: int| end < q < rows.len() && #[trigger] rows[q].1 == rows[start].1;
    assert(c[q - end - 1] == rows[q]);
    lemma_ids_where_nonempty(c, l, q - end - 1);
    let f = before.len() as int;
    assert(lids.subrange(f, f + k) =~= sel);
    assert(rows[end].1 == l);
    // the block is not at the bottom of its list
    lemma_ids_where_from(c, l);
    assert(lids.last() == after.last());
    let p = choose|p: int| 0 <= p < c.len() && c[p].0 == #[trigger] after[after.len() - 1];
    assert(c[p] == rows[end + 1 + p]);
    assert(rows[end].0 != rows[end + 1 + p].0);
    // the first selected id in the list is at `f`
    assert(sel[0] == lids[f]);
    assert(sel.contains(lids[f]));
    assert forall|j: int| 0 <= j < f implies !sel.contains(#[trigger] lids[j]) by {
        assert(lids[j] == before[j]);
    }
    assert(is_first_hit(lids, sel, f));
    lemma_first_hit_is(lids, sel, f);
    assert(lids.subrange(f, f + k) == sel);
}

/// Moving a block up inside its list (`K`): when the selected rows all
/// belong to one list, the ids are distinct, and some row of that list
/// precedes the block, the plan reorders that list by moving the whole
/// block, in its order, one place up, with the id that stood just above it
/// now just below it; the rest keeps its order, and the cursor and anchor
/// move up one row.
pub proof fn lemma_reorder_up_shifts_block(
    rows: Seq<(Seq<char>, Seq<char>)>,
    start: int,
    end: int,
    names: Seq<Seq<char>>,
)
    requires
        block_in_one_list(rows, start, end),
        distinct_ids(rows),
        exists|q: int| 0 <= q < start && #[trigger] rows[q].1 == rows[start].1,
    ensures
        ({
            let l = rows[start].1;
            let lids = ids_where(rows, l, true);
            let sel = row_ids(rows, start, end);
            let k = end - start + 1;
            spec_reorder_up(rows, start, end, names) matches BlockMoveView::Shift(list, order, changed, cursor, anchor)
                && list == l && changed && cursor == end - 1 && anchor == start - 1 && exists|f: int|
                1 <= f && f + k <= lids.len() && #[trigger] lids.subrange(f, f + k) == sel && order == lids.subrange(
                    0,
                    f - 1,
                ) + sel + seq![lids[f - 1]] + lids.subrange(f + k, lids.len() as int)
        }),
{
    let l = rows[start].1;
    lemma_list_ids_split(rows, start, end);
    let lids = ids_where(rows, l, true);
    let sel = row_ids(rows, start, end);
    let k = end - start + 1;
    let a = rows.subrange(0, start);
    let before = ids_where(a, l, true);
    let q = choose|q: int| 0 <= q < start && #[trigger] rows[q].1 == rows[start].1;
    assert(a[q] == rows[q]);
    lemma_ids_where_nonempty(a, l, q);
    let f = before.len() as int;
    assert(lids.subrange(f, f + k) =~= sel);
    assert(rows[end].1 == l);
    // the block is not at the top of its list
    lemma_ids_where_from(a, l);
    assert(lids[0] == before[0]);
    let p = choose|p: int| 0 <= p < a.len() && a[p].0 == #[trigger] before[0];
    assert(a[p] == rows[p]);
    assert(rows[p].0 != rows[start].0);
    // the first selected id in the list is at `f`
    assert(sel[0] == lids[f]);
    assert(sel.contains(lids[f]));
    assert forall|j: int| 0 <= j < f implies !sel.contains(#[trigger] lids[j]) by {
        assert(lids[j] == before[j]);
    }
    assert(is_first_hit(lids, sel, f));
    lemma_first_hit_is(lids, sel, f);
    assert(lids.subrange(f, f + k) == sel);
}

/// A row's id is kept by `ids_where` exactly when the row is (or, for
/// `!inside`, is not) in `l`.
proof fn lemma_ids_where_members(rows: Seq<(Seq<char>, Seq<char>)>, l: Seq<char>, inside: bool)
    ensures
        forall|i: int|
            0 <= i < ids_where(rows, l, inside).len() ==> exists|p: int|
                0 <= p < rows.len() && rows[p].0 == #[trigger] ids_where(rows, l, inside)[i] && (rows[p].1 == l)
                    == inside,
        forall|p: int|
            0 <= p < rows.len() && (#[trigger] rows[p].1 == l) == inside ==> ids_where(rows, l, inside).contains(
                rows[p].0,
            ),
    decreases rows.len(),
{
    if rows.len() > 0 {
        let d = rows.drop_last();
        lemma_ids_where_members(d, l, inside);
        let ids = ids_where(rows, l, inside);
        let prev = ids_where(d, l, inside);
        assert forall|i: int| 0 <= i < ids.len() implies exists|p: int|
            0 <= p < rows.len() && rows[p].0 == #[trigger] ids[i] && (rows[p].1 == l) == inside by {
            if i < prev.len() {
                assert(ids[i] == prev[i]);
                let p = choose|p: int| 0 <= p < d.len() && d[p].0 == #[trigger] prev[i] && (d[p].1 == l) == inside;
                assert(rows[p] == d[p]);
            } else {
                assert(rows[rows.len() - 1].0 == ids[i]);
            }
        }
        assert forall|p: int| 0 <= p < rows.len() && (#[trigger] rows[p].1 == l) == inside implies ids.contains(
            rows[p].0,
        ) by {
            if p < rows.len() - 1 {
                assert(d[p] == rows[p]);
                assert(prev.contains(d[p].0));
                let i = choose|i: int| 0 <= i < prev.len() && prev[i] == d[p].0;
                assert(ids[i] == prev[i]);
            } else {
                assert(ids[ids.len() - 1] == rows[p].0);
            }
        }
    }
}

/// Without a row of list `l`, `ids_where` keeps nothing.
proof fn lemma_ids_where_none(rows: Seq<(Seq<char>, Seq<char>)>, l: Seq<char>)
    requires
        forall|p: int| 0 <= p < rows.len() ==> #[trigger] rows[p].1 != l,
    ensures
        ids_where(rows, l, true).len() == 0,
    decreases rows.len(),
{
    if rows.len() > 0 {
        let d = rows.drop_last();
        assert forall|p: int| 0 <= p < d.len() implies #[trigger] d[p].1 != l by {
            assert(d[p] == rows[p]);
        }
        lemma_ids_where_none(d, l);
        assert(rows[rows.len() - 1].1 != l);
    }
}

/// Moving a block down at the bottom of its list: when the selected rows
/// all belong to one list, the ids are distinct, and no row of that list
/// follows the block, the whole selection is carried to the top of the
/// next list in sidebar order, or nothing happens when the list is the
/// last one.
pub proof fn lemma_reorder_down_crosses_list(
    rows: Seq<(Seq<char>, Seq<char>)>,
    start: int,
    end: int,
    names: Seq<Seq<char>>,
)
    requires
        block_in_one_list(rows, start, end),
        distinct_ids(rows),
        forall|q: int| end < q < rows.len() ==> #[trigger] rows[q].1 != rows[start].1,
    ensures
        match spec_next_list(names, rows[start].1) {
            Some(t) => spec_reorder_down(rows, start, end, names) == BlockMoveView::Gather(
                t,
                row_ids(rows, start, end),
                true,
            ),
            None => spec_reorder_down(rows, start, end, names) == BlockMoveView::Stay,
        },
{
    let l = rows[start].1;
    lemma_list_ids_split(rows, start, end);
    let c = rows.subrange(end + 1, rows.len() as int);
    assert forall|p: int| 0 <= p < c.len() implies #[trigger] c[p].1 != l by {
        assert(c[p] == rows[end + 1 + p]);
    }
    lemma_ids_where_none(c, l);
    let lids = ids_where(rows, l, true);
    let sel = row_ids(rows, start, end);
    assert(rows[end].1 == l);
    assert(lids.last() == sel.last());
    assert(sel.last() == rows[end].0);
}

/// Moving a block up at the top of its list: when the selected rows all
/// belong to one list, the ids are distinct, and no row of that list
/// precedes the block, the whole selection is carried to the bottom of the
/// previous list in sidebar order, or nothing happens when the list is the
/// first one.
pub proof fn lemma_reorder_up_crosses_list(
    rows: Seq<(Seq<char>, Seq<char>)>,
    start: int,
    end: int,
    names: Seq<Seq<char>>,
)
    requires
        block_in_one_list(rows, start, end),
        distinct_ids(rows),
        forall|q: int| 0 <= q < start ==> #[trigger] rows[q].1 != rows[start].1,
    ensures
        match spec_prev_list(names, rows[start].1) {
            Some(t) => spec_reorder_up(rows, start, end, names) == BlockMoveView::Gather(
                t,
                row_ids(rows, start, end),
                false,
            ),
            None => spec_reorder_up(rows, start, end, names) == BlockMoveView::Stay,
        },
{
    let l = rows[start].1;
    lemma_list_ids_split(rows, start, end);
    let a = rows.subrange(0, start);
    assert forall|p: int| 0 <= p < a.len() implies #[trigger] a[p].1 != l by {
        assert(a[p] == rows[p]);
    }
    lemma_ids_where_none(a, l);
    let lids = ids_where(rows, l, true);
    let sel = row_ids(rows, start, end);
    assert(rows[end].1 == l);
    assert(lids[0] == sel[0]);
    assert(sel[0] == rows[start].0);
}

/// A selection spanning lists is gathered first: moving down gathers it at
/// the top of the last selected row's list, moving up at the bottom of the
/// first selected row's list. What is gathered is exactly the selected ids
/// not yet in that list.
pub proof fn lemma_reorder_gathers_spanning_block(
    rows: Seq<(Seq<char>, Seq<char>)>,
    start: int,
    end: int,
    names: Seq<Seq<char>>,
)
    requires
        0 <= start <= end < rows.len(),
        rows[start].1 != rows[end].1,
    ensures
        spec_reorder_down(rows, start, end, names) matches BlockMoveView::Gather(list, ids, to_front) && list
            == rows[end].1 && to_front && (forall|i: int|
            0 <= i < ids.len() ==> exists|p: int|
                start <= p <= end && rows[p].0 == #[trigger] ids[i] && rows[p].1 != rows[end].1) && (forall|p: int|
            start <= p <= end && #[trigger] rows[p].1 != rows[end].1 ==> ids.contains(rows[p].0)),
        spec_reorder_up(rows, start, end, names) matches BlockMoveView::Gather(list, ids, to_front) && list
            == rows[start].1 && !to_front && (forall|i: int|
            0 <= i < ids.len() ==> exists|p: int|
                start <= p <= end && rows[p].0 == #[trigger] ids[i] && rows[p].1 != rows[start].1) && (forall|p: int|
            start <= p <= end && #[trigger] rows[p].1 != rows[start].1 ==> ids.contains(rows[p].0)),
{
    let b = rows.subrange(start, end + 1);
    lemma_ids_where_members(b, rows[end].1, false);
    lemma_ids_where_members(b, rows[start].1, false);
    let dn = ids_where(b, rows[end].1, false);
    let up = ids_where(b, rows[start].1, false);
    assert forall|i: int| 0 <= i < dn.len() implies exists|p: int|
        start <= p <= end && rows[p].0 == #[trigger] dn[i] && rows[p].1 != rows[end].1 by {
        let x = choose|x: int| 0 <= x < b.len() && b[x].0 == #[trigger] dn[i] && (b[x].1 == rows[end].1) == false;
        assert(b[x] == rows[start + x]);
    }
    assert forall|p: int| start <= p <= end && #[trigger] rows[p].1 != rows[end].1 implies dn.contains(rows[p].0) by {
        assert(b[p - start] == rows[p]);
    }
    assert forall|i: int| 0 <= i < up.len() implies exists|p: int|
        start <= p <= end && rows[p].0 == #[trigger] up[i] && rows[p].1 != rows[start].1 by {
        let x = choose|x: int| 0 <= x < b.len() && b[x].0 == #[trigger] up[i] && (b[x].1 == rows[start].1) == false;
        assert(b[x] == rows[start + x]);
    }
    assert forall|p: int| start <= p <= end && #[trigger] rows[p].1 != rows[start].1 implies up.contains(rows[p].0) by {
        assert(b[p - start] == rows[p]);
    }
}

} // verus!
