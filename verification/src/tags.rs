//! Tag sets: the ordering of strings, sorting, de-duplication and the set
//! operations behind tag editing and tag filters.
//!
//! Strings are ordered as `String`'s `Ord` orders them: lexicographically by
//! character (UTF-8 bytes compare in the same order as code points).
use vstd::prelude::*;
use crate::reorder::{contains_string, not_in, spec_without, without};
use crate::tui_state::names_view;

verus! {

/// `a` sorts strictly before `b`.
pub open spec fn str_lt(a: Seq<char>, b: Seq<char>) -> bool
    decreases a.len(),
{
    if a.len() == 0 {
        b.len() > 0
    } else if b.len() == 0 {
        false
    } else if a[0] != b[0] {
        a[0] < b[0]
    } else {
        str_lt(a.drop_first(), b.drop_first())
    }
}

/// Nothing sorts before itself.
pub proof fn lemma_str_lt_irreflexive(a: Seq<char>)
    ensures
        !str_lt(a, a),
    decreases a.len(),
{
    if a.len() > 0 {
        lemma_str_lt_irreflexive(a.drop_first());
    }
}

/// Two different strings are ordered one way or the other.
pub proof fn lemma_str_lt_total(a: Seq<char>, b: Seq<char>)
    ensures
        a == b || str_lt(a, b) || str_lt(b, a),
    decreases a.len(),
{
    if a.len() > 0 && b.len() > 0 && a[0] == b[0] {
        lemma_str_lt_total(a.drop_first(), b.drop_first());
        if a.drop_first() == b.drop_first() {
            assert(a =~= seq![a[0]] + a.drop_first());
            assert(b =~= seq![b[0]] + b.drop_first());
        }
    } else if a.len() == 0 && b.len() == 0 {
        assert(a =~= b);
    }
}

/// The order is transitive.
pub proof fn lemma_str_lt_transitive(a: Seq<char>, b: Seq<char>, c: Seq<char>)
    requires
        str_lt(a, b),
        str_lt(b, c),
    ensures
        str_lt(a, c),
    decreases a.len(),
{
    if a.len() > 0 && b.len() > 0 && c.len() > 0 && a[0] == b[0] && b[0] == c[0] {
        lemma_str_lt_transitive(a.drop_first(), b.drop_first(), c.drop_first());
    }
}

/// The order is asymmetric.
pub proof fn lemma_str_lt_asymmetric(a: Seq<char>, b: Seq<char>)
    requires
        str_lt(a, b),
    ensures
        !str_lt(b, a),
{
    if str_lt(b, a) {
        lemma_str_lt_transitive(a, b, a);
        lemma_str_lt_irreflexive(a);
    }
}

/// After a common prefix of length `i`, the order is that of the rests.
proof fn lemma_str_lt_skip(a: Seq<char>, b: Seq<char>, i: int)
    requires
        0 <= i <= a.len(),
        i <= b.len(),
        a.subrange(0, i) == b.subrange(0, i),
    ensures
        str_lt(a, b) == str_lt(a.subrange(i, a.len() as int), b.subrange(i, b.len() as int)),
    decreases i,
{
    if i > 0 {
        assert(a[0] == a.subrange(0, i)[0]);
        assert(b[0] == b.subrange(0, i)[0]);
        assert(a.drop_first().subrange(0, i - 1) =~= b.drop_first().subrange(0, i - 1)) by {
            assert forall|k: int| 0 <= k < i - 1 implies a.drop_first()[k] == b.drop_first()[k] by {
                assert(a[k + 1] == a.subrange(0, i)[k + 1]);
                assert(b[k + 1] == b.subrange(0, i)[k + 1]);
            }
        }
        lemma_str_lt_skip(a.drop_first(), b.drop_first(), i - 1);
        assert(a.drop_first().subrange(i - 1, a.len() - 1) =~= a.subrange(i, a.len() as int));
        assert(b.drop_first().subrange(i - 1, b.len() - 1) =~= b.subrange(i, b.len() as int));
    } else {
        assert(a.subrange(0, a.len() as int) =~= a);
        assert(b.subrange(0, b.len() as int) =~= b);
    }
}

/// Whether `a` sorts strictly before `b`.
pub fn str_less(a: &String, b: &String) -> (r: bool)
    ensures
        r == str_lt(a@, b@),
{
    let ca = crate::text::chars_of(a.as_str());
    let cb = crate::text::chars_of(b.as_str());
    let mut i: usize = 0;
    while i < ca.len() && i < cb.len() && ca[i] == cb[i]
        invariant
            i <= ca@.len(),
            i <= cb@.len(),
            ca@ == a@,
            cb@ == b@,
            ca@.subrange(0, i as int) == cb@.subrange(0, i as int),
        decreases ca@.len() - i,
    {
        proof {
            assert(ca@.subrange(0, i + 1) =~= ca@.subrange(0, i as int).push(ca@[i as int]));
            assert(cb@.subrange(0, i + 1) =~= cb@.subrange(0, i as int).push(cb@[i as int]));
        }
        i += 1;
    }
    proof {
        lemma_str_lt_skip(a@, b@, i as int);
    }
    if i == ca.len() {
        i < cb.len()
    } else if i == cb.len() {
        false
    } else {
        ca[i] < cb[i]
    }
}

/// Each entry sorts no later than the next ones (duplicates allowed).
pub open spec fn sorted_le(s: Seq<Seq<char>>) -> bool {
    forall|i: int, j: int| 0 <= i < j < s.len() ==> !str_lt(#[trigger] s[j], #[trigger] s[i])
}

/// Each entry sorts strictly before the next ones (no duplicates).
pub open spec fn sorted_lt(s: Seq<Seq<char>>) -> bool {
    forall|i: int, j: int| 0 <= i < j < s.len() ==> str_lt(#[trigger] s[i], #[trigger] s[j])
}

/// `v` sorted, duplicates kept.
pub fn sort_strings(v: &Vec<String>) -> (r: Vec<String>)
    ensures
        sorted_le(names_view(r@)),
        names_view(r@).to_multiset() == names_view(v@).to_multiset(),
{
    broadcast use vstd::seq_lib::group_to_multiset_ensures;

    let ghost vv = names_view(v@);
    let mut r: Vec<String> = Vec::new();
    let mut i: usize = 0;
    while i < v.len()
        invariant
            i <= v@.len(),
            vv == names_view(v@),
            sorted_le(names_view(r@)),
            names_view(r@).to_multiset() == vv.take(i as int).to_multiset(),
        decreases v@.len() - i,
    {
        let x = v[i].clone();
        let mut p: usize = 0;
        while p < r.len() && !str_less(&x, &r[p])
            invariant
                p <= r@.len(),
                forall|k: int| 0 <= k < p ==> !str_lt(x@, #[trigger] names_view(r@)[k]),
            decreases r@.len() - p,
        {
            p += 1;
        }
        let ghost before = names_view(r@);
        r.insert(p, x.clone());
        proof {
            let after = names_view(r@);
            assert(after =~= before.insert(p as int, x@));
            assert(vv.take(i + 1) =~= vv.take(i as int).push(vv[i as int]));
            vstd::seq_lib::to_multiset_insert(before, p as int, x@);
            vstd::seq_lib::to_multiset_build(vv.take(i as int), vv[i as int]);
            assert forall|a: int, b: int| 0 <= a < b < after.len() implies !str_lt(
                #[trigger] after[b],
                #[trigger] after[a],
            ) by {
                if a < p && b == p {
                } else if a == p && b > p {
                    // x < before[p] <= before[b - 1]
                    assert(str_lt(x@, before[p as int]));
                    if b - 1 > p {
                        assert(!str_lt(before[b - 1], before[p as int]));
                        lemma_str_lt_total(before[p as int], before[b - 1]);
                        if before[p as int] != before[b - 1] {
                            lemma_str_lt_transitive(x@, before[p as int], before[b - 1]);
                        }
                    }
                    lemma_str_lt_asymmetric(x@, after[b]);
                } else if a < p && b > p {
                    assert(after[a] == before[a]);
                    assert(after[b] == before[b - 1]);
                } else if b < p {
                    assert(after[a] == before[a]);
                    assert(after[b] == before[b]);
                } else {
                    assert(after[a] == before[a - 1]);
                    assert(after[b] == before[b - 1]);
                }
            }
        }
        i += 1;
    }
    proof {
        assert(vv.take(v@.len() as int) =~= vv);
    }
    r
}

/// A sorted sequence without its repeated entries.
pub fn dedup_sorted(v: &Vec<String>) -> (r: Vec<String>)
    requires
        sorted_le(names_view(v@)),
    ensures
        sorted_lt(names_view(r@)),
        names_view(r@).to_set() == names_view(v@).to_set(),
{
    let ghost vv = names_view(v@);
    let mut r: Vec<String> = Vec::new();
    let mut i: usize = 0;
    while i < v.len()
        invariant
            i <= v@.len(),
            vv == names_view(v@),
            sorted_le(vv),
            sorted_lt(names_view(r@)),
            names_view(r@).to_set() == vv.take(i as int).to_set(),
            i > 0 ==> names_view(r@).len() > 0 && names_view(r@).last() == vv[i - 1],
            i == 0 ==> r@.len() == 0,
        decreases v@.len() - i,
    {
        let ghost before = names_view(r@);
        let fresh = r.len() == 0 || r[r.len() - 1] != v[i];
        if fresh {
            r.push(v[i].clone());
        }
        proof {
            let after = names_view(r@);
            assert(vv.take(i + 1) =~= vv.take(i as int).push(vv[i as int]));
            vv.take(i as int).lemma_push_to_set_commute(vv[i as int]);
            if fresh {
                assert(after =~= before.push(vv[i as int]));
                before.lemma_push_to_set_commute(vv[i as int]);
                if i > 0 {
                    assert(!str_lt(vv[i as int], vv[i - 1]));
                    lemma_str_lt_total(vv[i - 1], vv[i as int]);
                    assert forall|a: int, b: int| 0 <= a < b < after.len() implies str_lt(
                        #[trigger] after[a],
                        #[trigger] after[b],
                    ) by {
                        if b == after.len() - 1 && a < b - 1 {
                            assert(str_lt(before[a], before.last()));
                            lemma_str_lt_transitive(before[a], before.last(), vv[i as int]);
                        }
                    }
                }
            } else {
                assert(before.last() == vv[i as int]);
                assert(before.to_set().contains(vv[i as int])) by {
                    assert(before[before.len() - 1] == vv[i as int]);
                }
                assert(before.to_set().insert(vv[i as int]) =~= before.to_set());
            }
        }
        i += 1;
    }
    proof {
        assert(vv.take(v@.len() as int) =~= vv);
    }
    r
}

/// `v` sorted with duplicates removed.
pub fn sort_dedup(v: &Vec<String>) -> (r: Vec<String>)
    ensures
        sorted_lt(names_view(r@)),
        names_view(r@).to_set() == names_view(v@).to_set(),
{
    let s = sort_strings(v);
    proof {
        let a = names_view(s@);
        let b = names_view(v@);
        assert forall|x: Seq<char>| a.to_set().contains(x) <==> b.to_set().contains(x) by {
            broadcast use vstd::seq_lib::group_to_multiset_ensures;

            assert(a.contains(x) <==> a.to_multiset().count(x) > 0);
            assert(b.contains(x) <==> b.to_multiset().count(x) > 0);
        }
        assert(a.to_set() =~= b.to_set());
    }
    dedup_sorted(&s)
}

/// Strictly sorted sequences with the same entries are equal.
pub proof fn lemma_sorted_lt_unique(a: Seq<Seq<char>>, b: Seq<Seq<char>>)
    requires
        sorted_lt(a),
        sorted_lt(b),
        a.to_set() == b.to_set(),
    ensures
        a == b,
    decreases a.len() + b.len(),
{
    if a.len() > 0 && b.len() > 0 {
        // The first entries are both the least element of the common set.
        assert(a.to_set().contains(a[0]));
        assert(b.to_set().contains(a[0]));
        assert(b.to_set().contains(b[0]));
        assert(a.to_set().contains(b[0]));
        let ia = choose|k: int| 0 <= k < a.len() && a[k] == b[0];
        let ib = choose|k: int| 0 <= k < b.len() && b[k] == a[0];
        if a[0] != b[0] {
            assert(ia > 0 && ib > 0);
            assert(str_lt(a[0], a[ia]));
            assert(str_lt(b[0], b[ib]));
            lemma_str_lt_asymmetric(a[0], b[0]);
        }
        let ra = a.drop_first();
        let rb = b.drop_first();
        assert forall|x: Seq<char>| ra.to_set().contains(x) <==> rb.to_set().contains(x) by {
            if ra.to_set().contains(x) {
                let k = choose|k: int| 0 <= k < ra.len() && ra[k] == x;
                assert(a[k + 1] == x);
                assert(str_lt(a[0], x));
                lemma_str_lt_irreflexive(x);
                assert(b.to_set().contains(x));
                let j = choose|j: int| 0 <= j < b.len() && b[j] == x;
                assert(j != 0);
                assert(rb[j - 1] == x);
            }
            if rb.to_set().contains(x) {
                let k = choose|k: int| 0 <= k < rb.len() && rb[k] == x;
                assert(b[k + 1] == x);
                assert(str_lt(b[0], x));
                lemma_str_lt_irreflexive(x);
                assert(a.to_set().contains(x));
                let j = choose|j: int| 0 <= j < a.len() && a[j] == x;
                assert(j != 0);
                assert(ra[j - 1] == x);
            }
        }
        assert(ra.to_set() =~= rb.to_set());
        lemma_sorted_lt_unique(ra, rb);
        assert(a =~= seq![a[0]] + ra);
        assert(b =~= seq![b[0]] + rb);
    } else if a.len() > 0 {
        assert(a.to_set().contains(a[0]));
    } else if b.len() > 0 {
        assert(b.to_set().contains(b[0]));
    } else {
        assert(a =~= b);
    }
}

/// The tags after an edit: those of `existing` not removed, plus those
/// added.
pub open spec fn merged_set(existing: Seq<Seq<char>>, to_add: Seq<Seq<char>>, to_remove: Seq<Seq<char>>) -> Set<Seq<char>> {
    existing.to_set().difference(to_remove.to_set()).union(to_add.to_set())
}

/// The entries of `s` whose set is `s.to_set()` with nothing dropped: a
/// helper stating membership of `spec_without`.
proof fn lemma_without_to_set(order: Seq<Seq<char>>, sel: Seq<Seq<char>>)
    ensures
        spec_without(order, sel).to_set() == order.to_set().difference(sel.to_set()),
{
    broadcast use vstd::seq_lib::group_filter_ensures;

    let w = spec_without(order, sel);
    assert forall|x: Seq<char>| w.to_set().contains(x) <==> order.to_set().difference(sel.to_set()).contains(x) by {
        if w.to_set().contains(x) {
            let k = choose|k: int| 0 <= k < w.len() && w[k] == x;
            order.lemma_filter_pred(not_in(sel), k);
            order.lemma_filter_contains_rev(not_in(sel), x);
        }
        if order.to_set().difference(sel.to_set()).contains(x) {
            let k = choose|k: int| 0 <= k < order.len() && order[k] == x;
            order.lemma_filter_contains(not_in(sel), k);
        }
    }
    assert(w.to_set() =~= order.to_set().difference(sel.to_set()));
}

/// The tags of an item or list after adding `to_add` and removing
/// `to_remove`, sorted and without duplicates.
pub fn merge_tags(existing: &Vec<String>, to_add: &Vec<String>, to_remove: &Vec<String>) -> (r: Vec<String>)
    ensures
        sorted_lt(names_view(r@)),
        names_view(r@).to_set() == merged_set(names_view(existing@), names_view(to_add@), names_view(to_remove@)),
{
    let ghost ev = names_view(existing@);
    let ghost av = names_view(to_add@);
    let ghost rv = names_view(to_remove@);
    let mut combined = without(existing, to_remove);
    proof {
        lemma_without_to_set(ev, rv);
    }
    let mut i: usize = 0;
    while i < to_add.len()
        invariant
            i <= to_add@.len(),
            av == names_view(to_add@),
            names_view(combined@).to_set() == ev.to_set().difference(rv.to_set()).union(av.take(i as int).to_set()),
        decreases to_add@.len() - i,
    {
        let ghost before = names_view(combined@);
        proof {
            assert(av.take(i + 1) =~= av.take(i as int).push(av[i as int]));
            av.take(i as int).lemma_push_to_set_commute(av[i as int]);
        }
        if !contains_string(&combined, &to_add[i]) {
            combined.push(to_add[i].clone());
            proof {
                assert(names_view(combined@) =~= before.push(av[i as int]));
                before.lemma_push_to_set_commute(av[i as int]);
            }
        } else {
            proof {
                assert(before.to_set().contains(av[i as int]));
            }
        }
        proof {
            assert(names_view(combined@).to_set() =~= ev.to_set().difference(rv.to_set()).union(
                av.take(i + 1).to_set(),
            ));
        }
        i += 1;
    }
    proof {
        assert(av.take(to_add@.len() as int) =~= av);
    }
    sort_dedup(&combined)
}

/// Applying the same tag edit a second time changes nothing.
pub proof fn lemma_merge_tags_idempotent(
    existing: Seq<Seq<char>>,
    to_add: Seq<Seq<char>>,
    to_remove: Seq<Seq<char>>,
    once: Seq<Seq<char>>,
    twice: Seq<Seq<char>>,
)
    requires
        sorted_lt(once),
        once.to_set() == merged_set(existing, to_add, to_remove),
        sorted_lt(twice),
        twice.to_set() == merged_set(once, to_add, to_remove),
    ensures
        twice == once,
{
    assert(twice.to_set() =~= once.to_set());
    lemma_sorted_lt_unique(twice, once);
}

/// The non-empty strings of `s`.
pub open spec fn non_empty_set(s: Seq<Seq<char>>) -> Set<Seq<char>> {
    s.to_set().filter(|t: Seq<char>| t.len() > 0)
}

/// Tags as stored: empty ones dropped, sorted, without duplicates.
pub fn normalize_tags(tags: &Vec<String>) -> (r: Vec<String>)
    ensures
        sorted_lt(names_view(r@)),
        names_view(r@).to_set() == non_empty_set(names_view(tags@)),
{
    let ghost tv = names_view(tags@);
    let mut kept: Vec<String> = Vec::new();
    let mut i: usize = 0;
    while i < tags.len()
        invariant
            i <= tags@.len(),
            tv == names_view(tags@),
            names_view(kept@).to_set() == non_empty_set(tv.take(i as int)),
        decreases tags@.len() - i,
    {
        let ghost before = names_view(kept@);
        proof {
            assert(tv.take(i + 1) =~= tv.take(i as int).push(tv[i as int]));
            tv.take(i as int).lemma_push_to_set_commute(tv[i as int]);
        }
        if !tags[i].as_str().is_empty() {
            kept.push(tags[i].clone());
            proof {
                assert(names_view(kept@) =~= before.push(tv[i as int]));
                before.lemma_push_to_set_commute(tv[i as int]);
            }
        }
        proof {
            assert(names_view(kept@).to_set() =~= non_empty_set(tv.take(i + 1)));
        }
        i += 1;
    }
    proof {
        assert(tv.take(tags@.len() as int) =~= tv);
    }
    sort_dedup(&kept)
}

/// The tags checked in the picker: those selected, plus the typed tag
/// (trimmed) when it is not empty.
pub open spec fn picked_set(selected: Seq<Seq<char>>, new_tag: Seq<char>) -> Set<Seq<char>> {
    if crate::text::trim(new_tag).len() > 0 {
        selected.to_set().insert(crate::text::trim(new_tag))
    } else {
        selected.to_set()
    }
}

/// The tags checked at the start (`initial`) and not any more, in their
/// order.
pub open spec fn picker_removed(selected: Seq<Seq<char>>, initial: Seq<Seq<char>>, new_tag: Seq<char>) -> Seq<Seq<char>> {
    initial.filter(|t: Seq<char>| !picked_set(selected, new_tag).contains(t))
}

/// The edit a tag picker makes: the tags to add (sorted, without
/// duplicates: checked now but not at the start) and the tags to remove
/// (checked at the start, `initial`, and not now, in the order of `initial`).
pub fn tag_picker_changes(selected: &Vec<String>, initial: &Vec<String>, new_tag: &String) -> (r: (Vec<String>, Vec<String>))
    ensures
        sorted_lt(names_view(r.0@)),
        names_view(r.0@).to_set() == picked_set(names_view(selected@), new_tag@).difference(
            names_view(initial@).to_set(),
        ),
        names_view(r.1@) == picker_removed(names_view(selected@), names_view(initial@), new_tag@),
{
    broadcast use vstd::seq_lib::group_filter_ensures;

    let ghost sv = names_view(selected@);
    let ghost iv = names_view(initial@);
    let ghost picked = picked_set(sv, new_tag@);
    let mut sel = copy_vec(selected);
    let t = crate::text::trim_string(new_tag.as_str());
    if !t.as_str().is_empty() && !contains_string(&sel, &t) {
        sel.push(t);
        proof {
            assert(names_view(sel@) =~= sv.push(t@));
            sv.lemma_push_to_set_commute(t@);
        }
    } else {
        proof {
            if t@.len() > 0 {
                assert(sv.to_set().contains(t@));
                assert(sv.to_set().insert(t@) =~= sv.to_set());
            }
        }
    }
    let sorted = sort_dedup(&sel);
    let ghost sd = names_view(sorted@);
    assert(sd.to_set() =~= picked);
    let to_add = without(&sorted, initial);
    proof {
        lemma_without_to_set(sd, iv);
        lemma_sorted_filter(sd, not_in(iv));
    }
    let to_remove = without(initial, &sorted);
    proof {
        let p1 = not_in(sd);
        let p2 = |t: Seq<char>| !picked.contains(t);
        assert(p1 =~= p2) by {
            assert forall|t: Seq<char>| #[trigger] p1(t) == p2(t) by {
                assert(sd.contains(t) <==> sd.to_set().contains(t));
            }
        }
    }
    (to_add, to_remove)
}

/// A copy of `v`.
fn copy_vec(v: &Vec<String>) -> (r: Vec<String>)
    ensures
        names_view(r@) == names_view(v@),
{
    crate::reorder::copy_strings(v)
}

/// Filtering a strictly sorted sequence keeps it strictly sorted.
proof fn lemma_sorted_filter(s: Seq<Seq<char>>, p: spec_fn(Seq<char>) -> bool)
    requires
        sorted_lt(s),
    ensures
        sorted_lt(s.filter(p)),
    decreases s.len(),
{
    broadcast use vstd::seq_lib::group_filter_ensures;

    reveal(Seq::filter);
    if s.len() > 0 {
        let rest = s.drop_last();
        lemma_sorted_filter(rest, p);
        let f = rest.filter(p);
        if p(s.last()) {
            assert forall|a: int, b: int| 0 <= a < b < f.len() + 1 implies str_lt(
                #[trigger] f.push(s.last())[a],
                #[trigger] f.push(s.last())[b],
            ) by {
                if b == f.len() {
                    rest.lemma_filter_contains_rev(p, f[a]);
                    let k = choose|k: int| 0 <= k < rest.len() && rest[k] == f[a];
                    assert(str_lt(s[k], s[s.len() - 1]));
                }
            }
        }
    }
}

/// Tags present in every one of `sets`, sorted and without duplicates
/// (none when there are no sets).
pub open spec fn common_set(sets: Seq<Seq<Seq<char>>>) -> Set<Seq<char>> {
    if sets.len() == 0 {
        Set::empty()
    } else {
        sets[0].to_set().filter(|t: Seq<char>| forall|i: int| 0 <= i < sets.len() ==> #[trigger] sets[i].contains(t))
    }
}

/// The view of a vector of tag lists.
pub open spec fn sets_view(v: Seq<Vec<String>>) -> Seq<Seq<Seq<char>>> {
    v.map_values(|s: Vec<String>| names_view(s@))
}

/// `t` occurs in every one of `sets`.
pub open spec fn in_all(sets: Seq<Seq<Seq<char>>>, t: Seq<char>) -> bool {
    forall|k: int| 0 <= k < sets.len() ==> #[trigger] sets[k].contains(t)
}

proof fn lemma_push_contains(s: Seq<Seq<char>>, x: Seq<char>, t: Seq<char>)
    ensures
        s.push(x).contains(t) <==> (s.contains(t) || t == x),
{
    if s.push(x).contains(t) {
        let k = choose|k: int| 0 <= k < s.push(x).len() && s.push(x)[k] == t;
        if k < s.len() {
            assert(s[k] == t);
        }
    }
    if s.contains(t) {
        let k = choose|k: int| 0 <= k < s.len() && s[k] == t;
        assert(s.push(x)[k] == t);
    }
    if t == x {
        assert(s.push(x)[s.len() as int] == t);
    }
}

/// The tags that every one of `sets` carries, sorted and without
/// duplicates.
pub fn intersect_tag_sets(sets: &Vec<Vec<String>>) -> (r: Vec<String>)
    ensures
        sorted_lt(names_view(r@)),
        names_view(r@).to_set() == common_set(sets_view(sets@)),
{
    let ghost vs = sets_view(sets@);
    if sets.len() == 0 {
        let r: Vec<String> = Vec::new();
        proof {
            assert(names_view(r@).to_set() =~= Set::<Seq<char>>::empty());
        }
        return r;
    }
    let mut result: Vec<String> = Vec::new();
    let first = &sets[0];
    let ghost fv = names_view(first@);
    let mut i: usize = 0;
    while i < first.len()
        invariant
            i <= first@.len(),
            sets@.len() > 0,
            first == sets@[0],
            fv == names_view(first@),
            vs == sets_view(sets@),
            forall|t: Seq<char>| #[trigger] names_view(result@).contains(t) <==> (fv.take(i as int).contains(t) && in_all(vs, t)),
        decreases first@.len() - i,
    {
        let mut everywhere = true;
        let mut k: usize = 1;
        while k < sets.len()
            invariant
                1 <= k <= sets@.len(),
                i < first@.len(),
                first == sets@[0],
                fv == names_view(first@),
                vs == sets_view(sets@),
                everywhere <==> forall|j: int| 1 <= j < k ==> #[trigger] vs[j].contains(fv[i as int]),
            decreases sets@.len() - k,
        {
            let found = contains_string(&sets[k], &first[i]);
            proof {
                assert(vs[k as int] == names_view(sets@[k as int]@));
                assert(fv[i as int] == first@[i as int]@);
            }
            if !found {
                everywhere = false;
            }
            k += 1;
        }
        let ghost before = names_view(result@);
        let ghost x = fv[i as int];
        proof {
            assert(vs[0] == fv);
            assert(fv[i as int] == x);
            assert(vs[0].contains(x));
            assert(everywhere <==> in_all(vs, x)) by {
                if everywhere {
                    assert forall|j: int| 0 <= j < vs.len() implies #[trigger] vs[j].contains(x) by {
                        if j >= 1 {
                            assert(vs[j].contains(fv[i as int]));
                        }
                    }
                }
            }
        }
        if everywhere {
            result.push(first[i].clone());
            proof {
                assert(names_view(result@) =~= before.push(x));
            }
        }
        proof {
            let ti1 = fv.take(i + 1);
            let ti = fv.take(i as int);
            assert(ti1 =~= ti.push(x));
            assert forall|t: Seq<char>| #[trigger] names_view(result@).contains(t) <==> (ti1.contains(t) && in_all(vs, t)) by {
                lemma_push_contains(ti, x, t);
                if everywhere {
                    lemma_push_contains(before, x, t);
                }
            }
        }
        i += 1;
    }
    let sorted = sort_dedup(&result);
    proof {
        assert(fv.take(first@.len() as int) =~= fv);
        assert(vs[0] == fv);
        assert forall|t: Seq<char>| names_view(sorted@).to_set().contains(t) <==> common_set(vs).contains(t) by {
            assert(names_view(result@).contains(t) <==> names_view(result@).to_set().contains(t));
            assert(fv.contains(t) <==> fv.to_set().contains(t));
        }
        assert(names_view(sorted@).to_set() =~= common_set(vs));
    }
    sorted
}

/// Every tag that occurs in any of `groups`, sorted and without duplicates.
pub open spec fn union_set(groups: Seq<Seq<Seq<char>>>) -> Set<Seq<char>> {
    Set::new(|t: Seq<char>| exists|i: int| 0 <= i < groups.len() && #[trigger] groups[i].contains(t))
}

/// All tags of the given tag lists, sorted and without duplicates.
pub fn union_tags(groups: &Vec<Vec<String>>) -> (r: Vec<String>)
    ensures
        sorted_lt(names_view(r@)),
        names_view(r@).to_set() == union_set(sets_view(groups@)),
{
    let ghost gv = sets_view(groups@);
    let mut all: Vec<String> = Vec::new();
    let mut i: usize = 0;
    while i < groups.len()
        invariant
            i <= groups@.len(),
            gv == sets_view(groups@),
            forall|t: Seq<char>| #[trigger] names_view(all@).contains(t) <==> exists|k: int| 0 <= k < i && #[trigger] gv[k].contains(t),
        decreases groups@.len() - i,
    {
        let ghost before = names_view(all@);
        crate::reorder::append_strings(&mut all, &groups[i]);
        proof {
            let g = names_view(groups@[i as int]@);
            assert(gv[i as int] == g);
            assert forall|t: Seq<char>| #[trigger] names_view(all@).contains(t) <==> exists|k: int| 0 <= k < i + 1 && #[trigger] gv[k].contains(t) by {
                if names_view(all@).contains(t) {
                    let x = choose|x: int| 0 <= x < names_view(all@).len() && names_view(all@)[x] == t;
                    if x < before.len() {
                        assert(before[x] == t);
                        assert(before.contains(t));
                    } else {
                        assert(g[x - before.len()] == t);
                        assert(gv[i as int].contains(t));
                    }
                }
                if exists|k: int| 0 <= k < i + 1 && #[trigger] gv[k].contains(t) {
                    let k = choose|k: int| 0 <= k < i + 1 && #[trigger] gv[k].contains(t);
                    if k < i {
                        assert(before.contains(t));
                        let x = choose|x: int| 0 <= x < before.len() && before[x] == t;
                        assert(names_view(all@)[x] == t);
                    } else {
                        let x = choose|x: int| 0 <= x < g.len() && g[x] == t;
                        assert(names_view(all@)[before.len() + x] == t);
                    }
                }
            }
        }
        i += 1;
    }
    let sorted = sort_dedup(&all);
    proof {
        assert(names_view(sorted@).to_set() =~= union_set(gv));
    }
    sorted
}

/// The position of the first entry equal to `x`.
pub fn position_of(v: &Vec<String>, x: &String) -> (r: Option<usize>)
    ensures
        match r {
            Some(k) => crate::reorder::is_first_index(names_view(v@), x@, k as int),
            None => !names_view(v@).contains(x@),
        },
{
    let mut i: usize = 0;
    while i < v.len()
        invariant
            i <= v@.len(),
            forall|j: int| 0 <= j < i ==> #[trigger] names_view(v@)[j] != x@,
        decreases v@.len() - i,
    {
        if v[i] == *x {
            return Some(i);
        }
        i += 1;
    }
    proof {
        if names_view(v@).contains(x@) {
            let j = choose|j: int| 0 <= j < names_view(v@).len() && names_view(v@)[j] == x@;
        }
    }
    None
}

/// The tag filter after toggling `tag`: its first occurrence removed when
/// present, otherwise added and the filter sorted.
pub fn toggle_tag(filter: &Vec<String>, tag: &String) -> (r: Vec<String>)
    ensures
        names_view(filter@).contains(tag@) ==> exists|k: int| crate::reorder::is_first_index(names_view(filter@), tag@, k)
            && names_view(r@) == names_view(filter@).remove(k),
        !names_view(filter@).contains(tag@) ==> sorted_le(names_view(r@)) && names_view(r@).to_multiset()
            == names_view(filter@).to_multiset().insert(tag@),
{
    broadcast use vstd::seq_lib::group_to_multiset_ensures;

    match position_of(filter, tag) {
        Some(k) => {
            let mut r = copy_vec(filter);
            r.remove(k);
            proof {
                assert(names_view(r@) =~= names_view(filter@).remove(k as int));
            }
            r
        },
        None => {
            let mut v = copy_vec(filter);
            v.push(tag.clone());
            proof {
                assert(names_view(v@) =~= names_view(filter@).push(tag@));
            }
            sort_strings(&v)
        },
    }
}

/// Whether an item with tags `tags` passes the tag filter `filter`: it
/// carries every tag of the filter.
pub fn has_all_tags(tags: &Vec<String>, filter: &Vec<String>) -> (r: bool)
    ensures
        r == forall|k: int| 0 <= k < filter@.len() ==> names_view(tags@).contains(#[trigger] filter@[k]@),
{
    let mut k: usize = 0;
    while k < filter.len()
        invariant
            k <= filter@.len(),
            forall|j: int| 0 <= j < k ==> names_view(tags@).contains(#[trigger] filter@[j]@),
        decreases filter@.len() - k,
    {
        if !crate::reorder::contains_string(tags, &filter[k]) {
            return false;
        }
        k += 1;
    }
    true
}

/// Merging tags: a tag is on the item afterwards exactly when it was
/// added, or it was there and was not removed (adding wins over removing).
pub proof fn lemma_merge_tags_membership(existing: Seq<Seq<char>>, to_add: Seq<Seq<char>>, to_remove: Seq<Seq<char>>)
    ensures
        forall|t: Seq<char>|
            #[trigger] merged_set(existing, to_add, to_remove).contains(t) <==> (to_add.contains(t) || (existing.contains(t)
                && !to_remove.contains(t))),
{
    assert forall|t: Seq<char>|
        #[trigger] merged_set(existing, to_add, to_remove).contains(t) <==> (to_add.contains(t) || (existing.contains(t)
            && !to_remove.contains(t))) by {
        if to_add.contains(t) {
            let k = choose|k: int| 0 <= k < to_add.len() && to_add[k] == t;
            assert(to_add.to_set().contains(to_add[k]));
        }
        if existing.contains(t) {
            let k = choose|k: int| 0 <= k < existing.len() && existing[k] == t;
            assert(existing.to_set().contains(existing[k]));
        }
        if to_remove.contains(t) {
            let k = choose|k: int| 0 <= k < to_remove.len() && to_remove[k] == t;
            assert(to_remove.to_set().contains(to_remove[k]));
        }
    }
}

/// The tag picker's edit: a tag is added exactly when it is checked now
/// (selected, or the typed tag once trimmed and if not empty) and was not
/// checked at the start; a tag is removed exactly when it was checked at
/// the start and is not checked now.
pub proof fn lemma_tag_picker_changes_membership(selected: Seq<Seq<char>>, initial: Seq<Seq<char>>, new_tag: Seq<char>)
    ensures
        ({
            let typed = crate::text::trim(new_tag);
            let checked = |t: Seq<char>| selected.contains(t) || (typed.len() > 0 && t == typed);
            &&& forall|t: Seq<char>|
                #[trigger] picked_set(selected, new_tag).difference(initial.to_set()).contains(t) <==> (checked(t)
                    && !initial.contains(t))
            &&& forall|t: Seq<char>|
                #[trigger] picker_removed(selected, initial, new_tag).contains(t) <==> (
                initial.contains(t) && !checked(t))
        }),
{
    broadcast use vstd::seq_lib::group_filter_ensures;

    let typed = crate::text::trim(new_tag);
    let picked = picked_set(selected, new_tag);
    let pred = |x: Seq<char>| !picked_set(selected, new_tag).contains(x);
    assert(picker_removed(selected, initial, new_tag) == initial.filter(pred));
    assert forall|t: Seq<char>| picked.contains(t) <==> (selected.contains(t) || (typed.len() > 0 && t == typed)) by {
        if selected.contains(t) {
            let k = choose|k: int| 0 <= k < selected.len() && selected[k] == t;
            assert(selected.to_set().contains(selected[k]));
        }
    }
    assert forall|t: Seq<char>| initial.to_set().contains(t) <==> initial.contains(t) by {
        if initial.contains(t) {
            let k = choose|k: int| 0 <= k < initial.len() && initial[k] == t;
            assert(initial.to_set().contains(initial[k]));
        }
    }
    assert forall|t: Seq<char>| #[trigger] initial.filter(pred).contains(t) <==> (initial.contains(t) && !picked.contains(t)) by {
        if initial.filter(pred).contains(t) {
            let k = choose|k: int| 0 <= k < initial.filter(pred).len() && initial.filter(pred)[k] == t;
            initial.lemma_filter_contains_rev(pred, t);
        }
        if initial.contains(t) && !picked.contains(t) {
            let k = choose|k: int| 0 <= k < initial.len() && initial[k] == t;
            initial.lemma_filter_contains(pred, k);
        }
    }
}

} // verus!
