//! Finding items by text: the plain substring search, the ranked finder and
//! the resolution of an item reference given on the command line.
use vstd::prelude::*;
use crate::errors::AppError;
use crate::text::{chars_of, contains_chars, is_prefix, lowercase, occurs_in, starts_with_chars, to_lower};
use crate::tui_state::names_view;

verus! {

/// What search reads of an item.
#[derive(Debug, Clone)]
pub struct SearchItem {
    pub ext_id: String,
    pub title: String,
    pub body: String,
    pub list: String,
    pub tags: Vec<String>,
}

/// The searchable text of an item: id, title, body, list and tags.
pub struct SearchItemView {
    pub ext_id: Seq<char>,
    pub title: Seq<char>,
    pub body: Seq<char>,
    pub list: Seq<char>,
    pub tags: Seq<Seq<char>>,
}

impl View for SearchItem {
    type V = SearchItemView;

    open spec fn view(&self) -> SearchItemView {
        SearchItemView {
            ext_id: self.ext_id@,
            title: self.title@,
            body: self.body@,
            list: self.list@,
            tags: names_view(self.tags@),
        }
    }
}

/// Some tag of `tags`, lower-cased, contains `needle`.
pub open spec fn some_tag_contains(tags: Seq<Seq<char>>, needle: Seq<char>) -> bool {
    exists|k: int| 0 <= k < tags.len() && occurs_in(needle, #[trigger] lowercase(tags[k]))
}

/// Some tag of `tags`, lower-cased, starts with `needle`.
pub open spec fn some_tag_starts_with(tags: Seq<Seq<char>>, needle: Seq<char>) -> bool {
    exists|k: int| 0 <= k < tags.len() && is_prefix(needle, #[trigger] lowercase(tags[k]))
}

/// Some tag of `tags`, lower-cased, equals `needle`.
pub open spec fn some_tag_is(tags: Seq<Seq<char>>, needle: Seq<char>) -> bool {
    exists|k: int| 0 <= k < tags.len() && #[trigger] lowercase(tags[k]) == needle
}

/// The item matches `query` ignoring case: it occurs in the title, the id,
/// the body or a tag.
pub open spec fn spec_matches_query(item: SearchItemView, query: Seq<char>) -> bool {
    let q = lowercase(query);
    ||| occurs_in(q, lowercase(item.title))
    ||| occurs_in(q, lowercase(item.ext_id))
    ||| occurs_in(q, lowercase(item.body))
    ||| some_tag_contains(item.tags, q)
}

/// Which of the tags, lower-cased, contains / starts with / equals
/// `needle` (each over all tags).
fn tag_tests(tags: &Vec<String>, needle: &[char]) -> (r: (bool, bool, bool))
    ensures
        r.0 == some_tag_contains(names_view(tags@), needle@),
        r.1 == some_tag_starts_with(names_view(tags@), needle@),
        r.2 == some_tag_is(names_view(tags@), needle@),
{
    let ghost tv = names_view(tags@);
    let mut contains = false;
    let mut starts = false;
    let mut equal = false;
    let mut i: usize = 0;
    while i < tags.len()
        invariant
            i <= tags@.len(),
            tv == names_view(tags@),
            contains == exists|k: int| 0 <= k < i && occurs_in(needle@, #[trigger] lowercase(tv[k])),
            starts == exists|k: int| 0 <= k < i && is_prefix(needle@, #[trigger] lowercase(tv[k])),
            equal == exists|k: int| 0 <= k < i && #[trigger] lowercase(tv[k]) == needle@,
        decreases tags@.len() - i,
    {
        let lc = to_lower(tags[i].as_str());
        let cs = chars_of(lc.as_str());
        proof {
            assert(tv[i as int] == tags@[i as int]@);
        }
        let c = contains_chars(cs.as_slice(), needle);
        let s = starts_with_chars(cs.as_slice(), needle);
        let e = crate::text::chars_eq(cs.as_slice(), needle);
        contains = contains || c;
        starts = starts || s;
        equal = equal || e;
        i += 1;
    }
    (contains, starts, equal)
}

impl SearchItem {
    /// Whether the item matches `query`, ignoring case.
    pub fn matches_query(&self, query: &str) -> (r: bool)
        ensures
            r == spec_matches_query(self@, query@),
    {
        let q = chars_of(to_lower(query).as_str());
        let title = chars_of(to_lower(self.title.as_str()).as_str());
        let id = chars_of(to_lower(self.ext_id.as_str()).as_str());
        let body = chars_of(to_lower(self.body.as_str()).as_str());
        let (tag_hit, _, _) = tag_tests(&self.tags, q.as_slice());
        contains_chars(title.as_slice(), q.as_slice()) || contains_chars(id.as_slice(), q.as_slice())
            || contains_chars(body.as_slice(), q.as_slice()) || tag_hit
    }
}

/// The items matching `query`, as `(id, list)` pairs in order.
pub open spec fn spec_search(items: Seq<SearchItemView>, query: Seq<char>) -> Seq<(Seq<char>, Seq<char>)>
    decreases items.len(),
{
    if items.len() == 0 {
        Seq::empty()
    } else {
        let prev = spec_search(items.drop_last(), query);
        if spec_matches_query(items.last(), query) {
            prev.push((items.last().ext_id, items.last().list))
        } else {
            prev
        }
    }
}

/// The view of a vector of items.
pub open spec fn items_view(v: Seq<SearchItem>) -> Seq<SearchItemView> {
    v.map_values(|i: SearchItem| i@)
}

/// The view of a vector of `(id, list)` pairs.
pub open spec fn pairs_view(v: Seq<(String, String)>) -> Seq<(Seq<char>, Seq<char>)> {
    v.map_values(|p: (String, String)| (p.0@, p.1@))
}

/// The `(id, list)` of each item that matches `query`, in order.
pub fn search_items(items: &Vec<SearchItem>, query: &str) -> (r: Vec<(String, String)>)
    ensures
        pairs_view(r@) == spec_search(items_view(items@), query@),
{
    let ghost iv = items_view(items@);
    let mut r: Vec<(String, String)> = Vec::new();
    let mut i: usize = 0;
    while i < items.len()
        invariant
            i <= items@.len(),
            iv == items_view(items@),
            pairs_view(r@) == spec_search(iv.take(i as int), query@),
        decreases items@.len() - i,
    {
        proof {
            assert(iv.take(i + 1).drop_last() =~= iv.take(i as int));
            assert(iv[i as int] == items@[i as int]@);
        }
        if items[i].matches_query(query) {
            let ghost before = r@;
            r.push((items[i].ext_id.clone(), items[i].list.clone()));
            proof {
                assert(pairs_view(r@) =~= pairs_view(before).push((iv[i as int].ext_id, iv[i as int].list)));
            }
        }
        i += 1;
    }
    proof {
        assert(iv.take(items@.len() as int) =~= iv);
    }
    r
}

/// The score of an item for the finder: with `tags_only`, 100 for a tag
/// equal to the needle, 70 for one starting with it, 40 for one containing
/// it; otherwise the best of 90 (title starts with it), 80 (a tag equals
/// it), 60 (title contains it), 40 (a tag contains it), 30 (id contains
/// it), 20 (body contains it). 0 means no match. Comparisons ignore case;
/// `needle` is already lower-cased.
pub open spec fn spec_score(item: SearchItemView, needle: Seq<char>, tags_only: bool) -> int {
    if tags_only {
        if some_tag_is(item.tags, needle) {
            100
        } else if some_tag_starts_with(item.tags, needle) {
            70
        } else if some_tag_contains(item.tags, needle) {
            40
        } else {
            0
        }
    } else {
        if is_prefix(needle, lowercase(item.title)) {
            90
        } else if some_tag_is(item.tags, needle) {
            80
        } else if occurs_in(needle, lowercase(item.title)) {
            60
        } else if some_tag_contains(item.tags, needle) {
            40
        } else if occurs_in(needle, lowercase(item.ext_id)) {
            30
        } else if occurs_in(needle, lowercase(item.body)) {
            20
        } else {
            0
        }
    }
}

/// The finder's score of one item.
fn score(item: &SearchItem, needle: &[char], tags_only: bool) -> (r: u32)
    ensures
        r == spec_score(item@, needle@, tags_only),
{
    let (tag_contains, tag_starts, tag_is) = tag_tests(&item.tags, needle);
    if tags_only {
        if tag_is {
            100
        } else if tag_starts {
            70
        } else if tag_contains {
            40
        } else {
            0
        }
    } else {
        let title = chars_of(to_lower(item.title.as_str()).as_str());
        if starts_with_chars(title.as_slice(), needle) {
            90
        } else if tag_is {
            80
        } else if contains_chars(title.as_slice(), needle) {
            60
        } else if tag_contains {
            40
        } else {
            let id = chars_of(to_lower(item.ext_id.as_str()).as_str());
            if contains_chars(id.as_slice(), needle) {
                30
            } else {
                let body = chars_of(to_lower(item.body.as_str()).as_str());
                if contains_chars(body.as_slice(), needle) {
                    20
                } else {
                    0
                }
            }
        }
    }
}

/// The score levels of a mode, best first.
pub open spec fn score_levels(tags_only: bool) -> Seq<int> {
    if tags_only {
        seq![100, 70, 40]
    } else {
        seq![90, 80, 60, 40, 30, 20]
    }
}

/// The `(id, list)` of the items scoring exactly `level`, in order.
pub open spec fn at_level(items: Seq<SearchItemView>, needle: Seq<char>, tags_only: bool, level: int) -> Seq<(Seq<char>, Seq<char>)>
    decreases items.len(),
{
    if items.len() == 0 {
        Seq::empty()
    } else {
        let prev = at_level(items.drop_last(), needle, tags_only, level);
        if spec_score(items.last(), needle, tags_only) == level {
            prev.push((items.last().ext_id, items.last().list))
        } else {
            prev
        }
    }
}

/// The matches ranked best first, equal scores in their original order:
/// the items of each score level in turn, from the levels `from` on.
pub open spec fn ranked_from(items: Seq<SearchItemView>, needle: Seq<char>, tags_only: bool, from: int) -> Seq<(Seq<char>, Seq<char>)>
    decreases score_levels(tags_only).len() - from,
{
    if from < 0 || from >= score_levels(tags_only).len() {
        Seq::empty()
    } else {
        at_level(items, needle, tags_only, score_levels(tags_only)[from]) + ranked_from(
            items,
            needle,
            tags_only,
            from + 1,
        )
    }
}

/// At most this many results.
pub const MAX_FIND_RESULTS: usize = 50;

/// The finder's results for `query`: empty for a blank query (or a bare
/// `#`); otherwise the matching items ranked best first, equal scores in
/// their original order, at most `MAX_FIND_RESULTS` of them. A query
/// starting with `#` looks at tags only.
pub open spec fn spec_ranked_find(items: Seq<SearchItemView>, query: Seq<char>) -> Seq<(Seq<char>, Seq<char>)> {
    let q = crate::text::trim(query);
    let tags_only = q.len() > 0 && q[0] == '#';
    let needle = if tags_only {
        q.drop_first()
    } else {
        q
    };
    let needle_lc = lowercase(needle);
    if q.len() == 0 || needle_lc.len() == 0 {
        Seq::empty()
    } else {
        let all = ranked_from(items, needle_lc, tags_only, 0);
        all.take(if all.len() < MAX_FIND_RESULTS {
            all.len() as int
        } else {
            MAX_FIND_RESULTS as int
        })
    }
}

/// Ranked search over the items' titles, tags, ids and bodies.
pub fn ranked_find(items: &Vec<SearchItem>, query: &str) -> (r: Vec<(String, String)>)
    ensures
        pairs_view(r@) == spec_ranked_find(items_view(items@), query@),
{
    let ghost iv = items_view(items@);
    let q = chars_of(crate::text::trim_string(query).as_str());
    if q.len() == 0 {
        return Vec::new();
    }
    let tags_only = q[0] == '#';
    let needle_text = if tags_only {
        crate::text::slice_string(q.as_slice(), 1, q.len())
    } else {
        crate::text::slice_string(q.as_slice(), 0, q.len())
    };
    proof {
        assert(q@.subrange(1, q@.len() as int) =~= q@.drop_first());
        assert(q@.subrange(0, q@.len() as int) =~= q@);
    }
    let needle = chars_of(to_lower(needle_text.as_str()).as_str());
    if needle.len() == 0 {
        return Vec::new();
    }
    let mut scores: Vec<u32> = Vec::new();
    let mut i: usize = 0;
    while i < items.len()
        invariant
            i <= items@.len(),
            iv == items_view(items@),
            scores@.len() == i,
            forall|k: int| 0 <= k < i ==> #[trigger] scores@[k] == spec_score(iv[k], needle@, tags_only),
        decreases items@.len() - i,
    {
        let s = score(&items[i], needle.as_slice(), tags_only);
        proof {
            assert(iv[i as int] == items@[i as int]@);
        }
        scores.push(s);
        i += 1;
    }
    let levels: Vec<u32> = if tags_only {
        vec![100, 70, 40]
    } else {
        vec![90, 80, 60, 40, 30, 20]
    };
    proof {
        assert(levels@.len() == score_levels(tags_only).len());
        assert(forall|k: int| 0 <= k < levels@.len() ==> levels@[k] == score_levels(tags_only)[k]);
    }
    let mut all: Vec<(String, String)> = Vec::new();
    let mut l: usize = 0;
    while l < levels.len()
        invariant
            l <= levels@.len(),
            levels@.len() == score_levels(tags_only).len(),
            forall|k: int| 0 <= k < levels@.len() ==> levels@[k] == score_levels(tags_only)[k],
            iv == items_view(items@),
            scores@.len() == items@.len(),
            forall|k: int| 0 <= k < items@.len() ==> #[trigger] scores@[k] == spec_score(iv[k], needle@, tags_only),
            pairs_view(all@) + ranked_from(iv, needle@, tags_only, l as int) == ranked_from(iv, needle@, tags_only, 0),
        decreases levels@.len() - l,
    {
        let level = levels[l];
        let ghost before = pairs_view(all@);
        let mut j: usize = 0;
        while j < items.len()
            invariant
                j <= items@.len(),
                iv == items_view(items@),
                scores@.len() == items@.len(),
                forall|k: int| 0 <= k < items@.len() ==> #[trigger] scores@[k] == spec_score(iv[k], needle@, tags_only),
                pairs_view(all@) == before + at_level(iv.take(j as int), needle@, tags_only, level as int),
            decreases items@.len() - j,
        {
            proof {
                assert(iv.take(j + 1).drop_last() =~= iv.take(j as int));
                assert(iv[j as int] == items@[j as int]@);
            }
            if scores[j] == level {
                let ghost prev = pairs_view(all@);
                all.push((items[j].ext_id.clone(), items[j].list.clone()));
                proof {
                    assert(pairs_view(all@) =~= prev.push((iv[j as int].ext_id, iv[j as int].list)));
                }
            }
            j += 1;
        }
        proof {
            assert(iv.take(items@.len() as int) =~= iv);
            assert(pairs_view(all@) + ranked_from(iv, needle@, tags_only, l + 1) =~= before + ranked_from(
                iv,
                needle@,
                tags_only,
                l as int,
            ));
        }
        l += 1;
    }
    proof {
        assert(pairs_view(all@) + Seq::<(Seq<char>, Seq<char>)>::empty() =~= pairs_view(all@));
    }
    let mut r: Vec<(String, String)> = Vec::new();
    let mut k: usize = 0;
    while k < all.len() && k < MAX_FIND_RESULTS
        invariant
            k <= all@.len(),
            k <= MAX_FIND_RESULTS,
            pairs_view(r@) == pairs_view(all@).take(k as int),
        decreases all@.len() - k,
    {
        let ghost prev = pairs_view(r@);
        r.push((all[k].0.clone(), all[k].1.clone()));
        proof {
            assert(pairs_view(all@).take(k + 1) =~= pairs_view(all@).take(k as int).push(pairs_view(all@)[k as int]));
            assert(pairs_view(r@) =~= prev.push(pairs_view(all@)[k as int]));
        }
        k += 1;
    }
    proof {
        let all_v = pairs_view(all@);
        assert(all_v == ranked_from(iv, needle@, tags_only, 0));
        assert(k == if all_v.len() < MAX_FIND_RESULTS { all_v.len() as int } else { MAX_FIND_RESULTS as int });
        assert(needle@ == lowercase(if tags_only { q@.drop_first() } else { q@ }));
    }
    r
}

/// The positions of the items whose id starts with `query`.
pub open spec fn prefix_hits(items: Seq<(Seq<char>, Seq<char>)>, query: Seq<char>) -> Seq<int>
    decreases items.len(),
{
    if items.len() == 0 {
        Seq::empty()
    } else {
        let prev = prefix_hits(items.drop_last(), query);
        if is_prefix(query, items.last().0) {
            prev.push(items.len() - 1)
        } else {
            prev
        }
    }
}

/// The positions of the items whose title contains `query`, ignoring case.
pub open spec fn title_hits(items: Seq<(Seq<char>, Seq<char>)>, query: Seq<char>) -> Seq<int>
    decreases items.len(),
{
    if items.len() == 0 {
        Seq::empty()
    } else {
        let prev = title_hits(items.drop_last(), query);
        if occurs_in(lowercase(query), lowercase(items.last().1)) {
            prev.push(items.len() - 1)
        } else {
            prev
        }
    }
}

/// The positions of the items whose id is exactly `query`.
pub open spec fn exact_hits(items: Seq<(Seq<char>, Seq<char>)>, query: Seq<char>) -> Seq<int>
    decreases items.len(),
{
    if items.len() == 0 {
        Seq::empty()
    } else {
        let prev = exact_hits(items.drop_last(), query);
        if items.last().0 == query {
            prev.push(items.len() - 1)
        } else {
            prev
        }
    }
}

/// Resolving an item reference among items given as `(id, title)`: the
/// item whose id is exactly the reference wins; else a unique id-prefix
/// match, then a unique title match (ignoring case); other matches make
/// the reference ambiguous, and with none the item is not found.
pub open spec fn spec_resolve_item(items: Seq<(Seq<char>, Seq<char>)>, query: Seq<char>) -> Result<int, ()> {
    let e = exact_hits(items, query);
    let p = prefix_hits(items, query);
    let t = title_hits(items, query);
    if e.len() > 0 {
        Ok(e[0])
    } else if p.len() == 1 {
        Ok(p[0])
    } else if t.len() == 1 {
        Ok(t[0])
    } else {
        Err(())
    }
}

/// Picks the item that `query` refers to among `items` (`(id, title)`
/// pairs). Returns its position, or `AmbiguousTaskRef` when several match,
/// or `NotFound` when none does.
pub fn resolve_item(items: &Vec<(String, String)>, query: &String) -> (r: Result<usize, AppError>)
    ensures
        match r {
            Ok(k) => spec_resolve_item(pairs_view(items@), query@) == Ok::<int, ()>(k as int),
            Err(e) => spec_resolve_item(pairs_view(items@), query@) is Err && if prefix_hits(
                pairs_view(items@),
                query@,
            ).len() > 0 || title_hits(pairs_view(items@), query@).len() > 0 {
                e == AppError::AmbiguousTaskRef { query: *query }
            } else {
                e == AppError::NotFound { id: *query }
            },
        },
{
    let ghost iv = pairs_view(items@);
    let q = chars_of(query.as_str());
    let q_lc = chars_of(to_lower(query.as_str()).as_str());
    let mut exact_count: usize = 0;
    let mut exact_first: usize = 0;
    let mut prefix_count: usize = 0;
    let mut prefix_first: usize = 0;
    let mut title_count: usize = 0;
    let mut title_first: usize = 0;
    let mut i: usize = 0;
    while i < items.len()
        invariant
            i <= items@.len(),
            iv == pairs_view(items@),
            q@ == query@,
            q_lc@ == lowercase(query@),
            exact_count == exact_hits(iv.take(i as int), query@).len(),
            exact_count > 0 ==> exact_first == exact_hits(iv.take(i as int), query@)[0],
            exact_count <= i,
            prefix_count == prefix_hits(iv.take(i as int), query@).len(),
            prefix_count > 0 ==> prefix_first == prefix_hits(iv.take(i as int), query@)[0],
            title_count == title_hits(iv.take(i as int), query@).len(),
            title_count > 0 ==> title_first == title_hits(iv.take(i as int), query@)[0],
            prefix_count <= i,
            title_count <= i,
        decreases items@.len() - i,
    {
        proof {
            assert(iv.take(i + 1).drop_last() =~= iv.take(i as int));
            assert(iv.take(i + 1).last() == iv[i as int]);
            assert(iv[i as int] == (items@[i as int].0@, items@[i as int].1@));
        }
        let id = chars_of(items[i].0.as_str());
        if crate::text::chars_eq(id.as_slice(), q.as_slice()) {
            if exact_count == 0 {
                exact_first = i;
            }
            exact_count += 1;
        }
        if starts_with_chars(id.as_slice(), q.as_slice()) {
            if prefix_count == 0 {
                prefix_first = i;
            }
            prefix_count += 1;
        }
        let title = chars_of(to_lower(items[i].1.as_str()).as_str());
        if contains_chars(title.as_slice(), q_lc.as_slice()) {
            if title_count == 0 {
                title_first = i;
            }
            title_count += 1;
        }
        i += 1;
    }
    proof {
        assert(iv.take(items@.len() as int) =~= iv);
    }
    if exact_count > 0 {
        Ok(exact_first)
    } else if prefix_count == 1 {
        Ok(prefix_first)
    } else if title_count == 1 {
        Ok(title_first)
    } else if prefix_count > 0 || title_count > 0 {
        Err(AppError::ambiguous_task_ref(query.clone()))
    } else {
        Err(AppError::not_found(query.clone()))
    }
}

// ---------------------------------------------------------------------------
// What the finder finds
// ---------------------------------------------------------------------------

/// The lower-cased `needle` occurs, ignoring case, in the item's title,
/// id, body or one of its tags (in tag mode: in one of its tags).
pub open spec fn finds(item: SearchItemView, needle: Seq<char>, tags_only: bool) -> bool {
    if tags_only {
        some_tag_contains(item.tags, needle)
    } else {
        ||| occurs_in(needle, lowercase(item.title))
        ||| occurs_in(needle, lowercase(item.ext_id))
        ||| occurs_in(needle, lowercase(item.body))
        ||| some_tag_contains(item.tags, needle)
    }
}

proof fn lemma_prefix_occurs(p: Seq<char>, s: Seq<char>)
    requires
        is_prefix(p, s),
    ensures
        occurs_in(p, s),
{
    assert(s.subrange(0, 0 + p.len() as int) =~= p);
}

proof fn lemma_tag_is_contains(tags: Seq<Seq<char>>, needle: Seq<char>)
    ensures
        some_tag_is(tags, needle) ==> some_tag_contains(tags, needle),
        some_tag_starts_with(tags, needle) ==> some_tag_contains(tags, needle),
{
    if some_tag_is(tags, needle) {
        let k = choose|k: int| 0 <= k < tags.len() && #[trigger] lowercase(tags[k]) == needle;
        assert(lowercase(tags[k]).subrange(0, 0 + needle.len() as int) =~= needle);
    }
    if some_tag_starts_with(tags, needle) {
        let k = choose|k: int| 0 <= k < tags.len() && is_prefix(needle, #[trigger] lowercase(tags[k]));
        lemma_prefix_occurs(needle, lowercase(tags[k]));
    }
}

/// An item scores above zero exactly when the needle is found in it, and
/// then its score is one of the mode's levels.
pub proof fn lemma_score_positive_iff_found(item: SearchItemView, needle: Seq<char>, tags_only: bool)
    ensures
        spec_score(item, needle, tags_only) > 0 <==> finds(item, needle, tags_only),
        spec_score(item, needle, tags_only) > 0 ==> score_levels(tags_only).contains(
            spec_score(item, needle, tags_only),
        ),
        spec_score(item, needle, tags_only) >= 0,
{
    lemma_tag_is_contains(item.tags, needle);
    if is_prefix(needle, lowercase(item.title)) {
        lemma_prefix_occurs(needle, lowercase(item.title));
    }
    let sc = spec_score(item, needle, tags_only);
    let lv = score_levels(tags_only);
    if sc > 0 {
        if tags_only {
            assert(sc == lv[0] || sc == lv[1] || sc == lv[2]);
        } else {
            assert(sc == lv[0] || sc == lv[1] || sc == lv[2] || sc == lv[3] || sc == lv[4] || sc == lv[5]);
        }
    }
}

/// `e` is the `(id, list)` of an item scoring `level`.
pub open spec fn pair_scoring(items: Seq<SearchItemView>, needle: Seq<char>, tags_only: bool, e: (Seq<char>, Seq<char>), level: int) -> bool {
    exists|p: int|
        0 <= p < items.len() && e == ((#[trigger] items[p]).ext_id, items[p].list) && spec_score(items[p], needle, tags_only)
            == level
}

/// `e` is the `(id, list)` of an item with a positive score.
pub open spec fn pair_scoring_positive(items: Seq<SearchItemView>, needle: Seq<char>, tags_only: bool, e: (Seq<char>, Seq<char>)) -> bool {
    exists|p: int|
        0 <= p < items.len() && e == ((#[trigger] items[p]).ext_id, items[p].list) && spec_score(items[p], needle, tags_only)
            > 0
}

/// `e` is the `(id, list)` of an item in which `needle` is found.
pub open spec fn pair_found(items: Seq<SearchItemView>, needle: Seq<char>, tags_only: bool, e: (Seq<char>, Seq<char>)) -> bool {
    exists|p: int| 0 <= p < items.len() && e == ((#[trigger] items[p]).ext_id, items[p].list) && finds(items[p], needle, tags_only)
}

proof fn lemma_at_level_members(items: Seq<SearchItemView>, needle: Seq<char>, tags_only: bool, level: int)
    ensures
        forall|p: int|
            0 <= p < items.len() && spec_score(#[trigger] items[p], needle, tags_only) == level ==> at_level(
                items,
                needle,
                tags_only,
                level,
            ).contains((items[p].ext_id, items[p].list)),
        forall|i: int|
            0 <= i < at_level(items, needle, tags_only, level).len() ==> pair_scoring(
                items,
                needle,
                tags_only,
                #[trigger] at_level(items, needle, tags_only, level)[i],
                level,
            ),
    decreases items.len(),
{
    if items.len() > 0 {
        let d = items.drop_last();
        lemma_at_level_members(d, needle, tags_only, level);
        let a = at_level(items, needle, tags_only, level);
        let prev = at_level(d, needle, tags_only, level);
        assert forall|p: int|
            0 <= p < items.len() && spec_score(#[trigger] items[p], needle, tags_only) == level implies a.contains(
            (items[p].ext_id, items[p].list),
        ) by {
            if p < items.len() - 1 {
                assert(d[p] == items[p]);
                assert(prev.contains((d[p].ext_id, d[p].list)));
                let i = choose|i: int| 0 <= i < prev.len() && prev[i] == (d[p].ext_id, d[p].list);
                assert(a[i] == prev[i]);
            } else {
                assert(a[a.len() - 1] == (items[p].ext_id, items[p].list));
            }
        }
        assert forall|i: int| 0 <= i < a.len() implies pair_scoring(items, needle, tags_only, #[trigger] a[i], level) by {
            if i < prev.len() {
                assert(a[i] == prev[i]);
                assert(pair_scoring(d, needle, tags_only, prev[i], level));
                let p = choose|p: int|
                    0 <= p < d.len() && prev[i] == ((#[trigger] d[p]).ext_id, d[p].list) && spec_score(
                        d[p],
                        needle,
                        tags_only,
                    ) == level;
                assert(items[p] == d[p]);
            } else {
                let p = items.len() - 1;
                assert(a[i] == (items[p].ext_id, items[p].list));
            }
        }
    }
}

proof fn lemma_ranked_from_members(items: Seq<SearchItemView>, needle: Seq<char>, tags_only: bool, from: int)
    requires
        0 <= from,
    ensures
        forall|p: int, j: int|
            #![trigger items[p], score_levels(tags_only)[j]]
            0 <= p < items.len() && from <= j < score_levels(tags_only).len() && spec_score(items[p], needle, tags_only)
                == score_levels(tags_only)[j] ==> ranked_from(items, needle, tags_only, from).contains(
                (items[p].ext_id, items[p].list),
            ),
        forall|i: int|
            0 <= i < ranked_from(items, needle, tags_only, from).len() ==> pair_scoring_positive(
                items,
                needle,
                tags_only,
                #[trigger] ranked_from(items, needle, tags_only, from)[i],
            ),
    decreases score_levels(tags_only).len() - from,
{
    let lv = score_levels(tags_only);
    if from < lv.len() {
        lemma_ranked_from_members(items, needle, tags_only, from + 1);
        lemma_at_level_members(items, needle, tags_only, lv[from]);
        let here = at_level(items, needle, tags_only, lv[from]);
        let rest = ranked_from(items, needle, tags_only, from + 1);
        let all = ranked_from(items, needle, tags_only, from);
        assert(all == here + rest);
        assert(lv[from] > 0);
        assert forall|p: int, j: int|
            #![trigger items[p], lv[j]]
            0 <= p < items.len() && from <= j < lv.len() && spec_score(items[p], needle, tags_only) == lv[j] implies all.contains(
            (items[p].ext_id, items[p].list),
        ) by {
            if j == from {
                assert(here.contains((items[p].ext_id, items[p].list)));
                let i = choose|i: int| 0 <= i < here.len() && here[i] == (items[p].ext_id, items[p].list);
                assert(all[i] == here[i]);
            } else {
                assert(rest.contains((items[p].ext_id, items[p].list)));
                let i = choose|i: int| 0 <= i < rest.len() && rest[i] == (items[p].ext_id, items[p].list);
                assert(all[here.len() + i] == rest[i]);
            }
        }
        assert forall|i: int| 0 <= i < all.len() implies pair_scoring_positive(items, needle, tags_only, #[trigger] all[i]) by {
            if i < here.len() {
                assert(all[i] == here[i]);
                assert(pair_scoring(items, needle, tags_only, here[i], lv[from]));
            } else {
                assert(all[i] == rest[i - here.len()]);
                assert(pair_scoring_positive(items, needle, tags_only, rest[i - here.len()]));
            }
        }
    } else {
        assert(ranked_from(items, needle, tags_only, from).len() == 0);
    }
}

/// What the finder returns: for a non-blank query, every item in which the
/// needle (the trimmed query, without its leading `#` in tag mode,
/// lower-cased) is found is among the results unless the results are
/// already at their limit of `MAX_FIND_RESULTS`; every result is an item in
/// which the needle is found; and a blank query finds nothing.
pub proof fn lemma_ranked_find_finds(items: Seq<SearchItemView>, query: Seq<char>)
    ensures
        ({
            let q = crate::text::trim(query);
            let tags_only = q.len() > 0 && q[0] == '#';
            let needle = lowercase(if tags_only { q.drop_first() } else { q });
            let r = spec_ranked_find(items, query);
            &&& r.len() <= MAX_FIND_RESULTS
            &&& (q.len() == 0 || needle.len() == 0) ==> r.len() == 0
            &&& (q.len() > 0 && needle.len() > 0) ==> forall|p: int|
                0 <= p < items.len() && finds(#[trigger] items[p], needle, tags_only) ==> r.contains(
                    (items[p].ext_id, items[p].list),
                ) || r.len() == MAX_FIND_RESULTS
            &&& forall|i: int| 0 <= i < r.len() ==> pair_found(items, needle, tags_only, #[trigger] r[i])
        }),
{
    let q = crate::text::trim(query);
    let tags_only = q.len() > 0 && q[0] == '#';
    let needle = lowercase(if tags_only { q.drop_first() } else { q });
    let r = spec_ranked_find(items, query);
    if q.len() > 0 && needle.len() > 0 {
        lemma_ranked_from_members(items, needle, tags_only, 0);
        let all = ranked_from(items, needle, tags_only, 0);
        let n = if all.len() < MAX_FIND_RESULTS { all.len() as int } else { MAX_FIND_RESULTS as int };
        assert(r == all.take(n));
        assert forall|p: int| 0 <= p < items.len() && finds(#[trigger] items[p], needle, tags_only) implies r.contains(
            (items[p].ext_id, items[p].list),
        ) || r.len() == MAX_FIND_RESULTS by {
            lemma_score_positive_iff_found(items[p], needle, tags_only);
            let sc = spec_score(items[p], needle, tags_only);
            let lv = score_levels(tags_only);
            let j = choose|j: int| 0 <= j < lv.len() && lv[j] == sc;
            assert(all.contains((items[p].ext_id, items[p].list)));
            if all.len() < MAX_FIND_RESULTS {
                assert(r =~= all);
            }
        }
        assert forall|i: int| 0 <= i < r.len() implies pair_found(items, needle, tags_only, #[trigger] r[i]) by {
            assert(r[i] == all[i]);
            assert(pair_scoring_positive(items, needle, tags_only, all[i]));
            let p = choose|p: int|
                0 <= p < items.len() && all[i] == ((#[trigger] items[p]).ext_id, items[p].list) && spec_score(
                    items[p],
                    needle,
                    tags_only,
                ) > 0;
            lemma_score_positive_iff_found(items[p], needle, tags_only);
        }
    }
}

/// The finder's score is the best level among the conditions an item
/// meets: in tag mode 100 for a tag equal to the needle, 70 for one
/// starting with it, 40 for one containing it; otherwise 90 for a title
/// starting with it, 80 for a tag equal to it, 60 for a title containing
/// it, 40 for a tag containing it, 30 for an id containing it and 20 for a
/// body containing it (all ignoring case); 0 when it meets none.
pub proof fn lemma_score_is_best_level(item: SearchItemView, needle: Seq<char>, tags_only: bool)
    ensures
        ({
            let sc = spec_score(item, needle, tags_only);
            let title = lowercase(item.title);
            if tags_only {
                &&& some_tag_is(item.tags, needle) ==> sc >= 100
                &&& some_tag_starts_with(item.tags, needle) ==> sc >= 70
                &&& some_tag_contains(item.tags, needle) ==> sc >= 40
                &&& sc == 0 || (sc == 100 && some_tag_is(item.tags, needle)) || (sc == 70 && some_tag_starts_with(
                    item.tags,
                    needle,
                )) || (sc == 40 && some_tag_contains(item.tags, needle))
            } else {
                &&& is_prefix(needle, title) ==> sc >= 90
                &&& some_tag_is(item.tags, needle) ==> sc >= 80
                &&& occurs_in(needle, title) ==> sc >= 60
                &&& some_tag_contains(item.tags, needle) ==> sc >= 40
                &&& occurs_in(needle, lowercase(item.ext_id)) ==> sc >= 30
                &&& occurs_in(needle, lowercase(item.body)) ==> sc >= 20
                &&& sc == 0 || (sc == 90 && is_prefix(needle, title)) || (sc == 80 && some_tag_is(item.tags, needle)) || (
                sc == 60 && occurs_in(needle, title)) || (sc == 40 && some_tag_contains(item.tags, needle)) || (sc == 30
                    && occurs_in(needle, lowercase(item.ext_id))) || (sc == 20 && occurs_in(needle, lowercase(item.body)))
            }
        }),
{
    lemma_tag_is_contains(item.tags, needle);
    if is_prefix(needle, lowercase(item.title)) {
        lemma_prefix_occurs(needle, lowercase(item.title));
    }
}

/// `e1` and `e2` are the `(id, list)` of items whose scores are in this
/// order (the first at least the second).
pub open spec fn scored_at_least(items: Seq<SearchItemView>, needle: Seq<char>, tags_only: bool, e1: (Seq<char>, Seq<char>), e2: (Seq<char>, Seq<char>)) -> bool {
    exists|p: int, q: int|
        0 <= p < items.len() && 0 <= q < items.len() && e1 == ((#[trigger] items[p]).ext_id, items[p].list) && e2 == (
            (#[trigger] items[q]).ext_id,
            items[q].list,
        ) && spec_score(items[p], needle, tags_only) >= spec_score(items[q], needle, tags_only)
}

/// `e` is the `(id, list)` of an item scoring one of the levels from `from` on.
pub open spec fn pair_at_levels_from(items: Seq<SearchItemView>, needle: Seq<char>, tags_only: bool, e: (Seq<char>, Seq<char>), from: int) -> bool {
    exists|p: int, m: int|
        0 <= p < items.len() && from <= m < score_levels(tags_only).len() && e == ((#[trigger] items[p]).ext_id, items[p].list)
            && spec_score(items[p], needle, tags_only) == #[trigger] score_levels(tags_only)[m]
}

proof fn lemma_ranked_from_ordered(items: Seq<SearchItemView>, needle: Seq<char>, tags_only: bool, from: int)
    requires
        0 <= from,
    ensures
        forall|i: int|
            0 <= i < ranked_from(items, needle, tags_only, from).len() ==> pair_at_levels_from(
                items,
                needle,
                tags_only,
                #[trigger] ranked_from(items, needle, tags_only, from)[i],
                from,
            ),
        forall|i: int, j: int|
            0 <= i < j < ranked_from(items, needle, tags_only, from).len() ==> scored_at_least(
                items,
                needle,
                tags_only,
                #[trigger] ranked_from(items, needle, tags_only, from)[i],
                #[trigger] ranked_from(items, needle, tags_only, from)[j],
            ),
    decreases score_levels(tags_only).len() - from,
{
    let lv = score_levels(tags_only);
    if from < lv.len() {
        lemma_ranked_from_ordered(items, needle, tags_only, from + 1);
        lemma_at_level_members(items, needle, tags_only, lv[from]);
        let here = at_level(items, needle, tags_only, lv[from]);
        let rest = ranked_from(items, needle, tags_only, from + 1);
        let all = ranked_from(items, needle, tags_only, from);
        assert(all == here + rest);
        assert forall|i: int| 0 <= i < all.len() implies pair_at_levels_from(items, needle, tags_only, #[trigger] all[i], from) by {
            if i < here.len() {
                assert(all[i] == here[i]);
                assert(pair_scoring(items, needle, tags_only, here[i], lv[from]));
                let p = choose|p: int|
                    0 <= p < items.len() && here[i] == ((#[trigger] items[p]).ext_id, items[p].list) && spec_score(
                        items[p],
                        needle,
                        tags_only,
                    ) == lv[from];
                assert(spec_score(items[p], needle, tags_only) == lv[from]);
            } else {
                assert(all[i] == rest[i - here.len()]);
                assert(pair_at_levels_from(items, needle, tags_only, rest[i - here.len()], from + 1));
            }
        }
        assert forall|i: int, j: int| 0 <= i < j < all.len() implies scored_at_least(
            items,
            needle,
            tags_only,
            #[trigger] all[i],
            #[trigger] all[j],
        ) by {
            if j < here.len() {
                assert(all[i] == here[i]);
                assert(all[j] == here[j]);
                assert(pair_scoring(items, needle, tags_only, here[i], lv[from]));
                assert(pair_scoring(items, needle, tags_only, here[j], lv[from]));
                let p = choose|p: int|
                    0 <= p < items.len() && here[i] == ((#[trigger] items[p]).ext_id, items[p].list) && spec_score(
                        items[p],
                        needle,
                        tags_only,
                    ) == lv[from];
                let q = choose|q: int|
                    0 <= q < items.len() && here[j] == ((#[trigger] items[q]).ext_id, items[q].list) && spec_score(
                        items[q],
                        needle,
                        tags_only,
                    ) == lv[from];
                assert(spec_score(items[p], needle, tags_only) >= spec_score(items[q], needle, tags_only));
            } else if i < here.len() {
                assert(all[i] == here[i]);
                assert(all[j] == rest[j - here.len()]);
                assert(pair_scoring(items, needle, tags_only, here[i], lv[from]));
                assert(pair_at_levels_from(items, needle, tags_only, rest[j - here.len()], from + 1));
                let p = choose|p: int|
                    0 <= p < items.len() && here[i] == ((#[trigger] items[p]).ext_id, items[p].list) && spec_score(
                        items[p],
                        needle,
                        tags_only,
                    ) == lv[from];
                let (q, m) = choose|q: int, m: int|
                    0 <= q < items.len() && from + 1 <= m < lv.len() && rest[j - here.len()] == (
                        (#[trigger] items[q]).ext_id,
                        items[q].list,
                    ) && spec_score(items[q], needle, tags_only) == #[trigger] lv[m];
                assert(lv[from] > lv[m]);
                assert(spec_score(items[p], needle, tags_only) >= spec_score(items[q], needle, tags_only));
            } else {
                assert(all[i] == rest[i - here.len()]);
                assert(all[j] == rest[j - here.len()]);
                assert(scored_at_least(items, needle, tags_only, rest[i - here.len()], rest[j - here.len()]));
            }
        }
    } else {
        assert(ranked_from(items, needle, tags_only, from).len() == 0);
    }
}

/// The finder's results come best first: each result scores at least as
/// high as every later one.
pub proof fn lemma_ranked_find_ordered(items: Seq<SearchItemView>, query: Seq<char>)
    ensures
        ({
            let q = crate::text::trim(query);
            let tags_only = q.len() > 0 && q[0] == '#';
            let needle = lowercase(if tags_only { q.drop_first() } else { q });
            let r = spec_ranked_find(items, query);
            forall|i: int, j: int| 0 <= i < j < r.len() ==> scored_at_least(items, needle, tags_only, #[trigger] r[i], #[trigger] r[j])
        }),
{
    let q = crate::text::trim(query);
    let tags_only = q.len() > 0 && q[0] == '#';
    let needle = lowercase(if tags_only { q.drop_first() } else { q });
    let r = spec_ranked_find(items, query);
    if q.len() > 0 && needle.len() > 0 {
        lemma_ranked_from_ordered(items, needle, tags_only, 0);
        let all = ranked_from(items, needle, tags_only, 0);
        assert forall|i: int, j: int| 0 <= i < j < r.len() implies scored_at_least(items, needle, tags_only, #[trigger] r[i], #[trigger] r[j]) by {
            assert(r[i] == all[i]);
            assert(r[j] == all[j]);
        }
    }
}

// ---------------------------------------------------------------------------
// How an item reference is resolved
// ---------------------------------------------------------------------------

/// The title of `item` contains `query`, ignoring case.
pub open spec fn title_matches(item: (Seq<char>, Seq<char>), query: Seq<char>) -> bool {
    occurs_in(lowercase(query), lowercase(item.1))
}

/// The exact hits are the positions whose id is the reference, in order.
proof fn lemma_exact_hits_facts(items: Seq<(Seq<char>, Seq<char>)>, query: Seq<char>)
    ensures
        forall|i: int|
            0 <= i < exact_hits(items, query).len() ==> 0 <= #[trigger] exact_hits(items, query)[i] < items.len() && items[exact_hits(items, query)[i]].0 == query,
        forall|p: int| 0 <= p < items.len() && #[trigger] items[p].0 == query ==> exact_hits(items, query).contains(p),
        forall|i: int, j: int|
            0 <= i < j < exact_hits(items, query).len() ==> #[trigger] exact_hits(items, query)[i] < #[trigger] exact_hits(items, query)[j],
    decreases items.len(),
{
    if items.len() > 0 {
        let d = items.drop_last();
        lemma_exact_hits_facts(d, query);
        let h = exact_hits(items, query);
        let prev = exact_hits(d, query);
        assert forall|i: int| 0 <= i < h.len() implies 0 <= #[trigger] h[i] < items.len() && items[h[i]].0 == query by {
            if i < prev.len() {
                assert(h[i] == prev[i]);
                assert(d[prev[i]] == items[prev[i]]);
            }
        }
        assert forall|p: int| 0 <= p < items.len() && #[trigger] items[p].0 == query implies h.contains(p) by {
            if p < items.len() - 1 {
                assert(d[p] == items[p]);
                assert(prev.contains(p));
                let i = choose|i: int| 0 <= i < prev.len() && prev[i] == p;
                assert(h[i] == prev[i]);
            } else {
                assert(h[h.len() - 1] == p);
            }
        }
        assert forall|i: int, j: int| 0 <= i < j < h.len() implies #[trigger] h[i] < #[trigger] h[j] by {
            if j < prev.len() {
                assert(h[i] == prev[i]);
                assert(h[j] == prev[j]);
            } else {
                assert(h[i] == prev[i]);
            }
        }
    }
}

/// The prefix hits are the positions whose id starts with the reference, in order.
proof fn lemma_prefix_hits_facts(items: Seq<(Seq<char>, Seq<char>)>, query: Seq<char>)
    ensures
        forall|i: int|
            0 <= i < prefix_hits(items, query).len() ==> 0 <= #[trigger] prefix_hits(items, query)[i] < items.len() && is_prefix(query, items[prefix_hits(items, query)[i]].0),
        forall|p: int| 0 <= p < items.len() && is_prefix(query, #[trigger] items[p].0) ==> prefix_hits(items, query).contains(p),
        forall|i: int, j: int|
            0 <= i < j < prefix_hits(items, query).len() ==> #[trigger] prefix_hits(items, query)[i] < #[trigger] prefix_hits(items, query)[j],
    decreases items.len(),
{
    if items.len() > 0 {
        let d = items.drop_last();
        lemma_prefix_hits_facts(d, query);
        let h = prefix_hits(items, query);
        let prev = prefix_hits(d, query);
        assert forall|i: int| 0 <= i < h.len() implies 0 <= #[trigger] h[i] < items.len() && is_prefix(query, items[h[i]].0) by {
            if i < prev.len() {
                assert(h[i] == prev[i]);
                assert(d[prev[i]] == items[prev[i]]);
            }
        }
        assert forall|p: int| 0 <= p < items.len() && is_prefix(query, #[trigger] items[p].0) implies h.contains(p) by {
            if p < items.len() - 1 {
                assert(d[p] == items[p]);
                assert(prev.contains(p));
                let i = choose|i: int| 0 <= i < prev.len() && prev[i] == p;
                assert(h[i] == prev[i]);
            } else {
                assert(h[h.len() - 1] == p);
            }
        }
        assert forall|i: int, j: int| 0 <= i < j < h.len() implies #[trigger] h[i] < #[trigger] h[j] by {
            if j < prev.len() {
                assert(h[i] == prev[i]);
                assert(h[j] == prev[j]);
            } else {
                assert(h[i] == prev[i]);
            }
        }
    }
}

/// The title hits are the positions whose title contains the reference, in order.
proof fn lemma_title_hits_facts(items: Seq<(Seq<char>, Seq<char>)>, query: Seq<char>)
    ensures
        forall|i: int|
            0 <= i < title_hits(items, query).len() ==> 0 <= #[trigger] title_hits(items, query)[i] < items.len() && title_matches(items[title_hits(items, query)[i]], query),
        forall|p: int| 0 <= p < items.len() && title_matches(#[trigger] items[p], query) ==> title_hits(items, query).contains(p),
        forall|i: int, j: int|
            0 <= i < j < title_hits(items, query).len() ==> #[trigger] title_hits(items, query)[i] < #[trigger] title_hits(items, query)[j],
    decreases items.len(),
{
    if items.len() > 0 {
        let d = items.drop_last();
        lemma_title_hits_facts(d, query);
        let h = title_hits(items, query);
        let prev = title_hits(d, query);
        assert forall|i: int| 0 <= i < h.len() implies 0 <= #[trigger] h[i] < items.len() && title_matches(items[h[i]], query) by {
            if i < prev.len() {
                assert(h[i] == prev[i]);
                assert(d[prev[i]] == items[prev[i]]);
            }
        }
        assert forall|p: int| 0 <= p < items.len() && title_matches(#[trigger] items[p], query) implies h.contains(p) by {
            if p < items.len() - 1 {
                assert(d[p] == items[p]);
                assert(prev.contains(p));
                let i = choose|i: int| 0 <= i < prev.len() && prev[i] == p;
                assert(h[i] == prev[i]);
            } else {
                assert(h[h.len() - 1] == p);
            }
        }
        assert forall|i: int, j: int| 0 <= i < j < h.len() implies #[trigger] h[i] < #[trigger] h[j] by {
            if j < prev.len() {
                assert(h[i] == prev[i]);
                assert(h[j] == prev[j]);
            } else {
                assert(h[i] == prev[i]);
            }
        }
    }
}

/// An item whose id is the reference wins: the first such item.
pub proof fn lemma_resolve_item_exact(items: Seq<(Seq<char>, Seq<char>)>, query: Seq<char>, p: int)
    requires
        0 <= p < items.len(),
        items[p].0 == query,
        forall|q: int| 0 <= q < p ==> (#[trigger] items[q]).0 != query,
    ensures
        spec_resolve_item(items, query) == Ok::<int, ()>(p),
{
    lemma_exact_hits_facts(items, query);
    let h = exact_hits(items, query);
    assert(h.contains(p));
    let i = choose|i: int| 0 <= i < h.len() && h[i] == p;
    if h[0] != p {
        assert(h[0] < h[i]);
        assert(items[h[0]].0 == query);
    }
}

/// With no item whose id is the reference, a single item whose id starts
/// with it wins, whatever the titles hold.
pub proof fn lemma_resolve_item_unique_prefix(items: Seq<(Seq<char>, Seq<char>)>, query: Seq<char>, p: int)
    requires
        0 <= p < items.len(),
        forall|q: int| 0 <= q < items.len() ==> (#[trigger] items[q]).0 != query,
        is_prefix(query, items[p].0),
        forall|q: int| 0 <= q < items.len() && is_prefix(query, (#[trigger] items[q]).0) ==> q == p,
    ensures
        spec_resolve_item(items, query) == Ok::<int, ()>(p),
{
    lemma_exact_hits_facts(items, query);
    lemma_prefix_hits_facts(items, query);
    let e = exact_hits(items, query);
    if e.len() > 0 {
        assert(items[e[0]].0 == query);
    }
    let h = prefix_hits(items, query);
    assert(h.contains(p));
    assert(h[0] == p);
    if h.len() > 1 {
        assert(h[0] < h[1]);
        assert(is_prefix(query, items[h[1]].0));
    }
}

/// With no item whose id is the reference and no single item whose id
/// starts with it (none, or several), a single item whose title contains
/// the reference (ignoring case) wins.
pub proof fn lemma_resolve_item_unique_title(items: Seq<(Seq<char>, Seq<char>)>, query: Seq<char>, p: int)
    requires
        0 <= p < items.len(),
        forall|q: int| 0 <= q < items.len() ==> (#[trigger] items[q]).0 != query,
        (forall|q: int| 0 <= q < items.len() ==> !is_prefix(query, (#[trigger] items[q]).0)) || exists|a: int, b: int|
            0 <= a < b < items.len() && is_prefix(query, (#[trigger] items[a]).0) && is_prefix(query, (#[trigger] items[b]).0),
        title_matches(items[p], query),
        forall|q: int| 0 <= q < items.len() && title_matches(#[trigger] items[q], query) ==> q == p,
    ensures
        spec_resolve_item(items, query) == Ok::<int, ()>(p),
{
    lemma_exact_hits_facts(items, query);
    lemma_prefix_hits_facts(items, query);
    lemma_title_hits_facts(items, query);
    let e = exact_hits(items, query);
    if e.len() > 0 {
        assert(items[e[0]].0 == query);
    }
    let h = prefix_hits(items, query);
    if h.len() == 1 {
        assert(is_prefix(query, items[h[0]].0));
        if exists|a: int, b: int|
            0 <= a < b < items.len() && is_prefix(query, (#[trigger] items[a]).0) && is_prefix(query, (#[trigger] items[b]).0) {
            let (a, b) = choose|a: int, b: int|
                0 <= a < b < items.len() && is_prefix(query, (#[trigger] items[a]).0) && is_prefix(query, (#[trigger] items[b]).0);
            assert(h.contains(a));
            assert(h.contains(b));
        }
    }
    let t = title_hits(items, query);
    assert(t.contains(p));
    assert(t[0] == p);
    if t.len() > 1 {
        assert(t[0] < t[1]);
        assert(title_matches(items[t[1]], query));
    }
}

/// A resolved reference names an item that matches it: by its id, by the
/// start of its id, or by its title; a reference that matches no item in
/// any of these ways is not resolved.
pub proof fn lemma_resolve_item_sound(items: Seq<(Seq<char>, Seq<char>)>, query: Seq<char>)
    ensures
        spec_resolve_item(items, query) matches Ok(p) ==> 0 <= p < items.len() && (items[p].0 == query || is_prefix(
            query,
            items[p].0,
        ) || title_matches(items[p], query)),
        (forall|q: int|
            0 <= q < items.len() ==> !is_prefix(query, (#[trigger] items[q]).0) && !title_matches(items[q], query))
            ==> spec_resolve_item(items, query) is Err,
{
    lemma_exact_hits_facts(items, query);
    lemma_prefix_hits_facts(items, query);
    lemma_title_hits_facts(items, query);
    let e = exact_hits(items, query);
    let h = prefix_hits(items, query);
    let t = title_hits(items, query);
    if e.len() > 0 {
        assert(0 <= e[0] < items.len());
        assert(items[e[0]].0 == query);
        assert(is_prefix(query, items[e[0]].0)) by {
            assert(items[e[0]].0.take(query.len() as int) =~= query);
        }
    } else if h.len() == 1 {
        assert(0 <= h[0] < items.len());
    } else if t.len() == 1 {
        assert(0 <= t[0] < items.len());
    }
}

} // verus!
