//! Expansion of abbreviated subcommand names on the command line
//! (`sqs l` runs `sqs list`).
use vstd::prelude::*;

use crate::cli_args::{
    cli_command_specs, cli_flag_scan_specs, lemma_cli_command_names_distinct, spec_cli_command_specs,
    spec_cli_flag_scan_specs,
};
use crate::text::{
    ascii_lower, byte_len, chars_eq, chars_of, copy_str, embeds, embeds_chars, eq_ignore_ascii_case,
    eq_ignore_ascii_case_chars, is_prefix, lowercase, starts_with_chars, str_eq, string_from_chars,
    to_lower, utf8_len,
};

verus! {

broadcast use vstd::string::group_string_axioms;

/// A subcommand: its canonical name and its visible aliases.
pub struct CommandSpec {
    pub canonical: String,
    pub aliases: Vec<String>,
}

/// Which flags take a value, by short character and by long name.
pub struct FlagScanSpecs {
    pub short: Vec<(char, bool)>,
    pub long: Vec<(String, bool)>,
}

/// A subcommand as plain sequences: canonical name and aliases.
pub type SpecCommand = (Seq<char>, Seq<Seq<char>>);

pub open spec fn command_view(c: CommandSpec) -> SpecCommand {
    (c.canonical@, c.aliases@.map_values(|a: String| a@))
}

pub open spec fn commands_view(cs: Seq<CommandSpec>) -> Seq<SpecCommand> {
    cs.map_values(|c: CommandSpec| command_view(c))
}

/// The flag table as plain sequences.
pub open spec fn flags_view(f: FlagScanSpecs) -> (Seq<(char, bool)>, Seq<(Seq<char>, bool)>) {
    (f.short@, f.long@.map_values(|p: (String, bool)| (p.0@, p.1)))
}

// ---------------------------------------------------------------------------
// Matching predicates
// ---------------------------------------------------------------------------

/// `input` is, after lower-casing both, a prefix of `target`.
pub open spec fn spec_prefix_match(input: Seq<char>, target: Seq<char>) -> bool {
    is_prefix(lowercase(input), lowercase(target))
}

/// Both are non-empty and `input`, lower-cased, can be read inside the
/// lower-cased `target` in order, skipping characters.
pub open spec fn spec_fuzzy_match(input: Seq<char>, target: Seq<char>) -> bool {
    input.len() > 0 && target.len() > 0 && embeds(lowercase(input), lowercase(target))
}

/// Prefix comparison after lower-casing both sides.
pub fn prefix_match(input: &str, target: &str) -> (r: bool)
    ensures
        r == spec_prefix_match(input@, target@),
{
    let t = to_lower(target);
    let i = to_lower(input);
    let tc = chars_of(t.as_str());
    let ic = chars_of(i.as_str());
    starts_with_chars(tc.as_slice(), ic.as_slice())
}

/// Whether `input` can be read inside `target`, in order and ignoring case,
/// skipping characters of `target` (`"shw"` matches `"show"`). Empty inputs
/// and empty targets never match.
pub fn fuzzy_match(input: &str, target: &str) -> (r: bool)
    ensures
        r == spec_fuzzy_match(input@, target@),
{
    if input.is_empty() || target.is_empty() {
        return false;
    }
    let input_lower = to_lower(input);
    let target_lower = to_lower(target);
    let ic = chars_of(input_lower.as_str());
    let tc = chars_of(target_lower.as_str());
    embeds_chars(ic.as_slice(), tc.as_slice())
}

/// Equality up to ASCII case.
pub fn exact_match(input: &str, target: &str) -> (r: bool)
    ensures
        r == eq_ignore_ascii_case(input@, target@),
{
    let ic = chars_of(input);
    let tc = chars_of(target);
    eq_ignore_ascii_case_chars(ic.as_slice(), tc.as_slice())
}

// ---------------------------------------------------------------------------
// Choosing among candidates
// ---------------------------------------------------------------------------

/// Smallest length among the candidates (0 when there are none).
pub open spec fn min_len(c: Seq<(Seq<char>, usize)>) -> usize
    decreases c.len(),
{
    if c.len() == 0 {
        0
    } else if c.len() == 1 {
        c[0].1
    } else {
        let m = min_len(c.drop_last());
        if c.last().1 < m {
            c.last().1
        } else {
            m
        }
    }
}

/// The names of the candidates whose length is the smallest.
pub open spec fn shortest_names(c: Seq<(Seq<char>, usize)>) -> Set<Seq<char>> {
    Set::new(|n: Seq<char>| exists|i: int| 0 <= i < c.len() && #[trigger] c[i] == (n, min_len(c)))
}

/// The single name shared by every shortest candidate, if there is one.
pub open spec fn unique_shortest(c: Seq<(Seq<char>, usize)>) -> Option<Seq<char>> {
    if c.len() > 0 && exists|n: Seq<char>| #[trigger] is_only(shortest_names(c), n) {
        Some(choose|n: Seq<char>| #[trigger] is_only(shortest_names(c), n))
    } else {
        None
    }
}

/// `s` holds exactly `n`.
pub open spec fn is_only(s: Set<Seq<char>>, n: Seq<char>) -> bool {
    s == set![n]
}

pub open spec fn pairs_view(c: Seq<(&str, usize)>) -> Seq<(Seq<char>, usize)> {
    c.map_values(|p: (&str, usize)| (p.0@, p.1))
}

proof fn lemma_min_len_facts(c: Seq<(Seq<char>, usize)>)
    requires
        c.len() > 0,
    ensures
        forall|i: int| 0 <= i < c.len() ==> min_len(c) <= #[trigger] c[i].1,
        exists|i: int| 0 <= i < c.len() && #[trigger] c[i].1 == min_len(c),
    decreases c.len(),
{
    if c.len() == 1 {
        assert(c[0].1 == min_len(c));
    } else {
        let d = c.drop_last();
        lemma_min_len_facts(d);
        assert forall|i: int| 0 <= i < c.len() implies min_len(c) <= #[trigger] c[i].1 by {
            if i < c.len() - 1 {
                assert(c[i] == d[i]);
            }
        }
        if c.last().1 < min_len(d) {
            assert(c[c.len() - 1].1 == min_len(c));
        } else {
            let k = choose|k: int| 0 <= k < d.len() && #[trigger] d[k].1 == min_len(d);
            assert(c[k] == d[k]);
        }
    }
}

/// `m` is the smallest length when it bounds every candidate and is taken by one.
proof fn lemma_min_len_is(c: Seq<(Seq<char>, usize)>, m: usize, k: int)
    requires
        0 <= k < c.len(),
        c[k].1 == m,
        forall|i: int| 0 <= i < c.len() ==> m <= #[trigger] c[i].1,
    ensures
        min_len(c) == m,
{
    lemma_min_len_facts(c);
    let j = choose|j: int| 0 <= j < c.len() && #[trigger] c[j].1 == min_len(c);
    assert(m <= c[j].1);
    assert(min_len(c) <= c[k].1);
}

/// The unique shortest candidate name: among the candidates of smallest
/// length, the name they all share, or `None` when there are no candidates
/// or the shortest ones disagree.
pub fn pick_unique_shortest<'a, 'b>(candidates: &'b [(&'a str, usize)]) -> (r: Option<&'a str>)
    ensures
        r matches Some(x) ==> unique_shortest(pairs_view(candidates@)) == Some(x@),
        r is None ==> unique_shortest(pairs_view(candidates@)) is None,
{
    let ghost c = pairs_view(candidates@);
    if candidates.len() == 0 {
        return None;
    }
    let mut min: usize = candidates[0].1;
    let mut k: usize = 0;
    let mut i: usize = 1;
    while i < candidates.len()
        invariant
            c == pairs_view(candidates@),
            1 <= i <= candidates@.len(),
            k < i,
            candidates@[k as int].1 == min,
            forall|j: int| 0 <= j < i ==> min <= #[trigger] candidates@[j].1,
        decreases candidates@.len() - i,
    {
        if candidates[i].1 < min {
            min = candidates[i].1;
            k = i;
        }
        i += 1;
    }
    proof {
        assert(c[k as int].1 == min);
        lemma_min_len_is(c, min, k as int);
    }
    let mut winner: Option<&'a str> = None;
    let mut j: usize = 0;
    while j < candidates.len()
        invariant
            c == pairs_view(candidates@),
            c.len() == candidates@.len(),
            min == min_len(c),
            j <= candidates@.len(),
            winner is None ==> forall|t: int| 0 <= t < j ==> #[trigger] candidates@[t].1 != min,
            winner matches Some(w) ==> {
                &&& forall|t: int|
                    0 <= t < j && #[trigger] candidates@[t].1 == min ==> candidates@[t].0@ == w@
                &&& exists|t: int|
                    0 <= t < j && #[trigger] candidates@[t].1 == min && candidates@[t].0@ == w@
            },
        decreases candidates@.len() - j,
    {
        let (canonical, len) = candidates[j];
        if len == min {
            match winner {
                None => {
                    winner = Some(canonical);
                },
                Some(existing) => {
                    if !str_eq(existing, canonical) {
                        proof {
                            let t = choose|t: int|
                                0 <= t < j && #[trigger] candidates@[t].1 == min
                                    && candidates@[t].0@ == existing@;
                            assert(c[t] == (existing@, min_len(c)));
                            assert(c[j as int] == (canonical@, min_len(c)));
                            assert(shortest_names(c).contains(existing@));
                            assert(shortest_names(c).contains(canonical@));
                            lemma_not_singleton(shortest_names(c), existing@, canonical@);
                        }
                        return None;
                    }
                },
            }
        }
        j += 1;
    }
    proof {
        lemma_min_len_facts(c);
        let t0 = choose|t: int| 0 <= t < c.len() && #[trigger] c[t].1 == min_len(c);
        assert(candidates@[t0].1 == min);
    }
    let w = winner.unwrap();
    proof {
        assert(shortest_names(c) =~= set![w@]) by {
            assert forall|n: Seq<char>| shortest_names(c).contains(n) implies n == w@ by {
                let t = choose|t: int| 0 <= t < c.len() && #[trigger] c[t] == (n, min_len(c));
                assert(candidates@[t].1 == min);
            }
            let t = choose|t: int|
                0 <= t < j && #[trigger] candidates@[t].1 == min && candidates@[t].0@ == w@;
            assert(c[t] == (w@, min_len(c)));
        }
        lemma_singleton_choice(shortest_names(c), w@);
        assert(is_only(shortest_names(c), w@));
    }
    Some(w)
}

proof fn lemma_not_singleton(s: Set<Seq<char>>, a: Seq<char>, b: Seq<char>)
    requires
        s.contains(a),
        s.contains(b),
        a != b,
    ensures
        !exists|n: Seq<char>| #[trigger] is_only(s, n),
{
    if exists|n: Seq<char>| #[trigger] is_only(s, n) {
        let n = choose|n: Seq<char>| #[trigger] is_only(s, n);
        assert(set![n].contains(a));
        assert(set![n].contains(b));
    }
}

proof fn lemma_singleton_choice(s: Set<Seq<char>>, w: Seq<char>)
    requires
        s == set![w],
    ensures
        (choose|n: Seq<char>| #[trigger] is_only(s, n)) == w,
{
    assert(is_only(s, w));
    let n = choose|n: Seq<char>| #[trigger] is_only(s, n);
    assert(s == set![n]);
    assert(set![n].contains(w));
}

/// Position of the entry named `name` in `table`, if any.
fn find_name(table: &Vec<(&str, usize)>, name: &str) -> (r: Option<usize>)
    ensures
        r matches Some(k) ==> k < table@.len() && table@[k as int].0@ == name@,
        r is None ==> forall|x: int| 0 <= x < table@.len() ==> #[trigger] table@[x].0@ != name@,
{
    let mut k: usize = 0;
    while k < table.len()
        invariant
            k <= table@.len(),
            forall|x: int| 0 <= x < k ==> #[trigger] table@[x].0@ != name@,
        decreases table@.len() - k,
    {
        if str_eq(table[k].0, name) {
            return Some(k);
        }
        k += 1;
    }
    None
}

/// `t` keeps, for every name of `c`, one entry: that name with its smallest
/// length in `c`.
pub open spec fn is_shortest_table(t: Seq<(Seq<char>, usize)>, c: Seq<(Seq<char>, usize)>) -> bool {
    &&& forall|a: int, b: int| 0 <= a < b < t.len() ==> #[trigger] t[a].0 != #[trigger] t[b].0
    &&& forall|a: int| 0 <= a < t.len() ==> #[trigger] entry_in(c, t[a])
    &&& forall|a: int, k: int|
        0 <= a < t.len() && 0 <= k < c.len() && #[trigger] c[k].0 == #[trigger] t[a].0 ==> t[a].1 <= c[k].1
    &&& forall|k: int| 0 <= k < c.len() ==> #[trigger] name_in(t, c[k].0)
}

/// `e` is one of the entries of `c`.
pub open spec fn entry_in(c: Seq<(Seq<char>, usize)>, e: (Seq<char>, usize)) -> bool {
    exists|k: int| 0 <= k < c.len() && c[k] == e
}

/// Some entry of `t` carries the name `n`.
pub open spec fn name_in(t: Seq<(Seq<char>, usize)>, n: Seq<char>) -> bool {
    exists|a: int| 0 <= a < t.len() && t[a].0 == n
}

/// Seeing another candidate for a name already in the table keeps the
/// table exact once that name's length is lowered to the smaller one.
proof fn lemma_table_lower(
    t: Seq<(Seq<char>, usize)>,
    c: Seq<(Seq<char>, usize)>,
    k: int,
    name: Seq<char>,
    len: usize,
)
    requires
        is_shortest_table(t, c),
        0 <= k < t.len(),
        t[k].0 == name,
    ensures
        is_shortest_table(
            if len < t[k].1 { t.update(k, (name, len)) } else { t },
            c.push((name, len)),
        ),
{
    let u = if len < t[k].1 { t.update(k, (name, len)) } else { t };
    let d = c.push((name, len));
    assert forall|a: int| 0 <= a < u.len() implies #[trigger] u[a].0 == t[a].0 by {}
    assert forall|a: int, b: int| 0 <= a < b < u.len() implies #[trigger] u[a].0 != #[trigger] u[b].0 by {
        assert(t[a].0 != t[b].0);
    }
    assert forall|a: int| 0 <= a < u.len() implies #[trigger] entry_in(d, u[a]) by {
        if u[a] == t[a] {
            assert(entry_in(c, t[a]));
            let x = choose|x: int| 0 <= x < c.len() && c[x] == t[a];
            assert(d[x] == u[a]);
        } else {
            assert(d[c.len() as int] == u[a]);
        }
    }
    assert forall|a: int, x: int|
        0 <= a < u.len() && 0 <= x < d.len() && #[trigger] d[x].0 == #[trigger] u[a].0 implies u[a].1
        <= d[x].1 by {
        if x < c.len() {
            assert(d[x] == c[x]);
            assert(c[x].0 == t[a].0);
            assert(t[a].1 <= c[x].1);
        } else {
            if a != k {
                assert(t[a].0 != t[k].0);
            }
        }
    }
    assert forall|x: int| 0 <= x < d.len() implies #[trigger] name_in(u, d[x].0) by {
        if x < c.len() {
            assert(d[x] == c[x]);
            assert(name_in(t, c[x].0));
            let a = choose|a: int| 0 <= a < t.len() && t[a].0 == c[x].0;
            assert(u[a].0 == d[x].0);
        } else {
            assert(u[k].0 == d[x].0);
        }
    }
}

/// A candidate with a name not yet in the table is added as it is.
proof fn lemma_table_push(t: Seq<(Seq<char>, usize)>, c: Seq<(Seq<char>, usize)>, name: Seq<char>, len: usize)
    requires
        is_shortest_table(t, c),
        forall|a: int| 0 <= a < t.len() ==> #[trigger] t[a].0 != name,
    ensures
        is_shortest_table(t.push((name, len)), c.push((name, len))),
{
    let u = t.push((name, len));
    let d = c.push((name, len));
    assert forall|a: int, b: int| 0 <= a < b < u.len() implies #[trigger] u[a].0 != #[trigger] u[b].0 by {
        if b < t.len() {
            assert(t[a].0 != t[b].0);
        } else {
            assert(u[a] == t[a]);
        }
    }
    assert forall|a: int| 0 <= a < u.len() implies #[trigger] entry_in(d, u[a]) by {
        if a < t.len() {
            assert(entry_in(c, t[a]));
            let x = choose|x: int| 0 <= x < c.len() && c[x] == t[a];
            assert(d[x] == u[a]);
        } else {
            assert(d[c.len() as int] == u[a]);
        }
    }
    assert forall|a: int, x: int|
        0 <= a < u.len() && 0 <= x < d.len() && #[trigger] d[x].0 == #[trigger] u[a].0 implies u[a].1
        <= d[x].1 by {
        if a < t.len() {
            assert(u[a] == t[a]);
            if x < c.len() {
                assert(d[x] == c[x]);
            }
        } else if x < c.len() {
            assert(d[x] == c[x]);
            assert(name_in(t, c[x].0));
            let b = choose|b: int| 0 <= b < t.len() && t[b].0 == c[x].0;
        }
    }
    assert forall|x: int| 0 <= x < d.len() implies #[trigger] name_in(u, d[x].0) by {
        if x < c.len() {
            assert(d[x] == c[x]);
            assert(name_in(t, c[x].0));
            let a = choose|a: int| 0 <= a < t.len() && t[a].0 == c[x].0;
            assert(u[a] == t[a]);
        } else {
            assert(u[t.len() as int].0 == d[x].0);
        }
    }
    assert(is_shortest_table(u, d));
}

/// For each name, its shortest length among `matches`.
fn shortest_per_name<'a, 'b>(matches: &'b [(&'a str, usize)]) -> (r: Vec<(&'a str, usize)>)
    ensures
        is_shortest_table(pairs_view(r@), pairs_view(matches@)),
{
    let ghost c = pairs_view(matches@);
    let mut best: Vec<(&'a str, usize)> = Vec::new();
    let mut i: usize = 0;
    while i < matches.len()
        invariant
            c == pairs_view(matches@),
            i <= matches@.len(),
            is_shortest_table(pairs_view(best@), c.take(i as int)),
        decreases matches@.len() - i,
    {
        let (canonical, alias_len) = matches[i];
        let ghost old_t = pairs_view(best@);
        let ghost ci = c.take(i as int);
        let ghost cn = c.take(i + 1);
        proof {
            assert forall|k: int| 0 <= k < i implies #[trigger] cn[k] == ci[k] by {}
            assert(cn[i as int] == (canonical@, alias_len));
        }
        proof {
            assert(cn =~= ci.push((canonical@, alias_len)));
        }
        match find_name(&best, canonical) {
            Some(k) => {
                if alias_len < best[k].1 {
                    let name = best[k].0;
                    best.set(k, (name, alias_len));
                    proof {
                        assert(pairs_view(best@) =~= old_t.update(k as int, (canonical@, alias_len)));
                    }
                } else {
                    proof {
                        assert(pairs_view(best@) =~= old_t);
                    }
                }
                proof {
                    lemma_table_lower(old_t, ci, k as int, canonical@, alias_len);
                }
            },
            None => {
                best.push((canonical, alias_len));
                proof {
                    assert(pairs_view(best@) =~= old_t.push((canonical@, alias_len)));
                    lemma_table_push(old_t, ci, canonical@, alias_len);
                }
            },
        }
        i += 1;
    }
    proof {
        assert(c.take(matches@.len() as int) =~= c);
    }
    best
}

/// The smallest length in a per-name table is the smallest length of the
/// candidates.
proof fn lemma_shortest_table_min(t: Seq<(Seq<char>, usize)>, c: Seq<(Seq<char>, usize)>)
    requires
        is_shortest_table(t, c),
        c.len() > 0,
    ensures
        t.len() > 0,
        min_len(t) == min_len(c),
{
    lemma_min_len_facts(c);
    let k0 = choose|k: int| 0 <= k < c.len() && #[trigger] c[k].1 == min_len(c);
    assert(name_in(t, c[k0].0));
    let a0 = choose|a: int| 0 <= a < t.len() && t[a].0 == c[k0].0;
    assert(t[a0].1 <= c[k0].1);
    assert forall|a: int| 0 <= a < t.len() implies min_len(c) <= #[trigger] t[a].1 by {
        assert(entry_in(c, t[a]));
        let k = choose|k: int| 0 <= k < c.len() && c[k] == t[a];
        assert(min_len(c) <= c[k].1);
    }
    lemma_min_len_is(t, min_len(c), a0);
}

/// A table of per-name shortest lengths has the same shortest names as the
/// candidates it summarizes.
proof fn lemma_shortest_table_names(t: Seq<(Seq<char>, usize)>, c: Seq<(Seq<char>, usize)>)
    requires
        is_shortest_table(t, c),
    ensures
        t.len() == 0 <==> c.len() == 0,
        shortest_names(t) == shortest_names(c),
{
    if c.len() > 0 {
        lemma_shortest_table_min(t, c);
        assert forall|n: Seq<char>| shortest_names(c).contains(n) implies shortest_names(t).contains(n) by {
            let k = choose|k: int| 0 <= k < c.len() && #[trigger] c[k] == (n, min_len(c));
            assert(name_in(t, c[k].0));
            let a = choose|a: int| 0 <= a < t.len() && t[a].0 == c[k].0;
            assert(t[a].1 <= c[k].1);
            lemma_min_len_facts(t);
            assert(t[a] == (n, min_len(t)));
        }
        assert forall|n: Seq<char>| shortest_names(t).contains(n) implies shortest_names(c).contains(n) by {
            let a = choose|a: int| 0 <= a < t.len() && #[trigger] t[a] == (n, min_len(t));
            assert(entry_in(c, t[a]));
            let k = choose|k: int| 0 <= k < c.len() && c[k] == t[a];
            assert(c[k] == (n, min_len(c)));
        }
        assert(shortest_names(t) =~= shortest_names(c));
    } else {
        if t.len() > 0 {
            assert(entry_in(c, t[0]));
        }
        assert(shortest_names(t) =~= shortest_names(c));
    }
}

/// Like `pick_unique_shortest`, but first keeps, for each name, only its
/// shortest length. The answer is the same as `pick_unique_shortest`'s.
pub fn pick_unique_shortest_alias<'a, 'b>(matches: &'b [(&'a str, usize)]) -> (r: Option<&'a str>)
    ensures
        r matches Some(x) ==> unique_shortest(pairs_view(matches@)) == Some(x@),
        r is None ==> unique_shortest(pairs_view(matches@)) is None,
{
    let best = shortest_per_name(matches);
    proof {
        lemma_shortest_table_names(pairs_view(best@), pairs_view(matches@));
    }
    pick_unique_shortest(best.as_slice())
}


// ---------------------------------------------------------------------------
// Resolving one shorthand
// ---------------------------------------------------------------------------

/// How a shorthand is compared with a name.
pub enum MatchKind {
    Prefix,
    Fuzzy,
}

pub open spec fn kind_matches(kind: MatchKind, input: Seq<char>, target: Seq<char>) -> bool {
    match kind {
        MatchKind::Prefix => spec_prefix_match(input, target),
        MatchKind::Fuzzy => spec_fuzzy_match(input, target),
    }
}

/// The canonical name of the first subcommand equal to `input` up to ASCII case.
pub open spec fn first_exact_canonical(specs: Seq<SpecCommand>, input: Seq<char>) -> Option<Seq<char>>
    decreases specs.len(),
{
    if specs.len() == 0 {
        None
    } else if eq_ignore_ascii_case(input, specs[0].0) {
        Some(specs[0].0)
    } else {
        first_exact_canonical(specs.drop_first(), input)
    }
}

/// Whether some alias of the subcommand equals `input` up to ASCII case.
pub open spec fn has_exact_alias(spec: SpecCommand, input: Seq<char>) -> bool {
    exists|k: int| 0 <= k < spec.1.len() && eq_ignore_ascii_case(input, #[trigger] spec.1[k])
}

/// `(canonical, 0)` for each subcommand with an alias equal to `input`, in order.
pub open spec fn exact_alias_candidates(specs: Seq<SpecCommand>, input: Seq<char>) -> Seq<(Seq<char>, usize)>
    decreases specs.len(),
{
    if specs.len() == 0 {
        Seq::empty()
    } else {
        let rest = exact_alias_candidates(specs.drop_last(), input);
        if has_exact_alias(specs.last(), input) {
            rest.push((specs.last().0, 0usize))
        } else {
            rest
        }
    }
}

/// `(canonical, byte length of canonical)` for each subcommand whose name
/// matches `input`, in order.
pub open spec fn canonical_candidates(specs: Seq<SpecCommand>, input: Seq<char>, kind: MatchKind) -> Seq<(Seq<char>, usize)>
    decreases specs.len(),
{
    if specs.len() == 0 {
        Seq::empty()
    } else {
        let rest = canonical_candidates(specs.drop_last(), input, kind);
        let c = specs.last().0;
        if kind_matches(kind, input, c) {
            rest.push((c, utf8_len(c) as usize))
        } else {
            rest
        }
    }
}

/// `(canonical, byte length of alias)` for each alias of one subcommand that
/// matches `input`, in order.
pub open spec fn alias_entries(canonical: Seq<char>, aliases: Seq<Seq<char>>, input: Seq<char>, kind: MatchKind) -> Seq<(Seq<char>, usize)>
    decreases aliases.len(),
{
    if aliases.len() == 0 {
        Seq::empty()
    } else {
        let rest = alias_entries(canonical, aliases.drop_last(), input, kind);
        let a = aliases.last();
        if kind_matches(kind, input, a) {
            rest.push((canonical, utf8_len(a) as usize))
        } else {
            rest
        }
    }
}

/// The alias entries of all subcommands, in order.
pub open spec fn alias_candidates(specs: Seq<SpecCommand>, input: Seq<char>, kind: MatchKind) -> Seq<(Seq<char>, usize)>
    decreases specs.len(),
{
    if specs.len() == 0 {
        Seq::empty()
    } else {
        alias_candidates(specs.drop_last(), input, kind) + alias_entries(specs.last().0, specs.last().1, input, kind)
    }
}

/// The subcommand a shorthand stands for: an exact canonical name (ignoring
/// ASCII case) first; then exact aliases; then the unique shortest canonical
/// name it is a prefix of; then the unique shortest canonical name it
/// fuzzily matches; then the same two steps over aliases.
pub open spec fn spec_resolve_command(input: Seq<char>, specs: Seq<SpecCommand>) -> Option<Seq<char>> {
    if input.len() == 0 {
        None
    } else if first_exact_canonical(specs, input) is Some {
        first_exact_canonical(specs, input)
    } else if exact_alias_candidates(specs, input).len() > 0 {
        unique_shortest(exact_alias_candidates(specs, input))
    } else if unique_shortest(canonical_candidates(specs, input, MatchKind::Prefix)) is Some {
        unique_shortest(canonical_candidates(specs, input, MatchKind::Prefix))
    } else if unique_shortest(canonical_candidates(specs, input, MatchKind::Fuzzy)) is Some {
        unique_shortest(canonical_candidates(specs, input, MatchKind::Fuzzy))
    } else if unique_shortest(alias_candidates(specs, input, MatchKind::Prefix)) is Some {
        unique_shortest(alias_candidates(specs, input, MatchKind::Prefix))
    } else {
        unique_shortest(alias_candidates(specs, input, MatchKind::Fuzzy))
    }
}

/// Every name of the specs is short enough for its byte length to be counted.
pub open spec fn names_bounded(specs: Seq<SpecCommand>) -> bool {
    &&& forall|i: int| 0 <= i < specs.len() ==> 4 * (#[trigger] specs[i]).0.len() <= usize::MAX
    &&& forall|i: int, k: int|
        0 <= i < specs.len() && 0 <= k < specs[i].1.len() ==> 4 * (#[trigger] specs[i].1[k]).len()
            <= usize::MAX
}

fn kind_match(kind: &MatchKind, input: &str, target: &str) -> (r: bool)
    ensures
        r == kind_matches(*kind, input@, target@),
{
    match kind {
        MatchKind::Prefix => prefix_match(input, target),
        MatchKind::Fuzzy => fuzzy_match(input, target),
    }
}

fn first_exact<'a>(input: &str, specs: &'a [CommandSpec]) -> (r: Option<&'a str>)
    ensures
        r matches Some(x) ==> first_exact_canonical(commands_view(specs@), input@) == Some(x@),
        r is None ==> first_exact_canonical(commands_view(specs@), input@) is None,
{
    let ghost v = commands_view(specs@);
    let mut i: usize = 0;
    assert(v.skip(0) =~= v);
    while i < specs.len()
        invariant
            v == commands_view(specs@),
            i <= specs@.len(),
            first_exact_canonical(v, input@) == first_exact_canonical(v.skip(i as int), input@),
        decreases specs@.len() - i,
    {
        proof {
            assert(v.skip(i as int)[0] == v[i as int]);
            assert(v.skip(i as int).drop_first() =~= v.skip(i + 1));
        }
        if exact_match(input, specs[i].canonical.as_str()) {
            return Some(specs[i].canonical.as_str());
        }
        i += 1;
    }
    None
}

fn any_exact_alias(input: &str, spec: &CommandSpec) -> (r: bool)
    ensures
        r == has_exact_alias(command_view(*spec), input@),
{
    let ghost v = command_view(*spec);
    let mut k: usize = 0;
    while k < spec.aliases.len()
        invariant
            v == command_view(*spec),
            k <= spec.aliases@.len(),
            forall|j: int| 0 <= j < k ==> !eq_ignore_ascii_case(input@, #[trigger] v.1[j]),
        decreases spec.aliases@.len() - k,
    {
        if exact_match(input, spec.aliases[k].as_str()) {
            assert(v.1[k as int] == spec.aliases@[k as int]@);
            return true;
        }
        k += 1;
    }
    false
}

proof fn lemma_take_push<T>(s: Seq<T>, i: int)
    requires
        0 <= i < s.len(),
    ensures
        s.take(i + 1).drop_last() == s.take(i),
        s.take(i + 1).last() == s[i],
{
    assert(s.take(i + 1).drop_last() =~= s.take(i));
}

fn collect_exact_alias<'a>(input: &str, specs: &'a [CommandSpec]) -> (r: Vec<(&'a str, usize)>)
    ensures
        pairs_view(r@) == exact_alias_candidates(commands_view(specs@), input@),
{
    let ghost v = commands_view(specs@);
    let mut r: Vec<(&'a str, usize)> = Vec::new();
    let mut i: usize = 0;
    while i < specs.len()
        invariant
            v == commands_view(specs@),
            i <= specs@.len(),
            pairs_view(r@) == exact_alias_candidates(v.take(i as int), input@),
        decreases specs@.len() - i,
    {
        proof {
            lemma_take_push(v, i as int);
        }
        if any_exact_alias(input, &specs[i]) {
            r.push((specs[i].canonical.as_str(), 0));
            proof {
                assert(pairs_view(r@) =~= exact_alias_candidates(v.take(i as int), input@).push((v[i as int].0, 0usize)));
            }
        }
        i += 1;
    }
    proof {
        assert(v.take(specs@.len() as int) =~= v);
    }
    r
}

fn collect_canonical<'a>(input: &str, specs: &'a [CommandSpec], kind: &MatchKind) -> (r: Vec<(&'a str, usize)>)
    requires
        names_bounded(commands_view(specs@)),
    ensures
        pairs_view(r@) == canonical_candidates(commands_view(specs@), input@, *kind),
{
    let ghost v = commands_view(specs@);
    let mut r: Vec<(&'a str, usize)> = Vec::new();
    let mut i: usize = 0;
    while i < specs.len()
        invariant
            v == commands_view(specs@),
            names_bounded(v),
            i <= specs@.len(),
            pairs_view(r@) == canonical_candidates(v.take(i as int), input@, *kind),
        decreases specs@.len() - i,
    {
        proof {
            lemma_take_push(v, i as int);
            assert(v[i as int] == command_view(specs@[i as int]));
        }
        let name = specs[i].canonical.as_str();
        if kind_match(kind, input, name) {
            let cs = chars_of(name);
            let n = byte_len(cs.as_slice());
            r.push((name, n));
            proof {
                assert(pairs_view(r@) =~= canonical_candidates(v.take(i as int), input@, *kind).push((v[i as int].0, utf8_len(v[i as int].0) as usize)));
            }
        }
        i += 1;
    }
    proof {
        assert(v.take(specs@.len() as int) =~= v);
    }
    r
}

fn collect_alias<'a>(input: &str, specs: &'a [CommandSpec], kind: &MatchKind) -> (r: Vec<(&'a str, usize)>)
    requires
        names_bounded(commands_view(specs@)),
    ensures
        pairs_view(r@) == alias_candidates(commands_view(specs@), input@, *kind),
{
    let ghost v = commands_view(specs@);
    let mut r: Vec<(&'a str, usize)> = Vec::new();
    let mut i: usize = 0;
    while i < specs.len()
        invariant
            v == commands_view(specs@),
            names_bounded(v),
            i <= specs@.len(),
            pairs_view(r@) == alias_candidates(v.take(i as int), input@, *kind),
        decreases specs@.len() - i,
    {
        proof {
            lemma_take_push(v, i as int);
        }
        let spec = &specs[i];
        let canonical = spec.canonical.as_str();
        let ghost sv = command_view(*spec);
        let ghost before = pairs_view(r@);
        let mut k: usize = 0;
        while k < spec.aliases.len()
            invariant
                v == commands_view(specs@),
                names_bounded(v),
                i < specs@.len(),
                sv == v[i as int],
                sv == command_view(*spec),
                canonical@ == sv.0,
                k <= spec.aliases@.len(),
                pairs_view(r@) == before + alias_entries(sv.0, sv.1.take(k as int), input@, *kind),
            decreases spec.aliases@.len() - k,
        {
            proof {
                lemma_take_push(sv.1, k as int);
                assert(sv.1[k as int] == spec.aliases@[k as int]@);
                assert(4 * v[i as int].1[k as int].len() <= usize::MAX);
            }
            let alias = spec.aliases[k].as_str();
            if kind_match(kind, input, alias) {
                let cs = chars_of(alias);
                let n = byte_len(cs.as_slice());
                r.push((canonical, n));
                proof {
                    assert(pairs_view(r@) =~= (before + alias_entries(sv.0, sv.1.take(k as int), input@, *kind)).push((sv.0, utf8_len(sv.1[k as int]) as usize)));
                }
            }
            k += 1;
        }
        proof {
            assert(sv.1.take(spec.aliases@.len() as int) =~= sv.1);
            assert(pairs_view(r@) =~= alias_candidates(v.take(i + 1), input@, *kind));
        }
        i += 1;
    }
    proof {
        assert(v.take(specs@.len() as int) =~= v);
    }
    r
}

/// The subcommand that `input` stands for among `specs` (see
/// `spec_resolve_command`).
pub fn resolve_command_in(input: &str, specs: &[CommandSpec]) -> (r: Option<String>)
    requires
        names_bounded(commands_view(specs@)),
    ensures
        r matches Some(x) ==> spec_resolve_command(input@, commands_view(specs@)) == Some(x@),
        r is None ==> spec_resolve_command(input@, commands_view(specs@)) is None,
{
    if input.is_empty() {
        return None;
    }
    if let Some(c) = first_exact(input, specs) {
        return Some(copy_str(c));
    }
    let exact_alias = collect_exact_alias(input, specs);
    if exact_alias.len() > 0 {
        return match pick_unique_shortest(exact_alias.as_slice()) {
            Some(c) => Some(copy_str(c)),
            None => None,
        };
    }
    let prefix_canonical = collect_canonical(input, specs, &MatchKind::Prefix);
    if let Some(c) = pick_unique_shortest(prefix_canonical.as_slice()) {
        return Some(copy_str(c));
    }
    let fuzzy_canonical = collect_canonical(input, specs, &MatchKind::Fuzzy);
    if let Some(c) = pick_unique_shortest(fuzzy_canonical.as_slice()) {
        return Some(copy_str(c));
    }
    let prefix_alias = collect_alias(input, specs, &MatchKind::Prefix);
    if let Some(c) = pick_unique_shortest_alias(prefix_alias.as_slice()) {
        return Some(copy_str(c));
    }
    let fuzzy_alias = collect_alias(input, specs, &MatchKind::Fuzzy);
    match pick_unique_shortest_alias(fuzzy_alias.as_slice()) {
        Some(c) => Some(copy_str(c)),
        None => None,
    }
}

/// The subcommand that `input` stands for among the subcommands of this
/// command line.
pub fn resolve_command(input: &str) -> (r: Option<String>)
    ensures
        r matches Some(x) ==> spec_resolve_command(input@, spec_cli_command_specs()) == Some(x@),
        r is None ==> spec_resolve_command(input@, spec_cli_command_specs()) is None,
{
    let specs = cli_command_specs();
    proof {
        let v = commands_view(specs@);
        assert forall|i: int| 0 <= i < v.len() implies 4 * (#[trigger] v[i]).0.len() <= usize::MAX by {}
    }
    resolve_command_in(input, specs.as_slice())
}


// ---------------------------------------------------------------------------
// Expanding the command line
// ---------------------------------------------------------------------------

pub open spec fn strings_view(v: Seq<String>) -> Seq<Seq<char>> {
    v.map_values(|s: String| s@)
}

pub open spec fn starts_with_dash(a: Seq<char>) -> bool {
    a.len() > 0 && a[0] == '-'
}

/// Position of the first `c` in `s`, if any.
pub open spec fn first_position(s: Seq<char>, c: char) -> Option<int> {
    if exists|k: int| 0 <= k < s.len() && s[k] == c {
        Some(choose|k: int| 0 <= k < s.len() && s[k] == c && forall|j: int| 0 <= j < k ==> s[j] != c)
    } else {
        None
    }
}

/// The flag name of a `--name` or `--name=value` token (without the dashes),
/// and whether a value is attached with `=`.
pub open spec fn long_flag_name(token: Seq<char>) -> (Seq<char>, bool) {
    match first_position(token, '=') {
        Some(k) => (token.take(k), true),
        None => (token, false),
    }
}

pub open spec fn long_takes_value(long: Seq<(Seq<char>, bool)>, name: Seq<char>) -> bool {
    exists|k: int| 0 <= k < long.len() && #[trigger] long[k] == (name, true)
}

pub open spec fn short_takes_value(short: Seq<(char, bool)>, c: char) -> bool {
    exists|k: int| 0 <= k < short.len() && #[trigger] short[k] == (c, true)
}

/// Scanning the arguments from position `i` on, skipping options and the
/// values of options that take one: the position of the first argument that
/// is not an option, or `None` when the arguments run out or `--` comes first.
pub open spec fn scan_for_command(
    args: Seq<Seq<char>>,
    i: int,
    short: Seq<(char, bool)>,
    long: Seq<(Seq<char>, bool)>,
) -> Option<int>
    decreases args.len() - i,
{
    if i < 0 || i >= args.len() {
        None
    } else {
        let arg = args[i];
        if arg == seq!['-', '-'] {
            None
        } else if is_prefix(seq!['-', '-'], arg) {
            let (name, inline) = long_flag_name(arg.skip(2));
            if long_takes_value(long, name) && !inline && i + 1 < args.len() && !starts_with_dash(args[i + 1]) {
                scan_for_command(args, i + 2, short, long)
            } else {
                scan_for_command(args, i + 1, short, long)
            }
        } else if starts_with_dash(arg) && utf8_len(arg) == 2 {
            if short_takes_value(short, arg[1]) && i + 1 < args.len() && !starts_with_dash(args[i + 1]) {
                scan_for_command(args, i + 2, short, long)
            } else {
                scan_for_command(args, i + 1, short, long)
            }
        } else if starts_with_dash(arg) {
            scan_for_command(args, i + 1, short, long)
        } else {
            Some(i)
        }
    }
}

/// The arguments with the subcommand shorthand (the first argument after the
/// program name that is neither an option nor an option's value) replaced by
/// the subcommand it stands for; unchanged when there is none, when `--`
/// comes first, or when the shorthand stands for nothing.
pub open spec fn spec_expand_command(
    args: Seq<Seq<char>>,
    specs: Seq<SpecCommand>,
    short: Seq<(char, bool)>,
    long: Seq<(Seq<char>, bool)>,
) -> Seq<Seq<char>> {
    if args.len() < 2 {
        args
    } else {
        match scan_for_command(args, 1, short, long) {
            None => args,
            Some(ci) => match spec_resolve_command(args[ci], specs) {
                Some(c) => args.update(ci, c),
                None => args,
            },
        }
    }
}

proof fn lemma_utf8_len_at_least(s: Seq<char>)
    ensures
        utf8_len(s) >= s.len(),
    decreases s.len(),
{
    if s.len() > 0 {
        lemma_utf8_len_at_least(s.drop_last());
    }
}

/// An argument that starts with `-` is two bytes long exactly when it has two
/// characters and the second is ASCII.
proof fn lemma_two_byte_flag(a: Seq<char>)
    requires
        starts_with_dash(a),
    ensures
        utf8_len(a) == 2 <==> (a.len() == 2 && (a[1] as u32) < 0x80),
{
    if a.len() == 1 {
        assert(a.drop_last().len() == 0);
        assert(utf8_len(a) == 1);
    } else if a.len() == 2 {
        let d = a.drop_last();
        assert(d.drop_last().len() == 0);
        assert(utf8_len(d.drop_last()) == 0);
        assert(d.last() == '-');
        assert(utf8_len(d) == 1);
    } else {
        let d = a.drop_last();
        lemma_utf8_len_at_least(d);
    }
}

fn is_dash_prefixed(a: &[char]) -> (r: bool)
    ensures
        r == starts_with_dash(a@),
{
    a.len() > 0 && a[0] == '-'
}

fn long_lookup(long: &Vec<(String, bool)>, name: &[char]) -> (r: bool)
    ensures
        r == long_takes_value(long@.map_values(|p: (String, bool)| (p.0@, p.1)), name@),
{
    let ghost lv = long@.map_values(|p: (String, bool)| (p.0@, p.1));
    let mut k: usize = 0;
    while k < long.len()
        invariant
            lv == long@.map_values(|p: (String, bool)| (p.0@, p.1)),
            k <= long@.len(),
            forall|j: int| 0 <= j < k ==> #[trigger] lv[j] != (name@, true),
        decreases long@.len() - k,
    {
        let entry = &long[k];
        let ec = chars_of(entry.0.as_str());
        if entry.1 && chars_eq(ec.as_slice(), name) {
            assert(lv[k as int] == (name@, true));
            return true;
        }
        k += 1;
    }
    false
}

fn short_lookup(short: &Vec<(char, bool)>, c: char) -> (r: bool)
    ensures
        r == short_takes_value(short@, c),
{
    let mut k: usize = 0;
    while k < short.len()
        invariant
            k <= short@.len(),
            forall|j: int| 0 <= j < k ==> #[trigger] short@[j] != (c, true),
        decreases short@.len() - k,
    {
        if short[k].1 && short[k].0 == c {
            assert(short@[k as int] == (c, true));
            return true;
        }
        k += 1;
    }
    false
}

/// The name part of a long-option token and whether `=` attaches a value.
fn split_long_flag(token: &[char]) -> (r: (Vec<char>, bool))
    ensures
        (r.0@, r.1) == long_flag_name(token@),
{
    let mut k: usize = 0;
    while k < token.len()
        invariant
            k <= token@.len(),
            forall|j: int| 0 <= j < k ==> token@[j] != '=',
        decreases token@.len() - k,
    {
        if token[k] == '=' {
            let mut name: Vec<char> = Vec::new();
            let mut j: usize = 0;
            while j < k
                invariant
                    j <= k,
                    k < token@.len(),
                    name@ == token@.take(j as int),
                decreases k - j,
            {
                name.push(token[j]);
                proof {
                    assert(token@.take(j + 1) =~= token@.take(j as int).push(token@[j as int]));
                }
                j += 1;
            }
            proof {
                assert(exists|x: int| 0 <= x < token@.len() && token@[x] == '=');
                let p = choose|x: int|
                    0 <= x < token@.len() && token@[x] == '=' && forall|y: int| 0 <= y < x ==> token@[y] != '=';
                assert(p == k as int) by {
                    if p < k {
                        assert(token@[p] != '=');
                    }
                    if p > k {
                        assert(token@[k as int] != '=');
                    }
                }
            }
            return (name, true);
        }
        k += 1;
    }
    let mut whole: Vec<char> = Vec::new();
    let mut j: usize = 0;
    while j < token.len()
        invariant
            j <= token@.len(),
            whole@ == token@.take(j as int),
        decreases token@.len() - j,
    {
        whole.push(token[j]);
        proof {
            assert(token@.take(j + 1) =~= token@.take(j as int).push(token@[j as int]));
        }
        j += 1;
    }
    proof {
        assert(token@.take(token@.len() as int) =~= token@);
    }
    (whole, false)
}

/// Rewrites the subcommand shorthand of a command line (`sqs l` becomes
/// `sqs list`, `sqs --root /p ad` becomes `sqs --root /p add`); see
/// `spec_expand_command`. `args[0]` is the program name.
pub fn expand_command(args: Vec<String>) -> (r: Vec<String>)
    ensures
        strings_view(r@) == spec_expand_command(
            strings_view(args@),
            spec_cli_command_specs(),
            spec_cli_flag_scan_specs().0,
            spec_cli_flag_scan_specs().1,
        ),
{
    let ghost av = strings_view(args@);
    let ghost short_v = spec_cli_flag_scan_specs().0;
    let ghost long_v = spec_cli_flag_scan_specs().1;
    if args.len() < 2 {
        return args;
    }
    let flag_specs = cli_flag_scan_specs();
    let mut command_index: Option<usize> = None;
    let mut i: usize = 1;
    while i < args.len()
        invariant_except_break
            av == strings_view(args@),
            short_v == spec_cli_flag_scan_specs().0,
            long_v == spec_cli_flag_scan_specs().1,
            short_v == flag_specs.short@,
            long_v == flag_specs.long@.map_values(|p: (String, bool)| (p.0@, p.1)),
            1 <= i <= args@.len(),
            command_index is None,
            scan_for_command(av, 1, short_v, long_v) == scan_for_command(av, i as int, short_v, long_v),
        ensures
            av == strings_view(args@),
            short_v == spec_cli_flag_scan_specs().0,
            long_v == spec_cli_flag_scan_specs().1,
            command_index matches Some(ci) ==> ci < args@.len() && scan_for_command(av, 1, short_v, long_v) == Some(ci as int),
            command_index is None ==> scan_for_command(av, 1, short_v, long_v) is None,
        decreases args@.len() - i,
    {
        let arg = chars_of(args[i].as_str());
        proof {
            assert(av[i as int] == arg@);
        }
        if arg.len() == 2 && arg[0] == '-' && arg[1] == '-' {
            proof {
                assert(arg@ =~= seq!['-', '-']);
                assert(scan_for_command(av, i as int, short_v, long_v) is None);
                assert(scan_for_command(av, 1, short_v, long_v) is None);
                assert(spec_expand_command(av, spec_cli_command_specs(), short_v, long_v) == av);
            }
            return args;
        }
        if arg.len() >= 2 && arg[0] == '-' && arg[1] == '-' {
            proof {
                assert(arg@.take(2) =~= seq!['-', '-']);
                assert(arg@ != seq!['-', '-']);
            }
            let mut token: Vec<char> = Vec::new();
            let mut t: usize = 2;
            while t < arg.len()
                invariant
                    2 <= t <= arg@.len(),
                    token@ == arg@.subrange(2, t as int),
                decreases arg@.len() - t,
            {
                token.push(arg[t]);
                proof {
                    assert(arg@.subrange(2, t + 1) =~= arg@.subrange(2, t as int).push(arg@[t as int]));
                }
                t += 1;
            }
            proof {
                assert(token@ =~= arg@.skip(2));
            }
            let (long_name, has_inline_value) = split_long_flag(token.as_slice());
            i += 1;
            if long_lookup(&flag_specs.long, long_name.as_slice()) && !has_inline_value && i < args.len() {
                let next = chars_of(args[i].as_str());
                proof {
                    assert(av[i as int] == next@);
                }
                if !is_dash_prefixed(next.as_slice()) {
                    i += 1;
                }
            }
            continue;
        }
        proof {
            if arg@.len() >= 2 && arg@[0] == '-' && arg@[1] == '-' {
            } else {
                assert(!is_prefix(seq!['-', '-'], arg@)) by {
                    if is_prefix(seq!['-', '-'], arg@) {
                        assert(arg@.take(2)[0] == '-');
                        assert(arg@.take(2)[1] == '-');
                    }
                }
            }
        }
        if is_dash_prefixed(arg.as_slice()) && arg.len() == 2 && (arg[1] as u32) < 0x80 {
            proof {
                lemma_two_byte_flag(arg@);
            }
            let short_name = arg[1];
            i += 1;
            if short_lookup(&flag_specs.short, short_name) && i < args.len() {
                let next = chars_of(args[i].as_str());
                proof {
                    assert(av[i as int] == next@);
                }
                if !is_dash_prefixed(next.as_slice()) {
                    i += 1;
                }
            }
            continue;
        }
        proof {
            if starts_with_dash(arg@) {
                lemma_two_byte_flag(arg@);
            }
        }
        if is_dash_prefixed(arg.as_slice()) {
            i += 1;
            continue;
        }
        command_index = Some(i);
        break;
    }
    let command_index = match command_index {
        Some(idx) => idx,
        None => return args,
    };
    let matched_command = resolve_command(args[command_index].as_str());
    match matched_command {
        Some(cmd) => {
            let mut expanded_args = args;
            expanded_args.set(command_index, cmd);
            proof {
                assert(strings_view(expanded_args@) =~= av.update(command_index as int, strings_view(expanded_args@)[command_index as int]));
            }
            expanded_args
        },
        None => args,
    }
}

// ---------------------------------------------------------------------------
// Expanding twice
// ---------------------------------------------------------------------------

/// `n` is the canonical name of one of `specs`.
pub open spec fn is_canonical(specs: Seq<SpecCommand>, n: Seq<char>) -> bool {
    exists|j: int| 0 <= j < specs.len() && (#[trigger] specs[j]).0 == n
}

/// Every candidate carries the canonical name of one of `specs`.
pub open spec fn canonical_names_only(c: Seq<(Seq<char>, usize)>, specs: Seq<SpecCommand>) -> bool {
    forall|i: int| 0 <= i < c.len() ==> is_canonical(specs, #[trigger] c[i].0)
}

/// No two canonical names are equal up to ASCII case.
pub open spec fn canonicals_distinct(specs: Seq<SpecCommand>) -> bool {
    forall|a: int, b: int| 0 <= a < b < specs.len() ==> !eq_ignore_ascii_case(#[trigger] specs[a].0, #[trigger] specs[b].0)
}

/// Every canonical name is non-empty and does not start with `-`.
pub open spec fn canonicals_plain(specs: Seq<SpecCommand>) -> bool {
    forall|a: int| 0 <= a < specs.len() ==> (#[trigger] specs[a]).0.len() > 0 && specs[a].0[0] != '-'
}

proof fn lemma_first_exact_is_canonical(specs: Seq<SpecCommand>, input: Seq<char>)
    ensures
        first_exact_canonical(specs, input) matches Some(c) ==> is_canonical(specs, c),
    decreases specs.len(),
{
    if specs.len() > 0 {
        let rest = specs.drop_first();
        lemma_first_exact_is_canonical(rest, input);
        if !eq_ignore_ascii_case(input, specs[0].0) {
            if let Some(c) = first_exact_canonical(rest, input) {
                let j = choose|j: int| 0 <= j < rest.len() && (#[trigger] rest[j]).0 == c;
                assert(specs[j + 1] == rest[j]);
            }
        } else {
            assert(specs[0].0 == specs[0].0);
        }
    }
}

proof fn lemma_exact_alias_candidates_canonical(specs: Seq<SpecCommand>, input: Seq<char>)
    ensures
        canonical_names_only(exact_alias_candidates(specs, input), specs),
    decreases specs.len(),
{
    if specs.len() > 0 {
        let d = specs.drop_last();
        lemma_exact_alias_candidates_canonical(d, input);
        let c = exact_alias_candidates(specs, input);
        assert forall|i: int| 0 <= i < c.len() implies is_canonical(specs, #[trigger] c[i].0) by {
            if i < exact_alias_candidates(d, input).len() {
                let n = c[i].0;
                assert(is_canonical(d, n));
                let j = choose|j: int| 0 <= j < d.len() && (#[trigger] d[j]).0 == n;
                assert(specs[j] == d[j]);
            } else {
                assert(specs[specs.len() - 1].0 == c[i].0);
            }
        }
    }
}

proof fn lemma_canonical_candidates_canonical(specs: Seq<SpecCommand>, input: Seq<char>, kind: MatchKind)
    ensures
        canonical_names_only(canonical_candidates(specs, input, kind), specs),
    decreases specs.len(),
{
    if specs.len() > 0 {
        let d = specs.drop_last();
        lemma_canonical_candidates_canonical(d, input, kind);
        let c = canonical_candidates(specs, input, kind);
        assert forall|i: int| 0 <= i < c.len() implies is_canonical(specs, #[trigger] c[i].0) by {
            if i < canonical_candidates(d, input, kind).len() {
                let n = c[i].0;
                assert(is_canonical(d, n));
                let j = choose|j: int| 0 <= j < d.len() && (#[trigger] d[j]).0 == n;
                assert(specs[j] == d[j]);
            } else {
                assert(specs[specs.len() - 1].0 == c[i].0);
            }
        }
    }
}

proof fn lemma_alias_entries_named(canonical: Seq<char>, aliases: Seq<Seq<char>>, input: Seq<char>, kind: MatchKind)
    ensures
        forall|i: int|
            0 <= i < alias_entries(canonical, aliases, input, kind).len() ==> (#[trigger] alias_entries(
                canonical,
                aliases,
                input,
                kind,
            )[i]).0 == canonical,
    decreases aliases.len(),
{
    if aliases.len() > 0 {
        lemma_alias_entries_named(canonical, aliases.drop_last(), input, kind);
        let r = alias_entries(canonical, aliases, input, kind);
        let rest = alias_entries(canonical, aliases.drop_last(), input, kind);
        assert forall|i: int| 0 <= i < r.len() implies (#[trigger] r[i]).0 == canonical by {
            if i < rest.len() {
                assert(r[i] == rest[i]);
            }
        }
    }
}

proof fn lemma_alias_candidates_canonical(specs: Seq<SpecCommand>, input: Seq<char>, kind: MatchKind)
    ensures
        canonical_names_only(alias_candidates(specs, input, kind), specs),
    decreases specs.len(),
{
    if specs.len() > 0 {
        let d = specs.drop_last();
        let last = specs.last();
        lemma_alias_candidates_canonical(d, input, kind);
        lemma_alias_entries_named(last.0, last.1, input, kind);
        let prev = alias_candidates(d, input, kind);
        let c = alias_candidates(specs, input, kind);
        assert forall|i: int| 0 <= i < c.len() implies is_canonical(specs, #[trigger] c[i].0) by {
            if i < prev.len() {
                let n = c[i].0;
                assert(c[i] == prev[i]);
                assert(is_canonical(d, n));
                let j = choose|j: int| 0 <= j < d.len() && (#[trigger] d[j]).0 == n;
                assert(specs[j] == d[j]);
            } else {
                assert(c[i] == alias_entries(last.0, last.1, input, kind)[i - prev.len()]);
                assert(specs[specs.len() - 1].0 == c[i].0);
            }
        }
    }
}

proof fn lemma_unique_shortest_member(c: Seq<(Seq<char>, usize)>, specs: Seq<SpecCommand>)
    requires
        canonical_names_only(c, specs),
    ensures
        unique_shortest(c) matches Some(n) ==> is_canonical(specs, n),
{
    if let Some(n) = unique_shortest(c) {
        assert(is_only(shortest_names(c), n));
        assert(set![n].contains(n));
        assert(shortest_names(c).contains(n));
        let i = choose|i: int| 0 <= i < c.len() && #[trigger] c[i] == (n, min_len(c));
        assert(is_canonical(specs, c[i].0));
    }
}

/// Whatever a shorthand resolves to is the canonical name of one of `specs`.
proof fn lemma_resolve_gives_canonical(input: Seq<char>, specs: Seq<SpecCommand>)
    ensures
        spec_resolve_command(input, specs) matches Some(c) ==> is_canonical(specs, c),
{
    lemma_first_exact_is_canonical(specs, input);
    lemma_exact_alias_candidates_canonical(specs, input);
    lemma_canonical_candidates_canonical(specs, input, MatchKind::Prefix);
    lemma_canonical_candidates_canonical(specs, input, MatchKind::Fuzzy);
    lemma_alias_candidates_canonical(specs, input, MatchKind::Prefix);
    lemma_alias_candidates_canonical(specs, input, MatchKind::Fuzzy);
    lemma_unique_shortest_member(exact_alias_candidates(specs, input), specs);
    lemma_unique_shortest_member(canonical_candidates(specs, input, MatchKind::Prefix), specs);
    lemma_unique_shortest_member(canonical_candidates(specs, input, MatchKind::Fuzzy), specs);
    lemma_unique_shortest_member(alias_candidates(specs, input, MatchKind::Prefix), specs);
    lemma_unique_shortest_member(alias_candidates(specs, input, MatchKind::Fuzzy), specs);
}

proof fn lemma_first_exact_finds_itself(specs: Seq<SpecCommand>, k: int)
    requires
        canonicals_distinct(specs),
        0 <= k < specs.len(),
    ensures
        first_exact_canonical(specs, specs[k].0) == Some(specs[k].0),
    decreases k,
{
    let x = specs[k].0;
    if k == 0 {
        assert(eq_ignore_ascii_case(x, specs[0].0));
    } else {
        let rest = specs.drop_first();
        assert(!eq_ignore_ascii_case(specs[0].0, x));
        assert(!eq_ignore_ascii_case(x, specs[0].0)) by {
            if eq_ignore_ascii_case(x, specs[0].0) {
                assert forall|i: int| 0 <= i < x.len() implies ascii_lower(#[trigger] specs[0].0[i]) == ascii_lower(x[i]) by {
                    assert(ascii_lower(x[i]) == ascii_lower(specs[0].0[i]));
                }
            }
        }
        assert forall|a: int, b: int| 0 <= a < b < rest.len() implies !eq_ignore_ascii_case(
            #[trigger] rest[a].0,
            #[trigger] rest[b].0,
        ) by {
            assert(rest[a] == specs[a + 1]);
            assert(rest[b] == specs[b + 1]);
        }
        assert(rest[k - 1] == specs[k]);
        lemma_first_exact_finds_itself(rest, k - 1);
    }
}

/// A canonical name resolves to itself when no other canonical name equals
/// it up to ASCII case.
proof fn lemma_resolve_canonical(specs: Seq<SpecCommand>, k: int)
    requires
        canonicals_distinct(specs),
        0 <= k < specs.len(),
        specs[k].0.len() > 0,
    ensures
        spec_resolve_command(specs[k].0, specs) == Some(specs[k].0),
{
    lemma_first_exact_finds_itself(specs, k);
}

/// Where the scan stops: an argument, at or after `i`, that is not an option.
proof fn lemma_scan_result(args: Seq<Seq<char>>, i: int, short: Seq<(char, bool)>, long: Seq<(Seq<char>, bool)>)
    ensures
        scan_for_command(args, i, short, long) matches Some(j) ==> i <= j < args.len() && !starts_with_dash(args[j]),
    decreases args.len() - i,
{
    if 0 <= i < args.len() {
        lemma_scan_result(args, i + 1, short, long);
        if i + 1 < args.len() {
            lemma_scan_result(args, i + 2, short, long);
        }
    }
}

/// Putting an argument that is not an option where the scan stopped leaves
/// the scan stopping there.
proof fn lemma_scan_update(
    args: Seq<Seq<char>>,
    i: int,
    short: Seq<(char, bool)>,
    long: Seq<(Seq<char>, bool)>,
    ci: int,
    c: Seq<char>,
)
    requires
        scan_for_command(args, i, short, long) == Some(ci),
        !starts_with_dash(c),
    ensures
        scan_for_command(args.update(ci, c), i, short, long) == Some(ci),
    decreases args.len() - i,
{
    let e = args.update(ci, c);
    lemma_scan_result(args, i, short, long);
    if i < ci {
        assert(e[i] == args[i]);
        if i + 1 < args.len() {
            assert(starts_with_dash(e[i + 1]) == starts_with_dash(args[i + 1]));
        }
        lemma_scan_result(args, i + 1, short, long);
        if scan_for_command(args, i + 1, short, long) == Some(ci) {
            lemma_scan_update(args, i + 1, short, long, ci, c);
        }
        if i + 1 < args.len() {
            lemma_scan_result(args, i + 2, short, long);
            if scan_for_command(args, i + 2, short, long) == Some(ci) {
                lemma_scan_update(args, i + 2, short, long, ci, c);
            }
        }
    } else {
        assert(e[ci] == c);
        assert(!is_prefix(seq!['-', '-'], c)) by {
            if is_prefix(seq!['-', '-'], c) {
                assert(c[0] == seq!['-', '-'][0]);
            }
        }
        assert(c != seq!['-', '-']) by {
            if c == seq!['-', '-'] {
                assert(c[0] == '-');
            }
        }
    }
}

/// Expanding an expanded command line changes nothing, for any table of
/// subcommands whose canonical names are non-empty, do not start with `-`,
/// and are pairwise different up to ASCII case.
pub proof fn lemma_expand_command_idempotent_for(
    args: Seq<Seq<char>>,
    specs: Seq<SpecCommand>,
    short: Seq<(char, bool)>,
    long: Seq<(Seq<char>, bool)>,
)
    requires
        canonicals_distinct(specs),
        canonicals_plain(specs),
    ensures
        spec_expand_command(spec_expand_command(args, specs, short, long), specs, short, long)
            == spec_expand_command(args, specs, short, long),
{
    if args.len() >= 2 {
        if let Some(ci) = scan_for_command(args, 1, short, long) {
            if let Some(c) = spec_resolve_command(args[ci], specs) {
                lemma_resolve_gives_canonical(args[ci], specs);
                let j = choose|j: int| 0 <= j < specs.len() && (#[trigger] specs[j]).0 == c;
                assert(specs[j].0.len() > 0 && specs[j].0[0] != '-');
                lemma_scan_result(args, 1, short, long);
                lemma_scan_update(args, 1, short, long, ci, c);
                lemma_resolve_canonical(specs, j);
                let e = args.update(ci, c);
                assert(e[ci] == c);
                assert(e.update(ci, c) =~= e);
            }
        }
    }
}

/// Expanding an expanded command line changes nothing: the subcommand a
/// shorthand was replaced by resolves to itself, and the scan finds it at
/// the same place.
pub proof fn lemma_expand_command_idempotent(args: Seq<Seq<char>>)
    ensures
        spec_expand_command(
            spec_expand_command(
                args,
                spec_cli_command_specs(),
                spec_cli_flag_scan_specs().0,
                spec_cli_flag_scan_specs().1,
            ),
            spec_cli_command_specs(),
            spec_cli_flag_scan_specs().0,
            spec_cli_flag_scan_specs().1,
        ) == spec_expand_command(
            args,
            spec_cli_command_specs(),
            spec_cli_flag_scan_specs().0,
            spec_cli_flag_scan_specs().1,
        ),
{
    lemma_cli_command_names_distinct();
    lemma_expand_command_idempotent_for(
        args,
        spec_cli_command_specs(),
        spec_cli_flag_scan_specs().0,
        spec_cli_flag_scan_specs().1,
    );
}

// ---------------------------------------------------------------------------
// Which stage decides
// ---------------------------------------------------------------------------

/// No canonical name and no alias equals `input` up to ASCII case.
pub open spec fn no_exact_name(specs: Seq<SpecCommand>, input: Seq<char>) -> bool {
    &&& forall|j: int| 0 <= j < specs.len() ==> !eq_ignore_ascii_case(input, #[trigger] specs[j].0)
    &&& forall|j: int, a: int|
        0 <= j < specs.len() && 0 <= a < specs[j].1.len() ==> !eq_ignore_ascii_case(input, #[trigger] specs[j].1[a])
}

/// Among the canonical names that `input` matches by `kind` (prefix or
/// fuzzy, ignoring case), `specs[k]`'s is the one of fewest bytes: every
/// other matched name is longer.
pub open spec fn shortest_match(specs: Seq<SpecCommand>, k: int, input: Seq<char>, kind: MatchKind) -> bool {
    &&& 0 <= k < specs.len()
    &&& kind_matches(kind, input, specs[k].0)
    &&& forall|j: int|
        0 <= j < specs.len() && kind_matches(kind, input, #[trigger] specs[j].0) && specs[j].0 != specs[k].0
            ==> utf8_len(specs[k].0) < utf8_len(specs[j].0)
}

proof fn lemma_first_exact_none(specs: Seq<SpecCommand>, input: Seq<char>)
    requires
        forall|j: int| 0 <= j < specs.len() ==> !eq_ignore_ascii_case(input, #[trigger] specs[j].0),
    ensures
        first_exact_canonical(specs, input) is None,
    decreases specs.len(),
{
    if specs.len() > 0 {
        let rest = specs.drop_first();
        assert forall|j: int| 0 <= j < rest.len() implies !eq_ignore_ascii_case(input, #[trigger] rest[j].0) by {
            assert(rest[j] == specs[j + 1]);
        }
        assert(!eq_ignore_ascii_case(input, specs[0].0));
        lemma_first_exact_none(rest, input);
    }
}

proof fn lemma_first_exact_finds(specs: Seq<SpecCommand>, input: Seq<char>, k: int)
    requires
        0 <= k < specs.len(),
        eq_ignore_ascii_case(input, specs[k].0),
        forall|j: int| 0 <= j < k ==> !eq_ignore_ascii_case(input, #[trigger] specs[j].0),
    ensures
        first_exact_canonical(specs, input) == Some(specs[k].0),
    decreases k,
{
    if k > 0 {
        let rest = specs.drop_first();
        assert(!eq_ignore_ascii_case(input, specs[0].0));
        assert forall|j: int| 0 <= j < k - 1 implies !eq_ignore_ascii_case(input, #[trigger] rest[j].0) by {
            assert(rest[j] == specs[j + 1]);
        }
        assert(rest[k - 1] == specs[k]);
        lemma_first_exact_finds(rest, input, k - 1);
    }
}

proof fn lemma_exact_alias_none(specs: Seq<SpecCommand>, input: Seq<char>)
    requires
        no_exact_name(specs, input),
    ensures
        exact_alias_candidates(specs, input).len() == 0,
    decreases specs.len(),
{
    if specs.len() > 0 {
        let d = specs.drop_last();
        assert forall|j: int| 0 <= j < d.len() implies !eq_ignore_ascii_case(input, #[trigger] d[j].0) by {
            assert(d[j] == specs[j]);
        }
        assert forall|j: int, a: int| 0 <= j < d.len() && 0 <= a < d[j].1.len() implies !eq_ignore_ascii_case(
            input,
            #[trigger] d[j].1[a],
        ) by {
            assert(d[j] == specs[j]);
        }
        lemma_exact_alias_none(d, input);
        let last = specs[specs.len() - 1];
        assert(!has_exact_alias(specs.last(), input)) by {
            if has_exact_alias(specs.last(), input) {
                let a = choose|a: int| 0 <= a < specs.last().1.len() && eq_ignore_ascii_case(input, #[trigger] specs.last().1[a]);
                assert(!eq_ignore_ascii_case(input, specs[specs.len() - 1].1[a]));
            }
        }
    }
}

/// The canonical candidates are exactly the canonical names `kind` accepts,
/// each with its byte length.
/// `e` is the entry of a canonical name that `input` matches by `kind`,
/// with that name's byte length.
pub open spec fn accepted_entry(specs: Seq<SpecCommand>, input: Seq<char>, kind: MatchKind, e: (Seq<char>, usize)) -> bool {
    exists|j: int|
        0 <= j < specs.len() && e == ((#[trigger] specs[j]).0, utf8_len(specs[j].0) as usize) && kind_matches(
            kind,
            input,
            specs[j].0,
        )
}

/// The canonical candidates are exactly the canonical names `kind` accepts,
/// each with its byte length.
proof fn lemma_canonical_candidates_entries(specs: Seq<SpecCommand>, input: Seq<char>, kind: MatchKind)
    ensures
        forall|i: int|
            0 <= i < canonical_candidates(specs, input, kind).len() ==> accepted_entry(
                specs,
                input,
                kind,
                #[trigger] canonical_candidates(specs, input, kind)[i],
            ),
        forall|j: int|
            0 <= j < specs.len() && kind_matches(kind, input, #[trigger] specs[j].0) ==> canonical_candidates(
                specs,
                input,
                kind,
            ).contains((specs[j].0, utf8_len(specs[j].0) as usize)),
    decreases specs.len(),
{
    if specs.len() > 0 {
        let d = specs.drop_last();
        lemma_canonical_candidates_entries(d, input, kind);
        let c = canonical_candidates(specs, input, kind);
        let prev = canonical_candidates(d, input, kind);
        assert forall|i: int| 0 <= i < c.len() implies accepted_entry(specs, input, kind, #[trigger] c[i]) by {
            if i < prev.len() {
                assert(c[i] == prev[i]);
                assert(accepted_entry(d, input, kind, prev[i]));
                let j = choose|j: int|
                    0 <= j < d.len() && prev[i] == ((#[trigger] d[j]).0, utf8_len(d[j].0) as usize) && kind_matches(
                        kind,
                        input,
                        d[j].0,
                    );
                assert(specs[j] == d[j]);
            } else {
                let j = specs.len() - 1;
                assert(c[i] == (specs[j].0, utf8_len(specs[j].0) as usize));
                assert(kind_matches(kind, input, specs[j].0));
            }
        }
        assert forall|j: int|
            0 <= j < specs.len() && kind_matches(kind, input, #[trigger] specs[j].0) implies c.contains(
            (specs[j].0, utf8_len(specs[j].0) as usize),
        ) by {
            if j < specs.len() - 1 {
                assert(d[j] == specs[j]);
                assert(prev.contains((d[j].0, utf8_len(d[j].0) as usize)));
                let i = choose|i: int| 0 <= i < prev.len() && prev[i] == (d[j].0, utf8_len(d[j].0) as usize);
                assert(c[i] == prev[i]);
            } else {
                assert(c[c.len() - 1] == (specs[j].0, utf8_len(specs[j].0) as usize));
            }
        }
    }
}

/// When one entry has the smallest length and every entry of that length
/// carries its name, that name is the unique shortest.
proof fn lemma_unique_shortest_is(c: Seq<(Seq<char>, usize)>, n: Seq<char>, m: usize, i0: int)
    requires
        0 <= i0 < c.len(),
        c[i0] == (n, m),
        forall|i: int| 0 <= i < c.len() ==> m <= #[trigger] c[i].1,
        forall|i: int| 0 <= i < c.len() && #[trigger] c[i].1 == m ==> c[i].0 == n,
    ensures
        unique_shortest(c) == Some(n),
{
    lemma_min_len_is(c, m, i0);
    assert(shortest_names(c) =~= set![n]) by {
        assert forall|x: Seq<char>| shortest_names(c).contains(x) implies x == n by {
            let i = choose|i: int| 0 <= i < c.len() && #[trigger] c[i] == (x, min_len(c));
            assert(c[i].1 == m);
        }
        assert(c[i0] == (n, min_len(c)));
    }
    assert(is_only(shortest_names(c), n));
    lemma_singleton_choice(shortest_names(c), n);
}

/// The stage over canonical names of kind `kind` picks `specs[k]` when its
/// name is the shortest one that `kind` accepts.
proof fn lemma_canonical_stage_picks(specs: Seq<SpecCommand>, input: Seq<char>, kind: MatchKind, k: int)
    requires
        names_bounded(specs),
        shortest_match(specs, k, input, kind),
    ensures
        unique_shortest(canonical_candidates(specs, input, kind)) == Some(specs[k].0),
{
    let c = canonical_candidates(specs, input, kind);
    let n = specs[k].0;
    lemma_canonical_candidates_entries(specs, input, kind);
    crate::text::lemma_utf8_len_bound(n);
    let m = utf8_len(n) as usize;
    assert(kind_matches(kind, input, specs[k].0));
    assert(c.contains((n, m)));
    let i0 = choose|i: int| 0 <= i < c.len() && c[i] == (n, m);
    assert forall|i: int| 0 <= i < c.len() implies m <= #[trigger] c[i].1 && (c[i].1 == m ==> c[i].0 == n) by {
        assert(accepted_entry(specs, input, kind, c[i]));
        let j = choose|j: int|
            0 <= j < specs.len() && c[i] == ((#[trigger] specs[j]).0, utf8_len(specs[j].0) as usize) && kind_matches(
                kind,
                input,
                specs[j].0,
            );
        crate::text::lemma_utf8_len_bound(specs[j].0);
        assert(4 * specs[j].0.len() <= usize::MAX);
        assert(4 * specs[k].0.len() <= usize::MAX);
        if specs[j].0 != n {
            assert(utf8_len(n) < utf8_len(specs[j].0));
        }
    }
    lemma_unique_shortest_is(c, n, m, i0);
}

/// A shorthand equal to a canonical name up to ASCII case resolves to the
/// first such name.
pub proof fn lemma_resolve_exact_name(input: Seq<char>, specs: Seq<SpecCommand>, k: int)
    requires
        input.len() > 0,
        0 <= k < specs.len(),
        eq_ignore_ascii_case(input, specs[k].0),
        forall|j: int| 0 <= j < k ==> !eq_ignore_ascii_case(input, #[trigger] specs[j].0),
    ensures
        spec_resolve_command(input, specs) == Some(specs[k].0),
{
    lemma_first_exact_finds(specs, input, k);
}

/// With no exact name, the prefix stage over canonical names decides
/// before any fuzzy matching: when `specs[k]`'s name is the shortest
/// canonical name the shorthand is a case-insensitive prefix of (in
/// particular, when it is the only one), the shorthand resolves to it
/// (`sqs i` is `sqs init`, even though `tui` contains an `i`).
pub proof fn lemma_resolve_prefix_before_fuzzy(input: Seq<char>, specs: Seq<SpecCommand>, k: int)
    requires
        input.len() > 0,
        names_bounded(specs),
        no_exact_name(specs, input),
        shortest_match(specs, k, input, MatchKind::Prefix),
    ensures
        spec_resolve_command(input, specs) == Some(specs[k].0),
{
    lemma_first_exact_none(specs, input);
    lemma_exact_alias_none(specs, input);
    lemma_canonical_stage_picks(specs, input, MatchKind::Prefix, k);
}

/// With no exact name and no canonical name that the shorthand is a prefix
/// of, the fuzzy stage over canonical names decides: the shortest name
/// that contains the shorthand's characters in order wins.
pub proof fn lemma_resolve_fuzzy_after_prefix(input: Seq<char>, specs: Seq<SpecCommand>, k: int)
    requires
        input.len() > 0,
        names_bounded(specs),
        no_exact_name(specs, input),
        forall|j: int| 0 <= j < specs.len() ==> !spec_prefix_match(input, #[trigger] specs[j].0),
        shortest_match(specs, k, input, MatchKind::Fuzzy),
    ensures
        spec_resolve_command(input, specs) == Some(specs[k].0),
{
    lemma_first_exact_none(specs, input);
    lemma_exact_alias_none(specs, input);
    lemma_canonical_candidates_entries(specs, input, MatchKind::Prefix);
    let cp = canonical_candidates(specs, input, MatchKind::Prefix);
    assert(cp.len() == 0) by {
        if cp.len() > 0 {
            assert(accepted_entry(specs, input, MatchKind::Prefix, cp[0]));
            let j = choose|j: int|
                0 <= j < specs.len() && cp[0] == ((#[trigger] specs[j]).0, utf8_len(specs[j].0) as usize)
                    && kind_matches(MatchKind::Prefix, input, specs[j].0);
            assert(!spec_prefix_match(input, specs[j].0));
        }
    }
    lemma_canonical_stage_picks(specs, input, MatchKind::Fuzzy, k);
}

/// Whatever a shorthand resolves to is one of the canonical names.
pub proof fn lemma_resolve_is_canonical(input: Seq<char>, specs: Seq<SpecCommand>)
    ensures
        spec_resolve_command(input, specs) matches Some(c) ==> exists|j: int| 0 <= j < specs.len() && (#[trigger] specs[j]).0 == c,
{
    lemma_resolve_gives_canonical(input, specs);
}

// ---------------------------------------------------------------------------
// Where the shorthand is looked for
// ---------------------------------------------------------------------------

/// Expansion rewrites at most one argument, never the program name and
/// never an option: the rewritten argument is the subcommand its old text
/// resolves to, and every other argument is kept.
pub proof fn lemma_expand_rewrites_one_argument(
    args: Seq<Seq<char>>,
    specs: Seq<SpecCommand>,
    short: Seq<(char, bool)>,
    long: Seq<(Seq<char>, bool)>,
)
    ensures
        ({
            let e = spec_expand_command(args, specs, short, long);
            &&& e.len() == args.len()
            &&& e == args || exists|i: int|
                1 <= i < args.len() && !starts_with_dash(#[trigger] args[i]) && spec_resolve_command(args[i], specs)
                    == Some(e[i]) && e == args.update(i, e[i])
        }),
{
    let e = spec_expand_command(args, specs, short, long);
    if args.len() >= 2 {
        lemma_scan_result(args, 1, short, long);
        if let Some(ci) = scan_for_command(args, 1, short, long) {
            if let Some(c) = spec_resolve_command(args[ci], specs) {
                assert(e[ci] == c);
                assert(e == args.update(ci, e[ci]));
            }
        }
    }
}

/// When the first argument after the program name is not an option, it is
/// the shorthand: it is replaced by the subcommand it resolves to (and the
/// line is kept when it resolves to none).
pub proof fn lemma_expand_first_argument(
    args: Seq<Seq<char>>,
    specs: Seq<SpecCommand>,
    short: Seq<(char, bool)>,
    long: Seq<(Seq<char>, bool)>,
)
    requires
        args.len() >= 2,
        !starts_with_dash(args[1]),
    ensures
        spec_expand_command(args, specs, short, long) == match spec_resolve_command(args[1], specs) {
            Some(c) => args.update(1, c),
            None => args,
        },
{
    assert(args[1] != seq!['-', '-']) by {
        if args[1] == seq!['-', '-'] {
            assert(args[1][0] == '-');
        }
    }
    assert(!is_prefix(seq!['-', '-'], args[1])) by {
        if is_prefix(seq!['-', '-'], args[1]) {
            assert(args[1].take(2)[0] == '-');
        }
    }
    assert(scan_for_command(args, 1, short, long) == Some(1int));
}

/// A `--` before any other argument ends option parsing: nothing after it
/// is expanded.
pub proof fn lemma_expand_stops_at_double_dash(
    args: Seq<Seq<char>>,
    specs: Seq<SpecCommand>,
    short: Seq<(char, bool)>,
    long: Seq<(Seq<char>, bool)>,
)
    requires
        args.len() >= 2,
        args[1] == seq!['-', '-'],
    ensures
        spec_expand_command(args, specs, short, long) == args,
{
}

/// The value of `--root` is not taken for the shorthand: in
/// `sqs --root PATH X ...` (PATH and X not options) it is `X` that is
/// expanded.
pub proof fn lemma_expand_skips_root_value(args: Seq<Seq<char>>)
    requires
        args.len() >= 4,
        args[1] == seq!['-', '-', 'r', 'o', 'o', 't'],
        !starts_with_dash(args[2]),
        !starts_with_dash(args[3]),
    ensures
        spec_expand_command(args, spec_cli_command_specs(), spec_cli_flag_scan_specs().0, spec_cli_flag_scan_specs().1)
            == match spec_resolve_command(args[3], spec_cli_command_specs()) {
            Some(c) => args.update(3, c),
            None => args,
        },
{
    let short = spec_cli_flag_scan_specs().0;
    let long = spec_cli_flag_scan_specs().1;
    let a1 = args[1];
    assert(is_prefix(seq!['-', '-'], a1)) by {
        assert(a1.take(2) =~= seq!['-', '-']);
    }
    assert(a1 != seq!['-', '-']);
    let name = a1.skip(2);
    assert(name =~= seq!['r', 'o', 'o', 't']);
    assert(!(exists|k: int| 0 <= k < name.len() && name[k] == '='));
    assert(first_position(name, '=') is None);
    assert(long_flag_name(name) == (name, false));
    assert(long[0] == (seq!['r', 'o', 'o', 't'], true));
    assert(long_takes_value(long, name));
    assert(args[3] != seq!['-', '-']) by {
        if args[3] == seq!['-', '-'] {
            assert(args[3][0] == '-');
        }
    }
    assert(!is_prefix(seq!['-', '-'], args[3])) by {
        if is_prefix(seq!['-', '-'], args[3]) {
            assert(args[3].take(2)[0] == '-');
        }
    }
    assert(scan_for_command(args, 3, short, long) == Some(3int));
    assert(scan_for_command(args, 1, short, long) == Some(3int));
}

/// `e` is the entry of a subcommand with an alias equal to `input`.
pub open spec fn exact_alias_entry(specs: Seq<SpecCommand>, input: Seq<char>, e: (Seq<char>, usize)) -> bool {
    exists|j: int| 0 <= j < specs.len() && e == ((#[trigger] specs[j]).0, 0usize) && has_exact_alias(specs[j], input)
}

proof fn lemma_exact_alias_entries(specs: Seq<SpecCommand>, input: Seq<char>)
    ensures
        forall|i: int|
            0 <= i < exact_alias_candidates(specs, input).len() ==> exact_alias_entry(
                specs,
                input,
                #[trigger] exact_alias_candidates(specs, input)[i],
            ),
        forall|j: int|
            0 <= j < specs.len() && has_exact_alias(#[trigger] specs[j], input) ==> exact_alias_candidates(
                specs,
                input,
            ).contains((specs[j].0, 0usize)),
    decreases specs.len(),
{
    if specs.len() > 0 {
        let d = specs.drop_last();
        lemma_exact_alias_entries(d, input);
        let c = exact_alias_candidates(specs, input);
        let prev = exact_alias_candidates(d, input);
        assert forall|i: int| 0 <= i < c.len() implies exact_alias_entry(specs, input, #[trigger] c[i]) by {
            if i < prev.len() {
                assert(c[i] == prev[i]);
                assert(exact_alias_entry(d, input, prev[i]));
                let j = choose|j: int| 0 <= j < d.len() && prev[i] == ((#[trigger] d[j]).0, 0usize) && has_exact_alias(d[j], input);
                assert(specs[j] == d[j]);
            } else {
                let j = specs.len() - 1;
                assert(c[i] == (specs[j].0, 0usize));
            }
        }
        assert forall|j: int| 0 <= j < specs.len() && has_exact_alias(#[trigger] specs[j], input) implies c.contains(
            (specs[j].0, 0usize),
        ) by {
            if j < specs.len() - 1 {
                assert(d[j] == specs[j]);
                assert(prev.contains((d[j].0, 0usize)));
                let i = choose|i: int| 0 <= i < prev.len() && prev[i] == (d[j].0, 0usize);
                assert(c[i] == prev[i]);
            } else {
                assert(c[c.len() - 1] == (specs[j].0, 0usize));
            }
        }
    }
}

/// With no canonical name equal to the shorthand, an alias equal to it
/// (ignoring ASCII case) decides before any prefix or fuzzy matching: when
/// the subcommands with such an alias all share `specs[k]`'s name, the
/// shorthand resolves to it.
pub proof fn lemma_resolve_exact_alias(input: Seq<char>, specs: Seq<SpecCommand>, k: int, a: int)
    requires
        input.len() > 0,
        forall|j: int| 0 <= j < specs.len() ==> !eq_ignore_ascii_case(input, #[trigger] specs[j].0),
        0 <= k < specs.len(),
        0 <= a < specs[k].1.len(),
        eq_ignore_ascii_case(input, specs[k].1[a]),
        forall|j: int| 0 <= j < specs.len() && has_exact_alias(#[trigger] specs[j], input) ==> specs[j].0 == specs[k].0,
    ensures
        spec_resolve_command(input, specs) == Some(specs[k].0),
{
    lemma_first_exact_none(specs, input);
    lemma_exact_alias_entries(specs, input);
    let c = exact_alias_candidates(specs, input);
    assert(has_exact_alias(specs[k], input));
    assert(c.contains((specs[k].0, 0usize)));
    let i0 = choose|i: int| 0 <= i < c.len() && c[i] == (specs[k].0, 0usize);
    assert forall|i: int| 0 <= i < c.len() implies 0usize <= #[trigger] c[i].1 && (c[i].1 == 0usize ==> c[i].0 == specs[k].0) by {
        assert(exact_alias_entry(specs, input, c[i]));
        let j = choose|j: int| 0 <= j < specs.len() && c[i] == ((#[trigger] specs[j]).0, 0usize) && has_exact_alias(specs[j], input);
    }
    lemma_unique_shortest_is(c, specs[k].0, 0usize, i0);
}

} // verus!
