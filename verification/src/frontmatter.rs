//! The layout of an item file: a YAML front-matter block between `---`
//! lines, then the body. Turning the YAML into fields is the caller's part;
//! the tags field is a space-separated string.
use vstd::prelude::*;
use crate::errors::AppError;
use crate::text::{chars_of, is_white_space, leading_ws, slice_string, trim_start, trim_start_index};
use crate::tui_state::names_view;

verus! {

broadcast use vstd::string::group_string_axioms;

/// The opening delimiter.
pub open spec fn open_delim() -> Seq<char> {
    seq!['-', '-', '-']
}

/// The closing delimiter, with the line break before it.
pub open spec fn close_delim() -> Seq<char> {
    seq!['\n', '-', '-', '-']
}

/// `k` is the first position where `needle` occurs in `s`.
pub open spec fn is_first_occurrence(needle: Seq<char>, s: Seq<char>, k: int) -> bool {
    &&& 0 <= k && k + needle.len() <= s.len()
    &&& s.subrange(k, k + needle.len()) == needle
    &&& forall|j: int| 0 <= j < k ==> #[trigger] s.subrange(j, j + needle.len()) != needle
}

/// Number of line breaks at the start of `s`.
pub open spec fn leading_newlines(s: Seq<char>) -> nat
    decreases s.len(),
{
    if s.len() > 0 && s[0] == '\n' {
        1 + leading_newlines(s.drop_first())
    } else {
        0
    }
}

/// How an item file splits: `Err(true)` without the opening delimiter,
/// `Err(false)` without the closing one, else the YAML text and the body
/// (the text after the closing delimiter, leading line breaks dropped).
/// Leading white space before the opening delimiter is ignored.
pub open spec fn spec_split(input: Seq<char>) -> Result<(Seq<char>, Seq<char>), bool> {
    let t = trim_start(input);
    if !(t.len() >= 3 && t.take(3) == open_delim()) {
        Err(true)
    } else {
        let after = t.skip(3);
        if exists|k: int| is_first_occurrence(close_delim(), after, k) {
            let k = choose|k: int| is_first_occurrence(close_delim(), after, k);
            let rest = after.skip(k + 4);
            Ok((after.take(k), rest.skip(leading_newlines(rest) as int)))
        } else {
            Err(false)
        }
    }
}

proof fn lemma_leading_newlines(s: Seq<char>, i: int)
    requires
        0 <= i <= s.len(),
        forall|k: int| 0 <= k < i ==> #[trigger] s[k] == '\n',
        i == s.len() || s[i] != '\n',
    ensures
        leading_newlines(s) == i,
    decreases i,
{
    if i > 0 {
        lemma_leading_newlines(s.drop_first(), i - 1);
    }
}

/// Splits an item file into its YAML front matter and its body.
pub fn split_item_file(input: &str) -> (r: Result<(String, String), AppError>)
    ensures
        match spec_split(input@) {
            Ok((yaml, body)) => r matches Ok(p) && p.0@ == yaml && p.1@ == body,
            Err(true) => r matches Err(AppError::Message(m)) && m@ == "missing frontmatter start delimiter"@,
            Err(false) => r matches Err(AppError::Message(m)) && m@ == "missing frontmatter end delimiter"@,
        },
{
    let cs = chars_of(input);
    let lo = trim_start_index(cs.as_slice());
    let ghost t = trim_start(input@);
    proof {
        assert(cs@.subrange(lo as int, cs@.len() as int) == t);
    }
    let n = cs.len();
    if !(n - lo >= 3 && cs[lo] == '-' && cs[lo + 1] == '-' && cs[lo + 2] == '-') {
        proof {
            if t.len() >= 3 && t.take(3) == open_delim() {
                assert(t.take(3)[0] == cs@[lo as int]);
                assert(t.take(3)[1] == cs@[lo + 1]);
                assert(t.take(3)[2] == cs@[lo + 2]);
            }
        }
        return Err(AppError::message(crate::text::copy_str("missing frontmatter start delimiter")));
    }
    proof {
        assert(t.take(3) =~= open_delim());
    }
    let start = lo + 3;
    let ghost after = t.skip(3);
    proof {
        assert(after =~= cs@.subrange(start as int, n as int));
    }
    // Find the first "\n---" after the opening delimiter.
    let mut k: usize = start;
    let mut found = false;
    while n - k >= 4
        invariant_except_break
            start <= k,
            k <= n,
            n == cs@.len(),
            after == cs@.subrange(start as int, n as int),
            forall|j: int| 0 <= j < k - start ==> #[trigger] after.subrange(j, j + 4) != close_delim(),
            !found,
        invariant
            start <= k <= n,
        ensures
            found ==> k + 4 <= n && is_first_occurrence(close_delim(), after, k - start),
            !found ==> forall|j: int| 0 <= j && j + 4 <= after.len() ==> #[trigger] after.subrange(j, j + 4) != close_delim(),
        decreases n - k,
    {
        if cs[k] == '\n' && cs[k + 1] == '-' && cs[k + 2] == '-' && cs[k + 3] == '-' {
            proof {
                assert(after.subrange(k - start, k - start + 4) =~= close_delim());
            }
            found = true;
            break;
        }
        proof {
            let j = k - start;
            if after.subrange(j, j + 4) == close_delim() {
                assert(after.subrange(j, j + 4)[0] == cs@[k as int]);
                assert(after.subrange(j, j + 4)[1] == cs@[k + 1]);
                assert(after.subrange(j, j + 4)[2] == cs@[k + 2]);
                assert(after.subrange(j, j + 4)[3] == cs@[k + 3]);
            }
        }
        k += 1;
    }
    if !found {
        return Err(AppError::message(crate::text::copy_str("missing frontmatter end delimiter")));
    }
    let ghost kk = k - start;
    proof {
        let c = choose|c: int| is_first_occurrence(close_delim(), after, c);
        if c < kk {
            assert(after.subrange(c, c + 4) != close_delim());
        } else if c > kk {
            assert(after.subrange(kk, kk + 4) != close_delim());
        }
    }
    let yaml = slice_string(cs.as_slice(), start, k);
    let mut b = k + 4;
    while b < n && cs[b] == '\n'
        invariant
            k + 4 <= b <= n,
            n == cs@.len(),
            forall|j: int| k + 4 <= j < b ==> #[trigger] cs@[j] == '\n',
        decreases n - b,
    {
        b += 1;
    }
    let body = slice_string(cs.as_slice(), b, n);
    proof {
        assert(after.take(kk) =~= cs@.subrange(start as int, k as int));
        let rest = after.skip(kk + 4);
        assert(rest =~= cs@.subrange(k + 4, n as int));
        lemma_leading_newlines(rest, b - (k + 4));
        assert(rest.skip(b - (k + 4)) =~= cs@.subrange(b as int, n as int));
    }
    Ok((yaml, body))
}

/// An item file: the front matter between delimiter lines, then the body.
pub open spec fn spec_render(yaml: Seq<char>, body: Seq<char>) -> Seq<char> {
    "---\n"@ + yaml + "---\n"@ + body
}

/// Splitting a rendered item file gives its parts back: for front matter
/// `y` followed by a line break, where a line break followed by `y` holds
/// no closing delimiter (`\n---`), and for a body that does not start with
/// a line break, the split gives the front matter as a line break followed
/// by `y`, and the body unchanged.
pub proof fn lemma_split_of_render(y: Seq<char>, body: Seq<char>)
    requires
        forall|j: int|
            0 <= j && j + 4 <= y.len() + 1 ==> #[trigger] (seq!['\n'] + y).subrange(j, j + 4) != close_delim(),
        body.len() == 0 || body[0] != '\n',
    ensures
        spec_split(spec_render(y + seq!['\n'], body)) == Ok::<(Seq<char>, Seq<char>), bool>((seq!['\n'] + y, body)),
{
    reveal_strlit("---\n");
    let head = seq!['\n'] + y;
    let input = spec_render(y + seq!['\n'], body);
    assert(input =~= seq!['-', '-', '-'] + head + close_delim() + seq!['\n'] + body);
    assert(!is_white_space(input[0]));
    assert(leading_ws(input) == 0);
    let t = trim_start(input);
    assert(t =~= input);
    assert(t.take(3) =~= open_delim());
    let after = t.skip(3);
    assert(after =~= head + close_delim() + seq!['\n'] + body);
    let k = head.len() as int;
    assert(after.subrange(k, k + 4) =~= close_delim());
    assert forall|j: int| 0 <= j < k implies #[trigger] after.subrange(j, j + 4) != close_delim() by {
        if j + 4 <= k {
            assert(after.subrange(j, j + 4) =~= head.subrange(j, j + 4));
        } else {
            let w = after.subrange(j, j + 4);
            if j == k - 1 {
                assert(w[1] == '\n');
            } else if j == k - 2 {
                assert(w[2] == '\n');
            } else {
                assert(w[3] == '\n');
            }
            assert(close_delim()[1] == '-' && close_delim()[2] == '-' && close_delim()[3] == '-');
        }
    }
    assert(is_first_occurrence(close_delim(), after, k));
    let c = choose|c: int| is_first_occurrence(close_delim(), after, c);
    if c < k {
        assert(after.subrange(c, c + 4) != close_delim());
    } else if c > k {
        assert(after.subrange(k, k + 4) != close_delim());
    }
    assert(after.take(k) =~= head);
    let rest = after.skip(k + 4);
    assert(rest =~= seq!['\n'] + body);
    assert(rest.drop_first() =~= body);
    assert(leading_newlines(body) == 0);
    assert(leading_newlines(rest) == 1);
    assert(rest.skip(1) =~= body);
}

/// Lays out an item file from its YAML front matter (which ends with a line
/// break) and its body.
pub fn render_item_file(yaml: &str, body: &str) -> (r: String)
    ensures
        r@ == spec_render(yaml@, body@),
{
    let head = crate::text::concat("---\n", yaml);
    let mid = crate::text::concat(head.as_str(), "---\n");
    crate::text::concat(mid.as_str(), body)
}

/// Number of non-white-space characters at the start of `s`.
pub open spec fn word_len(s: Seq<char>) -> nat
    decreases s.len(),
{
    if s.len() > 0 && !is_white_space(s[0]) {
        1 + word_len(s.drop_first())
    } else {
        0
    }
}

/// The white-space separated words of `s` (`str::split_whitespace`).
pub open spec fn words(s: Seq<char>) -> Seq<Seq<char>>
    decreases s.len(),
{
    let t = trim_start(s);
    if t.len() == 0 {
        Seq::empty()
    } else {
        let w = word_len(t);
        if w == 0 || w > t.len() {
            Seq::empty()
        } else {
            proof {
                lemma_trim_start_bound(s);
            }
            seq![t.take(w as int)] + words(t.skip(w as int))
        }
    }
}

proof fn lemma_word_len(s: Seq<char>, i: int)
    requires
        0 <= i <= s.len(),
        forall|k: int| 0 <= k < i ==> !is_white_space(#[trigger] s[k]),
        i == s.len() || is_white_space(s[i]),
    ensures
        word_len(s) == i,
    decreases i,
{
    if i > 0 {
        lemma_word_len(s.drop_first(), i - 1);
    }
}

/// The leading white space lies within the text.
pub proof fn lemma_trim_start_bound(s: Seq<char>)
    ensures
        leading_ws(s) <= s.len(),
    decreases s.len(),
{
    if s.len() > 0 {
        lemma_trim_start_bound(s.drop_first());
    }
}

/// The tags of a space-separated tags field.
pub fn tags_from_text(text: &str) -> (r: Vec<String>)
    ensures
        names_view(r@) == words(text@),
{
    let cs = chars_of(text);
    let n = cs.len();
    let mut out: Vec<String> = Vec::new();
    let mut i: usize = 0;
    proof {
        assert(cs@.subrange(0, n as int) =~= text@);
        assert(names_view(out@) =~= Seq::<Seq<char>>::empty());
        assert(Seq::<Seq<char>>::empty() + words(text@) =~= words(text@));
    }
    while i < n
        invariant
            i <= n,
            n == cs@.len(),
            cs@ == text@,
            names_view(out@) + words(cs@.subrange(i as int, n as int)) == words(text@),
        ensures
            i == n,
            names_view(out@) + words(cs@.subrange(i as int, n as int)) == words(text@),
        decreases n - i,
    {
        let ghost rest = cs@.subrange(i as int, n as int);
        let mut j = i;
        while j < n && crate::text::white_space(cs[j])
            invariant
                i <= j <= n,
                n == cs@.len(),
                forall|k: int| i <= k < j ==> is_white_space(#[trigger] cs@[k]),
            decreases n - j,
        {
            j += 1;
        }
        proof {
            crate::text::lemma_leading_ws_step(rest, j - i);
            assert(rest.subrange(j - i, rest.len() as int) =~= cs@.subrange(j as int, n as int));
        }
        if j == n {
            proof {
                assert(trim_start(rest).len() == 0);
                assert(words(rest) =~= Seq::<Seq<char>>::empty());
                assert(names_view(out@) + Seq::<Seq<char>>::empty() =~= names_view(out@));
                assert(cs@.subrange(n as int, n as int) =~= Seq::<char>::empty());
            }
            i = n;
            assert(words(cs@.subrange(n as int, n as int)) =~= Seq::<Seq<char>>::empty());
            break;
        }
        let mut k = j;
        while k < n && !crate::text::white_space(cs[k])
            invariant
                j <= k <= n,
                n == cs@.len(),
                forall|x: int| j <= x < k ==> !is_white_space(#[trigger] cs@[x]),
            decreases n - k,
        {
            k += 1;
        }
        let word = slice_string(cs.as_slice(), j, k);
        let ghost before = names_view(out@);
        out.push(word);
        proof {
            let t = trim_start(rest);
            assert(t =~= cs@.subrange(j as int, n as int));
            lemma_word_len(t, k - j);
            assert(t.take(k - j) =~= cs@.subrange(j as int, k as int));
            assert(t.skip(k - j) =~= cs@.subrange(k as int, n as int));
            assert(!is_white_space(cs@[j as int]));
            assert(words(rest) == seq![t.take(k - j)] + words(t.skip(k - j)));
            assert(names_view(out@) =~= before.push(cs@.subrange(j as int, k as int)));
            assert(names_view(out@) + words(cs@.subrange(k as int, n as int)) =~= before + (seq![
                cs@.subrange(j as int, k as int),
            ] + words(cs@.subrange(k as int, n as int))));
        }
        i = k;
    }
    proof {
        let e = cs@.subrange(n as int, n as int);
        assert(e =~= Seq::<char>::empty());
        assert(trim_start(e) =~= Seq::<char>::empty());
        assert(words(e) =~= Seq::<Seq<char>>::empty());
        assert(names_view(out@) + Seq::<Seq<char>>::empty() =~= names_view(out@));
    }
    out
}

/// The words joined with single spaces.
pub open spec fn join_spaces(words: Seq<Seq<char>>) -> Seq<char>
    decreases words.len(),
{
    if words.len() == 0 {
        Seq::empty()
    } else if words.len() == 1 {
        words[0]
    } else {
        words[0] + seq![' '] + join_spaces(words.drop_first())
    }
}

/// Joining one more word at the end adds a space and the word.
proof fn lemma_join_push(ws: Seq<Seq<char>>, w: Seq<char>)
    requires
        ws.len() > 0,
    ensures
        join_spaces(ws.push(w)) == join_spaces(ws) + seq![' '] + w,
    decreases ws.len(),
{
    let p = ws.push(w);
    assert(p[0] == ws[0]);
    if ws.len() == 1 {
        assert(p.drop_first() =~= seq![w]);
        assert(join_spaces(seq![w]) == w);
        assert(join_spaces(p) == ws[0] + seq![' '] + w);
        assert(join_spaces(ws) == ws[0]);
    } else {
        lemma_join_push(ws.drop_first(), w);
        assert(p.drop_first() =~= ws.drop_first().push(w));
        assert(join_spaces(p) == ws[0] + seq![' '] + join_spaces(ws.drop_first().push(w)));
        assert(join_spaces(ws) == ws[0] + seq![' '] + join_spaces(ws.drop_first()));
        assert(ws[0] + seq![' '] + (join_spaces(ws.drop_first()) + seq![' '] + w) =~= (ws[0] + seq![' ']
            + join_spaces(ws.drop_first())) + seq![' '] + w);
    }
}

/// A word: non-empty, without white space.
pub open spec fn is_word(w: Seq<char>) -> bool {
    w.len() > 0 && forall|i: int| 0 <= i < w.len() ==> !is_white_space(#[trigger] w[i])
}

/// Words depend on a text only through the text without its leading white
/// space.
proof fn lemma_words_space(rest: Seq<char>)
    ensures
        words(seq![' '] + rest) == words(rest),
{
    let s = seq![' '] + rest;
    assert(s.drop_first() =~= rest);
    lemma_trim_start_bound(rest);
    assert(trim_start(s) =~= trim_start(rest));
}

/// Splitting joined tags gives the tags back, when each is a word.
pub proof fn lemma_tags_roundtrip(tags: Seq<Seq<char>>)
    requires
        forall|i: int| 0 <= i < tags.len() ==> is_word(#[trigger] tags[i]),
    ensures
        words(join_spaces(tags)) == tags,
    decreases tags.len(),
{
    if tags.len() == 0 {
        assert(words(Seq::<char>::empty()) =~= Seq::<Seq<char>>::empty()) by {
            assert(trim_start(Seq::<char>::empty()) =~= Seq::<char>::empty());
        }
    } else {
        let w = tags[0];
        assert(is_word(w));
        let rest_text = if tags.len() == 1 {
            Seq::<char>::empty()
        } else {
            seq![' '] + join_spaces(tags.drop_first())
        };
        let s = w + rest_text;
        assert(s == join_spaces(tags)) by {
            if tags.len() == 1 {
                assert(w + Seq::<char>::empty() =~= w);
            } else {
                assert(w + seq![' '] + join_spaces(tags.drop_first()) =~= w + (seq![' '] + join_spaces(tags.drop_first())));
            }
        }
        assert(leading_ws(s) == 0);
        assert(trim_start(s) =~= s);
        if tags.len() == 1 {
            lemma_word_len(s, w.len() as int);
            assert(s.skip(w.len() as int) =~= Seq::<char>::empty());
            assert(words(Seq::<char>::empty()) =~= Seq::<Seq<char>>::empty()) by {
                assert(trim_start(Seq::<char>::empty()) =~= Seq::<char>::empty());
            }
            assert(s.take(w.len() as int) =~= w);
            assert(words(s) =~= seq![w]);
            assert(tags =~= seq![w]);
        } else {
            assert(s[w.len() as int] == ' ');
            lemma_word_len(s, w.len() as int);
            assert(s.take(w.len() as int) =~= w);
            assert(s.skip(w.len() as int) =~= seq![' '] + join_spaces(tags.drop_first()));
            lemma_words_space(join_spaces(tags.drop_first()));
            assert forall|i: int| 0 <= i < tags.drop_first().len() implies is_word(#[trigger] tags.drop_first()[i]) by {
                assert(tags.drop_first()[i] == tags[i + 1]);
            }
            lemma_tags_roundtrip(tags.drop_first());
            assert(tags =~= seq![w] + tags.drop_first());
        }
    }
}

/// The tags field for a list of tags: the tags joined with spaces.
pub fn tags_to_text(tags: &Vec<String>) -> (r: String)
    ensures
        r@ == join_spaces(names_view(tags@)),
{
    let ghost tv = names_view(tags@);
    let mut r = String::new();
    let mut i: usize = 0;
    while i < tags.len()
        invariant
            i <= tags@.len(),
            tv == names_view(tags@),
            r@ == join_spaces(tv.take(i as int)),
        decreases tags@.len() - i,
    {
        proof {
            assert(tv.take(i + 1) =~= tv.take(i as int).push(tags@[i as int]@));
            if i > 0 {
                lemma_join_push(tv.take(i as int), tags@[i as int]@);
            }
        }
        if i == 0 {
            r = tags[0].clone();
            proof {
                assert(tv.take(1) =~= seq![tags@[0]@]);
            }
        } else {
            proof {
                reveal_strlit(" ");
            }
            let spaced = crate::text::concat(r.as_str(), " ");
            r = crate::text::concat(spaced.as_str(), tags[i].as_str());
        }
        i += 1;
    }
    proof {
        assert(tv.take(tags@.len() as int) =~= tv);
    }
    r
}

} // verus!
