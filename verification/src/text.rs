//! Character-sequence helpers shared by the command-line and search logic.
//!
//! Strings are viewed as `Seq<char>`; the helpers here give exact
//! specifications for prefix, substring, subsequence and case folding.
use vstd::prelude::*;

verus! {

broadcast use vstd::string::group_string_axioms;

/// Unicode lower-case mapping of a whole string, as `str::to_lowercase`
/// computes it (context-sensitive for final sigma, hence a whole-string map).
pub uninterp spec fn lowercase(s: Seq<char>) -> Seq<char>;

/// `str::to_lowercase`: the result is the Unicode lower-case form of `s`,
/// which depends on `s` alone. On a string of ASCII characters the Unicode
/// mapping is the ASCII one (`A`..`Z` to `a`..`z`, all else kept), so there
/// the result is the ASCII lower-casing of each character; beyond ASCII
/// nothing is stated of which characters come out.
#[verifier::external_body]
pub(crate) fn to_lower(s: &str) -> (r: String)
    ensures
        r@ == lowercase(s@),
        all_ascii(s@) ==> r@ == s@.map_values(|c: char| ascii_lower(c)),
{
    s.to_lowercase()
}

/// `String::push`: appends one character.
#[verifier::external_body]
pub(crate) fn push_char(s: &mut String, c: char)
    ensures
        final(s)@ == old(s)@.push(c),
{
    s.push(c)
}

/// The characters of `s`, in order.
pub fn chars_of(s: &str) -> (r: Vec<char>)
    ensures
        r@ == s@,
{
    let mut r: Vec<char> = Vec::new();
    for c in it: s.chars()
        invariant
            r@ == it.seq().take(it.index() as int),
            it.seq() == s@,
    {
        r.push(c);
    }
    r
}

/// A `String` holding exactly the characters `cs`.
pub fn string_from_chars(cs: &[char]) -> (r: String)
    ensures
        r@ == cs@,
{
    let mut r = String::new();
    let mut i: usize = 0;
    while i < cs.len()
        invariant
            i <= cs@.len(),
            r@ == cs@.take(i as int),
        decreases cs@.len() - i,
    {
        push_char(&mut r, cs[i]);
        assert(cs@.take(i as int).push(cs@[i as int]) =~= cs@.take(i + 1));
        i += 1;
    }
    assert(cs@.take(cs@.len() as int) =~= cs@);
    r
}

/// A copy of `s` as an owned `String`.
pub fn copy_str(s: &str) -> (r: String)
    ensures
        r@ == s@,
{
    let cs = chars_of(s);
    string_from_chars(cs.as_slice())
}

/// `p` is a prefix of `s`.
pub open spec fn is_prefix(p: Seq<char>, s: Seq<char>) -> bool {
    p.len() <= s.len() && s.take(p.len() as int) == p
}

/// `needle` occurs in `s` as a contiguous block.
pub open spec fn occurs_in(needle: Seq<char>, s: Seq<char>) -> bool {
    exists|i: int|
        0 <= i && i + needle.len() <= s.len() && #[trigger] s.subrange(i, i + needle.len())
            == needle
}

/// `a` can be found inside `b` by keeping order and dropping characters:
/// some strictly increasing map sends each position of `a` to an equal
/// character of `b`.
pub open spec fn embeds(a: Seq<char>, b: Seq<char>) -> bool {
    exists|f: spec_fn(int) -> int| #[trigger] is_embedding(f, a, b)
}

/// `f` maps each position of `a` to an equal character of `b`, strictly
/// increasingly.
pub open spec fn is_embedding(f: spec_fn(int) -> int, a: Seq<char>, b: Seq<char>) -> bool {
    &&& forall|i: int| 0 <= i < a.len() ==> 0 <= #[trigger] f(i) < b.len() && b[f(i)] == a[i]
    &&& forall|i: int, j: int| 0 <= i < j < a.len() ==> #[trigger] f(i) < #[trigger] f(j)
}

/// Whether `p` is a prefix of `s`.
pub fn starts_with_chars(s: &[char], p: &[char]) -> (r: bool)
    ensures
        r == is_prefix(p@, s@),
{
    if p.len() > s.len() {
        return false;
    }
    let mut i: usize = 0;
    while i < p.len()
        invariant
            p@.len() <= s@.len(),
            i <= p@.len(),
            forall|k: int| 0 <= k < i ==> s@[k] == p@[k],
        decreases p@.len() - i,
    {
        if s[i] != p[i] {
            assert(s@.take(p@.len() as int)[i as int] != p@[i as int]);
            return false;
        }
        i += 1;
    }
    assert(s@.take(p@.len() as int) =~= p@);
    true
}

/// Whether `needle` occurs in `s` as a contiguous block.
pub fn contains_chars(s: &[char], needle: &[char]) -> (r: bool)
    ensures
        r == occurs_in(needle@, s@),
{
    if needle.len() == 0 {
        assert(s@.subrange(0int, 0int + needle@.len()) =~= needle@);
        return true;
    }
    if needle.len() > s.len() {
        return false;
    }
    let last = s.len() - needle.len();
    let mut i: usize = 0;
    while i <= last
        invariant
            0 < needle@.len() <= s@.len(),
            s@.len() <= usize::MAX,
            last == s@.len() - needle@.len(),
            i <= last + 1,
            forall|k: int|
                0 <= k < i ==> #[trigger] s@.subrange(k, k + needle@.len()) != needle@,
        decreases last + 1 - i,
    {
        let mut j: usize = 0;
        let mut ok = true;
        while j < needle.len()
            invariant
                0 < needle@.len() <= s@.len(),
                s@.len() <= usize::MAX,
                i <= last,
                last == s@.len() - needle@.len(),
                i + needle@.len() <= s@.len(),
                j <= needle@.len(),
                ok ==> forall|k: int| 0 <= k < j ==> s@[i + k] == needle@[k],
                !ok ==> s@.subrange(i as int, i + needle@.len()) != needle@,
            decreases needle@.len() - j,
        {
            if ok && s[i + j] != needle[j] {
                ok = false;
                assert(s@.subrange(i as int, i + needle@.len())[j as int] != needle@[j as int]);
            }
            j += 1;
        }
        if ok {
            assert(s@.subrange(i as int, i + needle@.len()) =~= needle@);
            return true;
        }
        i += 1;
    }
    false
}

/// Greedy reading of "`a` embeds in `b`": match the first character of `a`
/// at the first equal character of `b`.
pub open spec fn greedy_embeds(a: Seq<char>, b: Seq<char>) -> bool
    decreases b.len(),
{
    if a.len() == 0 {
        true
    } else if b.len() == 0 {
        false
    } else if a[0] == b[0] {
        greedy_embeds(a.drop_first(), b.drop_first())
    } else {
        greedy_embeds(a, b.drop_first())
    }
}

proof fn lemma_embeds_empty(b: Seq<char>)
    ensures
        embeds(Seq::<char>::empty(), b),
{
    let f = |i: int| i;
    assert(is_embedding(f, Seq::<char>::empty(), b));
}

proof fn lemma_embeds_not_into_empty(a: Seq<char>)
    requires
        a.len() > 0,
    ensures
        !embeds(a, Seq::<char>::empty()),
{
    if embeds(a, Seq::<char>::empty()) {
        let f = choose|f: spec_fn(int) -> int| is_embedding(f, a, Seq::<char>::empty());
        assert(is_embedding(f, a, Seq::<char>::empty()));
        assert(0 <= f(0) < Seq::<char>::empty().len());
    }
}

/// Embedding the tail of `a` into the tail of `b` extends to an embedding of
/// `a` into `b` when the heads agree.
proof fn lemma_embeds_cons(a: Seq<char>, b: Seq<char>)
    requires
        a.len() > 0,
        b.len() > 0,
        a[0] == b[0],
        embeds(a.drop_first(), b.drop_first()),
    ensures
        embeds(a, b),
{
    let a1 = a.drop_first();
    let b1 = b.drop_first();
    let g = choose|g: spec_fn(int) -> int| is_embedding(g, a1, b1);
    let f = |i: int|
        if i == 0 {
            0
        } else {
            g(i - 1) + 1
        };
    assert forall|i: int| 0 <= i < a.len() implies 0 <= #[trigger] f(i) < b.len() && b[f(i)]
        == a[i] by {
        if i > 0 {
            assert(0 <= g(i - 1) < b1.len());
        }
    }
    assert forall|i: int, j: int| 0 <= i < j < a.len() implies #[trigger] f(i) < #[trigger] f(j) by {
        if i > 0 {
            assert(g(i - 1) < g(j - 1));
        } else {
            assert(0 <= g(j - 1));
        }
    }
    assert(is_embedding(f, a, b));
}

/// An embedding into the tail of `b` is an embedding into `b`.
proof fn lemma_embeds_skip(a: Seq<char>, b: Seq<char>)
    requires
        b.len() > 0,
        embeds(a, b.drop_first()),
    ensures
        embeds(a, b),
{
    let b1 = b.drop_first();
    let g = choose|g: spec_fn(int) -> int| is_embedding(g, a, b1);
    let f = |i: int| g(i) + 1;
    assert forall|i: int| 0 <= i < a.len() implies 0 <= #[trigger] f(i) < b.len() && b[f(i)]
        == a[i] by {
        assert(0 <= g(i) < b1.len());
    }
    assert forall|i: int, j: int| 0 <= i < j < a.len() implies #[trigger] f(i) < #[trigger] f(j) by {
        assert(g(i) < g(j));
    }
    assert(is_embedding(f, a, b));
}

/// Any embedding of `a` into `b` whose heads differ avoids position 0, so it
/// is an embedding into the tail; when heads agree the tail of `a` embeds
/// into the tail of `b`.
proof fn lemma_embeds_step(a: Seq<char>, b: Seq<char>)
    requires
        a.len() > 0,
        b.len() > 0,
        embeds(a, b),
    ensures
        a[0] == b[0] ==> embeds(a.drop_first(), b.drop_first()),
        a[0] != b[0] ==> embeds(a, b.drop_first()),
{
    let f = choose|f: spec_fn(int) -> int| is_embedding(f, a, b);
    let a1 = a.drop_first();
    let b1 = b.drop_first();
    assert(0 <= f(0) < b.len());
    if a[0] == b[0] {
        let g = |i: int| f(i + 1) - 1;
        assert forall|i: int| 0 <= i < a1.len() implies 0 <= #[trigger] g(i) < b1.len() && b1[g(i)]
            == a1[i] by {
            assert(f(0) < f(i + 1));
            assert(0 <= f(i + 1) < b.len());
        }
        assert forall|i: int, j: int| 0 <= i < j < a1.len() implies #[trigger] g(i) < #[trigger] g(
            j,
        ) by {
            assert(f(i + 1) < f(j + 1));
        }
        assert(is_embedding(g, a1, b1));
    } else {
        assert(f(0) != 0);
        let g = |i: int| f(i) - 1;
        assert forall|i: int| 0 <= i < a.len() implies 0 <= #[trigger] g(i) < b1.len() && b1[g(i)]
            == a[i] by {
            if i > 0 {
                assert(f(0) < f(i));
            }
            assert(0 <= f(i) < b.len());
        }
        assert forall|i: int, j: int| 0 <= i < j < a.len() implies #[trigger] g(i) < #[trigger] g(j) by {
            assert(f(i) < f(j));
        }
        assert(is_embedding(g, a, b1));
    }
}

/// The greedy reading agrees with the existence of an order-preserving
/// embedding.
pub proof fn lemma_greedy_embeds_iff(a: Seq<char>, b: Seq<char>)
    ensures
        greedy_embeds(a, b) <==> embeds(a, b),
    decreases b.len(),
{
    if a.len() == 0 {
        assert(a =~= Seq::<char>::empty());
        lemma_embeds_empty(b);
    } else if b.len() == 0 {
        assert(b =~= Seq::<char>::empty());
        lemma_embeds_not_into_empty(a);
    } else if a[0] == b[0] {
        lemma_greedy_embeds_iff(a.drop_first(), b.drop_first());
        if embeds(a.drop_first(), b.drop_first()) {
            lemma_embeds_cons(a, b);
        }
        if embeds(a, b) {
            lemma_embeds_step(a, b);
        }
    } else {
        lemma_greedy_embeds_iff(a, b.drop_first());
        if embeds(a, b.drop_first()) {
            lemma_embeds_skip(a, b);
        }
        if embeds(a, b) {
            lemma_embeds_step(a, b);
        }
    }
}

/// Whether `a` embeds into `b` (see `embeds`).
pub fn embeds_chars(a: &[char], b: &[char]) -> (r: bool)
    ensures
        r == embeds(a@, b@),
{
    let mut i: usize = 0;
    let mut j: usize = 0;
    assert(a@.skip(0) =~= a@);
    assert(b@.skip(0) =~= b@);
    while i < a.len()
        invariant
            i <= a@.len(),
            j <= b@.len(),
            greedy_embeds(a@, b@) == greedy_embeds(a@.skip(i as int), b@.skip(j as int)),
        decreases a@.len() - i, b@.len() - j,
    {
        if j >= b.len() {
            proof {
                assert(b@.skip(j as int).len() == 0);
                assert(a@.skip(i as int).len() > 0);
                lemma_greedy_embeds_iff(a@, b@);
            }
            return false;
        }
        proof {
            assert(a@.skip(i as int).drop_first() =~= a@.skip(i + 1));
            assert(b@.skip(j as int).drop_first() =~= b@.skip(j + 1));
        }
        if a[i] == b[j] {
            i += 1;
        }
        j += 1;
    }
    proof {
        assert(a@.skip(i as int).len() == 0);
        lemma_greedy_embeds_iff(a@, b@);
    }
    true
}

/// Every character of `s` is ASCII.
pub open spec fn all_ascii(s: Seq<char>) -> bool {
    forall|i: int| 0 <= i < s.len() ==> (#[trigger] s[i] as u32) < 128
}

/// ASCII-only lower-casing of one character, as `char::to_ascii_lowercase`.
pub open spec fn ascii_lower(c: char) -> char {
    if 'A' <= c && c <= 'Z' {
        ((c as u32) + 32) as char
    } else {
        c
    }
}

/// `str::eq_ignore_ascii_case`: equal lengths and equal characters after
/// ASCII lower-casing.
pub open spec fn eq_ignore_ascii_case(a: Seq<char>, b: Seq<char>) -> bool {
    a.len() == b.len() && forall|i: int| 0 <= i < a.len() ==> ascii_lower(#[trigger] a[i])
        == ascii_lower(b[i])
}

/// Lower-cases one ASCII letter, leaving every other character as it is.
pub fn lower_ascii_char(c: char) -> (r: char)
    ensures
        r == ascii_lower(c),
{
    if 'A' <= c && c <= 'Z' {
        let code: u32 = c as u32;
        let lowered: u32 = code + 32;
        proof {
            assert(0x61 <= lowered <= 0x7a);
        }
        char_from_ascii_code(lowered)
    } else {
        c
    }
}

/// The character with the given code point, for a code point below 0x80.
fn char_from_ascii_code(code: u32) -> (r: char)
    requires
        code < 0x80,
    ensures
        r == code as char,
{
    let b: u8 = code as u8;
    b as char
}

/// Whether the two character sequences agree up to ASCII case.
pub fn eq_ignore_ascii_case_chars(a: &[char], b: &[char]) -> (r: bool)
    ensures
        r == eq_ignore_ascii_case(a@, b@),
{
    if a.len() != b.len() {
        return false;
    }
    let mut i: usize = 0;
    while i < a.len()
        invariant
            a@.len() == b@.len(),
            i <= a@.len(),
            forall|k: int| 0 <= k < i ==> ascii_lower(#[trigger] a@[k]) == ascii_lower(b@[k]),
        decreases a@.len() - i,
    {
        if lower_ascii_char(a[i]) != lower_ascii_char(b[i]) {
            return false;
        }
        i += 1;
    }
    true
}

/// Whether two character sequences are equal.
pub fn chars_eq(a: &[char], b: &[char]) -> (r: bool)
    ensures
        r == (a@ == b@),
{
    if a.len() != b.len() {
        return false;
    }
    let mut i: usize = 0;
    while i < a.len()
        invariant
            a@.len() == b@.len(),
            i <= a@.len(),
            forall|k: int| 0 <= k < i ==> a@[k] == b@[k],
        decreases a@.len() - i,
    {
        if a[i] != b[i] {
            return false;
        }
        i += 1;
    }
    assert(a@ =~= b@);
    true
}

/// Whether two strings hold the same characters.
pub fn str_eq(a: &str, b: &str) -> (r: bool)
    ensures
        r == (a@ == b@),
{
    let ca = chars_of(a);
    let cb = chars_of(b);
    chars_eq(ca.as_slice(), cb.as_slice())
}

/// Number of bytes in the UTF-8 encoding of `c`.
pub open spec fn utf8_width(c: char) -> nat {
    if (c as u32) < 0x80 {
        1
    } else if (c as u32) < 0x800 {
        2
    } else if (c as u32) < 0x10000 {
        3
    } else {
        4
    }
}

/// Number of bytes in the UTF-8 encoding of `s` (what `str::len` returns).
pub open spec fn utf8_len(s: Seq<char>) -> nat
    decreases s.len(),
{
    if s.len() == 0 {
        0
    } else {
        utf8_len(s.drop_last()) + utf8_width(s.last())
    }
}

pub(crate) proof fn lemma_utf8_len_bound(s: Seq<char>)
    ensures
        utf8_len(s) <= 4 * s.len(),
    decreases s.len(),
{
    if s.len() > 0 {
        lemma_utf8_len_bound(s.drop_last());
    }
}

/// Byte length of the UTF-8 encoding of `s`.
pub fn byte_len(s: &[char]) -> (n: usize)
    requires
        4 * s@.len() <= usize::MAX,
    ensures
        n == utf8_len(s@),
{
    let mut n: usize = 0;
    let mut i: usize = 0;
    while i < s.len()
        invariant
            i <= s@.len(),
            4 * s@.len() <= usize::MAX,
            n == utf8_len(s@.take(i as int)),
            n <= 4 * i,
        decreases s@.len() - i,
    {
        let c = s[i];
        let code: u32 = c as u32;
        let w: usize = if code < 0x80 {
            1
        } else if code < 0x800 {
            2
        } else if code < 0x10000 {
            3
        } else {
            4
        };
        proof {
            assert(s@.take(i + 1).drop_last() =~= s@.take(i as int));
            assert(s@.take(i + 1).last() == c);
        }
        n = n + w;
        i += 1;
    }
    assert(s@.take(s@.len() as int) =~= s@);
    n
}


/// `a` followed by `b`, as a new `String`.
pub fn concat(a: &str, b: &str) -> (r: String)
    ensures
        r@ == a@ + b@,
{
    let mut cs = chars_of(a);
    let bs = chars_of(b);
    let mut i: usize = 0;
    let ghost start = cs@;
    while i < bs.len()
        invariant
            i <= bs@.len(),
            start == a@,
            bs@ == b@,
            cs@ == start + bs@.take(i as int),
        decreases bs@.len() - i,
    {
        cs.push(bs[i]);
        proof {
            assert(bs@.take(i + 1) =~= bs@.take(i as int).push(bs@[i as int]));
        }
        i += 1;
    }
    proof {
        assert(bs@.take(bs@.len() as int) =~= bs@);
    }
    string_from_chars(cs.as_slice())
}

/// The concatenation of `parts`, in order.
pub open spec fn concat_all(parts: Seq<Seq<char>>) -> Seq<char>
    decreases parts.len(),
{
    if parts.len() == 0 {
        Seq::empty()
    } else {
        concat_all(parts.drop_last()) + parts.last()
    }
}

/// Joins the pieces in order.
pub fn concat_strs(parts: &[&str]) -> (r: String)
    ensures
        r@ == concat_all(parts@.map_values(|p: &str| p@)),
{
    let ghost pv = parts@.map_values(|p: &str| p@);
    let mut r = String::new();
    let mut i: usize = 0;
    while i < parts.len()
        invariant
            pv == parts@.map_values(|p: &str| p@),
            i <= parts@.len(),
            r@ == concat_all(pv.take(i as int)),
        decreases parts@.len() - i,
    {
        proof {
            assert(pv.take(i + 1).drop_last() =~= pv.take(i as int));
        }
        r = concat(r.as_str(), parts[i]);
        i += 1;
    }
    proof {
        assert(pv.take(parts@.len() as int) =~= pv);
    }
    r
}

/// The Unicode `White_Space` property, which `char::is_whitespace` tests.
pub open spec fn is_white_space(c: char) -> bool {
    ||| ('\u{9}' <= c && c <= '\u{d}')
    ||| c == ' '
    ||| c == '\u{85}'
    ||| c == '\u{a0}'
    ||| c == '\u{1680}'
    ||| ('\u{2000}' <= c && c <= '\u{200a}')
    ||| c == '\u{2028}'
    ||| c == '\u{2029}'
    ||| c == '\u{202f}'
    ||| c == '\u{205f}'
    ||| c == '\u{3000}'
}

/// Whether `c` is white space (`char::is_whitespace`).
pub fn white_space(c: char) -> (r: bool)
    ensures
        r == is_white_space(c),
{
    ('\u{9}' <= c && c <= '\u{d}') || c == ' ' || c == '\u{85}' || c == '\u{a0}' || c == '\u{1680}'
        || ('\u{2000}' <= c && c <= '\u{200a}') || c == '\u{2028}' || c == '\u{2029}' || c
        == '\u{202f}' || c == '\u{205f}' || c == '\u{3000}'
}

/// Number of white-space characters at the start of `s`.
pub open spec fn leading_ws(s: Seq<char>) -> nat
    decreases s.len(),
{
    if s.len() > 0 && is_white_space(s[0]) {
        1 + leading_ws(s.drop_first())
    } else {
        0
    }
}

/// Number of white-space characters at the end of `s`.
pub open spec fn trailing_ws(s: Seq<char>) -> nat
    decreases s.len(),
{
    if s.len() > 0 && is_white_space(s.last()) {
        1 + trailing_ws(s.drop_last())
    } else {
        0
    }
}

/// `s` without leading white space (`str::trim_start`).
pub open spec fn trim_start(s: Seq<char>) -> Seq<char> {
    s.subrange(leading_ws(s) as int, s.len() as int)
}

/// `s` without trailing white space (`str::trim_end`).
pub open spec fn trim_end(s: Seq<char>) -> Seq<char> {
    s.subrange(0, s.len() - trailing_ws(s))
}

/// `s` without white space at either end (`str::trim`).
pub open spec fn trim(s: Seq<char>) -> Seq<char> {
    trim_end(trim_start(s))
}

/// Skipping `i` leading white-space characters first leaves the rest of
/// the leading white space to count.
pub(crate) proof fn lemma_leading_ws_step(s: Seq<char>, i: int)
    requires
        0 <= i <= s.len(),
        forall|k: int| 0 <= k < i ==> is_white_space(#[trigger] s[k]),
    ensures
        leading_ws(s) == i + leading_ws(s.subrange(i, s.len() as int)),
        leading_ws(s) <= s.len(),
    decreases i,
{
    if i > 0 {
        lemma_leading_ws_step(s.drop_first(), i - 1);
        assert(s.drop_first().subrange(i - 1, s.len() - 1) =~= s.subrange(i, s.len() as int));
    } else {
        assert(s.subrange(0, s.len() as int) =~= s);
        lemma_leading_ws_bound(s);
    }
}

proof fn lemma_leading_ws_bound(s: Seq<char>)
    ensures
        leading_ws(s) <= s.len(),
    decreases s.len(),
{
    if s.len() > 0 {
        lemma_leading_ws_bound(s.drop_first());
    }
}

proof fn lemma_trailing_ws_step(s: Seq<char>, j: int)
    requires
        0 <= j <= s.len(),
        forall|k: int| j <= k < s.len() ==> is_white_space(#[trigger] s[k]),
    ensures
        trailing_ws(s) == (s.len() - j) + trailing_ws(s.subrange(0, j)),
    decreases s.len() - j,
{
    if j < s.len() {
        lemma_trailing_ws_step(s.drop_last(), j);
        assert(s.drop_last().subrange(0, j) =~= s.subrange(0, j));
    } else {
        assert(s.subrange(0, j) =~= s);
    }
}

/// The characters of `s` from `lo` to `hi`, as a `String`.
pub fn slice_string(cs: &[char], lo: usize, hi: usize) -> (r: String)
    requires
        lo <= hi <= cs@.len(),
    ensures
        r@ == cs@.subrange(lo as int, hi as int),
{
    let mut r = String::new();
    let mut i: usize = lo;
    while i < hi
        invariant
            lo <= i <= hi,
            hi <= cs@.len(),
            r@ == cs@.subrange(lo as int, i as int),
        decreases hi - i,
    {
        push_char(&mut r, cs[i]);
        assert(cs@.subrange(lo as int, i + 1) =~= cs@.subrange(lo as int, i as int).push(cs@[i as int]));
        i += 1;
    }
    r
}

/// Index of the first character of `cs` after its leading white space.
pub fn trim_start_index(cs: &[char]) -> (r: usize)
    ensures
        r == leading_ws(cs@),
        r <= cs@.len(),
{
    let mut i: usize = 0;
    while i < cs.len() && white_space(cs[i])
        invariant
            i <= cs@.len(),
            forall|k: int| 0 <= k < i ==> is_white_space(#[trigger] cs@[k]),
        decreases cs@.len() - i,
    {
        i += 1;
    }
    proof {
        lemma_leading_ws_step(cs@, i as int);
        let rest = cs@.subrange(i as int, cs@.len() as int);
        if rest.len() > 0 {
            assert(rest[0] == cs@[i as int]);
        }
    }
    i
}

/// Index just past the last character of `cs` before its trailing white
/// space.
pub fn trim_end_index(cs: &[char]) -> (r: usize)
    ensures
        r == cs@.len() - trailing_ws(cs@),
        r <= cs@.len(),
{
    let mut j: usize = cs.len();
    while j > 0 && white_space(cs[j - 1])
        invariant
            j <= cs@.len(),
            forall|k: int| j <= k < cs@.len() ==> is_white_space(#[trigger] cs@[k]),
        decreases j,
    {
        j -= 1;
    }
    proof {
        lemma_trailing_ws_step(cs@, j as int);
        let rest = cs@.subrange(0, j as int);
        if rest.len() > 0 {
            assert(rest.last() == cs@[j - 1]);
        }
    }
    j
}

/// `s` without white space at either end.
pub fn trim_string(s: &str) -> (r: String)
    ensures
        r@ == trim(s@),
{
    let cs = chars_of(s);
    let lo = trim_start_index(cs.as_slice());
    let head = slice_string(cs.as_slice(), lo, cs.len());
    let hs = chars_of(head.as_str());
    let hi = trim_end_index(hs.as_slice());
    slice_string(hs.as_slice(), 0, hi)
}

/// The decimal digit for `d < 10`.
pub open spec fn digit_char(d: nat) -> char {
    seq!['0', '1', '2', '3', '4', '5', '6', '7', '8', '9'][d as int]
}

/// The decimal numeral of `n`, without leading zeros.
pub open spec fn decimal(n: nat) -> Seq<char>
    decreases n,
{
    if n < 10 {
        seq![digit_char(n)]
    } else {
        decimal(n / 10).push(digit_char(n % 10))
    }
}

fn digit_of(d: usize) -> (r: char)
    requires
        d < 10,
    ensures
        r == digit_char(d as nat),
{
    let digits = ['0', '1', '2', '3', '4', '5', '6', '7', '8', '9'];
    proof {
        assert(digits@ =~= seq!['0', '1', '2', '3', '4', '5', '6', '7', '8', '9']);
    }
    digits[d]
}

/// `n` written in decimal.
pub fn decimal_string(n: usize) -> (r: String)
    ensures
        r@ == decimal(n as nat),
    decreases n,
{
    if n < 10 {
        let mut s = String::new();
        push_char(&mut s, digit_of(n));
        proof {
            assert(s@ =~= seq![digit_char(n as nat)]);
        }
        s
    } else {
        let mut s = decimal_string(n / 10);
        push_char(&mut s, digit_of(n % 10));
        s
    }
}

} // verus!
