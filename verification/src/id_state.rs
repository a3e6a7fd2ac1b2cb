//! Sequential short ids shared by every process that works on one task
//! root.
//!
//! Ids are fixed-width base-32 numerals (Crockford's alphabet, lower case).
//! The allocator walks the id space of the current width cyclically from
//! where it stopped, skips ids already in use, and widens the ids once every
//! id of a width has been issued. Reading and writing the state file, and
//! the lock around it, are the caller's part.
use vstd::prelude::*;
use crate::errors::AppError;
use crate::tui_state::names_view;
use crate::config::{ResolvedConfig, joined, path_join};
use std::path::PathBuf;
use vstd::string::StringSliceAdditionalSpecFns;

verus! {

/// The narrowest generated id.
pub const MIN_GENERATED_ID_WIDTH: u8 = 3;

/// The widest generated id: the largest width whose id space fits in a
/// `u128`.
pub const MAX_GENERATED_ID_WIDTH: u8 = 25;

/// `32` to the power `w`.
pub open spec fn pow32(w: nat) -> nat
    decreases w,
{
    if w == 0 {
        1
    } else {
        32 * pow32((w - 1) as nat)
    }
}

proof fn lemma_pow32_positive(w: nat)
    ensures
        pow32(w) >= 1,
    decreases w,
{
    if w > 0 {
        lemma_pow32_positive((w - 1) as nat);
    }
}

proof fn lemma_pow32_monotone(a: nat, b: nat)
    requires
        a <= b,
    ensures
        pow32(a) <= pow32(b),
    decreases b,
{
    if a < b {
        lemma_pow32_monotone(a, (b - 1) as nat);
        lemma_pow32_positive((b - 1) as nat);
    }
}

proof fn lemma_pow32_max()
    ensures
        pow32(MAX_GENERATED_ID_WIDTH as nat) <= u128::MAX,
{
    reveal_with_fuel(pow32, 26);
}

/// The number of ids of width `width`, or an error for a width beyond
/// `MAX_GENERATED_ID_WIDTH`.
pub fn id_space_size(width: u8) -> (r: Result<u128, AppError>)
    ensures
        width <= MAX_GENERATED_ID_WIDTH <==> r is Ok,
        r matches Ok(n) ==> n == pow32(width as nat),
{
    if width > MAX_GENERATED_ID_WIDTH {
        return Err(AppError::message(crate::text::copy_str("generated id width is out of range")));
    }
    let mut n: u128 = 1;
    let mut i: u8 = 0;
    while i < width
        invariant
            i <= width <= MAX_GENERATED_ID_WIDTH,
            n == pow32(i as nat),
        decreases width - i,
    {
        proof {
            lemma_pow32_monotone((i + 1) as nat, MAX_GENERATED_ID_WIDTH as nat);
            lemma_pow32_max();
        }
        n = n * 32;
        i += 1;
    }
    Ok(n)
}

/// The digits of generated ids, in order of value.
pub open spec fn id_alphabet() -> Seq<char> {
    seq!['0', '1', '2', '3', '4', '5', '6', '7', '8', '9', 'a', 'b', 'c', 'd', 'e', 'f', 'g', 'h', 'j', 'k', 'm', 'n', 'p', 'q', 'r', 's', 't', 'v', 'w', 'x', 'y', 'z']
}

/// The id of `value`: its last `width` base-32 digits, most significant
/// first, padded with zeros.
pub open spec fn spec_encode(value: nat, width: nat) -> Seq<char>
    decreases width,
{
    if width == 0 {
        Seq::empty()
    } else {
        spec_encode(value / 32, (width - 1) as nat).push(id_alphabet()[(value % 32) as int])
    }
}

proof fn lemma_encode_len(value: nat, width: nat)
    ensures
        spec_encode(value, width).len() == width,
    decreases width,
{
    if width > 0 {
        lemma_encode_len(value / 32, (width - 1) as nat);
    }
}

fn digit(d: u128) -> (r: char)
    requires
        d < 32,
    ensures
        r == id_alphabet()[d as int],
{
    let alphabet = ['0', '1', '2', '3', '4', '5', '6', '7', '8', '9', 'a', 'b', 'c', 'd', 'e', 'f', 'g', 'h', 'j', 'k', 'm', 'n', 'p', 'q', 'r', 's', 't', 'v', 'w', 'x', 'y', 'z'];
    proof {
        assert(alphabet@ =~= id_alphabet());
    }
    alphabet[d as usize]
}

proof fn lemma_div_div(a: nat, b: nat, c: nat)
    requires
        b > 0,
        c > 0,
    ensures
        a / b / c == a / (b * c),
{
    vstd::arithmetic::div_mod::lemma_div_denominator(a as int, b as int, c as int);
}

/// Character `i` of an id is the digit of weight `32^(width - 1 - i)`.
proof fn lemma_encode_index(value: nat, width: nat, i: int)
    requires
        0 <= i < width,
    ensures
        spec_encode(value, width).len() == width,
        spec_encode(value, width)[i] == id_alphabet()[((value / pow32((width - 1 - i) as nat)) % 32) as int],
    decreases width,
{
    lemma_encode_len(value, width);
    lemma_encode_len(value / 32, (width - 1) as nat);
    if i == width - 1 {
        assert(pow32(0) == 1);
        assert(value / 1 == value);
    } else {
        lemma_encode_index(value / 32, (width - 1) as nat, i);
        lemma_pow32_positive((width - 2 - i) as nat);
        lemma_div_div(value, 32, pow32((width - 2 - i) as nat));
        assert(pow32((width - 1 - i) as nat) == 32 * pow32((width - 2 - i) as nat));
    }
}

/// The id of `value` at width `width`; an error for a width beyond
/// `MAX_GENERATED_ID_WIDTH`.
pub fn encode_generated_id(value: u128, width: u8) -> (r: Result<String, AppError>)
    ensures
        width <= MAX_GENERATED_ID_WIDTH <==> r is Ok,
        r matches Ok(s) ==> s@ == spec_encode(value as nat, width as nat),
{
    if width > MAX_GENERATED_ID_WIDTH {
        return Err(AppError::message(crate::text::copy_str("generated id width is out of range")));
    }
    let mut digits: Vec<char> = Vec::new();
    let mut v: u128 = value;
    let mut i: u8 = 0;
    proof {
        assert(pow32(0) == 1);
        assert(value as nat / 1 == value as nat);
    }
    while i < width
        invariant
            i <= width,
            digits@.len() == i,
            forall|k: int| 0 <= k < i ==> #[trigger] digits@[k] == id_alphabet()[((value as nat / pow32(k as nat)) % 32) as int],
            v == value as nat / pow32(i as nat),
        decreases width - i,
    {
        proof {
            lemma_pow32_positive(i as nat);
            lemma_div_div(value as nat, pow32(i as nat), 32);
            vstd::arithmetic::mul::lemma_mul_is_commutative(pow32(i as nat) as int, 32);
        }
        digits.push(digit(v % 32));
        v = v / 32;
        i += 1;
    }
    let mut out: Vec<char> = Vec::new();
    let mut j: usize = 0;
    proof {
        lemma_encode_len(value as nat, width as nat);
    }
    while j < digits.len()
        invariant
            j <= digits@.len(),
            digits@.len() == width,
            forall|k: int| 0 <= k < width ==> #[trigger] digits@[k] == id_alphabet()[((value as nat / pow32(k as nat)) % 32) as int],
            out@.len() == j,
            spec_encode(value as nat, width as nat).len() == width,
            forall|k: int| 0 <= k < j ==> #[trigger] out@[k] == spec_encode(value as nat, width as nat)[k],
        decreases digits@.len() - j,
    {
        proof {
            lemma_encode_index(value as nat, width as nat, j as int);
        }
        out.push(digits[digits.len() - 1 - j]);
        j += 1;
    }
    proof {
        lemma_encode_len(value as nat, width as nat);
        assert(out@ =~= spec_encode(value as nat, width as nat));
    }
    Ok(crate::text::string_from_chars(out.as_slice()))
}

/// The value after `current` in the walk through the ids of width `width`:
/// one more, cyclically; an error for a width beyond
/// `MAX_GENERATED_ID_WIDTH`.
pub fn next_sequence_value(current: u128, width: u8) -> (r: Result<u128, AppError>)
    ensures
        width <= MAX_GENERATED_ID_WIDTH <==> r is Ok,
        r matches Ok(n) ==> n == ((current as int % (pow32(width as nat) as int)) + 1) % (pow32(width as nat) as int),
{
    let size = id_space_size(width)?;
    proof {
        lemma_pow32_positive(width as nat);
        lemma_pow32_monotone(width as nat, MAX_GENERATED_ID_WIDTH as nat);
        lemma_pow32_max();
    }
    let c = current % size;
    Ok((c + 1) % size)
}

/// Where the allocator stands: the id width, the next value to try and how
/// many ids of this width were issued.
#[derive(Debug, Clone, Copy, PartialEq, Eq, Structural)]
pub struct GeneratorState {
    pub width: u8,
    pub next_value: u128,
    pub issued_count: u128,
}

impl Default for GeneratorState {
    /// The state of a task root that never issued an id.
    fn default() -> (r: Self)
        ensures
            r.width == MIN_GENERATED_ID_WIDTH,
            r.next_value == 0,
            r.issued_count == 0,
    {
        GeneratorState { width: MIN_GENERATED_ID_WIDTH, next_value: 0, issued_count: 0 }
    }
}

/// A decimal digit.
pub open spec fn is_digit(c: char) -> bool {
    '0' <= c && c <= '9'
}

/// The value of a string of decimal digits.
pub open spec fn digits_value(s: Seq<char>) -> nat
    decreases s.len(),
{
    if s.len() == 0 {
        0
    } else {
        digits_value(s.drop_last()) * 10 + (s.last() as nat - '0' as nat) as nat
    }
}

/// `s` without one leading `+`.
pub open spec fn digits_part(s: Seq<char>) -> Seq<char> {
    if s.len() > 0 && s[0] == '+' {
        s.drop_first()
    } else {
        s
    }
}

/// Every character of `d` is a decimal digit.
pub open spec fn all_digits(d: Seq<char>) -> bool {
    forall|i: int| 0 <= i < d.len() ==> is_digit(#[trigger] d[i])
}

/// What `str::parse::<u128>` gives: an optional `+`, then at least one
/// decimal digit and nothing else, with a value that fits.
pub open spec fn spec_parse_u128(s: Seq<char>) -> Option<u128> {
    let d = digits_part(s);
    if d.len() > 0 && all_digits(d) && digits_value(d) <= u128::MAX {
        Some(digits_value(d) as u128)
    } else {
        None
    }
}

proof fn lemma_digits_value_prefix(s: Seq<char>, i: int)
    requires
        0 <= i <= s.len(),
        all_digits(s),
    ensures
        digits_value(s.take(i)) <= digits_value(s),
    decreases s.len() - i,
{
    if i < s.len() {
        lemma_digits_value_prefix(s, i + 1);
        assert(s.take(i + 1).drop_last() =~= s.take(i));
    } else {
        assert(s.take(i) =~= s);
    }
}

/// Parses a decimal `u128` as `str::parse` does.
pub fn parse_u128(s: &str) -> (r: Option<u128>)
    ensures
        r == spec_parse_u128(s@),
{
    let cs = crate::text::chars_of(s);
    let start: usize = if cs.len() > 0 && cs[0] == '+' { 1 } else { 0 };
    let ghost d = digits_part(s@);
    proof {
        assert(cs@.subrange(start as int, cs@.len() as int) =~= d);
    }
    if start == cs.len() {
        return None;
    }
    let mut acc: u128 = 0;
    let mut i: usize = start;
    while i < cs.len()
        invariant
            start <= i <= cs@.len(),
            cs@ == s@,
            d == cs@.subrange(start as int, cs@.len() as int),
            d == digits_part(s@),
            forall|k: int| start <= k < i ==> is_digit(#[trigger] cs@[k]),
            acc == digits_value(d.take(i - start)),
        decreases cs@.len() - i,
    {
        let c = cs[i];
        if !('0' <= c && c <= '9') {
            proof {
                assert(d[i - start] == c);
                assert(!is_digit(d[i - start]));
                assert(spec_parse_u128(s@) is None);
            }
            return None;
        }
        let digit: u128 = ((c as u32) - ('0' as u32)) as u128;
        proof {
            assert(d.take(i - start + 1).drop_last() =~= d.take(i - start));
            assert(d.take(i - start + 1).last() == c);
        }
        if acc > (u128::MAX - digit) / 10 {
            proof {
                assert(acc * 10 + digit > u128::MAX) by (nonlinear_arith)
                    requires
                        acc > (u128::MAX - digit) / 10,
                        digit <= 9,
                ;
                assert(digits_value(d.take(i - start + 1)) == acc * 10 + digit);
                if all_digits(d) {
                    lemma_digits_value_prefix(d, i - start + 1);
                }
                assert(spec_parse_u128(s@) is None);
            }
            return None;
        }
        proof {
            assert(acc * 10 + digit <= u128::MAX) by (nonlinear_arith)
                requires
                    acc <= (u128::MAX - digit) / 10,
                    digit <= 9,
            ;
        }
        acc = acc * 10 + digit;
        i += 1;
    }
    proof {
        assert(d.take(d.len() as int) =~= d);
        assert forall|k: int| 0 <= k < d.len() implies is_digit(#[trigger] d[k]) by {
            assert(d[k] == cs@[start + k]);
        }
        assert(all_digits(d));
    }
    Some(acc)
}

impl GeneratorState {
    /// The state read back from its stored form: a width outside the
    /// supported range becomes the narrowest one, an unreadable number 0;
    /// then the width advances if its ids are all issued.
    pub fn from_persisted(width: u8, next_value: &str, issued_count: &str) -> (r: Result<Self, AppError>)
        ensures
            ({
                let w = if MIN_GENERATED_ID_WIDTH <= width <= MAX_GENERATED_ID_WIDTH {
                    width
                } else {
                    MIN_GENERATED_ID_WIDTH
                };
                let n = match spec_parse_u128(next_value@) {
                    Some(v) => v,
                    None => 0,
                };
                let c = match spec_parse_u128(issued_count@) {
                    Some(v) => v,
                    None => 0,
                };
                if c < pow32(w as nat) {
                    r matches Ok(st) && st.width == w && st.next_value == n && st.issued_count == c
                } else if w < MAX_GENERATED_ID_WIDTH {
                    r matches Ok(st) && st.width == w + 1 && st.next_value == 0 && st.issued_count == 0
                } else {
                    r is Err
                }
            }),
    {
        let w = if MIN_GENERATED_ID_WIDTH <= width && width <= MAX_GENERATED_ID_WIDTH {
            width
        } else {
            MIN_GENERATED_ID_WIDTH
        };
        let next = match parse_u128(next_value) {
            Some(v) => v,
            None => 0,
        };
        let issued = match parse_u128(issued_count) {
            Some(v) => v,
            None => 0,
        };
        let mut state = GeneratorState { width: w, next_value: next, issued_count: issued };
        proof {
            // Advancing from a supported width never leaves the supported range but
            // at the widest width; an exhausted widest width is the one error.
            lemma_pow32_positive((w + 1) as nat);
        }
        let advanced = state.advance_width_if_exhausted();
        match advanced {
            Ok(()) => Ok(state),
            Err(e) => {
                proof {
                    assert(w == MAX_GENERATED_ID_WIDTH);
                }
                Err(e)
            },
        }
    }

    /// Moves to the next width once every id of the current width has been
    /// issued. Fails for a width beyond `MAX_GENERATED_ID_WIDTH` (the width
    /// may have been advanced by then).
    pub fn advance_width_if_exhausted(&mut self) -> (r: Result<(), AppError>)
        ensures
            ({
                let w = old(self).width;
                if w > MAX_GENERATED_ID_WIDTH {
                    r is Err && *final(self) == *old(self)
                } else if old(self).issued_count < pow32(w as nat) {
                    r is Ok && *final(self) == *old(self)
                } else {
                    &&& final(self).width == w + 1
                    &&& final(self).next_value == 0
                    &&& final(self).issued_count == 0
                    &&& (r is Ok <==> w + 1 <= MAX_GENERATED_ID_WIDTH)
                }
            }),
    {
        let ghost w = self.width;
        loop
            invariant
                w == old(self).width,
                self.width == w ==> *self == *old(self),
                self.width != w ==> (self.width == w + 1 && self.issued_count == 0 && self.next_value == 0
                    && w <= MAX_GENERATED_ID_WIDTH && old(self).issued_count >= pow32(w as nat)),
            decreases (w + 1) - self.width,
        {
            let size = match id_space_size(self.width) {
                Ok(n) => n,
                Err(e) => {
                    return Err(e);
                },
            };
            if self.issued_count < size {
                return Ok(());
            }
            proof {
                lemma_pow32_positive(self.width as nat);
            }
            self.width = self.width + 1;
            self.next_value = 0;
            self.issued_count = 0;
        }
    }
}

/// The value `k` steps after `start` in the cyclic walk through `m` values.
pub open spec fn walk(start: int, k: int, m: int) -> int {
    (start + k) % m
}

/// Where the walk of width `w` starts: where `before` stopped when the
/// width is still `before`'s, else at the first id.
pub open spec fn walk_start(before: GeneratorState, w: u8) -> int {
    if w == before.width {
        before.next_value as int % pow32(w as nat) as int
    } else {
        0
    }
}

/// Every id of width `w` is among `existing`.
pub open spec fn width_taken(existing: Seq<Seq<char>>, w: nat) -> bool {
    forall|v: nat| v < pow32(w) ==> existing.contains(#[trigger] spec_encode(v, w))
}

/// The walk moves on by one step at a time.
proof fn lemma_walk_step(start: int, k: int, m: int)
    requires
        m > 0,
        0 <= start,
        0 <= k,
    ensures
        ((walk(start, k, m) % m) + 1) % m == walk(start, k + 1, m),
        0 <= walk(start, k, m) < m,
{
    vstd::arithmetic::div_mod::lemma_mod_bound(start + k, m);
    vstd::arithmetic::div_mod::lemma_mod_twice(start + k, m);
    vstd::arithmetic::div_mod::lemma_add_mod_noop(start + k, 1, m);
    if m > 1 {
        vstd::arithmetic::div_mod::lemma_small_mod(1, m as nat);
    } else {
        assert(((start + k) % m + 1) % m == 0) by {
            vstd::arithmetic::div_mod::lemma_mod_self_0(1);
            vstd::arithmetic::div_mod::lemma_small_mod(0, 1);
        }
        assert((start + k + 1) % m == 0) by {
            vstd::arithmetic::div_mod::lemma_mod_bound(start + k + 1, 1);
        }
    }
}

/// The widths from `state`'s on that the allocator passed over before
/// width `upto`: all of them but a first width whose ids were all issued.
pub open spec fn passed_widths_taken(existing: Seq<Seq<char>>, state: GeneratorState, upto: nat) -> bool {
    forall|x: nat|
        state.width <= x < upto && !(x == state.width && state.issued_count >= pow32(state.width as nat))
            ==> #[trigger] width_taken(existing, x)
}

/// Issues the next free id and advances `state`: from where the state
/// stopped, walk the ids of the current width cyclically and take the first
/// that is not in `existing`; when every id of the width is taken (or all
/// were issued), go on at the next width from its first id. An error means
/// the widths ran out: every width up to `MAX_GENERATED_ID_WIDTH` that was
/// walked had all its ids taken.
pub fn allocate_id(state: &mut GeneratorState, existing: &Vec<String>) -> (r: Result<String, AppError>)
    ensures
        r is Err ==> final(state).width > MAX_GENERATED_ID_WIDTH && passed_widths_taken(
            names_view(existing@),
            *old(state),
            (MAX_GENERATED_ID_WIDTH + 1) as nat,
        ),
        r matches Ok(id) ==> ({
            let w0 = old(state).width;
            let w = final(state).width;
            let m = pow32(w as nat) as int;
            let start = walk_start(*old(state), w);
            &&& w0 <= w <= MAX_GENERATED_ID_WIDTH
            &&& passed_widths_taken(names_view(existing@), *old(state), w as nat)
            &&& !names_view(existing@).contains(id@)
            &&& id@.len() == w
            &&& exists|k: nat|
                k < m && id@ == spec_encode(walk(start, k as int, m) as nat, w as nat) && final(state).next_value == (
                walk(start, k as int, m) + 1) % m && forall|j: nat|
                j < k ==> names_view(existing@).contains(#[trigger] spec_encode(walk(start, j as int, m) as nat, w as nat))
            &&& final(state).issued_count == if w == w0 { old(state).issued_count + 1 } else { 1 }
        }),
{
    let ghost ev = names_view(existing@);
    let ghost s0 = *state;
    loop
        invariant
            ev == names_view(existing@),
            s0 == *old(state),
            state.width >= s0.width,
            state.width == s0.width ==> *state == s0,
            state.width != s0.width ==> state.next_value == 0 && state.issued_count == 0,
            passed_widths_taken(ev, s0, state.width as nat),
        decreases 256 - state.width,
    {
        let ghost before_advance = *state;
        match state.advance_width_if_exhausted() {
            Ok(()) => {
                proof {
                    if *state != before_advance {
                        lemma_pow32_positive(before_advance.width as nat);
                        assert(before_advance.width == s0.width);
                    }
                    assert forall|x: nat|
                        s0.width <= x < state.width && !(x == s0.width && s0.issued_count >= pow32(s0.width as nat)) implies #[trigger] width_taken(
                        ev,
                        x,
                    ) by {
                        if *state == before_advance {
                            assert(x < before_advance.width);
                        }
                    }
                }
            },
            Err(e) => {
                proof {
                    if before_advance.width <= MAX_GENERATED_ID_WIDTH {
                        lemma_pow32_positive(before_advance.width as nat);
                        assert(before_advance.width == s0.width);
                    }
                    assert forall|x: nat|
                        s0.width <= x < (MAX_GENERATED_ID_WIDTH + 1) as nat && !(x == s0.width && s0.issued_count
                            >= pow32(s0.width as nat)) implies #[trigger] width_taken(ev, x) by {
                        if before_advance.width > MAX_GENERATED_ID_WIDTH {
                            assert(x < before_advance.width);
                        }
                    }
                }
                return Err(e);
            },
        }
        let modulus = match id_space_size(state.width) {
            Ok(m) => m,
            Err(e) => {
                return Err(e);
            },
        };
        let width = state.width;
        proof {
            lemma_pow32_positive(width as nat);
        }
        let ghost scan_state = *state;
        let start = state.next_value % modulus;
        proof {
            vstd::arithmetic::div_mod::lemma_mod_bound(state.next_value as int, modulus as int);
            vstd::arithmetic::div_mod::lemma_small_mod(start as nat, modulus as nat);
        }
        let mut current = start;
        let mut scanned: u128 = 0;
        while scanned < modulus
            invariant
                width == state.width,
                width <= MAX_GENERATED_ID_WIDTH,
                modulus == pow32(width as nat),
                modulus >= 1,
                *state == scan_state,
                s0 == *old(state),
                width >= s0.width,
                scan_state.width == s0.width ==> scan_state == s0,
                scan_state.width != s0.width ==> scan_state.next_value == 0 && scan_state.issued_count == 0,
                passed_widths_taken(ev, s0, width as nat),
                start == scan_state.next_value % modulus,
                start < modulus,
                scanned <= modulus,
                current == walk(start as int, scanned as int, modulus as int),
                state.issued_count < modulus,
                ev == names_view(existing@),
                forall|j: nat| j < scanned ==> ev.contains(#[trigger] spec_encode(walk(start as int, j as int, modulus as int) as nat, width as nat)),
            decreases modulus - scanned,
        {
            let ghost v = current;
            let ghost k = scanned;
            let id = match encode_generated_id(current, width) {
                Ok(id) => id,
                Err(e) => {
                    return Err(e);
                },
            };
            let next = match next_sequence_value(current, width) {
                Ok(n) => n,
                Err(e) => {
                    return Err(e);
                },
            };
            proof {
                vstd::arithmetic::div_mod::lemma_mod_bound((start + scanned) as int, modulus as int);
                vstd::arithmetic::div_mod::lemma_small_mod(current as nat, modulus as nat);
                lemma_pow32_max();
                lemma_pow32_monotone(width as nat, MAX_GENERATED_ID_WIDTH as nat);
                vstd::arithmetic::div_mod::lemma_mod_bound((current + 1) as int, modulus as int);
                lemma_walk_step(start as int, scanned as int, modulus as int);
            }
            current = next;
            scanned += 1;
            if crate::reorder::contains_string(existing, &id) {
                continue;
            }
            state.next_value = next;
            state.issued_count = state.issued_count + 1;
            proof {
                lemma_encode_len(v as nat, width as nat);
                let m = modulus as int;
                assert(id@ == spec_encode(walk(start as int, k as int, m) as nat, width as nat));
                if width != s0.width {
                    vstd::arithmetic::div_mod::lemma_small_mod(0, modulus as nat);
                }
                let st = walk_start(s0, width);
                assert(st == start as int);
                assert(state.next_value == (walk(st, k as int, m) + 1) % m);
                assert(forall|j: nat|
                    j < k ==> ev.contains(#[trigger] spec_encode(walk(st, j as int, m) as nat, width as nat)));
                assert(k < m && id@ == spec_encode(walk(st, k as int, m) as nat, width as nat) && state.next_value == (
                walk(st, k as int, m) + 1) % m && forall|j: nat|
                j < k ==> ev.contains(#[trigger] spec_encode(walk(st, j as int, m) as nat, width as nat)));
                assert(!ev.contains(id@));
                assert(state.issued_count == if width == s0.width { s0.issued_count + 1 } else { 1 });
            }
            return Ok(id);
        }
        proof {
            assert forall|v: nat| v < pow32(width as nat) implies ev.contains(#[trigger] spec_encode(v, width as nat)) by {
                let j: nat = if v >= start { (v - start) as nat } else { (v + modulus - start) as nat };
                assert(j < scanned);
                if v >= start {
                    vstd::arithmetic::div_mod::lemma_small_mod(v, modulus as nat);
                } else {
                    vstd::arithmetic::div_mod::lemma_mod_add_multiples_vanish(v as int, modulus as int);
                    vstd::arithmetic::div_mod::lemma_small_mod(v, modulus as nat);
                }
                assert(walk(start as int, j as int, modulus as int) == v);
                assert(ev.contains(spec_encode(walk(start as int, j as int, modulus as int) as nat, width as nat)));
            }
            assert(width_taken(ev, width as nat));
        }
        state.width = state.width + 1;
        state.next_value = 0;
        state.issued_count = 0;
        proof {
            assert forall|x: nat|
                s0.width <= x < state.width && !(x == s0.width && s0.issued_count >= pow32(s0.width as nat)) implies #[trigger] width_taken(
                ev,
                x,
            ) by {
                if x < width {
                    assert(x < scan_state.width);
                }
            }
        }
    }
}

/// 64-bit FNV-1a of `bytes`.
pub open spec fn fnv1a(bytes: Seq<u8>) -> u64
    decreases bytes.len(),
{
    if bytes.len() == 0 {
        0xcbf29ce484222325u64
    } else {
        vstd::wrapping::u64_specs::wrapping_mul(fnv1a(bytes.drop_last()) ^ (bytes.last() as u64), 0x100000001b3u64)
    }
}

/// The digits of lower-case hexadecimal.
pub open spec fn hex_alphabet() -> Seq<char> {
    seq!['0', '1', '2', '3', '4', '5', '6', '7', '8', '9', 'a', 'b', 'c', 'd', 'e', 'f']
}

/// The last `n` hexadecimal digits of `v`, most significant first.
pub open spec fn hex_digits(v: nat, n: nat) -> Seq<char>
    decreases n,
{
    if n == 0 {
        Seq::empty()
    } else {
        hex_digits(v / 16, (n - 1) as nat).push(hex_alphabet()[(v % 16) as int])
    }
}

proof fn lemma_hex_digits_none(x: nat)
    ensures
        hex_digits(x, 0) == Seq::<char>::empty(),
{
}

/// `v` as 16 lower-case hexadecimal digits.
fn hex16(v: u64) -> (r: String)
    ensures
        r@ == hex_digits(v as nat, 16),
{
    let alphabet = ['0', '1', '2', '3', '4', '5', '6', '7', '8', '9', 'a', 'b', 'c', 'd', 'e', 'f'];
    proof {
        assert(alphabet@ =~= hex_alphabet());
    }
    let mut out: Vec<char> = Vec::new();
    let mut k: u32 = 16;
    proof {
        lemma_hex_digits_none(v as nat / pow16(16));
        assert(out@ =~= Seq::<char>::empty());
    }
    while k > 0
        invariant
            k <= 16,
            alphabet@ == hex_alphabet(),
            out@ == hex_digits(v as nat / pow16((k) as nat), (16 - k) as nat),
        decreases k,
    {
        proof {
            lemma_pow16_facts((k - 1) as nat);
            lemma_hex_prefix(v as nat, (k - 1) as nat, (16 - k + 1) as nat);
        }
        let shift: u64 = (4 * (k - 1)) as u64;
        let d = (v >> shift) & 15;
        proof {
            lemma_shift_digit(v, (k - 1) as u64);
        }
        out.push(alphabet[d as usize]);
        k -= 1;
    }
    proof {
        assert(pow16(0) == 1);
        assert(v as nat / 1 == v as nat);
    }
    crate::text::string_from_chars(out.as_slice())
}

/// `16` to the power `n`.
pub open spec fn pow16(n: nat) -> nat
    decreases n,
{
    if n == 0 {
        1
    } else {
        16 * pow16((n - 1) as nat)
    }
}

proof fn lemma_pow16_facts(n: nat)
    ensures
        pow16(n) >= 1,
        pow16(n + 1) == 16 * pow16(n),
    decreases n,
{
    if n > 0 {
        lemma_pow16_facts((n - 1) as nat);
    }
}

/// Taking one more hexadecimal digit from the right extends the text by it.
proof fn lemma_hex_prefix(v: nat, k: nat, n: nat)
    requires
        n >= 1,
    ensures
        hex_digits(v / pow16(k), n) == hex_digits(v / pow16(k + 1), (n - 1) as nat).push(
            hex_alphabet()[((v / pow16(k)) % 16) as int],
        ),
{
    lemma_pow16_facts(k);
    vstd::arithmetic::div_mod::lemma_div_denominator(v as int, pow16(k) as int, 16);
    vstd::arithmetic::mul::lemma_mul_is_commutative(pow16(k) as int, 16);
}

/// Shifting right by four bits per digit and masking reads one digit.
proof fn lemma_shift_digit(v: u64, k: u64)
    requires
        k < 16,
    ensures
        (v >> ((4 * k) as u64)) & 15 == ((v as nat / pow16(k as nat)) % 16),
{
    assert((v >> ((4 * k) as u64)) & 15 == (v >> ((4 * k) as u64)) % 16) by (bit_vector)
        requires
            k < 16,
    ;
    lemma_shr_is_div(v, k);
}

proof fn lemma_shr_is_div(v: u64, k: u64)
    requires
        k < 16,
    ensures
        (v >> ((4 * k) as u64)) as nat == v as nat / pow16(k as nat),
    decreases k,
{
    if k == 0 {
        assert(v >> ((4 * 0u64) as u64) == v) by (bit_vector);
        assert(v as nat / 1 == v as nat);
    } else {
        lemma_shr_is_div(v, (k - 1) as u64);
        assert(v >> ((4 * k) as u64) == (v >> ((4 * (k - 1)) as u64)) / 16) by (bit_vector)
            requires
                0 < k < 16,
        ;
        lemma_pow16_facts((k - 1) as nat);
        vstd::arithmetic::div_mod::lemma_div_denominator(v as int, pow16((k - 1) as nat) as int, 16);
    }
}

/// The hash that keys the state file of a task root: 64-bit FNV-1a of the
/// root's text (UTF-8), as 16 lower-case hexadecimal digits.
pub fn stable_path_hash(root_text: &str) -> (r: String)
    ensures
        r@ == hex_digits(fnv1a(root_text.spec_bytes()) as nat, 16),
{
    let bytes = root_text.as_bytes();
    let mut hash: u64 = 0xcbf29ce484222325u64;
    let mut i: usize = 0;
    while i < bytes.len()
        invariant
            i <= bytes@.len(),
            bytes@ == root_text.spec_bytes(),
            hash == fnv1a(bytes@.take(i as int)),
        decreases bytes@.len() - i,
    {
        proof {
            assert(bytes@.take(i + 1).drop_last() =~= bytes@.take(i as int));
        }
        hash = hash ^ (bytes[i] as u64);
        hash = hash.wrapping_mul(0x100000001b3u64);
        i += 1;
    }
    proof {
        assert(bytes@.take(bytes@.len() as int) =~= bytes@);
    }
    hex16(hash)
}

proof fn lemma_hex_digits_len(v: nat, n: nat)
    ensures
        hex_digits(v, n).len() == n,
    decreases n,
{
    if n > 0 {
        lemma_hex_digits_len(v / 16, (n - 1) as nat);
    }
}

/// Below `16^n`, different values have different `n`-digit texts.
proof fn lemma_hex_digits_injective(x: nat, y: nat, n: nat)
    requires
        x < pow16(n),
        y < pow16(n),
        hex_digits(x, n) == hex_digits(y, n),
    ensures
        x == y,
    decreases n,
{
    if n > 0 {
        let m = (n - 1) as nat;
        lemma_pow16_facts(m);
        let hx = hex_digits(x, n);
        let hy = hex_digits(y, n);
        lemma_hex_digits_len(x / 16, m);
        lemma_hex_digits_len(y / 16, m);
        assert(hx.last() == hex_alphabet()[(x % 16) as int]);
        assert(hy.last() == hex_alphabet()[(y % 16) as int]);
        assert(x % 16 == y % 16);
        assert(hx.drop_last() == hex_digits(x / 16, m));
        assert(hy.drop_last() == hex_digits(y / 16, m));
        assert(x / 16 < pow16(m)) by (nonlinear_arith)
            requires
                x < 16 * pow16(m),
        ;
        assert(y / 16 < pow16(m)) by (nonlinear_arith)
            requires
                y < 16 * pow16(m),
        ;
        lemma_hex_digits_injective(x / 16, y / 16, m);
        assert(x == 16 * (x / 16) + x % 16) by (nonlinear_arith);
        assert(y == 16 * (y / 16) + y % 16) by (nonlinear_arith);
    }
}

/// Task roots whose hashes differ get state files (and lock files) of
/// different names. (Different roots can share a 64-bit hash, so this says
/// nothing of roots whose hashes collide.)
pub proof fn lemma_state_file_names_differ(a: Seq<u8>, b: Seq<u8>)
    requires
        fnv1a(a) != fnv1a(b),
    ensures
        hex_digits(fnv1a(a) as nat, 16) + ".toml"@ != hex_digits(fnv1a(b) as nat, 16) + ".toml"@,
        hex_digits(fnv1a(a) as nat, 16) + ".lock"@ != hex_digits(fnv1a(b) as nat, 16) + ".lock"@,
{
    let ha = hex_digits(fnv1a(a) as nat, 16);
    let hb = hex_digits(fnv1a(b) as nat, 16);
    lemma_hex_digits_len(fnv1a(a) as nat, 16);
    lemma_hex_digits_len(fnv1a(b) as nat, 16);
    assert(pow16(16) == 0x1_0000_0000_0000_0000) by {
        reveal_with_fuel(pow16, 17);
    }
    if ha == hb {
        lemma_hex_digits_injective(fnv1a(a) as nat, fnv1a(b) as nat, 16);
    }
    assert((ha + ".toml"@).subrange(0, 16) =~= ha);
    assert((hb + ".toml"@).subrange(0, 16) =~= hb);
    assert((ha + ".lock"@).subrange(0, 16) =~= ha);
    assert((hb + ".lock"@).subrange(0, 16) =~= hb);
}

/// Hands out ids for one task root; several processes may share it through
/// the state file, under the lock file.
#[derive(Debug)]
pub struct SharedIdAllocator {
    state_path: PathBuf,
    lock_path: PathBuf,
}

impl SharedIdAllocator {
    /// The allocator of the task root of `config`; `root_text` is that root
    /// as text (its canonical form where it exists). The state file and its
    /// lock are named by the root's hash, under `id-generator` in the state
    /// directory.
    pub fn new(config: &ResolvedConfig, root_text: &str) -> (r: Self)
        ensures
            ({
                let dir = joined(config.state_dir, "id-generator"@);
                let hash = hex_digits(fnv1a(root_text.spec_bytes()) as nat, 16);
                &&& r.state_file() == joined(dir, hash + ".toml"@)
                &&& r.lock_file() == joined(dir, hash + ".lock"@)
            }),
    {
        let hash = stable_path_hash(root_text);
        let dir = path_join(&config.state_dir, "id-generator");
        let state_name = crate::text::concat(hash.as_str(), ".toml");
        let lock_name = crate::text::concat(hash.as_str(), ".lock");
        SharedIdAllocator { state_path: path_join(&dir, state_name.as_str()), lock_path: path_join(&dir, lock_name.as_str()) }
    }

    /// The state file.
    pub closed spec fn state_file(&self) -> PathBuf {
        self.state_path
    }

    /// The lock file.
    pub closed spec fn lock_file(&self) -> PathBuf {
        self.lock_path
    }

    /// The file holding the allocator's state.
    pub fn state_path(&self) -> (r: &PathBuf)
        ensures
            *r == self.state_file(),
    {
        &self.state_path
    }

    /// The file whose existence marks the state as locked.
    pub fn lock_path(&self) -> (r: &PathBuf)
        ensures
            *r == self.lock_file(),
    {
        &self.lock_path
    }

    /// The next free id under the allocator's root (see `allocate_id`). The
    /// caller holds the lock, has read `state` from the state file and
    /// stores it again afterwards.
    pub fn generate(&self, state: &mut GeneratorState, existing_ids: &Vec<String>) -> (r: Result<String, AppError>)
        ensures
            r is Err ==> final(state).width > MAX_GENERATED_ID_WIDTH && passed_widths_taken(
                names_view(existing_ids@),
                *old(state),
                (MAX_GENERATED_ID_WIDTH + 1) as nat,
            ),
            r matches Ok(id) ==> ({
                let w0 = old(state).width;
                let w = final(state).width;
                let m = pow32(w as nat) as int;
                let start = walk_start(*old(state), w);
                &&& w0 <= w <= MAX_GENERATED_ID_WIDTH
                &&& passed_widths_taken(names_view(existing_ids@), *old(state), w as nat)
                &&& !names_view(existing_ids@).contains(id@)
                &&& id@.len() == w
                &&& exists|k: nat|
                    k < m && id@ == spec_encode(walk(start, k as int, m) as nat, w as nat) && final(state).next_value
                        == (walk(start, k as int, m) + 1) % m && forall|j: nat|
                    j < k ==> names_view(existing_ids@).contains(
                        #[trigger] spec_encode(walk(start, j as int, m) as nat, w as nat),
                    )
                &&& final(state).issued_count == if w == w0 { old(state).issued_count + 1 } else { 1 }
            }),
    {
        allocate_id(state, existing_ids)
    }

}

} // verus!
