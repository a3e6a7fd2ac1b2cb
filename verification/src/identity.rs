//! Random item ids: four characters from the digits and lower-case letters.
use vstd::prelude::*;
use rand::RngExt;
use crate::tui_state::names_view;

verus! {

/// The characters of item ids.
pub open spec fn id_chars() -> Seq<char> {
    seq![
        '0', '1', '2', '3', '4', '5', '6', '7', '8', '9', 'a', 'b', 'c', 'd', 'e', 'f', 'g', 'h', 'i', 'j',
        'k', 'l', 'm', 'n', 'o', 'p', 'q', 'r', 's', 't', 'u', 'v', 'w', 'x', 'y', 'z',
    ]
}

/// The length of item ids.
pub const ID_LEN: usize = 4;

/// `rand::rng().random_range(0..n)`: a number drawn at random below `n`.
/// Only the range of the result is stated: it is random.
#[verifier::external_body]
fn random_below(n: usize) -> (r: usize)
    requires
        n > 0,
    ensures
        r < n,
{
    rand::rng().random_range(0..n)
}

/// The id spelled by `draws`: each draw is a position in `id_chars`.
pub open spec fn spec_id_from_draws(draws: Seq<usize>) -> Seq<char> {
    draws.map_values(|d: usize| id_chars()[d as int])
}

/// Valid draws for an id: `ID_LEN` positions, each within `id_chars`.
pub open spec fn valid_draws(draws: Seq<usize>) -> bool {
    draws.len() == ID_LEN && forall|i: int| 0 <= i < draws.len() ==> #[trigger] draws[i] < id_chars().len()
}

/// The id spelled by `draws`, each draw picking a character of `id_chars`.
pub fn id_from_draws(draws: &Vec<usize>) -> (r: String)
    requires
        valid_draws(draws@),
    ensures
        r@ == spec_id_from_draws(draws@),
{
    let chars = [
        '0', '1', '2', '3', '4', '5', '6', '7', '8', '9', 'a', 'b', 'c', 'd', 'e', 'f', 'g', 'h', 'i', 'j',
        'k', 'l', 'm', 'n', 'o', 'p', 'q', 'r', 's', 't', 'u', 'v', 'w', 'x', 'y', 'z',
    ];
    proof {
        assert(chars@ =~= id_chars());
    }
    let mut out: Vec<char> = Vec::new();
    let mut i: usize = 0;
    while i < draws.len()
        invariant
            i <= draws@.len(),
            valid_draws(draws@),
            chars@ == id_chars(),
            out@ == spec_id_from_draws(draws@.take(i as int)),
        decreases draws@.len() - i,
    {
        let k = draws[i];
        let c = chars[k];
        out.push(c);
        proof {
            assert(draws@.take(i + 1) =~= draws@.take(i as int).push(k));
            assert(out@ =~= spec_id_from_draws(draws@.take(i + 1)));
        }
        i += 1;
    }
    proof {
        assert(draws@.take(draws@.len() as int) =~= draws@);
    }
    crate::text::string_from_chars(out.as_slice())
}

/// `ID_LEN` random draws, each a position within `id_chars`. Which
/// positions come out is chance.
fn random_draws() -> (r: Vec<usize>)
    ensures
        valid_draws(r@),
{
    let mut draws: Vec<usize> = Vec::new();
    let mut i: usize = 0;
    while i < ID_LEN
        invariant
            i <= ID_LEN,
            draws@.len() == i,
            forall|k: int| 0 <= k < i ==> #[trigger] draws@[k] < id_chars().len(),
        decreases ID_LEN - i,
    {
        let d = random_below(36);
        draws.push(d);
        i += 1;
    }
    draws
}

/// A random id: `ID_LEN` characters, each drawn at random from
/// `id_chars`. Whatever is drawn, the id is the one those draws spell.
pub fn random_id() -> (r: String)
    ensures
        exists|d: Seq<usize>| valid_draws(d) && r@ == spec_id_from_draws(d),
        r@.len() == ID_LEN,
        forall|i: int| 0 <= i < r@.len() ==> id_chars().contains(#[trigger] r@[i]),
{
    let draws = random_draws();
    let r = id_from_draws(&draws);
    proof {
        assert forall|i: int| 0 <= i < r@.len() implies id_chars().contains(#[trigger] r@[i]) by {
            assert(draws@[i] < id_chars().len());
            assert(r@[i] == id_chars()[draws@[i] as int]);
        }
    }
    r
}

/// The id spelled by `draws` when none of `existing` is that id, else `None`.
pub fn fresh_id(draws: &Vec<usize>, existing: &Vec<String>) -> (r: Option<String>)
    requires
        valid_draws(draws@),
    ensures
        names_view(existing@).contains(spec_id_from_draws(draws@)) ==> r is None,
        !names_view(existing@).contains(spec_id_from_draws(draws@)) ==> (r matches Some(id) && id@
            == spec_id_from_draws(draws@)),
{
    let id = id_from_draws(draws);
    if crate::reorder::contains_string(existing, &id) {
        None
    } else {
        Some(id)
    }
}

/// One attempt at a new id: a random id that none of `existing` is, or
/// `None` when the draw hit one of them. Callers try again on `None`.
pub fn random_fresh_id(existing: &Vec<String>) -> (r: Option<String>)
    ensures
        r matches Some(id) ==> !names_view(existing@).contains(id@) && id@.len() == ID_LEN && forall|i: int|
            0 <= i < id@.len() ==> id_chars().contains(#[trigger] id@[i]),
        r matches Some(id) ==> exists|d: Seq<usize>| valid_draws(d) && id@ == spec_id_from_draws(d),
        r is None ==> exists|d: Seq<usize>| valid_draws(d) && names_view(existing@).contains(spec_id_from_draws(d)),
{
    let draws = random_draws();
    let r = fresh_id(&draws, existing);
    proof {
        if r is Some {
            let id = r->0;
            assert forall|i: int| 0 <= i < id@.len() implies id_chars().contains(#[trigger] id@[i]) by {
                assert(draws@[i] < id_chars().len());
                assert(id@[i] == id_chars()[draws@[i] as int]);
            }
        }
    }
    r
}

} // verus!
