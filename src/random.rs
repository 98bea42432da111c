//! Random decimal digits, drawn from a per-process random hash state.
use vstd::prelude::*;
use std::collections::hash_map::RandomState;
use std::hash::BuildHasher;
use crate::bases::{digit_char, string_of};

verus! {

/// Relies on `RandomState::new`: a hash state with fresh random keys.
#[verifier::external_body]
pub(crate) fn fresh_random_state() -> RandomState {
    RandomState::new()
}

/// Relies on `BuildHasher::hash_one`: the hash of `i` under the keys of
/// `state`; nothing is known of its value.
#[verifier::external_body]
pub(crate) fn hash_of_index(state: &RandomState, i: usize) -> u64 {
    state.hash_one(i)
}

/// The digits `hashes[i] % 10`, in order.
pub fn digits_from_hashes(hashes: &Vec<u64>) -> (r: String)
    ensures
        r@.len() == hashes@.len(),
        forall|i: int| 0 <= i < hashes@.len() ==> #[trigger] r@[i] == digit_char(
            (hashes@[i] % 10) as int,
        ),
{
    let mut chars: Vec<char> = Vec::new();
    let mut i: usize = 0;
    while i < hashes.len()
        invariant
            i <= hashes.len(),
            chars@.len() == i,
            forall|k: int| 0 <= k < i ==> #[trigger] chars@[k] == digit_char((hashes@[k] % 10) as int),
        decreases hashes.len() - i,
    {
        let d = (hashes[i] % 10) as u8;
        chars.push((d + 48) as char);
        i = i + 1;
    }
    string_of(&chars)
}

/// `count` random decimal digits.
pub fn generate_random_digits(count: usize) -> (r: String)
    ensures
        r@.len() == count,
        forall|i: int| 0 <= i < count ==> '0' <= #[trigger] r@[i] <= '9',
{
    let state = fresh_random_state();
    let mut hashes: Vec<u64> = Vec::new();
    let mut i: usize = 0;
    while i < count
        invariant
            i <= count,
            hashes@.len() == i,
        decreases count - i,
    {
        hashes.push(hash_of_index(&state, i));
        i = i + 1;
    }
    let r = digits_from_hashes(&hashes);
    assert forall|i: int| 0 <= i < count implies '0' <= #[trigger] r@[i] <= '9' by {
        assert(r@[i] == digit_char((hashes@[i] % 10) as int));
    }
    r
}

} // verus!
