//! The random choice among enabled transitions.

use rand::seq::IteratorRandom;
use vstd::prelude::*;

verus! {

/// Relies on rand's `IteratorRandom::choose` over the items, drawn with
/// `rand::thread_rng`: it returns one of the items, and `None` if and only
/// if there are none.
#[verifier::external_body]
pub(crate) fn choose_random(items: &Vec<usize>) -> (r: Option<usize>)
    ensures
        r is None <==> items@.len() == 0,
        r matches Some(v) ==> items@.contains(v),
{
    items.iter().copied().choose(&mut rand::thread_rng())
}

} // verus!
