//! Random draws.

use rand::seq::SliceRandom;
use vstd::prelude::*;

verus! {

/// `rand::seq::SliceRandom::choose` with the thread's generator: one element of
/// the list, whichever it is, or nothing where the list is empty.
#[verifier::external_body]
fn pick<T>(items: &Vec<T>) -> (r: Option<&T>)
    ensures
        r is None <==> items@.len() == 0,
        r matches Some(item) ==> items@.contains(*item),
{
    items.choose(&mut rand::thread_rng())
}

/// `rand::random` for a 64-bit word, of which nothing is promised.
#[verifier::external_body]
pub(crate) fn random_word() -> u64 {
    rand::random::<u64>()
}

/// One text of a list, drawn at random.
pub fn random_choice(items: &Vec<String>) -> (r: String)
    requires
        items@.len() > 0,
    ensures
        items@.contains(r),
{
    match pick(items) {
        Some(item) => item.clone(),
        None => String::new(),
    }
}

} // verus!
