//! Annotated-game text: tokens, the generic branching tree, the tree of
//! moves, and the plain list of lines.

use std::rc::Rc;
use vstd::prelude::*;

pub mod lexer;
pub mod movetree;
pub mod tree;
pub mod variations;

verus! {

/// The random number generator of the thread, carried unopened.
#[verifier::external_type_specification]
#[verifier::external_body]
pub struct ExThreadRng(rand::rngs::ThreadRng);

/// `Rc::clone`: another handle on the same shared value.
#[verifier::external_body]
pub(crate) fn share<T>(shared: &Rc<T>) -> (handle: Rc<T>)
    ensures
        handle == *shared,
{
    Rc::clone(shared)
}

/// `SliceRandom::choose`: one of the items, picked at random, or `None` if
/// there are none. Which one is picked is not told.
#[verifier::external_body]
pub(crate) fn pick<'a, T>(rng: &mut rand::rngs::ThreadRng, items: &'a Vec<T>) -> (picked: Option<
    &'a T,
>)
    ensures
        items@.len() == 0 ==> picked is None,
        items@.len() > 0 ==> picked is Some && items@.contains(*picked->0),
{
    rand::seq::SliceRandom::choose(items.as_slice(), rng)
}

} // verus!
