//! What the pass has from the `bumpalo` arena.
//!
//! The functions here hand their arguments to `bumpalo` as they are. Where no memory is left,
//! `bumpalo` stops the program; nothing is said of that.
use vstd::prelude::*;

use crate::ir::{Expr, Layout, Symbol};
use bumpalo::Bump;

verus! {

/// The arena that statements and slices are allocated in. Nothing is known of the
/// inside of an arena.
#[verifier::external_type_specification]
#[verifier::external_body]
pub struct ExBump<const MIN_ALIGN: usize>(bumpalo::Bump<MIN_ALIGN>);

/// A growable vector whose storage lies in an arena.
#[verifier::external_type_specification]
#[verifier::external_body]
#[verifier::reject_recursive_types(T)]
pub struct ExBumpVec<'bump, T>(bumpalo::collections::Vec<'bump, T>);

/// `bumpalo::Bump::alloc`: moves a value into the arena. The reference that comes back
/// holds that value, for as long as the arena is borrowed.
#[verifier::external_body]
pub(crate) fn alloc_in<'a, T>(arena: &'a Bump, value: T) -> (r: &'a T)
    ensures
        *r == value,
{
    arena.alloc(value)
}

/// `bumpalo::collections::Vec::from_iter_in`, turned into a slice of the arena by
/// `into_bump_slice`: the slice holds the items, in the order in which they come.
#[verifier::external_body]
pub(crate) fn slice_from_iter_in<'a, T>(items: Vec<T>, arena: &'a Bump) -> (r: &'a [T])
    ensures
        r@ == items@,
{
    bumpalo::collections::Vec::from_iter_in(items, arena).into_bump_slice()
}

/// The bindings of a chain of `let` statements, in an arena vector.
pub type LetChain<'a> = bumpalo::collections::Vec<'a, (Symbol, Expr<'a>, Layout)>;

/// What a [`LetChain`] holds, in order.
pub uninterp spec fn let_chain_items(chain: LetChain<'_>) -> Seq<(Symbol, Expr<'_>, Layout)>;

/// `bumpalo::collections::Vec::new_in`: a vector that holds nothing.
#[verifier::external_body]
pub(crate) fn let_chain_new_in<'a>(arena: &'a Bump) -> (r: LetChain<'a>)
    ensures
        let_chain_items(r) == Seq::<(Symbol, Expr<'a>, Layout)>::empty(),
{
    bumpalo::collections::Vec::new_in(arena)
}

/// `bumpalo::collections::Vec::push`: the item comes behind what the vector held.
#[verifier::external_body]
pub(crate) fn let_chain_push<'a>(chain: &mut LetChain<'a>, item: (Symbol, Expr<'a>, Layout))
    ensures
        let_chain_items(*final(chain)) == let_chain_items(*old(chain)).push(item),
{
    chain.push(item)
}

/// `bumpalo::collections::Vec::as_slice`: what the vector holds, in order.
#[verifier::external_body]
pub(crate) fn let_chain_as_slice<'b, 'a>(chain: &'b LetChain<'a>) -> (r: &'b [(
    Symbol,
    Expr<'a>,
    Layout,
)])
    ensures
        r@ == let_chain_items(*chain),
{
    chain.as_slice()
}

} // verus!
