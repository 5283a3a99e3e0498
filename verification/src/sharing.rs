//! Helpers contrasting data-sharing strategies for a large, copyable
//! record: a plain copy, a heap-boxed copy, and reference-counted sharing
//! through `Rc` and `Arc`. Each returns a value equal to its argument.

use vstd::prelude::*;
use std::rc::Rc;
use std::sync::Arc;

verus! {

/// A record with a large payload, used to compare the cost of copying it
/// against sharing it.
#[derive(Clone, Copy)]
pub struct Item {
    pub s: [i32; 1024],
    pub a: i32,
    pub b: i32,
}

/// A plain copy of the record.
pub fn raw(x: &Item) -> (r: Item)
    ensures
        r == *x,
{
    *x
}

/// Relies on std's `Clone` for `Rc`: the clone shares the same record.
#[verifier::external_body]
fn rc_clone_item(x: &Rc<Item>) -> (r: Rc<Item>)
    ensures
        r == *x,
{
    x.clone()
}

/// Relies on std's `Clone` for `Arc`: the clone shares the same record.
#[verifier::external_body]
fn arc_clone_item(x: &Arc<Item>) -> (r: Arc<Item>)
    ensures
        r == *x,
{
    x.clone()
}

/// A heap-boxed copy of the record.
pub fn boxed(x: &Box<Item>) -> (r: Box<Item>)
    ensures
        r == *x,
{
    Box::new(**x)
}

/// A reference-counted handle sharing the same record.
pub fn rced(x: &Rc<Item>) -> (r: Rc<Item>)
    ensures
        r == *x,
{
    rc_clone_item(x)
}

/// An atomically reference-counted handle sharing the same record.
pub fn arced(x: &Arc<Item>) -> (r: Arc<Item>)
    ensures
        r == *x,
{
    arc_clone_item(x)
}

} // verus!
