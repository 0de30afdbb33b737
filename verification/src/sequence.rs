//! Helpers on vectors.
use vstd::prelude::*;

verus! {

/// The items of `items` in reverse order.
pub(crate) fn reversed<T>(items: Vec<T>) -> (turned: Vec<T>)
    ensures
        turned@ == items@.reverse(),
{
    let mut items = items;
    let mut turned: Vec<T> = Vec::new();
    let ghost all = items@;
    while items.len() > 0
        invariant
            items@ == all.take(items@.len() as int),
            items@.len() <= all.len(),
            turned@.len() + items@.len() == all.len(),
            forall|k: int| 0 <= k < turned@.len() ==> turned@[k] == all[all.len() - 1 - k],
        decreases items@.len(),
    {
        if let Some(item) = items.pop() {
            turned.push(item);
        }
    }
    turned
}

} // verus!
