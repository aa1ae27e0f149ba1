//! Copies of lists.

use vstd::prelude::*;

verus! {

/// A list with the same items.
pub(crate) fn copied<T: Copy>(items: &[T]) -> (r: Vec<T>)
    ensures
        r@ == items@,
{
    let mut r: Vec<T> = Vec::new();
    let mut i: usize = 0;
    while i < items.len()
        invariant
            i <= items@.len(),
            r@ == items@.take(i as int),
        decreases items@.len() - i,
    {
        r.push(items[i]);
        i += 1;
        assert(items@.take(i as int) =~= items@.take(i - 1).push(items@[i - 1]));
    }
    assert(items@.take(i as int) =~= items@);
    r
}

} // verus!
