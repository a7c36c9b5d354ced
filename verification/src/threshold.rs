//! A test on arrays of numbers that is made from an index and a bound.

use vstd::prelude::*;

verus! {

/// A test for "the number at `index` is greater than `value`". The test
/// can be applied to any array that has a number at `index`.
pub fn index_above_value(index: usize, value: i32) -> (test: impl Fn(&[i32]) -> bool)
    ensures
        forall|array: &[i32]| index < array@.len() ==> call_requires(test, (array,)),
        forall|array: &[i32], above: bool|
            call_ensures(test, (array,), above) ==> above == (array@[index as int] > value),
{
    move |array: &[i32]| -> (above: bool)
        requires
            index < array@.len(),
        ensures
            above == (array@[index as int] > value),
        { array[index] > value }
}

} // verus!
