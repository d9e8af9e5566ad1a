//! The sets of numbers that keep the order of insertion, which `indexmap` provides.
//!
//! Verus takes a set as an opaque value, and what it holds is given a name.
use indexmap::IndexSet;
use vstd::prelude::*;

verus! {

/// `indexmap::IndexSet`.
#[verifier::external_type_specification]
#[verifier::external_body]
#[verifier::reject_recursive_types(T)]
#[verifier::reject_recursive_types(S)]
pub struct ExIndexSet<T, S>(indexmap::IndexSet<T, S>);

/// The numbers in a set, in the order in which they were inserted.
pub uninterp spec fn numbers_in(set: IndexSet<usize>) -> Seq<usize>;

/// `IndexSet::new`: the set holds nothing.
#[verifier::external_body]
pub(crate) fn new_numbers() -> (set: IndexSet<usize>)
    ensures
        numbers_in(set) == Seq::<usize>::empty(),
{
    IndexSet::new()
}

/// `IndexSet::contains`: whether the set holds a number.
#[verifier::external_body]
pub(crate) fn has_number(set: &IndexSet<usize>, number: usize) -> (found: bool)
    ensures
        found == numbers_in(*set).contains(number),
{
    set.contains(&number)
}

/// `IndexSet::insert`: a number that the set does not hold goes behind the others. It returns
/// whether the number is new.
#[verifier::external_body]
pub(crate) fn add_number(set: &mut IndexSet<usize>, number: usize) -> (new: bool)
    ensures
        new == !numbers_in(*old(set)).contains(number),
        numbers_in(*final(set)) == if numbers_in(*old(set)).contains(number) {
            numbers_in(*old(set))
        } else {
            numbers_in(*old(set)).push(number)
        },
{
    set.insert(number)
}

/// `IndexSet::into_iter`: every number that the set holds, in order.
#[verifier::external_body]
pub(crate) fn into_numbers(set: IndexSet<usize>) -> (numbers: Vec<usize>)
    ensures
        numbers@ == numbers_in(set),
{
    set.into_iter().collect()
}

} // verus!
