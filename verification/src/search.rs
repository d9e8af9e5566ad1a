//! The first number that has a property.
use vstd::prelude::*;

verus! {

/// The first number below `n` that has a property.
pub open spec fn first_where(n: nat, holds: spec_fn(int) -> bool) -> Option<int>
    decreases n,
{
    if n == 0 {
        None
    } else {
        match first_where((n - 1) as nat, holds) {
            Some(i) => Some(i),
            None => if holds(n - 1) {
                Some(n - 1)
            } else {
                None
            },
        }
    }
}

/// What [`first_where`] finds.
pub proof fn lemma_first_where(n: nat, holds: spec_fn(int) -> bool)
    ensures
        match first_where(n, holds) {
            Some(i) => 0 <= i < n && holds(i) && forall|j: int| 0 <= j < i ==> !#[trigger] holds(j),
            None => forall|j: int| 0 <= j < n ==> !#[trigger] holds(j),
        },
    decreases n,
{
    if n > 0 {
        lemma_first_where((n - 1) as nat, holds);
    }
}

/// What is found stays found when more numbers are looked at.
pub proof fn lemma_first_where_stops(m: nat, n: nat, holds: spec_fn(int) -> bool)
    requires
        m <= n,
    ensures
        first_where(m, holds).is_some() ==> first_where(n, holds) == first_where(m, holds),
    decreases n - m,
{
    if m < n {
        lemma_first_where_stops(m, (n - 1) as nat, holds);
    }
}

} // verus!
