//! A measure for walks over a graph that never stand on one node twice at a time.
use vstd::prelude::*;
use vstd::set_lib::*;

verus! {

/// How many of the numbers below `n` are not used.
pub open spec fn unused(n: nat, used: Set<int>) -> nat {
    set_int_range(0, n as int).difference(used).len()
}

/// Using one more number leaves fewer.
pub proof fn lemma_unused_decreases(n: nat, used: Set<int>, c: int)
    requires
        0 <= c < n,
        !used.contains(c),
    ensures
        unused(n, used.insert(c)) < unused(n, used),
{
    lemma_int_range(0, n as int);
    let before = set_int_range(0, n as int).difference(used);
    let after = set_int_range(0, n as int).difference(used.insert(c));
    lemma_len_subset(before, set_int_range(0, n as int));
    assert(after =~= before.remove(c));
    assert(before.contains(c));
}

} // verus!
