//! Sums that the tracker's state is measured by: of a sequence of totals, and
//! of the bytes that a table of live allocations holds.

use crate::allocation::{Allocation, CallstackId};
use vstd::prelude::*;

verus! {

/// The sum of the numbers of a sequence.
pub open spec fn sum(s: Seq<nat>) -> nat
    decreases s.len(),
{
    if s.len() == 0 {
        0
    } else {
        sum(s.drop_last()) + s.last()
    }
}

/// A number more adds itself to the sum.
pub proof fn lemma_sum_push(s: Seq<nat>, x: nat)
    ensures
        sum(s.push(x)) == sum(s) + x,
{
    assert(s.push(x).drop_last() =~= s);
}

/// A number changed changes the sum by as much.
pub proof fn lemma_sum_update(s: Seq<nat>, i: int, x: nat)
    requires
        0 <= i < s.len(),
    ensures
        sum(s.update(i, x)) == sum(s) - s[i] + x,
    decreases s.len(),
{
    if i == s.len() - 1 {
        assert(s.update(i, x).drop_last() =~= s.drop_last());
    } else {
        lemma_sum_update(s.drop_last(), i, x);
        assert(s.update(i, x).drop_last() =~= s.drop_last().update(i, x));
    }
}

/// No number of a sequence is larger than the sum of all.
pub proof fn lemma_sum_bounds_each(s: Seq<nat>, i: int)
    requires
        0 <= i < s.len(),
    ensures
        s[i] <= sum(s),
    decreases s.len(),
{
    if i < s.len() - 1 {
        lemma_sum_bounds_each(s.drop_last(), i);
    }
}

/// A sequence of zeros sums to zero, and only such a sequence does.
pub proof fn lemma_sum_zero(s: Seq<nat>)
    ensures
        sum(s) == 0 <==> (forall|i: int| 0 <= i < s.len() ==> s[i] == 0),
    decreases s.len(),
{
    if s.len() > 0 {
        lemma_sum_zero(s.drop_last());
        if sum(s) == 0 {
            assert forall|i: int| 0 <= i < s.len() implies s[i] == 0 by {
                if i < s.len() - 1 {
                    assert(s.drop_last()[i] == s[i]);
                }
            }
        }
        if forall|i: int| 0 <= i < s.len() ==> s[i] == 0 {
            assert forall|i: int| 0 <= i < s.drop_last().len() implies s.drop_last()[i] == 0 by {
                assert(s.drop_last()[i] == s[i]);
            }
        }
    }
}

/// Whether an allocation counts for `of`: for the stack that `of` names, or,
/// where it names none, in any case.
pub open spec fn counts_for(allocation: Allocation, of: Option<CallstackId>) -> bool {
    of is None || of == Some(allocation.callstack_id)
}

/// The bytes that the table holds at one address and that count for `of`.
pub open spec fn heap_bytes_at(
    allocations: Map<usize, Allocation>,
    of: Option<CallstackId>,
    address: int,
) -> nat {
    if 0 <= address <= usize::MAX && allocations.contains_key(address as usize) && counts_for(
        allocations[address as usize],
        of,
    ) {
        allocations[address as usize].bytes()
    } else {
        0
    }
}

/// The bytes that the table holds at addresses below `bound` and that count
/// for `of`.
pub open spec fn heap_bytes_below(
    allocations: Map<usize, Allocation>,
    of: Option<CallstackId>,
    bound: nat,
) -> nat
    decreases bound,
{
    if bound == 0 {
        0
    } else {
        heap_bytes_below(allocations, of, (bound - 1) as nat) + heap_bytes_at(
            allocations,
            of,
            bound - 1,
        )
    }
}

/// The bytes of the live allocations that were made from one stack.
pub open spec fn heap_bytes(allocations: Map<usize, Allocation>, id: CallstackId) -> nat {
    heap_bytes_below(allocations, Some(id), (usize::MAX + 1) as nat)
}

/// The bytes of all live allocations.
pub open spec fn heap_total(allocations: Map<usize, Allocation>) -> nat {
    heap_bytes_below(allocations, None, (usize::MAX + 1) as nat)
}

/// Two tables that agree at every address but one differ in their bytes by
/// what they hold at that address.
pub proof fn lemma_heap_bytes_changed_at(
    before: Map<usize, Allocation>,
    after: Map<usize, Allocation>,
    of: Option<CallstackId>,
    address: usize,
    bound: nat,
)
    requires
        forall|other: usize|
            other != address ==> (before.contains_key(other) <==> after.contains_key(other)),
        forall|other: usize|
            other != address && before.contains_key(other) ==> before[other] == after[other],
    ensures
        heap_bytes_below(after, of, bound) + (if address < bound {
            heap_bytes_at(before, of, address as int)
        } else {
            0
        }) == heap_bytes_below(before, of, bound) + (if address < bound {
            heap_bytes_at(after, of, address as int)
        } else {
            0
        }),
    decreases bound,
{
    if bound > 0 {
        lemma_heap_bytes_changed_at(before, after, of, address, (bound - 1) as nat);
        if bound - 1 != address {
            if bound - 1 <= usize::MAX {
                let other = (bound - 1) as usize;
                assert(before.contains_key(other) <==> after.contains_key(other));
            }
            assert(heap_bytes_at(before, of, bound - 1) == heap_bytes_at(after, of, bound - 1));
        }
    }
}

/// What a new entry of the table does to its bytes: those of the entry come
/// in, and those of an entry that it replaces go.
pub proof fn lemma_heap_bytes_insert(
    allocations: Map<usize, Allocation>,
    of: Option<CallstackId>,
    address: usize,
    allocation: Allocation,
)
    ensures
        heap_bytes_below(allocations.insert(address, allocation), of, (usize::MAX + 1) as nat)
            + heap_bytes_at(allocations, of, address as int) == heap_bytes_below(
            allocations,
            of,
            (usize::MAX + 1) as nat,
        ) + (if counts_for(allocation, of) {
            allocation.bytes()
        } else {
            0
        }),
{
    lemma_heap_bytes_changed_at(
        allocations,
        allocations.insert(address, allocation),
        of,
        address,
        (usize::MAX + 1) as nat,
    );
}

/// What dropping an entry of the table does to its bytes.
pub proof fn lemma_heap_bytes_remove(
    allocations: Map<usize, Allocation>,
    of: Option<CallstackId>,
    address: usize,
)
    ensures
        heap_bytes_below(allocations.remove(address), of, (usize::MAX + 1) as nat) + heap_bytes_at(
            allocations,
            of,
            address as int,
        ) == heap_bytes_below(allocations, of, (usize::MAX + 1) as nat),
{
    lemma_heap_bytes_changed_at(
        allocations,
        allocations.remove(address),
        of,
        address,
        (usize::MAX + 1) as nat,
    );
}

/// A table without entries holds no bytes.
pub proof fn lemma_heap_bytes_empty(of: Option<CallstackId>, bound: nat)
    ensures
        heap_bytes_below(Map::<usize, Allocation>::empty(), of, bound) == 0,
    decreases bound,
{
    if bound > 0 {
        lemma_heap_bytes_empty(of, (bound - 1) as nat);
    }
}

/// A table in which nothing counts for `of` holds no bytes for it.
pub proof fn lemma_heap_bytes_none(
    allocations: Map<usize, Allocation>,
    of: Option<CallstackId>,
    bound: nat,
)
    requires
        forall|address: usize|
            allocations.contains_key(address) ==> !counts_for(#[trigger] allocations[address], of),
    ensures
        heap_bytes_below(allocations, of, bound) == 0,
    decreases bound,
{
    if bound > 0 {
        lemma_heap_bytes_none(allocations, of, (bound - 1) as nat);
    }
}

/// The bytes at one address are among those below any bound above it.
pub proof fn lemma_heap_bytes_at_within(
    allocations: Map<usize, Allocation>,
    of: Option<CallstackId>,
    address: usize,
    bound: nat,
)
    requires
        address < bound,
    ensures
        heap_bytes_at(allocations, of, address as int) <= heap_bytes_below(allocations, of, bound),
    decreases bound,
{
    if bound - 1 != address {
        lemma_heap_bytes_at_within(allocations, of, address, (bound - 1) as nat);
    }
}

} // verus!
