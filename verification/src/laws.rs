//! What holds of a tracker after any sequence of operations.
//!
//! Every operation of the tracker takes its state to the state that `step`
//! gives for one event, so a tracker that has gone through some operations
//! since it was made is in the state that `run` gives for their events.

use crate::allocation::{Allocation, CallstackId};
use crate::location::CallSite;
use crate::model::{
    lemma_add_allocation, lemma_add_anon_mmap, lemma_check_if_new_peak, lemma_free_allocation,
    lemma_free_anon_mmap, lemma_oom_break_glass, TrackerState,
};
use crate::rangemap::{lemma_remove_nothing, removed_parts, spans_after_remove, spans_clear_of};
use crate::sums::{lemma_heap_bytes_empty, lemma_sum_zero, sum};
use vstd::prelude::*;

verus! {

/// One operation on a tracker.
pub enum Event {
    AddAllocation { address: usize, size: usize, stack: Seq<CallSite> },
    FreeAllocation { address: usize },
    AddAnonMmap { address: usize, size: usize, stack: Seq<CallSite> },
    FreeAnonMmap { address: usize, size: usize },
    /// A check of the peak alone, as any report makes it.
    CheckPeak,
    /// The process ran out of memory, and the reserve is given back.
    BreakGlass,
}

/// The state after one operation.
pub open spec fn step(state: TrackerState, event: Event) -> TrackerState {
    match event {
        Event::AddAllocation { address, size, stack } => state.add_allocation(address, size, stack),
        Event::FreeAllocation { address } => state.free_allocation(address),
        Event::AddAnonMmap { address, size, stack } => state.add_anon_mmap(address, size, stack),
        Event::FreeAnonMmap { address, size } => state.free_anon_mmap(address, size),
        Event::CheckPeak => state.check_if_new_peak(),
        Event::BreakGlass => state.oom_break_glass(),
    }
}

/// The state of a tracker that was made and then went through the events.
pub open spec fn run(events: Seq<Event>) -> TrackerState
    decreases events.len(),
{
    if events.len() == 0 {
        TrackerState::empty()
    } else {
        step(run(events.drop_last()), events.last())
    }
}

/// Whether the tracker takes the operation in this state: a stack that is
/// new can get a number, and a range of addresses lies in the address space
/// and, where it is mapped, in no live mapping.
pub open spec fn takes(state: TrackerState, event: Event) -> bool {
    match event {
        Event::AddAllocation { address, size, stack } => state.has_room_for(stack),
        Event::FreeAllocation { address } => true,
        Event::AddAnonMmap { address, size, stack } => state.has_room_for(stack)
            && state.is_unmapped(address, size),
        Event::FreeAnonMmap { address, size } => address + size <= usize::MAX,
        Event::CheckPeak => true,
        Event::BreakGlass => true,
    }
}

/// Whether the tracker takes each of the events in the state that it is in
/// when the event comes.
pub open spec fn orderly(events: Seq<Event>) -> bool
    decreases events.len(),
{
    events.len() > 0 ==> orderly(events.drop_last()) && takes(
        run(events.drop_last()),
        events.last(),
    )
}

/// Whether every allocation that the events record comes at an address that
/// holds no live allocation then.
pub open spec fn at_distinct_addresses(events: Seq<Event>) -> bool
    decreases events.len(),
{
    events.len() > 0 ==> at_distinct_addresses(events.drop_last()) && match events.last() {
        Event::AddAllocation { address, size, stack } => !run(
            events.drop_last(),
        ).allocations.contains_key(address),
        _ => true,
    }
}

/// The stack that an event brings, if it brings one.
pub open spec fn stack_of(event: Event) -> Option<Seq<CallSite>> {
    match event {
        Event::AddAllocation { address, size, stack } => Some(stack),
        Event::AddAnonMmap { address, size, stack } => Some(stack),
        _ => None,
    }
}

/// The most bytes that were live after any of the events.
pub open spec fn high_water(events: Seq<Event>) -> nat
    decreases events.len(),
{
    if events.len() == 0 {
        0
    } else if run(events).current_total > high_water(events.drop_last()) {
        run(events).current_total
    } else {
        high_water(events.drop_last())
    }
}

/// After any events that the tracker takes, there is a total and a peak for
/// each numbered stack and for no other, no stack has two numbers, and the
/// two scalars are the sums of the totals and of the peaks.
pub proof fn law_totals_per_stack(events: Seq<Event>)
    requires
        orderly(events),
    ensures
        run(events).inv(),
        run(events).current.len() == run(events).stacks.len(),
        run(events).peak.len() == run(events).stacks.len(),
        run(events).stacks.no_duplicates(),
    decreases events.len(),
{
    if events.len() > 0 {
        let before = run(events.drop_last());
        law_totals_per_stack(events.drop_last());
        match events.last() {
            Event::AddAllocation { address, size, stack } => {
                lemma_add_allocation(before, address, size, stack);
            },
            Event::FreeAllocation { address } => {
                lemma_free_allocation(before, address);
            },
            Event::AddAnonMmap { address, size, stack } => {
                lemma_add_anon_mmap(before, address, size, stack);
            },
            Event::FreeAnonMmap { address, size } => {
                lemma_free_anon_mmap(before, address, size);
            },
            Event::CheckPeak => {
                lemma_check_if_new_peak(before);
            },
            Event::BreakGlass => {
                lemma_oom_break_glass(before);
            },
        }
    }
}

/// The numbered stacks are the stacks that the events brought.
pub proof fn law_numbered_stacks(events: Seq<Event>, stack: Seq<CallSite>)
    ensures
        run(events).stacks.contains(stack) <==> exists|i: int|
            0 <= i < events.len() && stack_of(#[trigger] events[i]) == Some(stack),
    decreases events.len(),
{
    if events.len() > 0 {
        let front = events.drop_last();
        let before = run(front);
        let last = events.last();
        law_numbered_stacks(front, stack);
        assert(last == events[events.len() - 1]);
        if exists|i: int| 0 <= i < front.len() && stack_of(#[trigger] front[i]) == Some(stack) {
            let i = choose|i: int| 0 <= i < front.len() && stack_of(#[trigger] front[i]) == Some(stack);
            assert(events[i] == front[i]);
        }
        if exists|i: int| 0 <= i < events.len() && stack_of(#[trigger] events[i]) == Some(stack) {
            let i = choose|i: int|
                0 <= i < events.len() && stack_of(#[trigger] events[i]) == Some(stack);
            if i < front.len() {
                assert(front[i] == events[i]);
            }
        }
        match last {
            Event::AddAllocation { address, size, stack: brought } => {
                lemma_stack_numbered(before, brought, stack);
            },
            Event::AddAnonMmap { address, size, stack: brought } => {
                lemma_stack_numbered(before, brought, stack);
            },
            Event::FreeAllocation { address } => {
                assert(run(events).stacks == before.stacks);
            },
            Event::FreeAnonMmap { address, size } => {
                lemma_debits_keep_stacks(
                    TrackerState {
                        mmaps: spans_after_remove(
                            before.check_if_new_peak().mmaps,
                            address as int,
                            address + size,
                        ),
                        ..before.check_if_new_peak()
                    },
                    removed_parts(
                        before.check_if_new_peak().mmaps,
                        address as int,
                        address + size,
                    ),
                );
            },
            Event::CheckPeak => {},
            Event::BreakGlass => {},
        }
    }
}

/// Giving `brought` its number numbers that stack and no other.
proof fn lemma_stack_numbered(state: TrackerState, brought: Seq<CallSite>, stack: Seq<CallSite>)
    ensures
        state.with_stack(brought).stacks.contains(stack) <==> state.stacks.contains(stack) || stack
            == brought,
{
    let after = state.with_stack(brought).stacks;
    if !state.stacks.contains(brought) {
        assert(after[state.stacks.len() as int] == brought);
        if state.stacks.contains(stack) {
            let i = choose|i: int| 0 <= i < state.stacks.len() && state.stacks[i] == stack;
            assert(after[i] == stack);
        }
        if after.contains(stack) {
            let i = choose|i: int| 0 <= i < after.len() && after[i] == stack;
            if i < state.stacks.len() {
                assert(state.stacks[i] == stack);
            }
        }
    }
}

/// Taking bytes from the totals leaves the numbered stacks as they are.
proof fn lemma_debits_keep_stacks(state: TrackerState, parts: Seq<(CallstackId, usize)>)
    ensures
        state.debited_all(parts).stacks == state.stacks,
    decreases parts.len(),
{
    if parts.len() > 0 {
        lemma_debits_keep_stacks(state, parts.drop_last());
    }
}

/// After any events that the tracker takes and that record no allocation at
/// an address that holds a live one, the total of each stack is the bytes of
/// what it made and is live, and the total of all is the bytes of all that
/// is live and the sum of the totals.
pub proof fn law_totals_are_live_bytes(events: Seq<Event>)
    requires
        orderly(events),
        at_distinct_addresses(events),
    ensures
        run(events).exact(),
        forall|id: CallstackId|
            id < run(events).stacks.len() ==> run(events).current[id as int] == #[trigger] run(
                events,
            ).live_bytes(id),
        run(events).current_total == run(events).live_total(),
        run(events).current_total == sum(run(events).current),
    decreases events.len(),
{
    law_totals_per_stack(events);
    if events.len() > 0 {
        let before = run(events.drop_last());
        law_totals_per_stack(events.drop_last());
        law_totals_are_live_bytes(events.drop_last());
        match events.last() {
            Event::AddAllocation { address, size, stack } => {
                lemma_add_allocation(before, address, size, stack);
            },
            Event::FreeAllocation { address } => {
                lemma_free_allocation(before, address);
            },
            Event::AddAnonMmap { address, size, stack } => {
                lemma_add_anon_mmap(before, address, size, stack);
            },
            Event::FreeAnonMmap { address, size } => {
                lemma_free_anon_mmap(before, address, size);
            },
            Event::CheckPeak => {
                lemma_check_if_new_peak(before);
            },
            Event::BreakGlass => {
                lemma_oom_break_glass(before);
            },
        }
    } else {
        lemma_heap_bytes_empty(None, (usize::MAX + 1) as nat);
    }
}

/// After such events, once everything is freed and unmapped, every total is
/// 0.
pub proof fn law_all_freed_is_zero(events: Seq<Event>)
    requires
        orderly(events),
        at_distinct_addresses(events),
        run(events).allocations == Map::<usize, Allocation>::empty(),
        run(events).mmaps.len() == 0,
    ensures
        run(events).current_total == 0,
        forall|id: int| 0 <= id < run(events).current.len() ==> run(events).current[id] == 0,
{
    law_totals_are_live_bytes(events);
    lemma_heap_bytes_empty(None, (usize::MAX + 1) as nat);
    lemma_sum_zero(run(events).current);
}

/// Freeing at an address that holds no live allocation is no more than a
/// check of the peak: the tables and the totals stay as they are.
pub proof fn law_unknown_free(state: TrackerState, address: usize)
    requires
        !state.allocations.contains_key(address),
    ensures
        state.free_allocation(address) == state.check_if_new_peak(),
        state.free_allocation(address).current == state.current,
        state.free_allocation(address).current_total == state.current_total,
        state.free_allocation(address).allocations == state.allocations,
        state.free_allocation(address).mmaps == state.mmaps,
{
}

/// Unmapping addresses of which none is in a live mapping is no more than a
/// check of the peak.
pub proof fn law_unknown_unmap(state: TrackerState, address: usize, size: usize)
    requires
        spans_clear_of(state.mmaps, address as int, address + size),
    ensures
        state.free_anon_mmap(address, size) == state.check_if_new_peak(),
        state.free_anon_mmap(address, size).current == state.current,
        state.free_anon_mmap(address, size).current_total == state.current_total,
        state.free_anon_mmap(address, size).allocations == state.allocations,
        state.free_anon_mmap(address, size).mmaps == state.mmaps,
{
    lemma_remove_nothing(state.mmaps, address as int, address + size);
}

/// The tracker holds its reserve from the start until the process runs out
/// of memory, and no longer: it is held after some events if and only if
/// none of them gave it back.
pub proof fn law_reserve_held_until_oom(events: Seq<Event>)
    ensures
        run(events).reserve_held <==> forall|i: int|
            0 <= i < events.len() ==> !(#[trigger] events[i] is BreakGlass),
    decreases events.len(),
{
    if events.len() > 0 {
        let front = events.drop_last();
        let before = run(front);
        let last = events.last();
        law_reserve_held_until_oom(front);
        assert(last == events[events.len() - 1]);
        assert forall|i: int| 0 <= i < front.len() implies front[i] == events[i] by {}
        match last {
            Event::FreeAnonMmap { address, size } => {
                lemma_debits_keep_reserve(
                    TrackerState {
                        mmaps: spans_after_remove(
                            before.check_if_new_peak().mmaps,
                            address as int,
                            address + size,
                        ),
                        ..before.check_if_new_peak()
                    },
                    removed_parts(before.check_if_new_peak().mmaps, address as int, address + size),
                );
            },
            _ => {},
        }
        if forall|i: int| 0 <= i < front.len() ==> !(#[trigger] front[i] is BreakGlass) {
            if !(last is BreakGlass) {
                assert forall|i: int| 0 <= i < events.len() implies !(
                #[trigger] events[i] is BreakGlass) by {
                    if i < front.len() {
                        assert(front[i] == events[i]);
                    }
                }
            }
        } else {
            let i = choose|i: int| 0 <= i < front.len() && (#[trigger] front[i] is BreakGlass);
            assert(events[i] is BreakGlass);
        }
    }
}

/// Taking bytes from the totals leaves the reserve where it is.
proof fn lemma_debits_keep_reserve(state: TrackerState, parts: Seq<(CallstackId, usize)>)
    ensures
        state.debited_all(parts).reserve_held == state.reserve_held,
    decreases parts.len(),
{
    if parts.len() > 0 {
        lemma_debits_keep_reserve(state, parts.drop_last());
    }
}

/// After any events, the peak or what is live now, whichever is more, is the
/// most that was ever live; and a check of the peak makes the peak that.
pub proof fn law_peak_is_high_water(events: Seq<Event>)
    ensures
        high_water(events) == if run(events).current_total > run(events).peak_total {
            run(events).current_total
        } else {
            run(events).peak_total
        },
        run(events).check_if_new_peak().peak_total == high_water(events),
    decreases events.len(),
{
    if events.len() > 0 {
        let before = run(events.drop_last());
        law_peak_is_high_water(events.drop_last());
        match events.last() {
            Event::FreeAnonMmap { address, size } => {
                let checked = before.check_if_new_peak();
                let cut = TrackerState {
                    mmaps: spans_after_remove(
                        checked.mmaps,
                        address as int,
                        address + size,
                    ),
                    ..checked
                };
                lemma_debits_lower_total(
                    cut,
                    removed_parts(checked.mmaps, address as int, address + size),
                );
            },
            _ => {},
        }
    }
}

/// Taking bytes from the totals leaves the peak, and no more live in all
/// than before.
proof fn lemma_debits_lower_total(state: TrackerState, parts: Seq<(CallstackId, usize)>)
    ensures
        state.debited_all(parts).current_total <= state.current_total,
        state.debited_all(parts).peak_total == state.peak_total,
    decreases parts.len(),
{
    if parts.len() > 0 {
        lemma_debits_lower_total(state, parts.drop_last());
    }
}

} // verus!
