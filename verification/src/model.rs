//! What the tracker keeps, as mathematics: the live allocations and mappings,
//! the numbered stacks, and the totals; and what each operation makes of it.

use crate::allocation::{encode_size, tracked_size, Allocation, CallstackId};
use crate::interner::{id_of, interned, lemma_id_of, stacks_valid};
use crate::location::CallSite;
use crate::rangemap::{
    lemma_add_keeps_valid, lemma_add_keeps_values, lemma_add_lengths, lemma_length_of_absent,
    lemma_remove_keeps_valid, lemma_remove_keeps_values, lemma_remove_lengths, length_of,
    removed_of, removed_parts, removed_total, spans_after_add, spans_after_remove, spans_clear_of,
    spans_valid, total_length, Span,
};
use crate::sums::{
    heap_bytes, heap_total, lemma_heap_bytes_at_within, lemma_heap_bytes_insert,
    lemma_heap_bytes_none, lemma_heap_bytes_remove, lemma_sum_bounds_each, lemma_sum_push,
    lemma_sum_update, sum,
};
use vstd::prelude::*;

verus! {

/// `x` less `y`, and 0 where `y` is the larger.
pub open spec fn less(x: nat, y: nat) -> nat {
    if y <= x {
        (x - y) as nat
    } else {
        0
    }
}

/// The state of a tracker.
pub struct TrackerState {
    /// The live heap allocations by address.
    pub allocations: Map<usize, Allocation>,
    /// The live anonymous mappings, in order of address, each with the number
    /// of the stack that made it.
    pub mmaps: Seq<Span<CallstackId>>,
    /// The stacks that have a number, each at its number.
    pub stacks: Seq<Seq<CallSite>>,
    /// For each numbered stack, the live bytes that it made.
    pub current: Seq<nat>,
    /// What `current` was when the live bytes were last found to be more than
    /// ever before.
    pub peak: Seq<nat>,
    /// All live bytes.
    pub current_total: nat,
    /// The largest number of live bytes that was found.
    pub peak_total: nat,
    /// Whether the tracker holds the memory that it keeps in reserve for the
    /// time when the process runs out of it.
    pub reserve_held: bool,
}

impl TrackerState {
    /// The state of a tracker that has seen nothing. It holds its reserve.
    pub open spec fn empty() -> TrackerState {
        TrackerState {
            allocations: Map::empty(),
            mmaps: Seq::empty(),
            stacks: Seq::empty(),
            current: Seq::empty(),
            peak: Seq::empty(),
            current_total: 0,
            peak_total: 0,
            reserve_held: true,
        }
    }

    /// The state once the memory held in reserve is given back to the
    /// process. Nothing else changes, and giving it back again changes
    /// nothing.
    pub open spec fn oom_break_glass(self) -> TrackerState {
        TrackerState { reserve_held: false, ..self }
    }

    /// The state once `stack` has a number. A stack that gets one now starts
    /// with no bytes, live or at the peak.
    pub open spec fn with_stack(self, stack: Seq<CallSite>) -> TrackerState {
        if self.stacks.contains(stack) {
            self
        } else {
            TrackerState {
                stacks: self.stacks.push(stack),
                current: self.current.push(0),
                peak: self.peak.push(0),
                ..self
            }
        }
    }

    /// The state with `bytes` more live bytes made by the stack `id`.
    pub open spec fn credited(self, id: CallstackId, bytes: nat) -> TrackerState {
        TrackerState {
            current: self.current.update(id as int, self.current[id as int] + bytes),
            current_total: self.current_total + bytes,
            ..self
        }
    }

    /// The state with `bytes` fewer live bytes made by the stack `id`.
    pub open spec fn debited(self, id: CallstackId, bytes: nat) -> TrackerState {
        TrackerState {
            current: self.current.update(id as int, less(self.current[id as int], bytes)),
            current_total: less(self.current_total, bytes),
            ..self
        }
    }

    /// The state with the bytes of each part taken from the stack of the part.
    pub open spec fn debited_all(self, parts: Seq<(CallstackId, usize)>) -> TrackerState
        decreases parts.len(),
    {
        if parts.len() == 0 {
            self
        } else {
            self.debited_all(parts.drop_last()).debited(parts.last().0, parts.last().1 as nat)
        }
    }

    /// The state once the peak is checked: where more bytes are live than
    /// the peak holds, the peak becomes what is live.
    pub open spec fn check_if_new_peak(self) -> TrackerState {
        if self.current_total > self.peak_total {
            TrackerState { peak: self.current, peak_total: self.current_total, ..self }
        } else {
            self
        }
    }

    /// The state once an allocation of `size` bytes at `address`, made from
    /// `stack`, is recorded. The bytes counted are those that the stored size
    /// stands for.
    pub open spec fn add_allocation(
        self,
        address: usize,
        size: usize,
        stack: Seq<CallSite>,
    ) -> TrackerState {
        let id = id_of(self.stacks, stack) as CallstackId;
        let known = self.with_stack(stack);
        let allocation = Allocation { callstack_id: id, compressed_size: encode_size(size as nat) };
        TrackerState {
            allocations: known.allocations.insert(address, allocation),
            ..known
        }.credited(id, tracked_size(size as nat))
    }

    /// The state once the allocation at `address` is freed. The peak is
    /// checked first. An address that holds no live allocation changes
    /// nothing else.
    pub open spec fn free_allocation(self, address: usize) -> TrackerState {
        let checked = self.check_if_new_peak();
        if checked.allocations.contains_key(address) {
            let allocation = checked.allocations[address];
            TrackerState {
                allocations: checked.allocations.remove(address),
                ..checked
            }.debited(allocation.callstack_id, allocation.bytes())
        } else {
            checked
        }
    }

    /// The state once an anonymous mapping of `size` bytes at `address`, made
    /// from `stack`, is recorded.
    pub open spec fn add_anon_mmap(
        self,
        address: usize,
        size: usize,
        stack: Seq<CallSite>,
    ) -> TrackerState {
        let id = id_of(self.stacks, stack) as CallstackId;
        let known = self.with_stack(stack);
        TrackerState {
            mmaps: spans_after_add(known.mmaps, Span { start: address, length: size, value: id }),
            ..known
        }.credited(id, size as nat)
    }

    /// The state once the `size` bytes from `address` on are unmapped. The
    /// peak is checked first. Each mapping loses what it shares with them.
    pub open spec fn free_anon_mmap(self, address: usize, size: usize) -> TrackerState {
        let checked = self.check_if_new_peak();
        TrackerState {
            mmaps: spans_after_remove(checked.mmaps, address as int, address + size),
            ..checked
        }.debited_all(removed_parts(checked.mmaps, address as int, address + size))
    }

    /// The live bytes that the stack `id` made, counted from the tables.
    pub open spec fn live_bytes(self, id: CallstackId) -> nat {
        heap_bytes(self.allocations, id) + length_of(self.mmaps, id)
    }

    /// All live bytes, counted from the tables.
    pub open spec fn live_total(self) -> nat {
        heap_total(self.allocations) + total_length(self.mmaps)
    }

    /// What holds of every state that a tracker gets into: there is a total
    /// and a peak for each numbered stack and for no other, every record names
    /// a numbered stack, each total covers the live bytes of its stack, and the
    /// two scalars are the sums of the two sequences.
    pub open spec fn inv(self) -> bool {
        &&& stacks_valid(self.stacks)
        &&& self.current.len() == self.stacks.len()
        &&& self.peak.len() == self.stacks.len()
        &&& forall|address: usize|
            self.allocations.contains_key(address) ==> (#[trigger] self.allocations[address]).callstack_id
                < self.stacks.len()
        &&& spans_valid(self.mmaps)
        &&& forall|i: int|
            0 <= i < self.mmaps.len() ==> (#[trigger] self.mmaps[i]).value < self.stacks.len()
        &&& forall|id: CallstackId|
            id < self.stacks.len() ==> self.current[id as int] >= #[trigger] self.live_bytes(id)
        &&& self.current_total == sum(self.current)
        &&& self.peak_total == sum(self.peak)
    }

    /// The totals are what the tables hold, for each stack and in all. This
    /// holds as long as no allocation was recorded at an address that held a
    /// live one.
    pub open spec fn exact(self) -> bool {
        &&& forall|id: CallstackId|
            id < self.stacks.len() ==> self.current[id as int] == #[trigger] self.live_bytes(id)
        &&& self.current_total == self.live_total()
    }

    /// Whether `stack` can get a number: it has one, or one is left.
    pub open spec fn has_room_for(self, stack: Seq<CallSite>) -> bool {
        self.stacks.contains(stack) || self.stacks.len() < u32::MAX
    }

    /// Whether the `size` bytes from `address` on are within the address
    /// space and share no address with a live mapping.
    pub open spec fn is_unmapped(self, address: usize, size: usize) -> bool {
        &&& address + size <= usize::MAX
        &&& spans_clear_of(self.mmaps, address as int, address + size)
    }
}

/// Giving a stack its number keeps what holds of every state, and the totals
/// exact.
pub proof fn lemma_with_stack(s: TrackerState, stack: Seq<CallSite>)
    requires
        s.inv(),
        s.has_room_for(stack),
    ensures
        s.with_stack(stack).inv(),
        s.with_stack(stack).stacks == interned(s.stacks, stack),
        s.exact() ==> s.with_stack(stack).exact(),
        0 <= id_of(s.stacks, stack) < s.with_stack(stack).stacks.len(),
        s.with_stack(stack).stacks[id_of(s.stacks, stack)] == stack,
{
    lemma_id_of(s.stacks, stack);
    let t = s.with_stack(stack);
    if !s.stacks.contains(stack) {
        let new_id = s.stacks.len() as CallstackId;
        lemma_sum_push(s.current, 0);
        lemma_sum_push(s.peak, 0);
        lemma_heap_bytes_none(s.allocations, Some(new_id), (usize::MAX + 1) as nat);
        lemma_length_of_absent(s.mmaps, new_id);
        assert forall|id: CallstackId| id < t.stacks.len() implies t.current[id as int]
            >= #[trigger] t.live_bytes(id) && (s.exact() ==> t.current[id as int] == t.live_bytes(
            id,
        )) by {
            if id < s.stacks.len() {
                assert(t.current[id as int] == s.current[id as int]);
                assert(s.current[id as int] >= s.live_bytes(id));
            }
        }
    }
}

/// Checking the peak keeps what holds of every state, and the totals exact.
pub proof fn lemma_check_if_new_peak(s: TrackerState)
    requires
        s.inv(),
    ensures
        s.check_if_new_peak().inv(),
        s.exact() ==> s.check_if_new_peak().exact(),
{
    let t = s.check_if_new_peak();
    assert forall|id: CallstackId| id < t.stacks.len() implies t.current[id as int]
        >= #[trigger] t.live_bytes(id) by {
        assert(s.current[id as int] >= s.live_bytes(id));
    }
    if s.exact() {
        assert forall|id: CallstackId| id < t.stacks.len() implies t.current[id as int]
            == #[trigger] t.live_bytes(id) by {
            assert(s.current[id as int] == s.live_bytes(id));
        }
    }
}

/// Giving the reserve back keeps what holds of every state, and the totals
/// exact.
pub proof fn lemma_oom_break_glass(s: TrackerState)
    requires
        s.inv(),
    ensures
        s.oom_break_glass().inv(),
        s.exact() ==> s.oom_break_glass().exact(),
{
    let t = s.oom_break_glass();
    assert forall|id: CallstackId| id < t.stacks.len() implies t.current[id as int]
        >= #[trigger] t.live_bytes(id) && (s.exact() ==> t.current[id as int] == t.live_bytes(id)) by {
        assert(s.current[id as int] >= s.live_bytes(id));
    }
}

/// Recording an allocation keeps what holds of every state. The totals stay
/// exact if the address held no live allocation.
pub proof fn lemma_add_allocation(s: TrackerState, address: usize, size: usize, stack: Seq<CallSite>)
    requires
        s.inv(),
        s.has_room_for(stack),
    ensures
        s.add_allocation(address, size, stack).inv(),
        s.exact() && !s.allocations.contains_key(address) ==> s.add_allocation(
            address,
            size,
            stack,
        ).exact(),
{
    lemma_with_stack(s, stack);
    let known = s.with_stack(stack);
    let id = id_of(s.stacks, stack) as CallstackId;
    let bytes = tracked_size(size as nat);
    let allocation = Allocation { callstack_id: id, compressed_size: encode_size(size as nat) };
    let t = s.add_allocation(address, size, stack);
    assert(t.allocations == known.allocations.insert(address, allocation));
    lemma_sum_update(known.current, id as int, known.current[id as int] + bytes);
    lemma_heap_bytes_insert(known.allocations, None, address, allocation);
    assert forall|other: usize| t.allocations.contains_key(other) implies (
    #[trigger] t.allocations[other]).callstack_id < t.stacks.len() by {
        if other != address {
            assert(known.allocations.contains_key(other));
        }
    }
    assert forall|of: CallstackId| of < t.stacks.len() implies t.current[of as int]
        >= #[trigger] t.live_bytes(of) && (known.exact() && !s.allocations.contains_key(address)
        ==> t.current[of as int] == t.live_bytes(of)) by {
        lemma_heap_bytes_insert(known.allocations, Some(of), address, allocation);
        assert(known.current[of as int] >= known.live_bytes(of));
    }
}

/// Freeing an allocation keeps what holds of every state, and the totals
/// exact.
pub proof fn lemma_free_allocation(s: TrackerState, address: usize)
    requires
        s.inv(),
    ensures
        s.free_allocation(address).inv(),
        s.exact() ==> s.free_allocation(address).exact(),
        s.check_if_new_peak().allocations.contains_key(address) ==> ({
            let allocation = s.allocations[address];
            &&& allocation.callstack_id < s.stacks.len()
            &&& allocation.bytes() <= s.current[allocation.callstack_id as int]
            &&& allocation.bytes() <= s.current_total
        }),
{
    lemma_check_if_new_peak(s);
    let checked = s.check_if_new_peak();
    if checked.allocations.contains_key(address) {
        let allocation = checked.allocations[address];
        let id = allocation.callstack_id;
        let bytes = allocation.bytes();
        let t = s.free_allocation(address);
        lemma_heap_bytes_at_within(checked.allocations, Some(id), address, (usize::MAX + 1) as nat);
        assert(checked.current[id as int] >= checked.live_bytes(id));
        lemma_sum_bounds_each(checked.current, id as int);
        lemma_sum_update(checked.current, id as int, less(checked.current[id as int], bytes));
        lemma_heap_bytes_remove(checked.allocations, None, address);
        assert forall|other: usize| t.allocations.contains_key(other) implies (
        #[trigger] t.allocations[other]).callstack_id < t.stacks.len() by {
            assert(checked.allocations.contains_key(other));
        }
        assert forall|of: CallstackId| of < t.stacks.len() implies t.current[of as int]
            >= #[trigger] t.live_bytes(of) && (checked.exact() ==> t.current[of as int]
            == t.live_bytes(of)) by {
            lemma_heap_bytes_remove(checked.allocations, Some(of), address);
            assert(checked.current[of as int] >= checked.live_bytes(of));
        }
    }
}

/// Recording a mapping that shares no address with a live one keeps what
/// holds of every state, and the totals exact.
pub proof fn lemma_add_anon_mmap(s: TrackerState, address: usize, size: usize, stack: Seq<CallSite>)
    requires
        s.inv(),
        s.has_room_for(stack),
        s.is_unmapped(address, size),
    ensures
        s.add_anon_mmap(address, size, stack).inv(),
        s.exact() ==> s.add_anon_mmap(address, size, stack).exact(),
{
    lemma_with_stack(s, stack);
    let known = s.with_stack(stack);
    let id = id_of(s.stacks, stack) as CallstackId;
    let span = Span { start: address, length: size, value: id };
    let t = s.add_anon_mmap(address, size, stack);
    lemma_sum_update(known.current, id as int, known.current[id as int] + size as nat);
    lemma_add_keeps_valid(known.mmaps, span);
    lemma_add_keeps_values(known.mmaps, span, |value: CallstackId| value < known.stacks.len());
    lemma_add_lengths(known.mmaps, span, id);
    assert forall|of: CallstackId| of < t.stacks.len() implies t.current[of as int]
        >= #[trigger] t.live_bytes(of) && (known.exact() ==> t.current[of as int] == t.live_bytes(
        of,
    )) by {
        lemma_add_lengths(known.mmaps, span, of);
        assert(known.current[of as int] >= known.live_bytes(of));
    }
}

/// Taking the bytes of some parts from the totals, where each total holds at
/// least what the parts take from it: each total loses what the parts report
/// for its stack, and the total of all loses what they report in all.
pub proof fn lemma_debited_all(s: TrackerState, parts: Seq<(CallstackId, usize)>)
    requires
        s.current_total == sum(s.current),
        forall|k: int| 0 <= k < parts.len() ==> (#[trigger] parts[k]).0 < s.current.len(),
        forall|id: CallstackId|
            id < s.current.len() ==> #[trigger] removed_of(parts, id) <= s.current[id as int],
    ensures
        ({
            let t = s.debited_all(parts);
            &&& t.current.len() == s.current.len()
            &&& forall|id: CallstackId|
                id < s.current.len() ==> #[trigger] t.current[id as int] == s.current[id as int]
                    - removed_of(parts, id)
            &&& removed_total(parts) <= s.current_total
            &&& t.current_total == s.current_total - removed_total(parts)
            &&& t.current_total == sum(t.current)
            &&& t.allocations == s.allocations
            &&& t.mmaps == s.mmaps
            &&& t.stacks == s.stacks
            &&& t.peak == s.peak
            &&& t.peak_total == s.peak_total
        }),
    decreases parts.len(),
{
    if parts.len() > 0 {
        let front = parts.drop_last();
        let last = parts.last();
        assert(last == parts[parts.len() - 1]);
        assert forall|k: int| 0 <= k < front.len() implies (#[trigger] front[k]).0
            < s.current.len() by {
            assert(front[k] == parts[k]);
        }
        assert forall|id: CallstackId| id < s.current.len() implies #[trigger] removed_of(front, id)
            <= s.current[id as int] by {
            assert(removed_of(parts, id) <= s.current[id as int]);
        }
        lemma_debited_all(s, front);
        let mid = s.debited_all(front);
        let t = s.debited_all(parts);
        let id = last.0;
        assert(removed_of(parts, id) <= s.current[id as int]);
        assert(mid.current[id as int] == s.current[id as int] - removed_of(front, id));
        lemma_sum_bounds_each(mid.current, id as int);
        lemma_sum_update(mid.current, id as int, less(mid.current[id as int], last.1 as nat));
        assert forall|of: CallstackId| of < s.current.len() implies #[trigger] t.current[of as int]
            == s.current[of as int] - removed_of(parts, of) by {
            assert(mid.current[of as int] == s.current[of as int] - removed_of(front, of));
        }
    }
}

/// Unmapping keeps what holds of every state, and the totals exact.
pub proof fn lemma_free_anon_mmap(s: TrackerState, address: usize, size: usize)
    requires
        s.inv(),
        address + size <= usize::MAX,
    ensures
        s.free_anon_mmap(address, size).inv(),
        s.exact() ==> s.free_anon_mmap(address, size).exact(),
{
    lemma_check_if_new_peak(s);
    let checked = s.check_if_new_peak();
    let from = address as int;
    let to = address + size;
    let parts = removed_parts(checked.mmaps, from, to);
    let cut = TrackerState { mmaps: spans_after_remove(checked.mmaps, from, to), ..checked };
    let t = s.free_anon_mmap(address, size);
    lemma_remove_keeps_valid(checked.mmaps, from, to, usize::MAX as int);
    lemma_remove_keeps_values(
        checked.mmaps,
        from,
        to,
        |value: CallstackId| value < checked.stacks.len(),
    );
    assert forall|id: CallstackId| id < cut.current.len() implies #[trigger] removed_of(parts, id)
        <= cut.current[id as int] by {
        lemma_remove_lengths(checked.mmaps, from, to, id);
        assert(checked.current[id as int] >= checked.live_bytes(id));
    }
    lemma_debited_all(cut, parts);
    if checked.mmaps.len() > 0 {
        lemma_remove_lengths(checked.mmaps, from, to, checked.mmaps[0].value);
    } else {
        assert(parts.len() == 0);
        assert(cut.mmaps.len() == 0);
    }
    assert forall|of: CallstackId| of < t.stacks.len() implies t.current[of as int]
        >= #[trigger] t.live_bytes(of) && (checked.exact() ==> t.current[of as int] == t.live_bytes(
        of,
    )) by {
        lemma_remove_lengths(checked.mmaps, from, to, of);
        assert(checked.current[of as int] >= checked.live_bytes(of));
        assert(t.current[of as int] == cut.current[of as int] - removed_of(parts, of));
    }
}

} // verus!
