//! The tracker: the live allocations and mappings, and for each call stack
//! the bytes that it holds now and held at the peak.

use crate::allocation::{tracked_size, Allocation, CallstackId};
use crate::interner::{id_of, CallstackInterner};
use crate::model::{
    lemma_add_allocation, lemma_add_anon_mmap, lemma_check_if_new_peak, lemma_debited_all,
    lemma_free_allocation, lemma_free_anon_mmap, lemma_oom_break_glass, lemma_with_stack,
    TrackerState,
};
use crate::rangemap::{
    lemma_length_of_concat, lemma_remove_keeps_values, lemma_remove_lengths,
    lemma_removed_of_concat, length_of, removed_of, removed_parts, spans_after_remove, RangeMap,
};
use crate::report::{
    entries_bytes, entries_name, entries_view, lemma_entries_bytes, lemma_entries_bytes_grow,
    lemma_entries_name, lemma_entries_name_stacks, line_text, lines_view, lists_table, spans_name,
    table_names, FlamegraphDump, OomDump, OOM_RELEASE_ABOVE,
};
use crate::stack::Callstack;
use crate::sums::{heap_bytes, lemma_sum_bounds_each, sum};
use crate::text::append_decimal;
use crate::usage::{
    vector_clone_from, vector_get, vector_items, vector_len, vector_new, vector_push_back,
    vector_set,
};
use std::collections::HashMap;
use vstd::prelude::*;
use vstd::std_specs::hash::spec_hash_map_iter;
use vstd::std_specs::iter::IteratorSpec;
use vstd::string::StringExecFns;

verus! {

broadcast use vstd::std_specs::hash::group_hash_axioms;

/// The bytes kept in reserve, to be given back when memory runs out.
pub const SPARE_MEMORY_BYTES: usize = 0x100_0000;

/// Totals as numbers without a bound.
pub open spec fn totals(items: Seq<usize>) -> Seq<nat> {
    items.map_values(|bytes: usize| bytes as nat)
}

/// The entries that a walk over a table of allocations meets, each once,
/// list the table.
proof fn lemma_iteration_lists_table(allocations: &HashMap<usize, Allocation>)
    requires
        spec_hash_map_iter(allocations).remaining().no_duplicates(),
    ensures
        lists_table(
            spec_hash_map_iter(allocations).remaining().map_values(
                |pair: (&usize, &Allocation)| (*pair.0, *pair.1),
            ),
            allocations@,
        ),
{
    let all = spec_hash_map_iter(allocations).remaining();
    let listed = all.map_values(|pair: (&usize, &Allocation)| (*pair.0, *pair.1));
    assert forall|address: usize| allocations@.contains_key(address) implies exists|i: int|
        0 <= i < listed.len() && (#[trigger] listed[i]).0 == address by {
        assert(all.contains((&address, &allocations@[address])));
        let i = choose|i: int| 0 <= i < all.len() && all[i] == (&address, &allocations@[address]);
        assert(listed[i].0 == address);
    }
    assert forall|i: int, j: int| 0 <= i < j < listed.len() implies (#[trigger] listed[i]).0 != (
    #[trigger] listed[j]).0 by {
        if listed[i].0 == listed[j].0 {
            assert(allocations@[*all[i].0] == *all[i].1);
            assert(allocations@[*all[j].0] == *all[j].1);
            assert(all[i] == all[j]);
        }
    }
    assert forall|i: int| 0 <= i < listed.len() implies allocations@.contains_key(
        (#[trigger] listed[i]).0,
    ) && allocations@[listed[i].0] == listed[i].1 by {
        assert(allocations@[*all[i].0] == *all[i].1);
    }
}

/// Tracks the memory of a process: every live heap allocation and anonymous
/// mapping with the call stack that made it, and for each stack the bytes it
/// holds now and held when the process held the most.
pub struct AllocationTracker<'a> {
    /// Live heap allocations by address.
    current_allocations: HashMap<usize, Allocation>,
    /// Live anonymous mappings.
    current_anon_mmaps: RangeMap<CallstackId>,
    /// The number of each stack that made an allocation or mapping.
    interner: CallstackInterner<'a>,
    /// For each numbered stack, the bytes it holds.
    current_memory_usage: im::Vector<usize>,
    /// `current_memory_usage` as it was at the peak.
    peak_memory_usage: im::Vector<usize>,
    current_allocated_bytes: usize,
    peak_allocated_bytes: usize,
    /// Memory held only to be given back when the process runs out of it.
    /// None once it is given back.
    spare_memory: Option<Vec<u8>>,
    /// Where reports go that are written without a directory being named.
    default_path: String,
}

impl<'a> View for AllocationTracker<'a> {
    type V = TrackerState;

    closed spec fn view(&self) -> TrackerState {
        TrackerState {
            allocations: self.current_allocations@,
            mmaps: self.current_anon_mmaps@,
            stacks: self.interner@,
            current: totals(vector_items(self.current_memory_usage)),
            peak: totals(vector_items(self.peak_memory_usage)),
            current_total: self.current_allocated_bytes as nat,
            peak_total: self.peak_allocated_bytes as nat,
            reserve_held: self.spare_memory is Some,
        }
    }
}

impl<'a> AllocationTracker<'a> {
    /// The state is one that a tracker gets into.
    pub closed spec fn wf(&self) -> bool {
        &&& self@.inv()
        &&& self.current_anon_mmaps.wf()
        &&& self.interner.wf()
    }

    /// The directory for reports that name none.
    pub closed spec fn default_path(&self) -> Seq<char> {
        self.default_path@
    }

    pub fn new(default_path: String) -> (tracker: AllocationTracker<'a>)
        ensures
            tracker.wf(),
            tracker@ == TrackerState::empty(),
            tracker.default_path() == default_path@,
    {
        let tracker = AllocationTracker {
            current_allocations: HashMap::new(),
            current_anon_mmaps: RangeMap::new(),
            interner: CallstackInterner::new(),
            current_memory_usage: vector_new(),
            peak_memory_usage: vector_new(),
            current_allocated_bytes: 0,
            peak_allocated_bytes: 0,
            spare_memory: Some(Vec::with_capacity(SPARE_MEMORY_BYTES)),
            default_path,
        };
        proof {
            assert(tracker@.current =~= Seq::<nat>::empty());
            assert(tracker@.peak =~= Seq::<nat>::empty());
            assert(tracker@.allocations =~= Map::<usize, Allocation>::empty());
            assert(tracker@ == TrackerState::empty());
        }
        tracker
    }

    /// Takes what is live for the peak, if more is live than the peak holds.
    pub fn check_if_new_peak(&mut self)
        requires
            old(self).wf(),
        ensures
            final(self).wf(),
            final(self)@ == old(self)@.check_if_new_peak(),
            final(self).default_path() == old(self).default_path(),
    {
        proof {
            lemma_check_if_new_peak(self@);
        }
        if self.current_allocated_bytes > self.peak_allocated_bytes {
            self.peak_allocated_bytes = self.current_allocated_bytes;
            vector_clone_from(&mut self.peak_memory_usage, &self.current_memory_usage);
        }
    }

    fn add_memory_usage(&mut self, callstack_id: CallstackId, bytes: usize)
        requires
            callstack_id < old(self)@.current.len(),
            old(self)@.current_total == sum(old(self)@.current),
            old(self)@.current_total + bytes <= usize::MAX,
        ensures
            final(self)@ == old(self)@.credited(callstack_id, bytes as nat),
            final(self).current_anon_mmaps == old(self).current_anon_mmaps,
            final(self).interner == old(self).interner,
            final(self).default_path() == old(self).default_path(),
    {
        proof {
            lemma_sum_bounds_each(self@.current, callstack_id as int);
        }
        self.current_allocated_bytes = self.current_allocated_bytes + bytes;
        let index = callstack_id as usize;
        let held = vector_get(&self.current_memory_usage, index);
        vector_set(&mut self.current_memory_usage, index, held + bytes);
        assert(self@.current =~= old(self)@.credited(callstack_id, bytes as nat).current);
    }

    fn remove_memory_usage(&mut self, callstack_id: CallstackId, bytes: usize)
        requires
            callstack_id < old(self)@.current.len(),
            bytes <= old(self)@.current[callstack_id as int],
            bytes <= old(self)@.current_total,
        ensures
            final(self)@ == old(self)@.debited(callstack_id, bytes as nat),
            final(self).current_anon_mmaps == old(self).current_anon_mmaps,
            final(self).interner == old(self).interner,
            final(self).default_path() == old(self).default_path(),
    {
        self.current_allocated_bytes = self.current_allocated_bytes - bytes;
        let index = callstack_id as usize;
        let held = vector_get(&self.current_memory_usage, index);
        vector_set(&mut self.current_memory_usage, index, held - bytes);
        assert(self@.current =~= old(self)@.debited(callstack_id, bytes as nat).current);
    }

    /// The number of a stack. A stack that has none gets the next one, and a
    /// total and a peak of 0.
    fn get_callstack_id(&mut self, callstack: &Callstack<'a>) -> (id: CallstackId)
        requires
            old(self).wf(),
            old(self)@.has_room_for(callstack@),
        ensures
            final(self).wf(),
            final(self)@ == old(self)@.with_stack(callstack@),
            id == id_of(old(self)@.stacks, callstack@),
            final(self).default_path() == old(self).default_path(),
    {
        proof {
            lemma_with_stack(self@, callstack@);
        }
        let (id, is_new) = self.interner.intern(callstack);
        if is_new {
            vector_push_back(&mut self.current_memory_usage, 0);
            vector_push_back(&mut self.peak_memory_usage, 0);
            assert(self@.current =~= old(self)@.current.push(0));
            assert(self@.peak =~= old(self)@.peak.push(0));
        }
        id
    }

    /// Records an allocation of `size` bytes at `address`, made from
    /// `callstack`. The totals must have room for its bytes, and the stack
    /// must have a number or be able to get one.
    pub fn add_allocation(&mut self, address: usize, size: usize, callstack: &Callstack<'a>)
        requires
            old(self).wf(),
            old(self)@.has_room_for(callstack@),
            old(self)@.current_total + tracked_size(size as nat) <= usize::MAX,
        ensures
            final(self).wf(),
            final(self)@ == old(self)@.add_allocation(address, size, callstack@),
            final(self).default_path() == old(self).default_path(),
    {
        proof {
            lemma_add_allocation(self@, address, size, callstack@);
            lemma_with_stack(self@, callstack@);
        }
        let callstack_id = self.get_callstack_id(callstack);
        let alloc = Allocation::new(callstack_id, size);
        let bytes = alloc.size();
        self.current_allocations.insert(address, alloc);
        self.add_memory_usage(callstack_id, bytes);
    }

    /// Forgets the allocation at `address`, after a check of the peak. An
    /// address that holds no live allocation is passed over.
    pub fn free_allocation(&mut self, address: usize)
        requires
            old(self).wf(),
        ensures
            final(self).wf(),
            final(self)@ == old(self)@.free_allocation(address),
            final(self).default_path() == old(self).default_path(),
    {
        proof {
            lemma_free_allocation(self@, address);
        }
        self.check_if_new_peak();
        let ghost checked = self@;
        match self.current_allocations.remove(&address) {
            Some(removed) => {
                self.remove_memory_usage(removed.callstack_id, removed.size());
            },
            None => {
                assert(self@.allocations =~= checked.allocations);
            },
        }
    }

    /// Records an anonymous mapping of `size` bytes at `address`, made from
    /// `callstack`. It must share no address with a live mapping.
    pub fn add_anon_mmap(&mut self, address: usize, size: usize, callstack: &Callstack<'a>)
        requires
            old(self).wf(),
            old(self)@.has_room_for(callstack@),
            old(self)@.is_unmapped(address, size),
            old(self)@.current_total + size <= usize::MAX,
        ensures
            final(self).wf(),
            final(self)@ == old(self)@.add_anon_mmap(address, size, callstack@),
            final(self).default_path() == old(self).default_path(),
    {
        proof {
            lemma_add_anon_mmap(self@, address, size, callstack@);
            lemma_with_stack(self@, callstack@);
        }
        let callstack_id = self.get_callstack_id(callstack);
        self.current_anon_mmaps.add(address, size, callstack_id);
        self.add_memory_usage(callstack_id, size);
    }

    /// Forgets what is mapped in the `size` bytes from `address` on, after a
    /// check of the peak. Mappings that reach past them keep the rest.
    pub fn free_anon_mmap(&mut self, address: usize, size: usize)
        requires
            old(self).wf(),
            address + size <= usize::MAX,
        ensures
            final(self).wf(),
            final(self)@ == old(self)@.free_anon_mmap(address, size),
            final(self).default_path() == old(self).default_path(),
    {
        proof {
            lemma_free_anon_mmap(self@, address, size);
            lemma_check_if_new_peak(self@);
        }
        self.check_if_new_peak();
        let ghost checked = self@;
        let removed = self.current_anon_mmaps.remove(address, size);
        let ghost cut = self@;
        let ghost parts = removed@;
        proof {
            let from = address as int;
            let to = address + size;
            assert(parts == removed_parts(checked.mmaps, from, to));
            assert(cut == TrackerState { mmaps: spans_after_remove(checked.mmaps, from, to), ..checked });
            lemma_remove_keeps_values(
                checked.mmaps,
                from,
                to,
                |value: CallstackId| value < checked.stacks.len(),
            );
            assert forall|id: CallstackId| id < cut.current.len() implies #[trigger] removed_of(
                parts,
                id,
            ) <= cut.current[id as int] by {
                lemma_remove_lengths(checked.mmaps, from, to, id);
                assert(checked.current[id as int] >= checked.live_bytes(id));
            }
        }
        let mut k: usize = 0;
        while k < removed.len()
            invariant
                k <= removed.len(),
                parts == removed@,
                self@ == cut.debited_all(parts.take(k as int)),
                self.current_anon_mmaps.wf(),
                self.interner.wf(),
                self.default_path() == old(self).default_path(),
                cut.current_total == sum(cut.current),
                forall|i: int| 0 <= i < parts.len() ==> (#[trigger] parts[i]).0 < cut.current.len(),
                forall|id: CallstackId|
                    id < cut.current.len() ==> #[trigger] removed_of(parts, id)
                        <= cut.current[id as int],
            decreases removed.len() - k,
        {
            let (callstack_id, bytes) = removed[k];
            proof {
                let done = parts.take(k as int);
                let next = parts.take(k + 1);
                assert(next.drop_last() =~= done);
                assert(next.last() == parts[k as int]);
                assert(parts =~= next + parts.skip(k + 1));
                assert forall|i: int| 0 <= i < done.len() implies (#[trigger] done[i]).0
                    < cut.current.len() by {
                    assert(done[i] == parts[i]);
                }
                assert forall|id: CallstackId| id < cut.current.len() implies #[trigger] removed_of(
                    next,
                    id,
                ) <= cut.current[id as int] by {
                    lemma_removed_of_concat(next, parts.skip(k + 1), id);
                    assert(removed_of(parts, id) <= cut.current[id as int]);
                }
                assert forall|id: CallstackId| id < cut.current.len() implies #[trigger] removed_of(
                    done,
                    id,
                ) <= cut.current[id as int] by {
                    assert(removed_of(next, id) <= cut.current[id as int]);
                }
                lemma_debited_all(cut, done);
                assert(removed_of(next, callstack_id) <= cut.current[callstack_id as int]);
                lemma_sum_bounds_each(self@.current, callstack_id as int);
            }
            self.remove_memory_usage(callstack_id, bytes);
            k += 1;
        }
        assert(parts.take(k as int) =~= parts);
    }

    /// The bytes counted for the live allocation at `address`, or 0 if it
    /// holds none.
    pub fn get_allocation_size(&self, address: usize) -> (bytes: usize)
        requires
            self.wf(),
        ensures
            bytes == if self@.allocations.contains_key(address) {
                self@.allocations[address].bytes()
            } else {
                0
            },
    {
        proof {
            lemma_free_allocation(self@, address);
        }
        if let Some(allocation) = self.current_allocations.get(&address) {
            allocation.size()
        } else {
            0
        }
    }

    /// Gives the memory held in reserve back to the process, which has run
    /// out of it. From then on the tracker holds none.
    pub fn oom_break_glass(&mut self)
        ensures
            final(self)@ == old(self)@.oom_break_glass(),
            old(self).wf() ==> final(self).wf(),
            final(self).default_path() == old(self).default_path(),
    {
        proof {
            if self.wf() {
                lemma_oom_break_glass(self@);
            }
        }
        self.spare_memory = None;
    }

    /// Whether the tracker holds the memory that it keeps in reserve.
    pub fn holds_reserve(&self) -> (held: bool)
        ensures
            held == self@.reserve_held,
    {
        self.spare_memory.is_some()
    }
}

impl<'a> AllocationTracker<'a> {
    /// For each stack that has bytes at the peak, in order of number: its
    /// number and those bytes.
    fn peak_entries(&self) -> (entries: Vec<(CallstackId, usize)>)
        requires
            self.wf(),
        ensures
            entries_view(entries@) == self@.peak_entries(self@.stacks.len()),
    {
        let n = vector_len(&self.peak_memory_usage);
        let mut entries: Vec<(CallstackId, usize)> = Vec::new();
        let mut i: usize = 0;
        assert(entries_view(entries@) =~= self@.peak_entries(0));
        while i < n
            invariant
                i <= n,
                n == self@.peak.len(),
                n <= u32::MAX,
                entries_view(entries@) == self@.peak_entries(i as nat),
            decreases n - i,
        {
            let size = vector_get(&self.peak_memory_usage, i);
            if size > 0 {
                entries.push((i as CallstackId, size));
            }
            assert(entries_view(entries@) =~= self@.peak_entries((i + 1) as nat));
            i += 1;
        }
        entries
    }

    /// For each numbered stack, the bytes of the live allocations made from
    /// it, and whether there is one.
    fn heap_usage(&self) -> (usage: (Vec<usize>, Vec<bool>))
        requires
            self.wf(),
        ensures
            usage.0@.len() == self@.stacks.len(),
            usage.1@.len() == self@.stacks.len(),
            forall|id: CallstackId|
                id < self@.stacks.len() ==> #[trigger] usage.0@[id as int] == heap_bytes(
                    self@.allocations,
                    id,
                ),
            forall|id: CallstackId|
                id < self@.stacks.len() ==> #[trigger] usage.1@[id as int] == table_names(
                    self@.allocations,
                    id,
                ),
    {
        let n = self.interner.len();
        let mut bytes: Vec<usize> = vec![0usize; n];
        let mut seen: Vec<bool> = vec![false; n];
        let ghost all = spec_hash_map_iter(&self.current_allocations).remaining();
        let ghost listed = all.map_values(|pair: (&usize, &Allocation)| (*pair.0, *pair.1));
        assert(listed.take(0) =~= Seq::<(usize, Allocation)>::empty());
        for pair in it: self.current_allocations.iter()
            invariant
                it.seq() == all,
                all == spec_hash_map_iter(&self.current_allocations).remaining(),
                all.no_duplicates(),
                listed == all.map_values(|pair: (&usize, &Allocation)| (*pair.0, *pair.1)),
                self.wf(),
                n == self@.stacks.len(),
                bytes@.len() == n,
                seen@.len() == n,
                forall|id: CallstackId|
                    id < n ==> #[trigger] bytes@[id as int] == entries_bytes(
                        listed.take(it.index() as int),
                        Some(id),
                    ),
                forall|id: CallstackId|
                    id < n ==> #[trigger] seen@[id as int] == entries_name(
                        listed,
                        it.index() as int,
                        id,
                    ),
        {
            let allocation = *pair.1;
            let id = allocation.callstack_id;
            let ghost at = it.index() as int;
            let ghost done = listed.take(at);
            let ghost next = listed.take(at + 1);
            proof {
                lemma_iteration_lists_table(&self.current_allocations);
                assert(listed[at] == (*pair.0, allocation));
                assert(self@.allocations.contains_key(listed[at].0));
                assert(next.drop_last() =~= done);
                assert(next.last() == listed[at]);
                lemma_entries_bytes_grow(listed, Some(id), at + 1);
                lemma_entries_bytes(listed, self@.allocations, Some(id));
                assert(self@.current[id as int] >= self@.live_bytes(id));
            }
            let held = bytes[id as usize];
            bytes[id as usize] = held + allocation.size();
            seen[id as usize] = true;
            proof {
                assert forall|of: CallstackId| of < n implies #[trigger] bytes@[of as int]
                    == entries_bytes(next, Some(of)) by {}
                assert forall|of: CallstackId| of < n implies #[trigger] seen@[of as int]
                    == entries_name(listed, at + 1, of) by {
                    if of == id {
                        assert(listed[at].1.callstack_id == id);
                    } else if entries_name(listed, at + 1, of) {
                        let i = choose|i: int|
                            0 <= i < at + 1 && i < listed.len() && (
                            #[trigger] listed[i]).1.callstack_id == of;
                        assert(i < at);
                    } else if entries_name(listed, at, of) {
                        let i = choose|i: int|
                            0 <= i < at && i < listed.len() && (#[trigger] listed[i]).1.callstack_id
                                == of;
                        assert(entries_name(listed, at + 1, of));
                    }
                }
            }
        }
        proof {
            lemma_iteration_lists_table(&self.current_allocations);
            assert(listed.take(listed.len() as int) =~= listed);
            assert forall|id: CallstackId| id < self@.stacks.len() implies #[trigger] bytes@[id as int]
                == heap_bytes(self@.allocations, id) by {
                lemma_entries_bytes(listed, self@.allocations, Some(id));
            }
            assert forall|id: CallstackId| id < self@.stacks.len() implies #[trigger] seen@[id as int]
                == table_names(self@.allocations, id) by {
                lemma_entries_name(listed, self@.allocations, id);
            }
        }
        (bytes, seen)
    }

    /// For each stack that made something live, in order of number: its
    /// number and its live bytes, counted from the two tables.
    fn live_entries(&self) -> (entries: Vec<(CallstackId, usize)>)
        requires
            self.wf(),
        ensures
            entries_view(entries@) == self@.live_entries(self@.stacks.len()),
    {
        let n = self.interner.len();
        let (mut bytes, mut seen) = self.heap_usage();
        let spans = self.current_anon_mmaps.len();
        let mut i: usize = 0;
        while i < spans
            invariant
                i <= spans,
                spans == self@.mmaps.len(),
                self.wf(),
                n == self@.stacks.len(),
                bytes@.len() == n,
                seen@.len() == n,
                forall|id: CallstackId|
                    id < n ==> #[trigger] bytes@[id as int] == heap_bytes(self@.allocations, id)
                        + length_of(self@.mmaps.take(i as int), id),
                forall|id: CallstackId|
                    id < n ==> #[trigger] seen@[id as int] == (table_names(self@.allocations, id)
                        || spans_name(self@.mmaps, i as int, id)),
            decreases spans - i,
        {
            let span = self.current_anon_mmaps.get(i);
            let id = span.value;
            let ghost done = self@.mmaps.take(i as int);
            let ghost next = self@.mmaps.take(i + 1);
            proof {
                assert(self@.mmaps[i as int].value < self@.stacks.len());
                assert(next.drop_last() =~= done);
                assert(next.last() == span);
                assert(self@.mmaps =~= next + self@.mmaps.skip(i + 1));
                lemma_length_of_concat(next, self@.mmaps.skip(i + 1), id);
                assert(self@.current[id as int] >= self@.live_bytes(id));
            }
            let held = bytes[id as usize];
            bytes[id as usize] = held + span.length;
            seen[id as usize] = true;
            proof {
                assert forall|of: CallstackId| of < n implies #[trigger] bytes@[of as int]
                    == heap_bytes(self@.allocations, of) + length_of(next, of) by {}
                assert forall|of: CallstackId| of < n implies #[trigger] seen@[of as int] == (
                table_names(self@.allocations, of) || spans_name(self@.mmaps, i + 1, of)) by {
                    if of == id {
                        assert(self@.mmaps[i as int].value == id);
                    } else if spans_name(self@.mmaps, i + 1, of) {
                        let j = choose|j: int|
                            0 <= j < i + 1 && j < self@.mmaps.len() && (
                            #[trigger] self@.mmaps[j]).value == of;
                        assert(j < i);
                    } else if spans_name(self@.mmaps, i as int, of) {
                        let j = choose|j: int|
                            0 <= j < i && j < self@.mmaps.len() && (#[trigger] self@.mmaps[j]).value
                                == of;
                        assert(spans_name(self@.mmaps, i + 1, of));
                    }
                }
            }
            i += 1;
        }
        assert(self@.mmaps.take(i as int) =~= self@.mmaps);
        let mut entries: Vec<(CallstackId, usize)> = Vec::new();
        let mut id: usize = 0;
        assert(entries_view(entries@) =~= self@.live_entries(0));
        while id < n
            invariant
                id <= n,
                n == self@.stacks.len(),
                n <= u32::MAX,
                bytes@.len() == n,
                seen@.len() == n,
                forall|of: CallstackId|
                    of < n ==> #[trigger] bytes@[of as int] == self@.live_bytes(of),
                forall|of: CallstackId| of < n ==> #[trigger] seen@[of as int] == self@.is_live(of),
                entries_view(entries@) == self@.live_entries(id as nat),
            decreases n - id,
        {
            assert(seen@[(id as CallstackId) as int] == self@.is_live(id as CallstackId));
            assert(bytes@[(id as CallstackId) as int] == self@.live_bytes(id as CallstackId));
            if seen[id] {
                entries.push((id as CallstackId, bytes[id]));
            }
            assert(entries_view(entries@) =~= self@.live_entries((id + 1) as nat));
            id += 1;
        }
        entries
    }

    /// Checks the peak and lists the stacks of a report with their bytes, in
    /// order of number: with `peak` those that have bytes at the peak, else
    /// those that made something live.
    pub fn combine_callstacks(&mut self, peak: bool) -> (entries: Vec<(CallstackId, usize)>)
        requires
            old(self).wf(),
        ensures
            final(self).wf(),
            final(self)@ == old(self)@.check_if_new_peak(),
            final(self).default_path() == old(self).default_path(),
            entries_view(entries@) == old(self)@.combine_callstacks(peak),
    {
        self.check_if_new_peak();
        if peak {
            self.peak_entries()
        } else {
            self.live_entries()
        }
    }

    /// Checks the peak and writes the lines of a report: for each stack that
    /// `combine_callstacks` lists, the stack, a space and its bytes.
    pub fn to_lines(&mut self, peak: bool, to_be_post_processed: bool) -> (lines: Vec<String>)
        requires
            old(self).wf(),
        ensures
            final(self).wf(),
            final(self)@ == old(self)@.check_if_new_peak(),
            final(self).default_path() == old(self).default_path(),
            lines_view(lines@) == old(self)@.to_lines(peak, to_be_post_processed),
    {
        let by_call = self.combine_callstacks(peak);
        let ghost listed = old(self)@.combine_callstacks(peak);
        proof {
            lemma_entries_name_stacks(self@, self@.stacks.len());
        }
        let mut lines: Vec<String> = Vec::new();
        let mut k: usize = 0;
        while k < by_call.len()
            invariant
                k <= by_call.len(),
                self.wf(),
                entries_view(by_call@) == listed,
                forall|i: int| 0 <= i < listed.len() ==> (#[trigger] listed[i]).0 < self@.stacks.len(),
                self@.stacks == old(self)@.stacks,
                lines@.len() == k,
                forall|i: int|
                    0 <= i < k ==> (#[trigger] lines@[i])@ == line_text(
                        self@.stacks[listed[i].0 as int],
                        listed[i].1,
                        to_be_post_processed,
                    ),
            decreases by_call.len() - k,
        {
            let (callstack_id, size) = by_call[k];
            assert(listed[k as int] == (callstack_id, size as nat));
            let mut line = self.interner.get(callstack_id).as_string(to_be_post_processed);
            line.append(" ");
            append_decimal(&mut line, size);
            lines.push(line);
            k += 1;
        }
        assert(lines_view(lines@) =~= old(self)@.to_lines(peak, to_be_post_processed));
        lines
    }
}

impl<'a> AllocationTracker<'a> {
    /// Prepares a report for `path`: checks the peak and gives the lines, the
    /// names of the three files and what the flame graphs are titled.
    pub fn dump_to_flamegraph(
        &mut self,
        path: &str,
        peak: bool,
        base_filename: &str,
        title: &str,
        to_be_post_processed: bool,
    ) -> (dump: FlamegraphDump)
        requires
            old(self).wf(),
        ensures
            final(self).wf(),
            final(self)@ == old(self)@.check_if_new_peak(),
            final(self).default_path() == old(self).default_path(),
            dump.describes(old(self)@, path@, peak, base_filename@, title@, to_be_post_processed),
    {
        let lines = self.to_lines(peak, to_be_post_processed);
        let mut raw_file = base_filename.to_owned();
        raw_file.append(".prof");
        let mut svg_file = base_filename.to_owned();
        svg_file.append(".svg");
        let mut reversed_svg_file = base_filename.to_owned();
        reversed_svg_file.append("-reversed.svg");
        let subtitle = if to_be_post_processed {
            Some("SUBTITLE-HERE".to_owned())
        } else {
            None
        };
        FlamegraphDump {
            directory: path.to_owned(),
            raw_file,
            svg_file,
            reversed_svg_file,
            lines,
            title: title.to_owned(),
            peak_bytes: self.peak_allocated_bytes,
            subtitle,
        }
    }

    /// Prepares the report of the peak, to be rewritten into links.
    pub fn dump_peak_to_flamegraph(&mut self, path: &str) -> (dump: FlamegraphDump)
        requires
            old(self).wf(),
        ensures
            final(self).wf(),
            final(self)@ == old(self)@.check_if_new_peak(),
            final(self).default_path() == old(self).default_path(),
            dump.describes(
                old(self)@,
                path@,
                true,
                "peak-memory"@,
                "Peak Tracked Memory Usage"@,
                true,
            ),
    {
        self.dump_to_flamegraph(path, true, "peak-memory", "Peak Tracked Memory Usage", true)
    }

    /// The addresses of the live allocations that are given back when memory
    /// runs out, each once.
    fn oom_release(&self) -> (release: Vec<usize>)
        requires
            self.wf(),
        ensures
            release@.no_duplicates(),
            forall|address: usize|
                release@.contains(address) <==> self@.is_released_on_oom(address),
    {
        let mut release: Vec<usize> = Vec::new();
        let ghost all = spec_hash_map_iter(&self.current_allocations).remaining();
        let ghost listed = all.map_values(|pair: (&usize, &Allocation)| (*pair.0, *pair.1));
        let ghost mut picks: Seq<int> = Seq::empty();
        for pair in it: self.current_allocations.iter()
            invariant
                it.seq() == all,
                all == spec_hash_map_iter(&self.current_allocations).remaining(),
                all.no_duplicates(),
                listed == all.map_values(|pair: (&usize, &Allocation)| (*pair.0, *pair.1)),
                self.wf(),
                picks.len() == release@.len(),
                forall|k: int|
                    0 <= k < picks.len() ==> 0 <= #[trigger] picks[k] < it.index() && release@[k]
                        == listed[picks[k]].0,
                forall|i: int|
                    0 <= i < it.index() ==> (self@.is_released_on_oom((#[trigger] listed[i]).0)
                        <==> release@.contains(listed[i].0)),
                release@.no_duplicates(),
        {
            let address = *pair.0;
            let allocation = *pair.1;
            let ghost at = it.index() as int;
            proof {
                lemma_iteration_lists_table(&self.current_allocations);
                assert(listed[at] == (address, allocation));
                assert(self@.allocations.contains_key(listed[at].0));
                lemma_free_allocation(self@, address);
                assert forall|k: int| 0 <= k < release@.len() implies release@[k] != address by {
                    assert(listed[picks[k]].0 != listed[at].0);
                }
            }
            let ghost before = release@;
            if self.interner.get(allocation.callstack_id).in_python() && allocation.size()
                > OOM_RELEASE_ABOVE {
                release.push(address);
                proof {
                    picks = picks.push(at);
                    assert(release@.last() == address);
                }
            }
            proof {
                assert forall|i: int| 0 <= i < at + 1 implies (self@.is_released_on_oom(
                    (#[trigger] listed[i]).0,
                ) <==> release@.contains(listed[i].0)) by {
                    if i < at {
                        assert(listed[i].0 != listed[at].0);
                        if before.contains(listed[i].0) {
                            let k = choose|k: int| 0 <= k < before.len() && before[k] == listed[i].0;
                            assert(release@[k] == listed[i].0);
                        }
                        if release@.contains(listed[i].0) {
                            let k = choose|k: int|
                                0 <= k < release@.len() && release@[k] == listed[i].0;
                            assert(before[k] == listed[i].0);
                        }
                    } else {
                        if release@.contains(address) {
                            let k = choose|k: int| 0 <= k < release@.len() && release@[k] == address;
                            assert(k == release@.len() - 1);
                        }
                    }
                }
            }
        }
        proof {
            lemma_iteration_lists_table(&self.current_allocations);
            assert forall|address: usize| release@.contains(address) <==> self@.is_released_on_oom(
                address,
            ) by {
                if release@.contains(address) {
                    let k = choose|k: int| 0 <= k < release@.len() && release@[k] == address;
                    assert(listed[picks[k]].0 == address);
                }
                if self@.is_released_on_oom(address) {
                    let i = choose|i: int|
                        0 <= i < listed.len() && (#[trigger] listed[i]).0 == address;
                    assert(release@.contains(listed[i].0));
                }
            }
        }
        release
    }

    /// Prepares what is done when memory has run out: which allocations are
    /// given back, and the report of what is live, written to the default
    /// directory.
    pub fn oom_dump(&mut self) -> (plan: OomDump)
        requires
            old(self).wf(),
        ensures
            final(self).wf(),
            final(self)@ == old(self)@.check_if_new_peak(),
            final(self).default_path() == old(self).default_path(),
            plan.release@.no_duplicates(),
            forall|address: usize|
                plan.release@.contains(address) <==> old(self)@.is_released_on_oom(address),
            plan.dump.describes(
                old(self)@,
                old(self).default_path(),
                false,
                "out-of-memory"@,
                "Current allocations at out-of-memory time"@,
                false,
            ),
    {
        let release = self.oom_release();
        let default_path = self.default_path.clone();
        let dump = self.dump_to_flamegraph(
            default_path.as_str(),
            false,
            "out-of-memory",
            "Current allocations at out-of-memory time",
            false,
        );
        OomDump { release, dump }
    }

    /// The bytes that each numbered stack holds.
    pub fn current_memory_usage(&self) -> (usage: Vec<usize>)
        ensures
            totals(usage@) == self@.current,
    {
        let n = vector_len(&self.current_memory_usage);
        let mut usage: Vec<usize> = Vec::new();
        let mut i: usize = 0;
        while i < n
            invariant
                i <= n,
                n == vector_items(self.current_memory_usage).len(),
                usage@ == vector_items(self.current_memory_usage).take(i as int),
            decreases n - i,
        {
            usage.push(vector_get(&self.current_memory_usage, i));
            assert(usage@ =~= vector_items(self.current_memory_usage).take(i + 1));
            i += 1;
        }
        assert(usage@ =~= vector_items(self.current_memory_usage));
        usage
    }

    /// The bytes that each numbered stack held at the peak.
    pub fn peak_memory_usage(&self) -> (usage: Vec<usize>)
        ensures
            totals(usage@) == self@.peak,
    {
        let n = vector_len(&self.peak_memory_usage);
        let mut usage: Vec<usize> = Vec::new();
        let mut i: usize = 0;
        while i < n
            invariant
                i <= n,
                n == vector_items(self.peak_memory_usage).len(),
                usage@ == vector_items(self.peak_memory_usage).take(i as int),
            decreases n - i,
        {
            usage.push(vector_get(&self.peak_memory_usage, i));
            assert(usage@ =~= vector_items(self.peak_memory_usage).take(i + 1));
            i += 1;
        }
        assert(usage@ =~= vector_items(self.peak_memory_usage));
        usage
    }

    /// All live bytes.
    pub fn current_allocated_bytes(&self) -> (bytes: usize)
        ensures
            bytes == self@.current_total,
    {
        self.current_allocated_bytes
    }

    /// The most bytes that were found live.
    pub fn peak_allocated_bytes(&self) -> (bytes: usize)
        ensures
            bytes == self@.peak_total,
    {
        self.peak_allocated_bytes
    }

    /// The live heap allocations by address.
    pub fn current_allocations(&self) -> (allocations: &HashMap<usize, Allocation>)
        ensures
            allocations@ == self@.allocations,
    {
        &self.current_allocations
    }

    /// The live anonymous mappings.
    pub fn current_anon_mmaps(&self) -> (mmaps: &RangeMap<CallstackId>)
        ensures
            mmaps@ == self@.mmaps,
            self.wf() ==> mmaps.wf(),
    {
        &self.current_anon_mmaps
    }

    /// The numbered stacks.
    pub fn interner(&self) -> (interner: &CallstackInterner<'a>)
        ensures
            interner@ == self@.stacks,
            self.wf() ==> interner.wf(),
    {
        &self.interner
    }

    /// Whether an allocation of `size` bytes made from `callstack` can be
    /// recorded: the stack has a number or can get one, and the totals have
    /// room for the bytes.
    pub fn can_add_allocation(&self, size: usize, callstack: &Callstack<'a>) -> (can: bool)
        requires
            self.wf(),
        ensures
            can == (self@.has_room_for(callstack@) && self@.current_total + tracked_size(size as nat)
                <= usize::MAX),
    {
        if self.interner.find(callstack).is_none() && self.interner.len() >= u32::MAX as usize {
            return false;
        }
        Allocation::fits(size, usize::MAX - self.current_allocated_bytes)
    }

    /// Whether a mapping of `size` bytes at `address` made from `callstack`
    /// can be recorded: the stack has a number or can get one, the bytes lie
    /// within the address space and in no live mapping, and the totals have
    /// room for them.
    pub fn can_add_anon_mmap(&self, address: usize, size: usize, callstack: &Callstack<'a>) -> (can:
        bool)
        requires
            self.wf(),
        ensures
            can == (self@.has_room_for(callstack@) && self@.is_unmapped(address, size)
                && self@.current_total + size <= usize::MAX),
    {
        if self.interner.find(callstack).is_none() && self.interner.len() >= u32::MAX as usize {
            return false;
        }
        if size > usize::MAX - address || size > usize::MAX - self.current_allocated_bytes {
            return false;
        }
        !self.current_anon_mmaps.overlaps(address, size)
    }
}

} // verus!
