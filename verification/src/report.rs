//! What a report holds: for each call stack that is listed, its bytes, and
//! the line of text that says so.

use crate::allocation::{Allocation, CallstackId};
use crate::location::CallSite;
use crate::model::TrackerState;
use crate::rangemap::Span;
use crate::stack::stack_text;
use crate::sums::{counts_for, heap_bytes_below, lemma_heap_bytes_empty, lemma_heap_bytes_remove};
use crate::text::decimal;
use vstd::prelude::*;

verus! {

/// The entries of a table of allocations in some order: each entry once.
pub open spec fn lists_table(
    entries: Seq<(usize, Allocation)>,
    allocations: Map<usize, Allocation>,
) -> bool {
    &&& forall|i: int|
        0 <= i < entries.len() ==> allocations.contains_key((#[trigger] entries[i]).0)
            && allocations[entries[i].0] == entries[i].1
    &&& forall|address: usize|
        allocations.contains_key(address) ==> exists|i: int|
            0 <= i < entries.len() && (#[trigger] entries[i]).0 == address
    &&& forall|i: int, j: int|
        0 <= i < j < entries.len() ==> (#[trigger] entries[i]).0 != (#[trigger] entries[j]).0
}

/// The bytes of the entries that count for `of`.
pub open spec fn entries_bytes(entries: Seq<(usize, Allocation)>, of: Option<CallstackId>) -> nat
    decreases entries.len(),
{
    if entries.len() == 0 {
        0
    } else {
        entries_bytes(entries.drop_last(), of) + if counts_for(entries.last().1, of) {
            entries.last().1.bytes()
        } else {
            0
        }
    }
}

/// Whether one of the first `count` entries was made from the stack `id`.
pub open spec fn entries_name(
    entries: Seq<(usize, Allocation)>,
    count: int,
    id: CallstackId,
) -> bool {
    exists|i: int| 0 <= i < count && i < entries.len() && (#[trigger] entries[i]).1.callstack_id == id
}

/// The bytes of the first entries are among the bytes of all.
pub proof fn lemma_entries_bytes_grow(
    entries: Seq<(usize, Allocation)>,
    of: Option<CallstackId>,
    count: int,
)
    requires
        0 <= count <= entries.len(),
    ensures
        entries_bytes(entries.take(count), of) <= entries_bytes(entries, of),
    decreases entries.len() - count,
{
    if count < entries.len() {
        lemma_entries_bytes_grow(entries, of, count + 1);
        assert(entries.take(count + 1).drop_last() =~= entries.take(count));
    } else {
        assert(entries.take(count) =~= entries);
    }
}

/// In whatever order a table is listed, the bytes of its entries are the
/// bytes of the table.
pub proof fn lemma_entries_bytes(
    entries: Seq<(usize, Allocation)>,
    allocations: Map<usize, Allocation>,
    of: Option<CallstackId>,
)
    requires
        lists_table(entries, allocations),
    ensures
        entries_bytes(entries, of) == heap_bytes_below(allocations, of, (usize::MAX + 1) as nat),
    decreases entries.len(),
{
    if entries.len() == 0 {
        assert(allocations =~= Map::<usize, Allocation>::empty()) by {
            assert forall|address: usize| !allocations.contains_key(address) by {
                if allocations.contains_key(address) {
                    let i = choose|i: int|
                        0 <= i < entries.len() && (#[trigger] entries[i]).0 == address;
                }
            }
        }
        lemma_heap_bytes_empty(of, (usize::MAX + 1) as nat);
    } else {
        let front = entries.drop_last();
        let last = entries.last();
        assert(last == entries[entries.len() - 1]);
        let rest = allocations.remove(last.0);
        assert(lists_table(front, rest)) by {
            assert forall|i: int| 0 <= i < front.len() implies rest.contains_key(
                (#[trigger] front[i]).0,
            ) && rest[front[i].0] == front[i].1 by {
                assert(front[i] == entries[i]);
                assert(entries[i].0 != entries[entries.len() - 1].0);
            }
            assert forall|address: usize| rest.contains_key(address) implies exists|i: int|
                0 <= i < front.len() && (#[trigger] front[i]).0 == address by {
                let i = choose|i: int| 0 <= i < entries.len() && (#[trigger] entries[i]).0 == address;
                assert(front[i] == entries[i]);
            }
            assert forall|i: int, j: int| 0 <= i < j < front.len() implies (#[trigger] front[i]).0 != (
            #[trigger] front[j]).0 by {
                assert(front[i] == entries[i] && front[j] == entries[j]);
            }
        }
        lemma_entries_bytes(front, rest, of);
        lemma_heap_bytes_remove(allocations, of, last.0);
    }
}

/// Whether an allocation of the table was made from the stack `id`.
pub open spec fn table_names(allocations: Map<usize, Allocation>, id: CallstackId) -> bool {
    exists|address: usize|
        allocations.contains_key(address) && (#[trigger] allocations[address]).callstack_id == id
}

/// Whether one of the first `count` mappings was made from the stack `id`.
pub open spec fn spans_name(mmaps: Seq<Span<CallstackId>>, count: int, id: CallstackId) -> bool {
    exists|i: int| 0 <= i < count && i < mmaps.len() && (#[trigger] mmaps[i]).value == id
}

/// A listing of a table names the stacks that the table names.
pub proof fn lemma_entries_name(
    entries: Seq<(usize, Allocation)>,
    allocations: Map<usize, Allocation>,
    id: CallstackId,
)
    requires
        lists_table(entries, allocations),
    ensures
        entries_name(entries, entries.len() as int, id) == table_names(allocations, id),
{
    if entries_name(entries, entries.len() as int, id) {
        let i = choose|i: int|
            0 <= i < entries.len() && (#[trigger] entries[i]).1.callstack_id == id;
        assert(allocations.contains_key(entries[i].0));
        assert(allocations[entries[i].0].callstack_id == id);
    }
    if table_names(allocations, id) {
        let address = choose|address: usize|
            allocations.contains_key(address) && (#[trigger] allocations[address]).callstack_id
                == id;
        let i = choose|i: int| 0 <= i < entries.len() && (#[trigger] entries[i]).0 == address;
        assert(entries[i].1.callstack_id == id);
    }
}

/// A line of a report: the stack, a space, and its bytes in decimal.
pub open spec fn line_text(stack: Seq<CallSite>, bytes: nat, to_be_post_processed: bool) -> Seq<char> {
    stack_text(stack, to_be_post_processed) + " "@ + decimal(bytes)
}

impl TrackerState {
    /// Whether a live allocation or mapping was made from the stack `id`.
    pub open spec fn is_live(self, id: CallstackId) -> bool {
        table_names(self.allocations, id) || spans_name(self.mmaps, self.mmaps.len() as int, id)
    }

    /// For each stack with a number below `below` that has bytes at the
    /// peak, in order of number: its number and those bytes.
    pub open spec fn peak_entries(self, below: nat) -> Seq<(CallstackId, nat)>
        decreases below,
    {
        if below == 0 {
            Seq::empty()
        } else {
            let front = self.peak_entries((below - 1) as nat);
            if self.peak[below - 1] > 0 {
                front.push(((below - 1) as CallstackId, self.peak[below - 1]))
            } else {
                front
            }
        }
    }

    /// For each stack with a number below `below` that made something live,
    /// in order of number: its number and its live bytes, counted from the
    /// tables.
    pub open spec fn live_entries(self, below: nat) -> Seq<(CallstackId, nat)>
        decreases below,
    {
        if below == 0 {
            Seq::empty()
        } else {
            let front = self.live_entries((below - 1) as nat);
            if self.is_live((below - 1) as CallstackId) {
                front.push(((below - 1) as CallstackId, self.live_bytes((below - 1) as CallstackId)))
            } else {
                front
            }
        }
    }

    /// What a report lists, after a check of the peak: the stacks with bytes
    /// at the peak, or the stacks that made something live.
    pub open spec fn combine_callstacks(self, peak: bool) -> Seq<(CallstackId, nat)> {
        let checked = self.check_if_new_peak();
        if peak {
            checked.peak_entries(checked.stacks.len())
        } else {
            checked.live_entries(checked.stacks.len())
        }
    }

    /// The lines of a report, one for each stack that it lists.
    pub open spec fn to_lines(self, peak: bool, to_be_post_processed: bool) -> Seq<Seq<char>> {
        self.combine_callstacks(peak).map_values(
            |entry: (CallstackId, nat)|
                line_text(self.stacks[entry.0 as int], entry.1, to_be_post_processed),
        )
    }
}

/// Listed entries as numbers without a bound.
pub open spec fn entries_view(entries: Seq<(CallstackId, usize)>) -> Seq<(CallstackId, nat)> {
    entries.map_values(|entry: (CallstackId, usize)| (entry.0, entry.1 as nat))
}

/// The text of each line.
pub open spec fn lines_view(lines: Seq<String>) -> Seq<Seq<char>> {
    lines.map_values(|line: String| line@)
}

/// Every listed stack has a number below the bound that the listing was
/// made with.
pub proof fn lemma_entries_name_stacks(s: TrackerState, below: nat)
    requires
        below <= u32::MAX,
    ensures
        forall|k: int|
            0 <= k < s.peak_entries(below).len() ==> (#[trigger] s.peak_entries(below)[k]).0 < below,
        forall|k: int|
            0 <= k < s.live_entries(below).len() ==> (#[trigger] s.live_entries(below)[k]).0 < below,
    decreases below,
{
    if below > 0 {
        lemma_entries_name_stacks(s, (below - 1) as nat);
        let before = (below - 1) as nat;
        assert forall|k: int| 0 <= k < s.peak_entries(below).len() implies (#[trigger] s.peak_entries(
            below,
        )[k]).0 < below by {
            if k < s.peak_entries(before).len() {
                assert(s.peak_entries(below)[k] == s.peak_entries(before)[k]);
            }
        }
        assert forall|k: int| 0 <= k < s.live_entries(below).len() implies (#[trigger] s.live_entries(
            below,
        )[k]).0 < below by {
            if k < s.live_entries(before).len() {
                assert(s.live_entries(below)[k] == s.live_entries(before)[k]);
            }
        }
    }
}

/// The least number of bytes that an allocation must hold to be given back
/// when memory runs out.
pub const OOM_RELEASE_ABOVE: usize = 300000;

/// A report that is ready to be written: where it goes, what the file of
/// lines holds, and what the two flame graphs drawn from that file are called.
pub struct FlamegraphDump {
    /// The directory that takes the files.
    pub directory: String,
    /// The name of the file of lines.
    pub raw_file: String,
    /// The name of the flame graph.
    pub svg_file: String,
    /// The name of the flame graph with the stacks turned over.
    pub reversed_svg_file: String,
    /// The lines, without line ends.
    pub lines: Vec<String>,
    /// The title of the flame graphs, before the peak is added to it.
    pub title: String,
    /// The bytes at the peak, which the title shows.
    pub peak_bytes: usize,
    /// A subtitle to be replaced later, for a report that is rewritten into
    /// links.
    pub subtitle: Option<String>,
}

impl FlamegraphDump {
    /// Whether this is the report that `state` gives in `directory` under
    /// `base_filename`.
    pub open spec fn describes(
        &self,
        state: TrackerState,
        directory: Seq<char>,
        peak: bool,
        base_filename: Seq<char>,
        title: Seq<char>,
        to_be_post_processed: bool,
    ) -> bool {
        &&& self.directory@ == directory
        &&& self.raw_file@ == base_filename + ".prof"@
        &&& self.svg_file@ == base_filename + ".svg"@
        &&& self.reversed_svg_file@ == base_filename + "-reversed.svg"@
        &&& lines_view(self.lines@) == state.to_lines(peak, to_be_post_processed)
        &&& self.title@ == title
        &&& self.peak_bytes == state.check_if_new_peak().peak_total
        &&& self.subtitle is Some == to_be_post_processed
        &&& to_be_post_processed ==> self.subtitle->0@ == "SUBTITLE-HERE"@
    }
}

/// What is to be done when memory has run out, once the process has forked
/// and the parent has left: the allocations to give back, and the report to
/// write after that.
pub struct OomDump {
    /// The addresses of the allocations to give back.
    pub release: Vec<usize>,
    pub dump: FlamegraphDump,
}

impl TrackerState {
    /// Whether the allocation at `address` is given back when memory runs
    /// out: it is live, was made by code of the host program, and holds more
    /// than `OOM_RELEASE_ABOVE` bytes.
    pub open spec fn is_released_on_oom(self, address: usize) -> bool {
        &&& self.allocations.contains_key(address)
        &&& self.stacks[self.allocations[address].callstack_id as int].len() > 0
        &&& self.allocations[address].bytes() > OOM_RELEASE_ABOVE
    }
}

} // verus!
