//! The entry points: what the bridge to the host program calls when a call
//! starts, ends or moves to another line, and what the allocator hooks call
//! when memory is handed out or given back.
//!
//! The functions take the state they work on: the calling thread's stack, or
//! the tracker of the process, which the caller holds under a lock for the
//! length of the call.

use crate::allocation::tracked_size;
use crate::location::{CallSite, CallSiteId, FunctionId};
use crate::model::TrackerState;
use crate::report::{FlamegraphDump, OomDump};
use crate::stack::{after_finish_call, after_start_call, with_top_line, Callstack};
use crate::tracker::AllocationTracker;
use vstd::prelude::*;

verus! {

/// The stack that an allocation is charged to: the thread's stack, with the
/// line of the innermost call set to the line of the allocation where one is
/// given.
pub open spec fn allocation_site(stack: Seq<CallSite>, line_number: u16) -> Seq<CallSite> {
    if line_number != 0 {
        with_top_line(stack, line_number)
    } else {
        stack
    }
}

/// Whether the tracker can record what `add_allocation` is called with.
pub open spec fn can_record(
    state: TrackerState,
    stack: Seq<CallSite>,
    address: usize,
    size: usize,
    line_number: u16,
    is_mmap: bool,
) -> bool {
    let site = allocation_site(stack, line_number);
    &&& state.has_room_for(site)
    &&& if is_mmap {
        state.is_unmapped(address, size) && state.current_total + size <= usize::MAX
    } else {
        state.current_total + tracked_size(size as nat) <= usize::MAX
    }
}

/// A call of `call_site` starts on the thread. `parent_line_number` is the
/// line of the caller at which it is made, or 0 if that is not known.
pub fn start_call<'a>(
    callstack: &mut Callstack<'a>,
    call_site: FunctionId<'a>,
    parent_line_number: u16,
    line_number: u16,
)
    ensures
        final(callstack)@ == after_start_call(
            old(callstack)@,
            parent_line_number,
            CallSite {
                filename: call_site.filename(),
                function_name: call_site.function_name(),
                line_number,
            },
        ),
{
    callstack.start_call(parent_line_number, CallSiteId::new(call_site, line_number));
}

/// The innermost call on the thread ends.
pub fn finish_call<'a>(callstack: &mut Callstack<'a>)
    ensures
        final(callstack)@ == after_finish_call(old(callstack)@),
{
    callstack.finish_call();
}

/// The innermost call on the thread moves to another line.
pub fn new_line_number<'a>(callstack: &mut Callstack<'a>, line_number: u16)
    ensures
        final(callstack)@ == with_top_line(old(callstack)@, line_number),
{
    callstack.new_line_number(line_number);
}

/// A copy of the thread's stack as an allocation at `line_number` is charged
/// to it.
pub fn callstack_at<'a>(callstack: &Callstack<'a>, line_number: u16) -> (site: Callstack<'a>)
    ensures
        site@ == allocation_site(callstack@, line_number),
{
    let mut site = callstack.snapshot();
    if line_number != 0 && site.in_python() {
        site.new_line_number(line_number);
    }
    site
}

/// Whether `add_allocation` can record what it is called with.
pub fn can_add_allocation<'a>(
    allocations: &AllocationTracker<'a>,
    callstack: &Callstack<'a>,
    address: usize,
    size: usize,
    line_number: u16,
    is_mmap: bool,
) -> (can: bool)
    requires
        allocations.wf(),
    ensures
        can == can_record(allocations@, callstack@, address, size, line_number, is_mmap),
{
    let site = callstack_at(callstack, line_number);
    if is_mmap {
        allocations.can_add_anon_mmap(address, size, &site)
    } else {
        allocations.can_add_allocation(size, &site)
    }
}

/// The allocator handed out `size` bytes at `address`, by `mmap` or from the
/// heap, while the thread was at `line_number` of its innermost call.
///
/// An address of 0 says that the allocator failed. Nothing is recorded then:
/// the memory held in reserve is given back, and what is returned says what
/// to do next. In every other case the reserve stays where it is.
pub fn add_allocation<'a>(
    allocations: &mut AllocationTracker<'a>,
    callstack: &Callstack<'a>,
    address: usize,
    size: usize,
    line_number: u16,
    is_mmap: bool,
) -> (oom: Option<OomDump>)
    requires
        old(allocations).wf(),
        address != 0 ==> can_record(
            old(allocations)@,
            callstack@,
            address,
            size,
            line_number,
            is_mmap,
        ),
    ensures
        final(allocations).wf(),
        final(allocations).default_path() == old(allocations).default_path(),
        oom is Some <==> address == 0,
        address != 0 && is_mmap ==> final(allocations)@ == old(allocations)@.add_anon_mmap(
            address,
            size,
            allocation_site(callstack@, line_number),
        ),
        address != 0 && !is_mmap ==> final(allocations)@ == old(allocations)@.add_allocation(
            address,
            size,
            allocation_site(callstack@, line_number),
        ),
        address == 0 ==> ({
            let plan = oom->0;
            let released = old(allocations)@.oom_break_glass();
            &&& final(allocations)@ == released.check_if_new_peak()
            &&& plan.release@.no_duplicates()
            &&& forall|live: usize| plan.release@.contains(live) <==> released.is_released_on_oom(live)
            &&& plan.dump.describes(
                released,
                old(allocations).default_path(),
                false,
                "out-of-memory"@,
                "Current allocations at out-of-memory time"@,
                false,
            )
        }),
{
    if address == 0 {
        allocations.oom_break_glass();
        return Some(allocations.oom_dump());
    }
    let site = callstack_at(callstack, line_number);
    if is_mmap {
        allocations.add_anon_mmap(address, size, &site);
    } else {
        allocations.add_allocation(address, size, &site);
    }
    None
}

/// The allocation at `address` was freed.
pub fn free_allocation<'a>(allocations: &mut AllocationTracker<'a>, address: usize)
    requires
        old(allocations).wf(),
    ensures
        final(allocations).wf(),
        final(allocations)@ == old(allocations)@.free_allocation(address),
        final(allocations).default_path() == old(allocations).default_path(),
{
    allocations.free_allocation(address);
}

/// The bytes counted for the allocation at `address`, or 0 if it is not
/// tracked.
pub fn get_allocation_size<'a>(allocations: &AllocationTracker<'a>, address: usize) -> (bytes: usize)
    requires
        allocations.wf(),
    ensures
        bytes == if allocations@.allocations.contains_key(address) {
            allocations@.allocations[address].bytes()
        } else {
            0
        },
{
    allocations.get_allocation_size(address)
}

/// The `length` bytes from `address` on were unmapped.
pub fn free_anon_mmap<'a>(allocations: &mut AllocationTracker<'a>, address: usize, length: usize)
    requires
        old(allocations).wf(),
        address + length <= usize::MAX,
    ensures
        final(allocations).wf(),
        final(allocations)@ == old(allocations)@.free_anon_mmap(address, length),
        final(allocations).default_path() == old(allocations).default_path(),
{
    allocations.free_anon_mmap(address, length);
}

/// Forgets everything and starts over with another default directory.
pub fn reset<'a>(allocations: &mut AllocationTracker<'a>, default_path: String)
    ensures
        final(allocations).wf(),
        final(allocations)@ == TrackerState::empty(),
        final(allocations).default_path() == default_path@,
{
    *allocations = AllocationTracker::new(default_path);
}

/// Prepares the report of the peak for the directory `path`.
pub fn dump_peak_to_flamegraph<'a>(allocations: &mut AllocationTracker<'a>, path: &str) -> (dump:
    FlamegraphDump)
    requires
        old(allocations).wf(),
    ensures
        final(allocations).wf(),
        final(allocations)@ == old(allocations)@.check_if_new_peak(),
        final(allocations).default_path() == old(allocations).default_path(),
        dump.describes(
            old(allocations)@,
            path@,
            true,
            "peak-memory"@,
            "Peak Tracked Memory Usage"@,
            true,
        ),
{
    allocations.dump_peak_to_flamegraph(path)
}

} // verus!
