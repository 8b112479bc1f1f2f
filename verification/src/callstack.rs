//! Calls with the memory of the whole process at their start and the most it
//! reached while they ran.

use vstd::prelude::*;

verus! {

/// What a call is, apart from how it is stored.
pub struct CallRecord {
    pub name: Seq<char>,
    pub starting_memory: usize,
    pub peak_memory: usize,
}

impl CallRecord {
    /// The bytes by which the memory of the process grew while the call ran.
    pub open spec fn allocated_memory(self) -> nat {
        if self.starting_memory > self.peak_memory {
            0
        } else {
            (self.peak_memory - self.starting_memory) as nat
        }
    }

    /// The call once the process is seen to use `currently_used_memory`.
    pub open spec fn seen(self, currently_used_memory: usize) -> CallRecord {
        if currently_used_memory > self.peak_memory {
            CallRecord { peak_memory: currently_used_memory, ..self }
        } else {
            self
        }
    }
}

/// A call of a function of the host program. Memory is in bytes.
pub struct Call {
    name: String,
    starting_memory: usize,
    peak_memory: usize,
}

impl View for Call {
    type V = CallRecord;

    closed spec fn view(&self) -> CallRecord {
        CallRecord {
            name: self.name@,
            starting_memory: self.starting_memory,
            peak_memory: self.peak_memory,
        }
    }
}

impl Call {
    pub fn new(name: String, starting_memory: usize) -> (call: Call)
        ensures
            call@ == (CallRecord { name: name@, starting_memory, peak_memory: 0 }),
    {
        Call { name, starting_memory, peak_memory: 0 }
    }

    pub fn allocated_memory(&self) -> (bytes: usize)
        ensures
            bytes == self@.allocated_memory(),
    {
        if self.starting_memory > self.peak_memory {
            0
        } else {
            self.peak_memory - self.starting_memory
        }
    }

    pub fn update_memory_usage(&mut self, currently_used_memory: usize)
        ensures
            final(self)@ == old(self)@.seen(currently_used_memory),
    {
        if currently_used_memory > self.peak_memory {
            self.peak_memory = currently_used_memory;
        }
    }
}

/// A call that has ended: its name, and the bytes by which the memory of the
/// process grew while it ran.
pub struct FinishedCall {
    pub name: String,
    pub allocated_memory: usize,
}

/// The calls under way on one thread, the innermost last.
pub struct Callstack {
    calls: Vec<Call>,
}

impl View for Callstack {
    type V = Seq<CallRecord>;

    closed spec fn view(&self) -> Seq<CallRecord> {
        self.calls@.map_values(|call: Call| call@)
    }
}

impl Callstack {
    pub fn new() -> (stack: Callstack)
        ensures
            stack@ == Seq::<CallRecord>::empty(),
    {
        let stack = Callstack { calls: Vec::new() };
        assert(stack@ =~= Seq::<CallRecord>::empty());
        stack
    }

    pub fn start_call(&mut self, name: String, currently_used_memory: usize)
        ensures
            final(self)@ == old(self)@.push(
                CallRecord { name: name@, starting_memory: currently_used_memory, peak_memory: 0 },
            ),
    {
        self.calls.push(Call::new(name, currently_used_memory));
        assert(self@ =~= old(self)@.push(
            CallRecord { name: name@, starting_memory: currently_used_memory, peak_memory: 0 },
        ));
    }

    /// Ends the innermost call and says what it was. On an empty stack there
    /// is none to end.
    pub fn finish_call(&mut self) -> (finished: Option<FinishedCall>)
        ensures
            old(self)@.len() == 0 ==> finished is None && final(self)@ == old(self)@,
            old(self)@.len() > 0 ==> finished is Some && final(self)@ == old(self)@.drop_last()
                && finished->0.name@ == old(self)@.last().name && finished->0.allocated_memory
                == old(self)@.last().allocated_memory(),
    {
        match self.calls.pop() {
            None => {
                assert(self@ =~= old(self)@);
                None
            },
            Some(call) => {
                assert(self@ =~= old(self)@.drop_last());
                assert(call@ == old(self)@.last());
                let allocated_memory = call.allocated_memory();
                Some(FinishedCall { name: call.name, allocated_memory })
            },
        }
    }

    /// Every call under way takes note that the process now uses
    /// `currently_used_memory` bytes.
    pub fn update_memory_usage(&mut self, currently_used_memory: usize)
        ensures
            final(self)@ == old(self)@.map_values(
                |call: CallRecord| call.seen(currently_used_memory),
            ),
    {
        let mut i: usize = 0;
        while i < self.calls.len()
            invariant
                i <= self.calls.len(),
                self@.len() == old(self)@.len(),
                forall|k: int|
                    0 <= k < i ==> #[trigger] self@[k] == old(self)@[k].seen(currently_used_memory),
                forall|k: int| i <= k < self@.len() ==> #[trigger] self@[k] == old(self)@[k],
            decreases self.calls.len() - i,
        {
            let ghost before = self@;
            self.calls[i].update_memory_usage(currently_used_memory);
            proof {
                assert(self@[i as int] == before[i as int].seen(currently_used_memory));
                assert forall|k: int| 0 <= k < self@.len() && k != i implies #[trigger] self@[k]
                    == before[k] by {}
            }
            i += 1;
        }
        assert(self@ =~= old(self)@.map_values(
            |call: CallRecord| call.seen(currently_used_memory),
        ));
    }
}

/// A call of the function `name` starts on the thread while the process uses
/// `currently_used_memory` bytes.
pub fn start_call(callstack: &mut Callstack, name: String, currently_used_memory: usize)
    ensures
        final(callstack)@ == old(callstack)@.push(
            CallRecord { name: name@, starting_memory: currently_used_memory, peak_memory: 0 },
        ),
{
    callstack.start_call(name, currently_used_memory);
}

/// The innermost call on the thread ends.
pub fn finish_call(callstack: &mut Callstack) -> (finished: Option<FinishedCall>)
    ensures
        old(callstack)@.len() == 0 ==> finished is None && final(callstack)@ == old(callstack)@,
        old(callstack)@.len() > 0 ==> finished is Some && final(callstack)@ == old(
            callstack,
        )@.drop_last() && finished->0.name@ == old(callstack)@.last().name
            && finished->0.allocated_memory == old(callstack)@.last().allocated_memory(),
{
    callstack.finish_call()
}

/// The process now uses `currently_used_memory` bytes.
pub fn update_memory_usage(callstack: &mut Callstack, currently_used_memory: usize)
    ensures
        final(callstack)@ == old(callstack)@.map_values(
            |call: CallRecord| call.seen(currently_used_memory),
        ),
{
    callstack.update_memory_usage(currently_used_memory);
}

} // verus!
