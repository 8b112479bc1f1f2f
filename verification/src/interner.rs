//! Numbers for call stacks: each stack gets the next unused number when it is
//! first seen, and keeps it.

use crate::allocation::CallstackId;
use crate::location::CallSite;
use crate::stack::{stack_key, Callstack};
use std::collections::HashMap;
use vstd::prelude::*;

verus! {

broadcast use vstd::std_specs::hash::group_hash_axioms;

/// The numbered stacks once `stack` has a number: unchanged if it had one,
/// else with `stack` as the last.
pub open spec fn interned(stacks: Seq<Seq<CallSite>>, stack: Seq<CallSite>) -> Seq<Seq<CallSite>> {
    if stacks.contains(stack) {
        stacks
    } else {
        stacks.push(stack)
    }
}

/// The number that `stack` has once it has one.
pub open spec fn id_of(stacks: Seq<Seq<CallSite>>, stack: Seq<CallSite>) -> int {
    interned(stacks, stack).index_of(stack)
}

/// No stack has two numbers, and every number fits 32 bits with one to spare.
pub open spec fn stacks_valid(stacks: Seq<Seq<CallSite>>) -> bool {
    &&& stacks.no_duplicates()
    &&& stacks.len() <= u32::MAX
}

/// The number of a stack is a position at which the numbered stacks hold it.
pub proof fn lemma_id_of(stacks: Seq<Seq<CallSite>>, stack: Seq<CallSite>)
    ensures
        0 <= id_of(stacks, stack) < interned(stacks, stack).len(),
        interned(stacks, stack)[id_of(stacks, stack)] == stack,
        stacks.contains(stack) ==> id_of(stacks, stack) < stacks.len(),
        !stacks.contains(stack) && stacks.no_duplicates() ==> id_of(stacks, stack) == stacks.len(),
        stacks.no_duplicates() ==> interned(stacks, stack).no_duplicates(),
{
    let after = interned(stacks, stack);
    if !stacks.contains(stack) {
        assert(after[stacks.len() as int] == stack);
    }
    assert(after.contains(stack));
    let id = after.index_of(stack);
    assert(0 <= id < after.len() && after[id] == stack);
    if !stacks.contains(stack) && stacks.no_duplicates() {
        if id < stacks.len() {
            assert(stacks[id] == stack);
            assert(stacks.contains(stack));
        }
    }
}

/// Two stacks get the same number if and only if they are the same stack, a
/// number once given stays with its stack, and a stack that is seen again
/// adds no number.
pub proof fn law_same_number_same_stack(
    stacks: Seq<Seq<CallSite>>,
    first: Seq<CallSite>,
    second: Seq<CallSite>,
)
    requires
        stacks.no_duplicates(),
    ensures
        ({
            let once = interned(stacks, first);
            let twice = interned(once, second);
            &&& (id_of(stacks, first) == id_of(once, second) <==> first == second)
            &&& twice[id_of(stacks, first)] == first
            &&& interned(once, first) == once
            &&& forall|id: int| 0 <= id < stacks.len() ==> twice[id] == stacks[id]
        }),
{
    let once = interned(stacks, first);
    let twice = interned(once, second);
    lemma_id_of(stacks, first);
    lemma_id_of(once, second);
    let a = id_of(stacks, first);
    let b = id_of(once, second);
    assert(once.contains(first));
    assert(twice[a] == once[a]);
    if a == b {
        assert(twice[b] == second);
    }
    if first == second {
        assert(twice == once);
    }
}

/// The call stacks that have a number. The number of a stack is its place
/// among them. A stack is looked up by its key, among the stacks that share
/// the key.
pub struct CallstackInterner<'a> {
    stacks: Vec<Callstack<'a>>,
    /// For each key, the numbers of the stacks with that key.
    by_key: HashMap<u64, Vec<CallstackId>>,
}

impl<'a> View for CallstackInterner<'a> {
    type V = Seq<Seq<CallSite>>;

    closed spec fn view(&self) -> Seq<Seq<CallSite>> {
        self.stacks@.map_values(|stack: Callstack<'a>| stack@)
    }
}

impl<'a> CallstackInterner<'a> {
    /// No stack has two numbers, a number is left over, and every stack is
    /// found by its key.
    pub open spec fn wf(&self) -> bool {
        &&& stacks_valid(self@)
        &&& self.indexed()
    }

    /// Every number is listed under the key of its stack, and under no key
    /// is anything else listed.
    pub closed spec fn indexed(&self) -> bool {
        &&& forall|id: int|
            0 <= id < self@.len() ==> self.by_key@.contains_key(stack_key(#[trigger] self@[id]))
                && self.by_key@[stack_key(self@[id])]@.contains(id as CallstackId)
        &&& forall|key: u64, at: int|
            self.by_key@.contains_key(key) && 0 <= at < self.by_key@[key]@.len() ==> (
            #[trigger] self.by_key@[key]@[at]) < self@.len() && stack_key(
                self@[self.by_key@[key]@[at] as int],
            ) == key
    }

    /// Whether the stack can get a number: it has one, or one is left.
    pub open spec fn has_room_for(&self, stack: Seq<CallSite>) -> bool {
        self@.contains(stack) || self@.len() < u32::MAX
    }

    pub fn new() -> (interner: CallstackInterner<'a>)
        ensures
            interner.wf(),
            interner@ == Seq::<Seq<CallSite>>::empty(),
    {
        let interner = CallstackInterner { stacks: Vec::new(), by_key: HashMap::new() };
        assert(interner@ =~= Seq::<Seq<CallSite>>::empty());
        interner
    }

    /// How many stacks have a number.
    pub fn len(&self) -> (count: usize)
        ensures
            count == self@.len(),
    {
        self.stacks.len()
    }

    /// The number of a stack, if it has one.
    pub fn find(&self, callstack: &Callstack<'a>) -> (found: Option<CallstackId>)
        requires
            self.wf(),
        ensures
            found is Some <==> self@.contains(callstack@),
            found is Some ==> found->0 == self@.index_of(callstack@),
    {
        let key = callstack.key();
        match self.by_key.get(&key) {
            None => {
                proof {
                    if self@.contains(callstack@) {
                        let id = self@.index_of(callstack@);
                        assert(self.by_key@.contains_key(stack_key(self@[id])));
                    }
                }
                None
            },
            Some(bucket) => {
                let mut at: usize = 0;
                while at < bucket.len()
                    invariant
                        at <= bucket.len(),
                        self.wf(),
                        self.by_key@.contains_key(key),
                        *bucket == self.by_key@[key],
                        key == stack_key(callstack@),
                        forall|k: int| 0 <= k < at ==> self@[bucket@[k] as int] != callstack@,
                    decreases bucket.len() - at,
                {
                    let id = bucket[at];
                    assert(self.by_key@[key]@[at as int] < self@.len());
                    if self.stacks[id as usize].same_as(callstack) {
                        proof {
                            assert(self@[id as int] == callstack@);
                            assert(self@.contains(callstack@));
                            let first = self@.index_of(callstack@);
                            assert(self@[first] == self@[id as int]);
                        }
                        return Some(id);
                    }
                    at += 1;
                }
                proof {
                    if self@.contains(callstack@) {
                        let id = self@.index_of(callstack@);
                        assert(self.by_key@[stack_key(self@[id])]@.contains(id as CallstackId));
                        let k = choose|k: int|
                            0 <= k < bucket@.len() && bucket@[k] == id as CallstackId;
                        assert(self@[bucket@[k] as int] != callstack@);
                    }
                }
                None
            },
        }
    }

    /// The number of a stack, which it gets now if it has none, and whether
    /// it got it now.
    pub fn intern(&mut self, callstack: &Callstack<'a>) -> (found: (CallstackId, bool))
        requires
            old(self).wf(),
            old(self).has_room_for(callstack@),
        ensures
            final(self).wf(),
            final(self)@ == interned(old(self)@, callstack@),
            found.0 == id_of(old(self)@, callstack@),
            found.1 == !old(self)@.contains(callstack@),
    {
        proof {
            lemma_id_of(self@, callstack@);
        }
        match self.find(callstack) {
            Some(id) => (id, false),
            None => {
                let id = self.stacks.len() as u32;
                let key = callstack.key();
                let ghost before = self.by_key@;
                let mut bucket = match self.by_key.remove(&key) {
                    Some(bucket) => bucket,
                    None => Vec::new(),
                };
                let ghost listed = bucket@;
                bucket.push(id);
                self.by_key.insert(key, bucket);
                self.stacks.push(callstack.snapshot());
                proof {
                    assert(self@ =~= old(self)@.push(callstack@));
                    assert(before.contains_key(key) ==> before[key]@ == listed);
                    assert(self.by_key@[key]@ == listed.push(id));
                    assert(self.by_key@[key]@[listed.len() as int] == id);
                    assert forall|other: int| 0 <= other < self@.len() implies self.by_key@.contains_key(
                        stack_key(#[trigger] self@[other]),
                    ) && self.by_key@[stack_key(self@[other])]@.contains(other as CallstackId) by {
                        if other < old(self)@.len() {
                            assert(self@[other] == old(self)@[other]);
                            let there = stack_key(old(self)@[other]);
                            assert(before[there]@.contains(other as CallstackId));
                            if there == key {
                                let k = choose|k: int|
                                    0 <= k < listed.len() && listed[k] == other as CallstackId;
                                assert(self.by_key@[key]@[k] == other as CallstackId);
                            }
                        }
                    }
                    assert forall|any: u64, at: int|
                        self.by_key@.contains_key(any) && 0 <= at < self.by_key@[any]@.len() implies (
                    #[trigger] self.by_key@[any]@[at]) < self@.len() && stack_key(
                        self@[self.by_key@[any]@[at] as int],
                    ) == any by {
                        if any == key {
                            if at < listed.len() {
                                assert(before[key]@[at] < old(self)@.len());
                                assert(self@[listed[at] as int] == old(self)@[listed[at] as int]);
                            }
                        } else {
                            assert(before.contains_key(any));
                            assert(before[any]@[at] < old(self)@.len());
                            assert(self@[before[any]@[at] as int] == old(self)@[before[any]@[at] as int]);
                        }
                    }
                }
                (id, true)
            },
        }
    }

    /// The number of a stack, which it gets now if it has none. In that case
    /// `call_on_new` is called, once, before the number is returned.
    pub fn get_or_insert_id<F: FnOnce() -> ()>(
        &mut self,
        callstack: &Callstack<'a>,
        call_on_new: F,
    ) -> (id: CallstackId)
        requires
            old(self).wf(),
            old(self).has_room_for(callstack@),
            call_on_new.requires(()),
        ensures
            final(self).wf(),
            final(self)@ == interned(old(self)@, callstack@),
            id == id_of(old(self)@, callstack@),
            !old(self)@.contains(callstack@) ==> call_on_new.ensures((), ()),
    {
        let (id, is_new) = self.intern(callstack);
        if is_new {
            call_on_new();
        }
        id
    }

    /// The stack with a number.
    pub fn get(&self, id: CallstackId) -> (callstack: &Callstack<'a>)
        requires
            id < self@.len(),
        ensures
            callstack@ == self@[id as int],
    {
        &self.stacks[id as usize]
    }

    /// The stacks by their numbers.
    pub fn get_reverse_map<'b>(&'b self) -> (by_id: HashMap<CallstackId, &'b Callstack<'a>>)
        requires
            self.wf(),
        ensures
            forall|id: CallstackId| by_id@.contains_key(id) <==> id < self@.len(),
            forall|id: CallstackId| id < self@.len() ==> (#[trigger] by_id@[id])@ == self@[id as int],
    {
        let mut by_id: HashMap<CallstackId, &'b Callstack<'a>> = HashMap::new();
        let mut i: usize = 0;
        while i < self.stacks.len()
            invariant
                i <= self.stacks.len(),
                self.wf(),
                forall|id: CallstackId| by_id@.contains_key(id) <==> id < i,
                forall|id: CallstackId| id < i ==> (#[trigger] by_id@[id])@ == self@[id as int],
            decreases self.stacks.len() - i,
        {
            by_id.insert(i as u32, &self.stacks[i]);
            i += 1;
        }
        by_id
    }
}

} // verus!
