//! The calls that are under way on one thread of the host program, and how
//! such a stack is written in a report.

use crate::location::{CallSite, CallSiteId};
use crate::text::{append_decimal, decimal, join_strings, joined};
use vstd::prelude::*;
use vstd::string::StringExecFns;

verus! {

/// The stack with the line of its innermost call changed, if it has a call.
pub open spec fn with_top_line(stack: Seq<CallSite>, line_number: u16) -> Seq<CallSite> {
    if stack.len() == 0 {
        stack
    } else {
        stack.update(stack.len() - 1, CallSite { line_number, ..stack.last() })
    }
}

/// The stack once a call is entered. A parent line other than 0 is the line
/// of the caller at which the call is made, and replaces the caller's line.
pub open spec fn after_start_call(
    stack: Seq<CallSite>,
    parent_line_number: u16,
    site: CallSite,
) -> Seq<CallSite> {
    if parent_line_number != 0 {
        with_top_line(stack, parent_line_number).push(site)
    } else {
        stack.push(site)
    }
}

/// The stack once its innermost call returns. An empty stack stays empty.
pub open spec fn after_finish_call(stack: Seq<CallSite>) -> Seq<CallSite> {
    if stack.len() == 0 {
        stack
    } else {
        stack.drop_last()
    }
}

/// One call of a stack as a report writes it: file, line and function, and
/// for a report that is rewritten into links, a marker with file and line
/// again.
pub open spec fn frame_text(site: CallSite, to_be_post_processed: bool) -> Seq<char> {
    let plain = site.filename + ":"@ + decimal(site.line_number as nat) + " ("@ + site.function_name
        + ")"@;
    if to_be_post_processed {
        plain + ";TB@@"@ + site.filename + ":"@ + decimal(site.line_number as nat) + "@@TB"@
    } else {
        plain
    }
}

/// The calls of a stack as a report writes them, each by `frame_text`.
pub open spec fn frame_texts(stack: Seq<CallSite>, to_be_post_processed: bool) -> Seq<Seq<char>> {
    stack.map_values(|site: CallSite| frame_text(site, to_be_post_processed))
}

/// A stack as a report writes it: its calls from the outermost to the
/// innermost with `;` between them, or a fixed text if it has none.
pub open spec fn stack_text(stack: Seq<CallSite>, to_be_post_processed: bool) -> Seq<char> {
    if stack.len() == 0 {
        "[No Python stack]"@
    } else {
        joined(frame_texts(stack, to_be_post_processed), ";"@)
    }
}

/// A number made from the lines of a stack, which stacks are looked up by.
/// Equal stacks have equal keys.
pub open spec fn stack_key(stack: Seq<CallSite>) -> u64
    decreases stack.len(),
{
    if stack.len() == 0 {
        0
    } else {
        ((stack_key(stack.drop_last()) % 0x1_0000_0000) * 31 + stack.last().line_number) as u64
    }
}

/// The calls under way on one thread, the innermost last. Empty while the
/// thread runs no code of the host program.
#[derive(Clone, Debug, PartialEq, Eq, Hash)]
pub struct Callstack<'a> {
    calls: Vec<CallSiteId<'a>>,
}

impl<'a> View for Callstack<'a> {
    type V = Seq<CallSite>;

    closed spec fn view(&self) -> Seq<CallSite> {
        self.calls@.map_values(|site: CallSiteId<'a>| site@)
    }
}

impl<'a> Callstack<'a> {
    pub fn new() -> (stack: Callstack<'a>)
        ensures
            stack@ == Seq::<CallSite>::empty(),
    {
        let stack = Callstack { calls: Vec::new() };
        assert(stack@ =~= Seq::<CallSite>::empty());
        stack
    }

    /// Whether the thread runs code of the host program.
    pub fn in_python(&self) -> (inside: bool)
        ensures
            inside == (self@.len() > 0),
    {
        self.calls.len() > 0
    }

    pub fn start_call(&mut self, parent_line_number: u16, callsite_id: CallSiteId<'a>)
        ensures
            final(self)@ == after_start_call(old(self)@, parent_line_number, callsite_id@),
    {
        if parent_line_number != 0 {
            self.new_line_number(parent_line_number);
        }
        self.calls.push(callsite_id);
        assert(self@ =~= after_start_call(old(self)@, parent_line_number, callsite_id@));
    }

    pub fn finish_call(&mut self)
        ensures
            final(self)@ == after_finish_call(old(self)@),
    {
        self.calls.pop();
        assert(self@ =~= after_finish_call(old(self)@));
    }

    pub fn new_line_number(&mut self, line_number: u16)
        ensures
            final(self)@ == with_top_line(old(self)@, line_number),
    {
        let depth = self.calls.len();
        if depth > 0 {
            let top = self.calls[depth - 1].at_line(line_number);
            self.calls[depth - 1] = top;
        }
        assert(self@ =~= with_top_line(old(self)@, line_number));
    }

    /// The calls, the innermost last.
    pub fn calls(&self) -> (calls: &Vec<CallSiteId<'a>>)
        ensures
            calls@.map_values(|site: CallSiteId<'a>| site@) == self@,
    {
        &self.calls
    }

    /// Whether both stacks hold the same calls in the same order.
    pub fn same_as(&self, other: &Callstack<'a>) -> (same: bool)
        ensures
            same == (self@ == other@),
    {
        if self.calls.len() != other.calls.len() {
            assert(self@.len() != other@.len());
            return false;
        }
        let mut i: usize = 0;
        while i < self.calls.len()
            invariant
                i <= self.calls.len(),
                self.calls.len() == other.calls.len(),
                forall|k: int| 0 <= k < i ==> self@[k] == other@[k],
            decreases self.calls.len() - i,
        {
            if !self.calls[i].same_site(&other.calls[i]) {
                assert(self@[i as int] != other@[i as int]);
                return false;
            }
            i += 1;
        }
        assert(self@ =~= other@);
        true
    }

    /// The key of the stack.
    pub fn key(&self) -> (key: u64)
        ensures
            key == stack_key(self@),
    {
        let mut key: u64 = 0;
        let mut i: usize = 0;
        while i < self.calls.len()
            invariant
                i <= self.calls.len(),
                key == stack_key(self@.take(i as int)),
            decreases self.calls.len() - i,
        {
            assert(self@.take(i + 1).drop_last() =~= self@.take(i as int));
            assert(self@.take(i + 1).last() == self@[i as int]);
            key = (key % 0x1_0000_0000) * 31 + self.calls[i].line_number() as u64;
            i += 1;
        }
        assert(self@.take(i as int) =~= self@);
        key
    }

    /// A stack of its own with the same calls.
    pub fn snapshot(&self) -> (copy: Callstack<'a>)
        ensures
            copy@ == self@,
    {
        let mut calls: Vec<CallSiteId<'a>> = Vec::new();
        let mut i: usize = 0;
        while i < self.calls.len()
            invariant
                i <= self.calls.len(),
                calls@ == self.calls@.take(i as int),
            decreases self.calls.len() - i,
        {
            calls.push(self.calls[i]);
            assert(calls@ =~= self.calls@.take(i + 1));
            i += 1;
        }
        assert(self.calls@.take(i as int) =~= self.calls@);
        Callstack { calls }
    }

    pub fn as_string(&self, to_be_post_processed: bool) -> (text: String)
        ensures
            text@ == stack_text(self@, to_be_post_processed),
    {
        if self.calls.len() == 0 {
            return "[No Python stack]".to_owned();
        }
        let mut frames: Vec<String> = Vec::new();
        let mut i: usize = 0;
        while i < self.calls.len()
            invariant
                i <= self.calls.len(),
                frames@.len() == i,
                forall|k: int|
                    0 <= k < i ==> (#[trigger] frames@[k])@ == frame_text(
                        self@[k],
                        to_be_post_processed,
                    ),
            decreases self.calls.len() - i,
        {
            let site = &self.calls[i];
            let function = site.function();
            let mut frame = String::new();
            frame.append(function.get_filename());
            frame.append(":");
            append_decimal(&mut frame, site.line_number() as usize);
            frame.append(" (");
            frame.append(function.get_function_name());
            frame.append(")");
            if to_be_post_processed {
                frame.append(";TB@@");
                frame.append(function.get_filename());
                frame.append(":");
                append_decimal(&mut frame, site.line_number() as usize);
                frame.append("@@TB");
            }
            assert(frame@ =~= frame_text(self@[i as int], to_be_post_processed));
            frames.push(frame);
            i += 1;
        }
        assert(frames@.map_values(|part: String| part@) =~= frame_texts(
            self@,
            to_be_post_processed,
        ));
        join_strings(&frames, ";")
    }
}

} // verus!
