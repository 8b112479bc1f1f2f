//! Where a call was made: a function of the host program and a line in its
//! file.
//!
//! The host owns the records that name its functions and keeps them alive for
//! as long as the tracker runs. It hands out one record per function, so two
//! call sites are in the same function when their records hold the same
//! names.

use vstd::prelude::*;

verus! {

/// The file and the name of a function of the host program.
#[derive(Debug, PartialEq, Eq, Hash)]
pub struct FunctionLocation {
    filename: String,
    function_name: String,
}

impl FunctionLocation {
    pub closed spec fn filename(&self) -> Seq<char> {
        self.filename@
    }

    pub closed spec fn function_name(&self) -> Seq<char> {
        self.function_name@
    }

    pub fn from_strings(filename: &str, function_name: &str) -> (location: FunctionLocation)
        ensures
            location.filename() == filename@,
            location.function_name() == function_name@,
    {
        FunctionLocation { filename: filename.to_owned(), function_name: function_name.to_owned() }
    }
}

/// A borrowed handle on a function of the host program.
#[derive(Clone, Copy, Debug, PartialEq, Eq, Hash)]
pub struct FunctionId<'a> {
    function: &'a FunctionLocation,
}

impl<'a> FunctionId<'a> {
    pub open spec fn filename(&self) -> Seq<char> {
        self.location().filename()
    }

    pub open spec fn function_name(&self) -> Seq<char> {
        self.location().function_name()
    }

    /// The record that the handle borrows.
    pub closed spec fn location(&self) -> FunctionLocation {
        *self.function
    }

    pub fn new(function: &'a FunctionLocation) -> (id: FunctionId<'a>)
        ensures
            id.location() == *function,
    {
        FunctionId { function }
    }

    pub fn get_filename(&self) -> (name: &'a str)
        ensures
            name@ == self.filename(),
    {
        self.function.filename.as_str()
    }

    pub fn get_function_name(&self) -> (name: &'a str)
        ensures
            name@ == self.function_name(),
    {
        self.function.function_name.as_str()
    }

    /// Whether both handles are on the same function.
    pub fn same_function(&self, other: &FunctionId<'a>) -> (same: bool)
        ensures
            same == (self.filename() == other.filename() && self.function_name()
                == other.function_name()),
    {
        self.function.filename == other.function.filename && self.function.function_name
            == other.function.function_name
    }
}

/// What a call site is, apart from how it is stored.
pub struct CallSite {
    pub filename: Seq<char>,
    pub function_name: Seq<char>,
    pub line_number: u16,
}

/// A function and a line in its file, counted from 1.
#[derive(Clone, Copy, Debug, PartialEq, Eq, Hash)]
pub struct CallSiteId<'a> {
    function: FunctionId<'a>,
    line_number: u16,
}

impl<'a> View for CallSiteId<'a> {
    type V = CallSite;

    closed spec fn view(&self) -> CallSite {
        CallSite {
            filename: self.function.filename(),
            function_name: self.function.function_name(),
            line_number: self.line_number,
        }
    }
}

impl<'a> CallSiteId<'a> {
    pub fn new(function: FunctionId<'a>, line_number: u16) -> (site: CallSiteId<'a>)
        ensures
            site@ == (CallSite {
                filename: function.filename(),
                function_name: function.function_name(),
                line_number,
            }),
    {
        CallSiteId { function, line_number }
    }

    pub fn function(&self) -> (function: FunctionId<'a>)
        ensures
            function.filename() == self@.filename,
            function.function_name() == self@.function_name,
    {
        self.function
    }

    pub fn line_number(&self) -> (line: u16)
        ensures
            line == self@.line_number,
    {
        self.line_number
    }

    /// The same function at another line.
    pub fn at_line(&self, line_number: u16) -> (site: CallSiteId<'a>)
        ensures
            site@ == (CallSite { line_number, ..self@ }),
    {
        CallSiteId { function: self.function, line_number }
    }

    /// Whether both are the same line of the same function.
    pub fn same_site(&self, other: &CallSiteId<'a>) -> (same: bool)
        ensures
            same == (self@ == other@),
    {
        self.line_number == other.line_number && self.function.same_function(&other.function)
    }
}

} // verus!
