//! What went wrong reading a file, and where: the shape the framework reports problems in,
//! held as plain values so every reader of the library can say exactly what it reports.

use vstd::prelude::*;

use crate::text::{chars_of, string_of};

verus! {

/// How bad a problem is.
#[derive(Debug, Clone, Copy, PartialEq, Eq, Structural)]
pub enum Severity {
    /// The entry was ignored.
    Error,
    /// The entry was used, but it is probably not what the author wants.
    Warning,
}

/// A place in a file.
#[derive(Debug, Clone, PartialEq, Eq)]
pub struct Location {
    /// Display name of the file.
    pub file: String,
    /// Line number, starting at 1.
    pub line: usize,
    /// Column number in characters, starting at 1.
    pub column: usize,
}

/// One problem, with where it is when it can be pinned to a place.
#[derive(Debug, Clone, PartialEq, Eq)]
pub struct Diagnostic {
    /// Error or warning.
    pub severity: Severity,
    /// Where the problem is, when it can be pinned to a place in a file.
    pub location: Option<Location>,
    /// What is wrong.
    pub message: String,
}

/// A location as the values it holds.
pub struct LocationView {
    pub file: Seq<char>,
    pub line: usize,
    pub column: usize,
}

/// A diagnostic as the values it holds.
pub struct DiagnosticView {
    pub severity: Severity,
    pub location: Option<LocationView>,
    pub message: Seq<char>,
}

impl View for Location {
    type V = LocationView;

    open spec fn view(&self) -> LocationView {
        LocationView { file: self.file@, line: self.line, column: self.column }
    }
}

impl View for Diagnostic {
    type V = DiagnosticView;

    open spec fn view(&self) -> DiagnosticView {
        DiagnosticView {
            severity: self.severity,
            location: match self.location {
                Some(location) => Some(location@),
                None => None,
            },
            message: self.message@,
        }
    }
}

/// How many line breaks `text` holds.
pub open spec fn breaks(text: Seq<char>) -> nat
    decreases text.len(),
{
    if text.len() == 0 {
        0
    } else {
        breaks(text.drop_last()) + if text.last() == '\n' { 1nat } else { 0nat }
    }
}

/// How many characters `text` ends in after its last line break.
pub open spec fn since_break(text: Seq<char>) -> nat
    decreases text.len(),
{
    if text.len() == 0 || text.last() == '\n' {
        0
    } else {
        since_break(text.drop_last()) + 1
    }
}

/// The place the character at `offset` of `text` is at: the line it is on and its column, both
/// counted from one, the column in characters.
pub open spec fn place_of(text: Seq<char>, offset: int) -> (int, int) {
    let before = text.subrange(0, offset);
    (breaks(before) + 1int, since_break(before) + 1int)
}

impl Location {
    /// The place of the character at `offset` in `text`, in the file named `file`.
    pub fn from_offset(file: &str, text: &[char], offset: usize) -> (location: Self)
        requires
            offset < text@.len(),
        ensures
            location.file@ == file@,
            location.line == place_of(text@, offset as int).0,
            location.column == place_of(text@, offset as int).1,
    {
        let mut line: usize = 1;
        let mut column: usize = 1;
        let mut i: usize = 0;
        while i < offset
            invariant
                i <= offset < text@.len(),
                line == breaks(text@.subrange(0, i as int)) + 1,
                column == since_break(text@.subrange(0, i as int)) + 1,
                line <= i + 1,
                column <= i + 1,
            decreases offset - i,
        {
            assert(text@.subrange(0, i + 1).drop_last() =~= text@.subrange(0, i as int));
            if text[i] == '\n' {
                line = line + 1;
                column = 1;
            } else {
                column = column + 1;
            }
            i = i + 1;
        }
        Location { file: string_of(&chars_of(file)), line, column }
    }
}

impl Location {
    /// A copy of the location.
    pub fn copy(&self) -> (copy: Self)
        ensures
            copy@ == self@,
    {
        Location { file: self.file.clone(), line: self.line, column: self.column }
    }
}

impl Diagnostic {
    /// An error.
    pub fn error(location: Option<Location>, message: String) -> (diagnostic: Self)
        ensures
            diagnostic.severity == Severity::Error,
            diagnostic.location == location,
            diagnostic.message == message,
    {
        Diagnostic { severity: Severity::Error, location, message }
    }

    /// A warning.
    pub fn warning(location: Option<Location>, message: String) -> (diagnostic: Self)
        ensures
            diagnostic.severity == Severity::Warning,
            diagnostic.location == location,
            diagnostic.message == message,
    {
        Diagnostic { severity: Severity::Warning, location, message }
    }
}

} // verus!
