//! The lines of a document, as the tokenizer hands them to the state machine.

use vstd::prelude::*;
use crate::tag::text;

verus! {

/// The mathematical value of a [`GedLine`].
pub enum Line {
    /// A data line: level, tag, content.
    Data(i32, Seq<char>, Option<Seq<char>>),
    /// A reference line: level, type code, number, content.
    Ref(i32, Seq<char>, u64, Option<Seq<char>>),
}

impl Line {
    /// The nesting level that the line carries.
    pub open spec fn level(self) -> i32 {
        match self {
            Line::Data(level, _, _) => level,
            Line::Ref(level, _, _, _) => level,
        }
    }
}

/// One recognized line of a document.
#[derive(Debug, Clone, PartialEq, Eq)]
pub enum GedLine {
    /// A data line: level, tag, content.
    Data(i32, String, Option<String>),
    /// A reference line: level, type code, number, content.
    Ref(i32, String, u64, Option<String>),
}

impl View for GedLine {
    type V = Line;

    open spec fn view(&self) -> Line {
        match *self {
            GedLine::Data(level, tag, content) => Line::Data(level, tag@, text(content)),
            GedLine::Ref(level, rtype, id, content) => Line::Ref(level, rtype@, id, text(content)),
        }
    }
}

impl GedLine {
    /// The nesting level that the line carries.
    pub fn level(&self) -> (level: i32)
        ensures
            level == self@.level(),
    {
        match self {
            GedLine::Data(level, _, _) => *level,
            GedLine::Ref(level, _, _, _) => *level,
        }
    }
}

} // verus!
