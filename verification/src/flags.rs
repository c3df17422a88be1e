use vstd::prelude::*;

verus! {

/// Which statistics a run gathers: one switch for each counter, and the
/// number of most frequent words to rank, if any.
#[derive(Clone, Copy, Debug, PartialEq, Eq)]
pub struct Flags {
    pub lines: bool,
    pub words: bool,
    pub chars: bool,
    pub bytes: bool,
    pub top: Option<usize>,
}

impl Flags {
    /// The selection with nothing switched on.
    pub open spec fn none() -> Flags {
        Flags { lines: false, words: false, chars: false, bytes: false, top: None }
    }

    /// The selection that applies when the caller asked for nothing: lines,
    /// words and characters.
    pub open spec fn standard() -> Flags {
        Flags { lines: true, words: true, chars: true, bytes: false, top: None }
    }

    /// Switches nothing on.
    pub fn new() -> (flags: Flags)
        ensures
            flags == Flags::none(),
    {
        Flags { lines: false, words: false, chars: false, bytes: false, top: None }
    }

    /// Switches on what applies when the caller asked for nothing.
    pub fn default() -> (flags: Flags)
        ensures
            flags == Flags::standard(),
    {
        Flags { lines: true, words: true, chars: true, bytes: false, top: None }
    }
}

} // verus!
