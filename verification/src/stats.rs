use vstd::prelude::*;
use vstd::string::StrSliceExecFns;
use vstd::utf8::encode_utf8;
use crate::flags::Flags;
use crate::table::{count_in, count_words, tally, tally_fits, FrequencyTable};
use crate::text::{get_words_count, lemma_chars_within_bytes, split_words};

verus! {

/// The running totals of a run, as numbers without bound.
pub ghost struct Totals {
    pub lines: nat,
    pub words: nat,
    pub chars: nat,
    pub bytes: nat,
    /// For every word seen, the number of times it occurred.
    pub top: Map<Seq<char>, nat>,
}

impl Totals {
    /// The totals before the first line.
    pub open spec fn fresh() -> Totals {
        Totals { lines: 0, words: 0, chars: 0, bytes: 0, top: Map::empty() }
    }

    /// The totals after one more line. Each counter that `flags` switches on
    /// grows by what the line holds: one line, its words, its characters
    /// (code points), the bytes of its UTF-8 form. The words are counted into
    /// the table where a ranking was asked for, even one of length zero. What
    /// is switched off stays as it is.
    pub open spec fn after(self, flags: Flags, line: Seq<char>) -> Totals {
        Totals {
            lines: if flags.lines {
                self.lines + 1
            } else {
                self.lines
            },
            words: if flags.words {
                self.words + split_words(line).len()
            } else {
                self.words
            },
            chars: if flags.chars {
                self.chars + line.len()
            } else {
                self.chars
            },
            bytes: if flags.bytes {
                self.bytes + encode_utf8(line).len()
            } else {
                self.bytes
            },
            top: if flags.top is Some {
                tally(self.top, split_words(line))
            } else {
                self.top
            },
        }
    }

    /// The totals after `lines`, taken one after the other.
    pub open spec fn after_all(self, flags: Flags, lines: Seq<Seq<char>>) -> Totals
        decreases lines.len(),
    {
        if lines.len() == 0 {
            self
        } else {
            self.after_all(flags, lines.drop_last()).after(flags, lines.last())
        }
    }

    /// Whether one more line keeps every counter that `flags` switches on,
    /// and every count of the table, within the machine word.
    pub open spec fn has_room(self, flags: Flags, line: Seq<char>) -> bool {
        &&& flags.lines ==> self.lines + 1 <= usize::MAX
        &&& flags.words ==> self.words + split_words(line).len() <= usize::MAX
        &&& flags.chars ==> self.chars + line.len() <= usize::MAX
        &&& flags.bytes ==> self.bytes + encode_utf8(line).len() <= usize::MAX
        &&& flags.top is Some ==> tally_fits(self.top, split_words(line))
    }
}

/// What is switched off is never touched: whatever the lines, a counter
/// whose switch is off keeps its value, and without a ranking the table
/// stays as it is.
pub proof fn lemma_switched_off_stays(totals: Totals, flags: Flags, lines: Seq<Seq<char>>)
    ensures
        !flags.lines ==> totals.after_all(flags, lines).lines == totals.lines,
        !flags.words ==> totals.after_all(flags, lines).words == totals.words,
        !flags.chars ==> totals.after_all(flags, lines).chars == totals.chars,
        !flags.bytes ==> totals.after_all(flags, lines).bytes == totals.bytes,
        flags.top is None ==> totals.after_all(flags, lines).top == totals.top,
    decreases lines.len(),
{
    if lines.len() > 0 {
        lemma_switched_off_stays(totals, flags, lines.drop_last());
    }
}

/// Without the switch for bytes the count of bytes of a run stays at zero,
/// whatever it reads.
pub proof fn lemma_unselected_bytes_stay_zero(flags: Flags, lines: Seq<Seq<char>>)
    requires
        !flags.bytes,
    ensures
        Totals::fresh().after_all(flags, lines).bytes == 0,
{
    lemma_switched_off_stays(Totals::fresh(), flags, lines);
}

/// No counter and no count ever falls.
pub proof fn lemma_totals_grow(totals: Totals, flags: Flags, line: Seq<char>)
    ensures
        totals.lines <= totals.after(flags, line).lines,
        totals.words <= totals.after(flags, line).words,
        totals.chars <= totals.after(flags, line).chars,
        totals.bytes <= totals.after(flags, line).bytes,
        forall|w: Seq<char>|
            count_in(totals.top, w) <= #[trigger] count_in(totals.after(flags, line).top, w),
{
}

/// Lines may be taken in one batch or in two: the totals after `first` and
/// then `second` are the totals after all of them.
pub proof fn lemma_batches_add_up(
    totals: Totals,
    flags: Flags,
    first: Seq<Seq<char>>,
    second: Seq<Seq<char>>,
)
    ensures
        totals.after_all(flags, first + second) == totals.after_all(flags, first).after_all(
            flags,
            second,
        ),
    decreases second.len(),
{
    if second.len() == 0 {
        assert(first + second =~= first);
    } else {
        lemma_batches_add_up(totals, flags, first, second.drop_last());
        assert((first + second).drop_last() =~= first + second.drop_last());
        assert((first + second).last() == second.last());
    }
}

/// The order of two lines does not matter.
pub proof fn lemma_lines_commute(totals: Totals, flags: Flags, a: Seq<char>, b: Seq<char>)
    ensures
        totals.after(flags, a).after(flags, b) == totals.after(flags, b).after(flags, a),
{
    let x = split_words(a);
    let y = split_words(b);
    assert(tally(tally(totals.top, x), y) =~= tally(tally(totals.top, y), x));
}

/// The statistics that a run gathers.
pub struct Stats {
    pub lines: usize,
    pub words: usize,
    pub chars: usize,
    pub bytes: usize,
    pub top: FrequencyTable,
}

impl View for Stats {
    type V = Totals;

    open spec fn view(&self) -> Totals {
        Totals {
            lines: self.lines as nat,
            words: self.words as nat,
            chars: self.chars as nat,
            bytes: self.bytes as nat,
            top: self.top@,
        }
    }
}

impl Stats {
    /// Whether the table of words is consistent.
    pub open spec fn wf(&self) -> bool {
        self.top.wf()
    }

    /// The statistics before the first line.
    pub fn new() -> (stats: Stats)
        ensures
            stats.wf(),
            stats@ == Totals::fresh(),
    {
        Stats { lines: 0, words: 0, chars: 0, bytes: 0, top: FrequencyTable::new() }
    }

    /// Whether `line` can be taken in without a counter leaving the machine
    /// word.
    pub fn has_room(&self, line: &String, flags: &Flags) -> (b: bool)
        requires
            self.wf(),
        ensures
            b == self@.has_room(*flags, line@),
    {
        if flags.lines && self.lines == usize::MAX {
            return false;
        }
        if flags.words && get_words_count(line) > usize::MAX - self.words {
            return false;
        }
        let bytes = line.as_str().as_bytes().len();
        if flags.bytes && bytes > usize::MAX - self.bytes {
            return false;
        }
        proof {
            lemma_chars_within_bytes(line@);
        }
        if flags.chars && line.as_str().unicode_len() > usize::MAX - self.chars {
            return false;
        }
        if flags.top.is_some() && !self.top.has_room(line) {
            return false;
        }
        true
    }

    /// Takes in one line.
    pub fn accumulate(&mut self, line: &String, flags: &Flags)
        requires
            old(self).wf(),
            old(self)@.has_room(*flags, line@),
        ensures
            final(self).wf(),
            final(self)@ == old(self)@.after(*flags, line@),
    {
        if flags.lines {
            self.lines = self.lines + 1;
        }
        if flags.words {
            self.words = self.words + get_words_count(line);
        }
        if flags.chars {
            self.chars = self.chars + line.as_str().unicode_len();
        }
        if flags.bytes {
            self.bytes = self.bytes + line.as_str().as_bytes().len();
        }
        if flags.top.is_some() {
            count_words(line, &mut self.top);
        }
    }
}

} // verus!
