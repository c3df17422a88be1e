use vstd::prelude::*;
use vstd::string::StringExecFns;
use crate::decimal::{decimal, format_count};
use crate::flags::Flags;
use crate::ranking::WordCount;
use crate::stats::{Stats, Totals};
use crate::table::top_of;

verus! {

/// The line that reports a counter: its label, then the number.
pub open spec fn counter_line(label: Seq<char>, n: nat) -> Seq<char> {
    label + decimal(n)
}

/// The line that heads a ranking of `k` words.
pub open spec fn ranking_header(k: nat) -> Seq<char> {
    "Top "@ + decimal(k) + " words:"@
}

/// The line that reports a ranked word: its count, a space, the word.
pub open spec fn ranked_line(entry: (Seq<char>, nat)) -> Seq<char> {
    decimal(entry.1).push(' ') + entry.0
}

/// The lines that report the counters: one for each counter that `flags`
/// switches on, in the order lines, words, characters, bytes.
pub open spec fn counter_lines(totals: Totals, flags: Flags) -> Seq<Seq<char>> {
    (if flags.lines {
        seq![counter_line("Lines: "@, totals.lines)]
    } else {
        Seq::empty()
    }) + (if flags.words {
        seq![counter_line("Words: "@, totals.words)]
    } else {
        Seq::empty()
    }) + (if flags.chars {
        seq![counter_line("Chars: "@, totals.chars)]
    } else {
        Seq::empty()
    }) + (if flags.bytes {
        seq![counter_line("Bytes: "@, totals.bytes)]
    } else {
        Seq::empty()
    })
}

/// The lines that report a ranking: the header, then the ranked words, best
/// first.
pub open spec fn ranking_lines(k: nat, top: Seq<(Seq<char>, nat)>) -> Seq<Seq<char>> {
    seq![ranking_header(k)] + top.map_values(|entry: (Seq<char>, nat)| ranked_line(entry))
}

/// The whole report: the counters, then the ranking where one was asked for.
pub open spec fn report_of(totals: Totals, flags: Flags) -> Seq<Seq<char>> {
    counter_lines(totals, flags) + match flags.top {
        Some(k) => ranking_lines(k as nat, top_of(totals.top, k as nat)),
        None => Seq::empty(),
    }
}

/// Writes the line that reports a counter.
fn write_counter(label: &str, n: usize) -> (line: String)
    ensures
        line@ == counter_line(label@, n as nat),
{
    let mut line = label.to_owned();
    line.append(format_count(n).as_str());
    line
}

/// Writes the line that heads a ranking.
fn write_header(k: usize) -> (line: String)
    ensures
        line@ == ranking_header(k as nat),
{
    let mut line = write_counter("Top ", k);
    line.append(" words:");
    line
}

/// Writes the line that reports a ranked word.
fn write_ranked(entry: &WordCount) -> (line: String)
    ensures
        line@ == ranked_line(entry@),
{
    let mut line = format_count(entry.count);
    line.push(' ');
    line.append(entry.word.as_str());
    line
}

impl Stats {
    /// The lines of the report, in the order in which they are printed.
    pub fn report(&self, flags: &Flags) -> (lines: Vec<String>)
        requires
            self.wf(),
        ensures
            lines.deep_view() == report_of(self@, *flags),
    {
        let mut lines: Vec<String> = Vec::new();
        let ghost mut written: Seq<Seq<char>> = Seq::empty();
        assert(lines.deep_view() =~= written);
        if flags.lines {
            lines.push(write_counter("Lines: ", self.lines));
            proof {
                written = written.push(counter_line("Lines: "@, self@.lines));
            }
            assert(lines.deep_view() =~= written);
        }
        if flags.words {
            lines.push(write_counter("Words: ", self.words));
            proof {
                written = written.push(counter_line("Words: "@, self@.words));
            }
            assert(lines.deep_view() =~= written);
        }
        if flags.chars {
            lines.push(write_counter("Chars: ", self.chars));
            proof {
                written = written.push(counter_line("Chars: "@, self@.chars));
            }
            assert(lines.deep_view() =~= written);
        }
        if flags.bytes {
            lines.push(write_counter("Bytes: ", self.bytes));
            proof {
                written = written.push(counter_line("Bytes: "@, self@.bytes));
            }
            assert(lines.deep_view() =~= written);
        }
        assert(written =~= counter_lines(self@, *flags));
        match flags.top {
            None => {
                assert(written =~= report_of(self@, *flags));
            },
            Some(k) => {
                let top = self.top.select(k);
                let ghost ranked = top.deep_view();
                lines.push(write_header(k));
                proof {
                    written = written.push(ranking_header(k as nat));
                }
                assert(lines.deep_view() =~= written);
                let n = top.len();
                let mut i: usize = 0;
                while i < n
                    invariant
                        i <= n,
                        n == top.len(),
                        ranked == top.deep_view(),
                        lines.deep_view() == written,
                        written == counter_lines(self@, *flags) + ranking_lines(
                            k as nat,
                            ranked.take(i as int),
                        ),
                    decreases n - i,
                {
                    lines.push(write_ranked(&top[i]));
                    proof {
                        assert(top[i as int]@ == ranked[i as int]);
                        written = written.push(ranked_line(ranked[i as int]));
                        assert(written =~= counter_lines(self@, *flags) + ranking_lines(
                            k as nat,
                            ranked.take(i + 1),
                        ));
                    }
                    assert(lines.deep_view() =~= written);
                    i = i + 1;
                }
                assert(ranked.take(n as int) =~= ranked);
            },
        }
        lines
    }
}

} // verus!
