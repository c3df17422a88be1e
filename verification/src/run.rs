use vstd::prelude::*;
use crate::flags::Flags;
use crate::report::report_of;
use crate::stats::{Stats, Totals};

verus! {

/// Where a run stands.
#[derive(Clone, Copy, Debug, PartialEq, Eq, Structural)]
pub enum Phase {
    /// Nothing has been read yet.
    Idle,
    /// Lines are being taken in.
    Accumulating,
    /// The report has been handed out; the run is over.
    Reported,
    /// Reading failed; the run is over and reports nothing.
    Failed,
}

/// What the reader of the files tells a run.
pub enum Event {
    /// The next line, without its line terminator.
    Line(String),
    /// All lines of all files have been read.
    End,
    /// A file could not be opened or a line could not be read.
    Failure,
}

/// What a run asks of its caller.
pub enum Action {
    /// Read on.
    Next,
    /// Print these lines; the run is over.
    Print(Vec<String>),
    /// Stop without printing anything.
    Abort,
    /// Nothing: the run was over before.
    Done,
}

/// An event, by what it carries.
pub ghost enum Signal {
    Line(Seq<char>),
    End,
    Failure,
}

/// An action, by what it carries.
pub ghost enum Demand {
    Next,
    Print(Seq<Seq<char>>),
    Abort,
    Done,
}

impl View for Event {
    type V = Signal;

    open spec fn view(&self) -> Signal {
        match self {
            Event::Line(line) => Signal::Line(line@),
            Event::End => Signal::End,
            Event::Failure => Signal::Failure,
        }
    }
}

impl View for Action {
    type V = Demand;

    open spec fn view(&self) -> Demand {
        match self {
            Action::Next => Demand::Next,
            Action::Print(lines) => Demand::Print(lines.deep_view()),
            Action::Abort => Demand::Abort,
            Action::Done => Demand::Done,
        }
    }
}

/// A run, as numbers without bound.
pub ghost struct Course {
    pub flags: Flags,
    pub totals: Totals,
    pub phase: Phase,
}

impl Course {
    /// A run that has read nothing yet.
    pub open spec fn start(flags: Flags) -> Course {
        Course { flags, totals: Totals::fresh(), phase: Phase::Idle }
    }

    /// Whether the run is over.
    pub open spec fn over(self) -> bool {
        self.phase == Phase::Reported || self.phase == Phase::Failed
    }

    /// The run after `signal`. While it is not over, a line is taken in, the
    /// end of the input ends it with the report, and a failure ends it and
    /// throws away what was gathered. Once over, it stays as it is.
    pub open spec fn step(self, signal: Signal) -> Course {
        if self.over() {
            self
        } else {
            match signal {
                Signal::Line(line) => Course {
                    totals: self.totals.after(self.flags, line),
                    phase: Phase::Accumulating,
                    ..self
                },
                Signal::End => Course { phase: Phase::Reported, ..self },
                Signal::Failure => Course { totals: Totals::fresh(), phase: Phase::Failed, ..self },
            }
        }
    }

    /// What the run asks for on `signal`.
    pub open spec fn demand(self, signal: Signal) -> Demand {
        if self.over() {
            Demand::Done
        } else {
            match signal {
                Signal::Line(_) => Demand::Next,
                Signal::End => Demand::Print(report_of(self.totals, self.flags)),
                Signal::Failure => Demand::Abort,
            }
        }
    }

    /// Whether `signal` can be taken without a counter leaving the machine
    /// word.
    pub open spec fn has_room(self, signal: Signal) -> bool {
        match signal {
            Signal::Line(line) => self.over() || self.totals.has_room(self.flags, line),
            _ => true,
        }
    }

    /// The run after `signals`, taken one after the other.
    pub open spec fn steps(self, signals: Seq<Signal>) -> Course
        decreases signals.len(),
    {
        if signals.len() == 0 {
            self
        } else {
            self.steps(signals.drop_last()).step(signals.last())
        }
    }
}

/// A run that is over stays as it is, whatever comes: it takes in no further
/// line and asks for nothing.
pub proof fn lemma_over_is_final(course: Course, signals: Seq<Signal>)
    requires
        course.over(),
    ensures
        course.steps(signals) == course,
        forall|signal: Signal| #[trigger] course.demand(signal) == Demand::Done,
    decreases signals.len(),
{
    if signals.len() > 0 {
        lemma_over_is_final(course, signals.drop_last());
    }
}

/// A run that reads `lines` and then comes to the end of its input asks to
/// print the report of exactly those lines.
pub proof fn lemma_report_covers_all_lines(flags: Flags, lines: Seq<Seq<char>>)
    ensures
        ({
            let read = Course::start(flags).steps(lines.map_values(|line: Seq<char>| Signal::Line(line)));
            &&& !read.over()
            &&& read.flags == flags
            &&& read.totals == Totals::fresh().after_all(flags, lines)
            &&& read.demand(Signal::End) == Demand::Print(
                report_of(Totals::fresh().after_all(flags, lines), flags),
            )
            &&& read.step(Signal::End).phase == Phase::Reported
        }),
    decreases lines.len(),
{
    let signals = lines.map_values(|line: Seq<char>| Signal::Line(line));
    if lines.len() > 0 {
        lemma_report_covers_all_lines(flags, lines.drop_last());
        assert(signals.drop_last() =~= lines.drop_last().map_values(
            |line: Seq<char>| Signal::Line(line),
        ));
        assert(signals.last() == Signal::Line(lines.last()));
    }
}

/// A run that fails reports nothing, then or later.
pub proof fn lemma_failure_reports_nothing(course: Course, signals: Seq<Signal>, signal: Signal)
    ensures
        !(course.demand(Signal::Failure) is Print),
        !(course.step(Signal::Failure).steps(signals).demand(signal) is Print),
{
    let failed = course.step(Signal::Failure);
    if course.over() {
        lemma_over_is_final(course, signals);
    } else {
        lemma_over_is_final(failed, signals);
    }
}

/// One run over the input: it takes in the lines, then reports once.
pub struct Run {
    flags: Flags,
    stats: Stats,
    phase: Phase,
}

impl View for Run {
    type V = Course;

    closed spec fn view(&self) -> Course {
        Course { flags: self.flags, totals: self.stats@, phase: self.phase }
    }
}

impl Run {
    /// Whether the table of words is consistent.
    pub closed spec fn wf(&self) -> bool {
        self.stats.wf()
    }

    /// A run that gathers what `flags` selects and has read nothing yet.
    pub fn start(flags: Flags) -> (run: Run)
        ensures
            run.wf(),
            run@ == Course::start(flags),
    {
        Run { flags, stats: Stats::new(), phase: Phase::Idle }
    }

    /// Where the run stands.
    pub fn phase(&self) -> (phase: Phase)
        ensures
            phase == self@.phase,
    {
        self.phase
    }

    /// Whether `event` can be taken without a counter leaving the machine
    /// word.
    pub fn has_room(&self, event: &Event) -> (b: bool)
        requires
            self.wf(),
        ensures
            b == self@.has_room(event@),
    {
        match event {
            Event::Line(line) => match self.phase {
                Phase::Reported | Phase::Failed => true,
                _ => self.stats.has_room(line, &self.flags),
            },
            _ => true,
        }
    }

    /// Takes `event` and says what to do next.
    pub fn step(&mut self, event: Event) -> (action: Action)
        requires
            old(self).wf(),
            old(self)@.has_room(event@),
        ensures
            final(self).wf(),
            final(self)@ == old(self)@.step(event@),
            action@ == old(self)@.demand(event@),
    {
        match self.phase {
            Phase::Reported | Phase::Failed => Action::Done,
            _ => match event {
                Event::Line(line) => {
                    self.stats.accumulate(&line, &self.flags);
                    self.phase = Phase::Accumulating;
                    Action::Next
                },
                Event::End => {
                    let lines = self.stats.report(&self.flags);
                    self.phase = Phase::Reported;
                    Action::Print(lines)
                },
                Event::Failure => {
                    self.stats = Stats::new();
                    self.phase = Phase::Failed;
                    Action::Abort
                },
            },
        }
    }
}

} // verus!
