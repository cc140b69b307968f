//! The schedule of a benchmark run.
//!
//! A run alternates work that only the driving program can do (writing to
//! the sink, reading the clock) with decisions about what comes next. The
//! decisions live here: the driver performs the [`Action`] it is handed and
//! reports back with an [`Event`]; [`Run::step`] answers with the next action.
//!
//! Write and flush failures are not events. The driver swallows them and
//! reports the pass as done: a run favours going on measuring over noticing
//! a failed write.

use vstd::prelude::*;

use crate::bench::recorded;
use crate::bench::Results;

verus! {

/// One thing to do to the output sink or to the clock.
#[derive(Clone, Copy, Debug, PartialEq, Eq, Structural)]
pub enum SinkOp {
    /// Write the full-reset control sequence.
    Reset,
    /// Flush the sink.
    Flush,
    /// Write the setup bytes of the benchmark.
    Setup,
    /// Start measuring.
    StartClock,
    /// Write the body of the benchmark.
    Body,
    /// Stop measuring; the elapsed time is the duration of the pass.
    StopClock,
}

/// The full-reset control sequence: `ESC c`.
pub open spec fn reset_sequence() -> Seq<u8> {
    seq![0x1bu8, 0x63u8]
}

/// The operations of one pass, in order. The terminal is reset and the
/// reset flushed, the setup bytes go out unmeasured, and the clock runs
/// for exactly the write of the body and the flush that drains it.
pub open spec fn pass_ops() -> Seq<SinkOp> {
    seq![
        SinkOp::Reset,
        SinkOp::Flush,
        SinkOp::Setup,
        SinkOp::StartClock,
        SinkOp::Body,
        SinkOp::Flush,
        SinkOp::StopClock,
    ]
}

/// The operations that end a run: one last reset, flushed.
pub open spec fn closing_ops() -> Seq<SinkOp> {
    seq![SinkOp::Reset, SinkOp::Flush]
}

/// Where a run stands.
#[derive(Clone, Copy, Debug, PartialEq, Eq, Structural)]
pub enum Phase {
    /// A warmup pass is under way.
    Warmup,
    /// The warmup is over and the deadline is being set.
    Arming,
    /// The clock is being read to see whether the deadline has passed.
    Polling,
    /// A measured pass is under way.
    Timing,
    /// No pass will follow.
    Done,
}

/// What the driver is to do next.
#[derive(Clone, Copy, Debug, PartialEq, Eq, Structural)]
pub enum Action {
    /// Perform one pass and report its duration.
    Pass,
    /// Set the deadline to `secs` seconds from now.
    ArmDeadline { secs: u64 },
    /// Report whether the deadline has passed.
    CheckDeadline,
    /// Perform the closing operations; the run is over.
    Finish,
}

/// The sink and clock operations that carry out `action`, in order.
pub open spec fn ops_of(action: Action) -> Seq<SinkOp> {
    match action {
        Action::Pass => pass_ops(),
        Action::Finish => closing_ops(),
        _ => Seq::empty(),
    }
}

/// The operations of one pass as a vector.
pub fn pass() -> (ops: Vec<SinkOp>)
    ensures
        ops@ == pass_ops(),
{
    let mut ops: Vec<SinkOp> = Vec::new();
    ops.push(SinkOp::Reset);
    ops.push(SinkOp::Flush);
    ops.push(SinkOp::Setup);
    ops.push(SinkOp::StartClock);
    ops.push(SinkOp::Body);
    ops.push(SinkOp::Flush);
    ops.push(SinkOp::StopClock);
    ops
}

impl Action {
    /// The sink and clock operations that carry out this action, in order.
    /// Setting and polling the deadline touch neither.
    pub fn ops(&self) -> (ops: Vec<SinkOp>)
        ensures
            ops@ == ops_of(*self),
    {
        match self {
            Action::Pass => pass(),
            Action::Finish => {
                let mut ops: Vec<SinkOp> = Vec::new();
                ops.push(SinkOp::Reset);
                ops.push(SinkOp::Flush);
                ops
            },
            _ => Vec::new(),
        }
    }
}

/// What the driver reports back.
#[derive(Clone, Copy, Debug, PartialEq, Eq, Structural)]
pub enum Event {
    /// A pass is done and took `millis` whole milliseconds.
    PassDone { millis: u128 },
    /// The deadline is set.
    Armed,
    /// The clock was read: `expired` tells whether the deadline has passed.
    Deadline { expired: bool },
}

/// Mathematical content of a [`Run`].
pub struct RunView {
    /// Where the run stands.
    pub phase: Phase,
    /// Warmup passes still to come, the one under way included.
    pub warmup_left: nat,
    /// Most samples the run may record.
    pub max_samples: nat,
    /// Seconds the measured passes may take altogether.
    pub max_secs: u64,
    /// Durations of the measured passes so far, in the order measured.
    pub samples: Seq<usize>,
    /// Name of the benchmark.
    pub name: Seq<char>,
    /// Number of bytes in one pass of the benchmark.
    pub bench_size: usize,
}

/// The sample that a pass of `millis` milliseconds leaves.
pub open spec fn sample_of(millis: u128) -> usize {
    millis as usize
}

/// The action that the driver owes in `phase`.
pub open spec fn pending(phase: Phase, max_secs: u64) -> Action {
    match phase {
        Phase::Warmup => Action::Pass,
        Phase::Arming => Action::ArmDeadline { secs: max_secs },
        Phase::Polling => Action::CheckDeadline,
        Phase::Timing => Action::Pass,
        Phase::Done => Action::Finish,
    }
}

/// The phase in which measuring starts or goes on: the deadline is polled
/// before each measured pass while samples are still wanted, and the run is
/// over once they are not.
pub open spec fn measure_or_stop(run: RunView) -> Phase {
    if run.samples.len() < run.max_samples {
        Phase::Polling
    } else {
        Phase::Done
    }
}

/// The state a run starts in.
pub open spec fn start_of(
    name: Seq<char>,
    bench_size: usize,
    warmup_runs: usize,
    max_secs: u64,
    max_samples: Option<usize>,
) -> RunView {
    RunView {
        phase: if warmup_runs > 0 {
            Phase::Warmup
        } else {
            Phase::Arming
        },
        warmup_left: warmup_runs as nat,
        max_samples: match max_samples {
            Some(n) => n as nat,
            None => usize::MAX as nat,
        },
        max_secs,
        samples: Seq::empty(),
        name,
        bench_size,
    }
}

/// The state that follows `run` on `event`. An event that does not answer
/// the pending action changes nothing.
pub open spec fn next_of(run: RunView, event: Event) -> RunView {
    match (run.phase, event) {
        (Phase::Warmup, Event::PassDone { millis }) => if run.warmup_left > 1 {
            RunView { warmup_left: (run.warmup_left - 1) as nat, ..run }
        } else {
            RunView { warmup_left: 0, phase: Phase::Arming, ..run }
        },
        (Phase::Arming, Event::Armed) => RunView { phase: measure_or_stop(run), ..run },
        (Phase::Polling, Event::Deadline { expired }) => if expired {
            RunView { phase: Phase::Done, ..run }
        } else {
            RunView { phase: Phase::Timing, ..run }
        },
        (Phase::Timing, Event::PassDone { millis }) => {
            let measured = RunView { samples: run.samples.push(sample_of(millis)), ..run };
            RunView { phase: measure_or_stop(measured), ..measured }
        },
        _ => run,
    }
}

/// A state that a run can be in: it never holds more samples than it may
/// record, and it measures only while one more is wanted.
pub open spec fn consistent(run: RunView) -> bool {
    &&& run.samples.len() <= run.max_samples
    &&& run.max_samples <= usize::MAX
    &&& run.warmup_left <= usize::MAX
    &&& run.phase == Phase::Warmup ==> run.warmup_left >= 1 && run.samples.len() == 0
    &&& (run.phase == Phase::Polling || run.phase == Phase::Timing) ==> run.samples.len()
        < run.max_samples
}

/// Every run starts consistent and every event keeps it so; the samples
/// only ever grow, by the one pass that was measured, and a warmup pass
/// leaves none.
pub proof fn lemma_next_keeps_consistent(run: RunView, event: Event)
    requires
        consistent(run),
    ensures
        consistent(next_of(run, event)),
        match (run.phase, event) {
            (Phase::Timing, Event::PassDone { millis }) => next_of(run, event).samples
                == run.samples.push(sample_of(millis)),
            _ => next_of(run, event).samples == run.samples,
        },
        run.phase == Phase::Warmup ==> next_of(run, event).samples == run.samples,
        next_of(run, event).max_samples == run.max_samples,
        next_of(run, event).name == run.name,
        next_of(run, event).bench_size == run.bench_size,
{
}

/// A benchmark run in progress.
pub struct Run {
    phase: Phase,
    warmup_left: usize,
    max_samples: usize,
    max_secs: u64,
    samples: Vec<usize>,
    name: String,
    bench_size: usize,
}

impl View for Run {
    type V = RunView;

    closed spec fn view(&self) -> RunView {
        RunView {
            phase: self.phase,
            warmup_left: self.warmup_left as nat,
            max_samples: self.max_samples as nat,
            max_secs: self.max_secs,
            samples: self.samples@,
            name: self.name@,
            bench_size: self.bench_size,
        }
    }
}

impl Run {
    #[verifier::type_invariant]
    spec fn well_formed(&self) -> bool {
        consistent(self@)
    }

    /// Start a run of `warmup_runs` unmeasured passes followed by at most
    /// `max_samples` measured ones within `max_secs` seconds.
    pub fn new(
        name: String,
        bench_size: usize,
        warmup_runs: usize,
        max_secs: u64,
        max_samples: Option<usize>,
    ) -> (started: (Self, Action))
        ensures
            started.0@ == start_of(name@, bench_size, warmup_runs, max_secs, max_samples),
            started.1 == pending(started.0@.phase, max_secs),
            consistent(started.0@),
    {
        let phase = if warmup_runs > 0 {
            Phase::Warmup
        } else {
            Phase::Arming
        };
        let max_samples = match max_samples {
            Some(n) => n,
            None => usize::MAX,
        };
        let run = Run {
            phase,
            warmup_left: warmup_runs,
            max_samples,
            max_secs,
            samples: Vec::new(),
            name,
            bench_size,
        };
        let action = run.action();
        (run, action)
    }

    /// The action that the driver owes.
    pub fn action(&self) -> (action: Action)
        ensures
            action == pending(self@.phase, self@.max_secs),
    {
        match self.phase {
            Phase::Warmup => Action::Pass,
            Phase::Arming => Action::ArmDeadline { secs: self.max_secs },
            Phase::Polling => Action::CheckDeadline,
            Phase::Timing => Action::Pass,
            Phase::Done => Action::Finish,
        }
    }

    /// Take in what the driver reports and decide what it is to do next.
    pub fn step(self, event: Event) -> (next: (Self, Action))
        ensures
            next.0@ == next_of(self@, event),
            next.1 == pending(next.0@.phase, next.0@.max_secs),
            consistent(next.0@),
    {
        proof {
            use_type_invariant(&self);
            lemma_next_keeps_consistent(self@, event);
        }
        let Run { phase, warmup_left, max_samples, max_secs, samples, name, bench_size } = self;
        let mut samples = samples;
        let mut warmup_left = warmup_left;
        let phase = match (phase, event) {
            (Phase::Warmup, Event::PassDone { millis }) => {
                if warmup_left > 1 {
                    warmup_left = warmup_left - 1;
                    Phase::Warmup
                } else {
                    warmup_left = 0;
                    Phase::Arming
                }
            },
            (Phase::Arming, Event::Armed) => {
                if samples.len() < max_samples {
                    Phase::Polling
                } else {
                    Phase::Done
                }
            },
            (Phase::Polling, Event::Deadline { expired }) => {
                if expired {
                    Phase::Done
                } else {
                    Phase::Timing
                }
            },
            (Phase::Timing, Event::PassDone { millis }) => {
                samples.push(
                    #[verifier::truncate]
                    (millis as usize),
                );
                if samples.len() < max_samples {
                    Phase::Polling
                } else {
                    Phase::Done
                }
            },
            (phase, _) => phase,
        };
        let run = Run { phase, warmup_left, max_samples, max_secs, samples, name, bench_size };
        let action = run.action();
        (run, action)
    }

    /// Whether no pass will follow.
    pub fn is_done(&self) -> (done: bool)
        ensures
            done == (self@.phase == Phase::Done),
    {
        match self.phase {
            Phase::Done => true,
            _ => false,
        }
    }

    /// The results of the run: the durations measured so far, or the single
    /// sample 0 where no pass was measured.
    pub fn finish(self) -> (results: Results)
        ensures
            results@.name == self@.name,
            results@.bench_size == self@.bench_size,
            results@.samples == recorded(self@.samples),
    {
        Results::new(self.name, self.bench_size, self.samples)
    }
}

} // verus!
