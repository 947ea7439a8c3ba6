//! The instrumented test runner, as a protocol.
//!
//! Running a body under telemetry means: acquire the pipeline guard, spawn
//! the body as an isolated unit of work, observe its typed join outcome,
//! wait out the flush interval (twice on failure, after logging it), release
//! the guard, and only then report.  The embedding binary performs those
//! actions — spawning, sleeping, releasing — and feeds the resulting events
//! back; this module decides every transition and proves the protocol's
//! guarantees: the guard is released exactly once on every completed run,
//! never when initialization failed, always after a flush wait, and the
//! reported outcome is exactly what the join outcome dictates.

use vstd::prelude::*;

verus! {

/// What the isolated unit of work's join reported.
pub enum JoinOutcome {
    /// The body ran to completion.
    Completed,
    /// The body returned an error value.
    BodyFailed(String),
    /// The body terminated abnormally (it did not return at all).
    Aborted(String),
}

/// The outcome of one instrumented test run.
pub enum TestOutcome {
    Success,
    BodyError(String),
    Abnormal(String),
}

/// The outcome a join outcome dictates.
pub open spec fn spec_outcome_of(j: JoinOutcome) -> TestOutcome {
    match j {
        JoinOutcome::Completed => TestOutcome::Success,
        JoinOutcome::BodyFailed(m) => TestOutcome::BodyError(m),
        JoinOutcome::Aborted(m) => TestOutcome::Abnormal(m),
    }
}

/// Map a join outcome to the test outcome.
pub fn outcome_of(join: JoinOutcome) -> (r: TestOutcome)
    ensures
        r == spec_outcome_of(join),
{
    match join {
        JoinOutcome::Completed => TestOutcome::Success,
        JoinOutcome::BodyFailed(m) => TestOutcome::BodyError(m),
        JoinOutcome::Aborted(m) => TestOutcome::Abnormal(m),
    }
}

/// Where a run stands.
pub enum RunnerState {
    /// Before guard acquisition.
    Idle,
    /// The body is running in its own unit of work.
    Running,
    /// The body joined; waiting out the flush interval.
    Flushing(TestOutcome),
    /// A failure was logged; waiting out the additional flush interval.
    FlushingFailure(TestOutcome),
    /// Flushed; the guard must now be released.
    Releasing(TestOutcome),
    /// The run is over and reported.
    Done(TestOutcome),
    /// Initialization failed before the body could run; no guard exists.
    Failed(String),
}

/// What the embedding binary observed.
pub enum RunnerEvent {
    GuardAcquired,
    GuardFailed(String),
    BodyJoined(JoinOutcome),
    FlushElapsed,
    GuardReleased,
}

/// What the embedding binary must do next.
pub enum RunnerAction {
    /// Spawn the body as an isolated unit of work and await its join.
    SpawnBody,
    /// Sleep out one flush interval.
    WaitFlush,
    /// Log the failure through the tracing layer, then sleep out one more
    /// flush interval.
    LogFailureAndWait(String),
    /// Release the telemetry guard.
    ReleaseGuard,
    /// Report the outcome; a failing outcome is re-signalled to the host
    /// test framework.
    Report(TestOutcome),
    /// Abort: initialization failed, the body never ran.
    Abort(String),
}

/// The transition relation: `None` means the event is not acceptable in the
/// state.
pub open spec fn spec_step(s: RunnerState, e: RunnerEvent) -> Option<(RunnerState, RunnerAction)> {
    match (s, e) {
        (RunnerState::Idle, RunnerEvent::GuardAcquired) => Some(
            (RunnerState::Running, RunnerAction::SpawnBody),
        ),
        (RunnerState::Idle, RunnerEvent::GuardFailed(m)) => Some(
            (RunnerState::Failed(m), RunnerAction::Abort(m)),
        ),
        (RunnerState::Running, RunnerEvent::BodyJoined(j)) => Some(
            (RunnerState::Flushing(spec_outcome_of(j)), RunnerAction::WaitFlush),
        ),
        (RunnerState::Flushing(o), RunnerEvent::FlushElapsed) => match o {
            TestOutcome::Success => Some(
                (RunnerState::Releasing(TestOutcome::Success), RunnerAction::ReleaseGuard),
            ),
            TestOutcome::BodyError(m) => Some(
                (
                    RunnerState::FlushingFailure(TestOutcome::BodyError(m)),
                    RunnerAction::LogFailureAndWait(m),
                ),
            ),
            TestOutcome::Abnormal(m) => Some(
                (
                    RunnerState::FlushingFailure(TestOutcome::Abnormal(m)),
                    RunnerAction::LogFailureAndWait(m),
                ),
            ),
        },
        (RunnerState::FlushingFailure(o), RunnerEvent::FlushElapsed) => Some(
            (RunnerState::Releasing(o), RunnerAction::ReleaseGuard),
        ),
        (RunnerState::Releasing(o), RunnerEvent::GuardReleased) => Some(
            (RunnerState::Done(o), RunnerAction::Report(o)),
        ),
        _ => None,
    }
}

/// The runner: holds the protocol state between events.
pub struct InstrumentedTestRunner {
    pub state: RunnerState,
}

impl InstrumentedTestRunner {
    pub fn new() -> (r: Self)
        ensures
            r.state == RunnerState::Idle,
    {
        InstrumentedTestRunner { state: RunnerState::Idle }
    }

    /// Take one protocol step.  The caller drives the loop: it performs the
    /// returned action and feeds the resulting event back.
    pub fn step(self, event: RunnerEvent) -> (r: (Self, RunnerAction))
        requires
            spec_step(self.state, event) is Some,
        ensures
            spec_step(self.state, event) == Some((r.0.state, r.1)),
    {
        match (self.state, event) {
            (RunnerState::Idle, RunnerEvent::GuardAcquired) => (
                InstrumentedTestRunner { state: RunnerState::Running },
                RunnerAction::SpawnBody,
            ),
            (RunnerState::Idle, RunnerEvent::GuardFailed(m)) => (
                InstrumentedTestRunner { state: RunnerState::Failed(m.clone()) },
                RunnerAction::Abort(m),
            ),
            (RunnerState::Running, RunnerEvent::BodyJoined(j)) => (
                InstrumentedTestRunner { state: RunnerState::Flushing(outcome_of(j)) },
                RunnerAction::WaitFlush,
            ),
            (RunnerState::Flushing(o), RunnerEvent::FlushElapsed) => match o {
                TestOutcome::Success => (
                    InstrumentedTestRunner { state: RunnerState::Releasing(TestOutcome::Success) },
                    RunnerAction::ReleaseGuard,
                ),
                TestOutcome::BodyError(m) => (
                    InstrumentedTestRunner {
                        state: RunnerState::FlushingFailure(TestOutcome::BodyError(m.clone())),
                    },
                    RunnerAction::LogFailureAndWait(m),
                ),
                TestOutcome::Abnormal(m) => (
                    InstrumentedTestRunner {
                        state: RunnerState::FlushingFailure(TestOutcome::Abnormal(m.clone())),
                    },
                    RunnerAction::LogFailureAndWait(m),
                ),
            },
            (RunnerState::FlushingFailure(o), RunnerEvent::FlushElapsed) => (
                InstrumentedTestRunner { state: RunnerState::Releasing(o) },
                RunnerAction::ReleaseGuard,
            ),
            (RunnerState::Releasing(o), RunnerEvent::GuardReleased) => {
                let reported = o.clone_outcome();
                (
                    InstrumentedTestRunner { state: RunnerState::Done(o) },
                    RunnerAction::Report(reported),
                )
            },
            _ => vstd::pervasive::unreached(),
        }
    }
}

impl TestOutcome {
    /// A copy of this outcome.
    pub fn clone_outcome(&self) -> (r: TestOutcome)
        ensures
            r == *self,
    {
        match self {
            TestOutcome::Success => TestOutcome::Success,
            TestOutcome::BodyError(m) => TestOutcome::BodyError(m.clone()),
            TestOutcome::Abnormal(m) => TestOutcome::Abnormal(m.clone()),
        }
    }

    /// Whether the outcome must be re-signalled as a failing test.
    pub fn is_failure(&self) -> (r: bool)
        ensures
            r == !(self is Success),
    {
        match self {
            TestOutcome::Success => false,
            TestOutcome::BodyError(_) => true,
            TestOutcome::Abnormal(_) => true,
        }
    }
}

} // verus!

verus! {

/// Run the machine over a sequence of events, collecting the actions.
pub open spec fn run_steps(s: RunnerState, events: Seq<RunnerEvent>) -> Option<
    (RunnerState, Seq<RunnerAction>),
>
    decreases events.len(),
{
    if events.len() == 0 {
        Some((s, Seq::empty()))
    } else {
        match spec_step(s, events[0]) {
            None => None,
            Some((s1, a)) => match run_steps(s1, events.drop_first()) {
                None => None,
                Some((s2, acts)) => Some((s2, seq![a] + acts)),
            },
        }
    }
}

pub open spec fn count_releases(acts: Seq<RunnerAction>) -> int
    decreases acts.len(),
{
    if acts.len() == 0 {
        0
    } else {
        (if acts[0] is ReleaseGuard {
            1int
        } else {
            0int
        }) + count_releases(acts.drop_first())
    }
}

/// Flush waits performed so far: `WaitFlush`, and the additional wait inside
/// `LogFailureAndWait`.
pub open spec fn count_flush_waits(acts: Seq<RunnerAction>) -> int
    decreases acts.len(),
{
    if acts.len() == 0 {
        0
    } else {
        (if acts[0] is WaitFlush || acts[0] is LogFailureAndWait {
            1int
        } else {
            0int
        }) + count_flush_waits(acts.drop_first())
    }
}

/// How many release actions a state has emitted on the way to it.
pub open spec fn releases_emitted(s: RunnerState) -> int {
    match s {
        RunnerState::Releasing(_) => 1,
        RunnerState::Done(_) => 1,
        _ => 0,
    }
}

/// How many flush waits a state has emitted on the way to it.
pub open spec fn flushes_emitted(s: RunnerState) -> int {
    match s {
        RunnerState::Idle => 0,
        RunnerState::Running => 0,
        RunnerState::Failed(_) => 0,
        RunnerState::Flushing(_) => 1,
        RunnerState::FlushingFailure(o) => if o is Success {
            1
        } else {
            2
        },
        RunnerState::Releasing(o) => if o is Success {
            1
        } else {
            2
        },
        RunnerState::Done(o) => if o is Success {
            1
        } else {
            2
        },
    }
}

proof fn lemma_action_counts(s: RunnerState, events: Seq<RunnerEvent>)
    ensures
        run_steps(s, events) matches Some((s2, acts)) ==> count_releases(acts) == releases_emitted(
            s2,
        ) - releases_emitted(s) && count_flush_waits(acts) == flushes_emitted(s2)
            - flushes_emitted(s),
    decreases events.len(),
{
    if events.len() > 0 {
        match spec_step(s, events[0]) {
            None => {},
            Some((s1, a)) => {
                assert((if a is ReleaseGuard {
                    1int
                } else {
                    0int
                }) == releases_emitted(s1) - releases_emitted(s));
                assert((if a is WaitFlush || a is LogFailureAndWait {
                    1int
                } else {
                    0int
                }) == flushes_emitted(s1) - flushes_emitted(s));
                lemma_action_counts(s1, events.drop_first());
                match run_steps(s1, events.drop_first()) {
                    None => {},
                    Some((s2, acts)) => {
                        assert((seq![a] + acts)[0] == a);
                        assert((seq![a] + acts).drop_first() =~= acts);
                        assert(count_releases(seq![a] + acts) == (if a is ReleaseGuard {
                            1int
                        } else {
                            0int
                        }) + count_releases(acts));
                        assert(count_flush_waits(seq![a] + acts) == (if a is WaitFlush
                            || a is LogFailureAndWait {
                            1int
                        } else {
                            0int
                        }) + count_flush_waits(acts));
                    },
                }
            },
        }
    }
}

/// For every run of the instrumented runner, exactly one guard release
/// occurs, regardless of outcome — and none when initialization failed and
/// no guard ever existed.  Every completed run also waited out the flush
/// interval at least once before the release, and twice when the run failed.
pub proof fn lemma_single_guard_release(events: Seq<RunnerEvent>)
    ensures
        run_steps(RunnerState::Idle, events) matches Some((s2, acts)) ==> {
            &&& (s2 is Done ==> count_releases(acts) == 1)
            &&& (s2 is Failed ==> count_releases(acts) == 0)
            &&& (s2 is Done ==> count_flush_waits(acts) >= 1)
            &&& ((s2 matches RunnerState::Done(o) && !(o is Success)) ==> count_flush_waits(acts)
                == 2)
        },
{
    lemma_action_counts(RunnerState::Idle, events);
}

/// The outcome a state carries, once the body has joined.
pub open spec fn state_outcome(s: RunnerState) -> Option<TestOutcome> {
    match s {
        RunnerState::Flushing(o) => Some(o),
        RunnerState::FlushingFailure(o) => Some(o),
        RunnerState::Releasing(o) => Some(o),
        RunnerState::Done(o) => Some(o),
        _ => None,
    }
}

/// Once the body has joined, the outcome never changes, and no further join
/// is accepted.
proof fn lemma_outcome_preserved(s: RunnerState, events: Seq<RunnerEvent>)
    requires
        state_outcome(s) is Some,
    ensures
        run_steps(s, events) matches Some((s2, acts)) ==> state_outcome(s2) == state_outcome(s)
            && (forall|k: int| 0 <= k < events.len() ==> !((#[trigger] events[k]) is BodyJoined)),
    decreases events.len(),
{
    if events.len() > 0 {
        match spec_step(s, events[0]) {
            None => {},
            Some((s1, a)) => {
                assert(state_outcome(s1) == state_outcome(s));
                assert(!(events[0] is BodyJoined));
                lemma_outcome_preserved(s1, events.drop_first());
                match run_steps(s1, events.drop_first()) {
                    None => {},
                    Some((s2, acts)) => {
                        assert(forall|k: int|
                            1 <= k < events.len() ==> events[k] == events.drop_first()[k - 1]);
                    },
                }
            },
        }
    }
}

/// After the body joins, the run's outcome is exactly what the join outcome
/// dictates.
proof fn lemma_outcome_follows_join(
    s: RunnerState,
    events: Seq<RunnerEvent>,
    i: int,
    j: JoinOutcome,
)
    requires
        0 <= i < events.len(),
        events[i] == RunnerEvent::BodyJoined(j),
        state_outcome(s) is None,
        run_steps(s, events) is Some,
    ensures
        run_steps(s, events) matches Some((s2, acts)) ==> state_outcome(s2) == Some(
            spec_outcome_of(j),
        ),
    decreases events.len(),
{
    match spec_step(s, events[0]) {
        None => {},
        Some((s1, a)) => {
            if i == 0 {
                assert(s is Running);
                assert(s1 == RunnerState::Flushing(spec_outcome_of(j)));
                lemma_outcome_preserved(s1, events.drop_first());
            } else {
                assert(events.drop_first()[i - 1] == events[i]);
                if state_outcome(s1) is None {
                    lemma_outcome_follows_join(s1, events.drop_first(), i - 1, j);
                } else {
                    lemma_outcome_preserved(s1, events.drop_first());
                    assert(run_steps(s1, events.drop_first()) is Some);
                    assert(!(events.drop_first()[i - 1] is BodyJoined));
                }
            }
        },
    }
}

/// A body that terminates abnormally always yields `TestOutcome::Abnormal`
/// with the termination message: every completed run whose join reported
/// `Aborted` ends `Done(Abnormal(..))`.
pub proof fn lemma_abnormal_body_reports_abnormal(
    events: Seq<RunnerEvent>,
    i: int,
    m: String,
)
    requires
        0 <= i < events.len(),
        events[i] == RunnerEvent::BodyJoined(JoinOutcome::Aborted(m)),
        run_steps(RunnerState::Idle, events) is Some,
    ensures
        run_steps(RunnerState::Idle, events) matches Some((s2, acts)) ==> (s2 is Done ==> s2
            == RunnerState::Done(TestOutcome::Abnormal(m))),
{
    lemma_outcome_follows_join(RunnerState::Idle, events, i, JoinOutcome::Aborted(m));
}

/// A body that completes normally always yields `TestOutcome::Success`:
/// every completed run whose join reported `Completed` ends
/// `Done(Success)`, so no failure is ever fabricated for a passing body.
pub proof fn lemma_completed_body_reports_success(events: Seq<RunnerEvent>, i: int)
    requires
        0 <= i < events.len(),
        events[i] == RunnerEvent::BodyJoined(JoinOutcome::Completed),
        run_steps(RunnerState::Idle, events) is Some,
    ensures
        run_steps(RunnerState::Idle, events) matches Some((s2, acts)) ==> (s2 is Done ==> s2
            == RunnerState::Done(TestOutcome::Success)),
{
    lemma_outcome_follows_join(RunnerState::Idle, events, i, JoinOutcome::Completed);
}

/// Scenario body helper: adds two numbers.
pub fn sample_add(a: u64, b: u64) -> (r: Result<u64, String>)
    requires
        a + b <= u64::MAX,
    ensures
        r == Ok::<u64, String>((a + b) as u64),
{
    Ok(a + b)
}

/// Scenario body helper: always fails with a fixed message and never
/// computes a sum.
pub fn sample_add_err(a: u64, b: u64) -> (r: Result<u64, String>)
    ensures
        r is Err,
        r matches Err(m) ==> m@ == "some error at sample_add_err"@,
{
    let _ = a;
    let _ = b;
    Err("some error at sample_add_err".to_owned())
}

/// Arguments of one instrumented test run; the collector endpoint defaults
/// when not given.
pub struct RunnerConfig {
    pub endpoint: String,
    pub test_name: String,
}

impl RunnerConfig {
    pub fn new(test_name: &str, endpoint: Option<&str>) -> (r: Self)
        ensures
            r.test_name@ == test_name@,
            endpoint matches Some(e) ==> r.endpoint@ == e@,
            endpoint is None ==> r.endpoint@ == "grpc://localhost:4317"@,
    {
        let ep: String = match endpoint {
            Some(e) => e.to_owned(),
            None => "grpc://localhost:4317".to_owned(),
        };
        RunnerConfig { endpoint: ep, test_name: test_name.to_owned() }
    }
}

} // verus!
