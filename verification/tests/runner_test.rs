//! Tests of the runner protocol: outcomes, guard release, and the scenario
//! bodies.

use otel_util::content::{lookup_entry, TraceContent};
use otel_util::model::{Attribute, Event, ResourceSpan, ScopeSpan, Span};
use otel_util::runner::{
    outcome_of, sample_add, sample_add_err, InstrumentedTestRunner, JoinOutcome, RunnerAction,
    RunnerConfig, RunnerEvent, RunnerState, TestOutcome,
};

/// Drive a whole run for a given join outcome; returns the reported outcome
/// and the number of release actions observed.
fn drive_run(join: JoinOutcome) -> (TestOutcome, usize) {
    let mut releases: usize = 0;
    let runner = InstrumentedTestRunner::new();
    let (runner, action) = runner.step(RunnerEvent::GuardAcquired);
    assert!(matches!(action, RunnerAction::SpawnBody));
    let (runner, action) = runner.step(RunnerEvent::BodyJoined(join));
    assert!(matches!(action, RunnerAction::WaitFlush));
    let (runner, action) = runner.step(RunnerEvent::FlushElapsed);
    let (runner, action) = match action {
        RunnerAction::ReleaseGuard => {
            releases += 1;
            (runner, action)
        }
        RunnerAction::LogFailureAndWait(_) => {
            // the failure path waits out one more flush interval
            let (runner, action) = runner.step(RunnerEvent::FlushElapsed);
            assert!(matches!(action, RunnerAction::ReleaseGuard));
            releases += 1;
            (runner, action)
        }
        _ => panic!("unexpected action after flush"),
    };
    let _ = action;
    let (runner, action) = runner.step(RunnerEvent::GuardReleased);
    let outcome = match action {
        RunnerAction::Report(o) => o,
        _ => panic!("expected a report"),
    };
    assert!(matches!(runner.state, RunnerState::Done(_)));
    (outcome, releases)
}

#[test]
fn successful_body_reports_success_and_releases_once() {
    // Scenario: the body sleeps, computes 10 + 20, and checks the sum.
    let runtime = tokio::runtime::Builder::new_current_thread()
        .enable_all()
        .build()
        .expect("runtime must build");
    runtime.block_on(async {
        tokio::time::sleep(tokio::time::Duration::from_millis(10)).await;
    });
    let a: u64 = 10;
    let b: u64 = 20;
    let c = sample_add(a, b).unwrap_or(0);
    assert_eq!(a + b, c);
    assert_eq!(c, 30);
    let join = if c == a + b { JoinOutcome::Completed } else {
        JoinOutcome::Aborted("sum mismatch".to_string())
    };
    let (outcome, releases) = drive_run(join);
    assert!(matches!(outcome, TestOutcome::Success));
    assert_eq!(releases, 1);
}

#[test]
fn erring_body_reports_abnormal_and_releases_once() {
    // Scenario: the body calls a function that always fails and does not
    // handle the error, so its own assertion terminates it abnormally.
    let a: u64 = 10;
    let b: u64 = 20;
    let c = sample_add_err(a, b).unwrap_or(0);
    assert_eq!(c, 0);
    let join = if c == a + b { JoinOutcome::Completed } else {
        JoinOutcome::Aborted("assertion failed: a + b == c".to_string())
    };
    let (outcome, releases) = drive_run(join);
    match outcome {
        TestOutcome::Abnormal(m) => assert_eq!(m, "assertion failed: a + b == c"),
        _ => panic!("expected an abnormal outcome"),
    }
    assert_eq!(releases, 1);
}

#[test]
fn body_error_value_reports_body_error() {
    let err = sample_add_err(1, 2).expect_err("always fails");
    assert_eq!(err, "some error at sample_add_err");
    let (outcome, releases) = drive_run(JoinOutcome::BodyFailed(err));
    match outcome {
        TestOutcome::BodyError(m) => assert_eq!(m, "some error at sample_add_err"),
        _ => panic!("expected a body error"),
    }
    assert_eq!(releases, 1);
}

#[test]
fn failed_initialization_aborts_without_release() {
    let runner = InstrumentedTestRunner::new();
    let (runner, action) =
        runner.step(RunnerEvent::GuardFailed("exporter unreachable".to_string()));
    match action {
        RunnerAction::Abort(m) => assert_eq!(m, "exporter unreachable"),
        _ => panic!("expected an abort"),
    }
    assert!(matches!(runner.state, RunnerState::Failed(_)));
}

#[test]
fn outcome_mapping_is_exact() {
    assert!(matches!(outcome_of(JoinOutcome::Completed), TestOutcome::Success));
    assert!(matches!(
        outcome_of(JoinOutcome::BodyFailed("e".to_string())),
        TestOutcome::BodyError(m) if m == "e"
    ));
    assert!(matches!(
        outcome_of(JoinOutcome::Aborted("p".to_string())),
        TestOutcome::Abnormal(m) if m == "p"
    ));
}

#[test]
fn failure_flag_drives_resignalling() {
    assert!(!TestOutcome::Success.is_failure());
    assert!(TestOutcome::BodyError("e".to_string()).is_failure());
    assert!(TestOutcome::Abnormal("p".to_string()).is_failure());
}

#[test]
fn runner_config_defaults_the_endpoint() {
    let cfg = RunnerConfig::new("failed_otel_test", None);
    assert_eq!(cfg.endpoint, "grpc://localhost:4317");
    assert_eq!(cfg.test_name, "failed_otel_test");
    let cfg = RunnerConfig::new("t", Some("grpc://collector:4317"));
    assert_eq!(cfg.endpoint, "grpc://collector:4317");
}

/// The export a failing run is expected to produce: a successful run's shape
/// plus an error-status span with an exception event.
fn abnormal_export() -> TraceContent {
    TraceContent {
        trace: vec![ResourceSpan {
            attributes: vec![Attribute {
                key: "service.name".to_string(),
                value: "failed_otel_test".to_string(),
            }],
            scope_spans: vec![ScopeSpan {
                spans: vec![Span {
                    name: "sample_add_err".to_string(),
                    status_code: 2,
                    events: vec![Event {
                        name: "exception".to_string(),
                        attributes: vec![Attribute {
                            key: "exception.message".to_string(),
                            value: "some error at sample_add_err".to_string(),
                        }],
                    }],
                }],
            }],
        }],
    }
}

#[test]
fn abnormal_export_shows_error_status_and_exception() {
    let content = abnormal_export();
    assert!(content.status_count(2) >= 1);
    let excs = content.get_span_event_exceptions();
    let msgs = lookup_entry(&excs, "sample_add_err").expect("span recorded");
    assert!(msgs.iter().any(|m| !m.is_empty()));
}

#[test]
fn successful_export_has_no_error_status() {
    let content = TraceContent {
        trace: vec![ResourceSpan {
            attributes: Vec::new(),
            scope_spans: vec![ScopeSpan {
                spans: vec![Span {
                    name: "sample_add".to_string(),
                    status_code: 0,
                    events: Vec::new(),
                }],
            }],
        }],
    };
    assert_eq!(content.status_count(2), 0);
    let names = content.get_span_names();
    assert!(names.iter().any(|n| n == "sample_add"));
    let events = content.get_span_event_names();
    let evs = lookup_entry(&events, "sample_add").expect("span recorded");
    assert!(evs.is_empty());
}
