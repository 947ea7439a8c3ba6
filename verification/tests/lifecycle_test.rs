//! Tests of the telemetry lifecycle: building a pipeline and releasing the
//! guard exactly once.

use otel_util::lifecycle::{DefaultBatchOtelGuardFactory, DefaultSimpleOtelGuardFactory};

#[test]
fn simple_factory_builds_and_guard_releases_once() {
    // The collector endpoint is not reachable in this environment; the
    // pipeline still installs (the exporter connects lazily) and the guard
    // protocol is observable.
    let runtime = tokio::runtime::Builder::new_current_thread()
        .enable_all()
        .build()
        .expect("runtime must build");
    let _entered = runtime.enter();
    let factory = DefaultSimpleOtelGuardFactory::new(
        "grpc://localhost:4317",
        "succeed_otel_test",
        "non-deployment",
    )
    .with_deployment_environment("test");
    let mut guard = factory.build().expect("pipeline must install");
    assert!(!guard.is_released());
    guard.release();
    assert!(guard.is_released());
}

#[test]
fn batch_factory_constructs() {
    let _factory =
        DefaultBatchOtelGuardFactory::new("grpc://localhost:4317", "svc", "0.1.0")
            .with_deployment_environment("test");
}
