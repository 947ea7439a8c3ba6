//! Telemetry lifecycle: building the tracer pipeline, installing the global
//! subscriber, and the guard whose release shuts the pipeline down.
//!
//! The pipeline itself belongs to the OpenTelemetry crates and is reached
//! through trusted wrappers; what this module guarantees is the lifecycle
//! protocol around it: a successful build hands out an active guard, and a
//! guard is released exactly once, explicitly, never implicitly dropped
//! mid-flush.
//!
//! The abnormal-termination hook (which logs a failure through the tracing
//! layer so crash diagnostics are exported) is installed by the embedding
//! binary before the first build, since installing a process-wide hook is
//! its responsibility.

use vstd::prelude::*;

use opentelemetry::KeyValue;
use opentelemetry_otlp::WithExportConfig;
use opentelemetry_semantic_conventions::resource::{
    DEPLOYMENT_ENVIRONMENT, SERVICE_NAME, SERVICE_VERSION,
};
use opentelemetry_semantic_conventions::SCHEMA_URL;
use tracing_subscriber::layer::SubscriberExt;
use tracing_subscriber::util::SubscriberInitExt;

verus! {

#[verifier::external_type_specification]
#[verifier::external_body]
pub struct ExTracer(opentelemetry_sdk::trace::Tracer);

#[verifier::external_type_specification]
#[verifier::external_body]
pub struct ExResource(opentelemetry_sdk::Resource);

/// The exporter pipeline could not be constructed.  Fatal: the test body
/// must not run.
#[derive(Debug)]
pub struct InitializationError {
    pub message: String,
}

/// Relies on `opentelemetry::global::set_text_map_propagator` with the SDK's
/// W3C `TraceContextPropagator`: registers the process-wide propagator.
#[verifier::external_body]
fn register_trace_context_propagator() {
    opentelemetry::global::set_text_map_propagator(
        opentelemetry_sdk::propagation::TraceContextPropagator::new(),
    );
}

/// Relies on `Resource::from_schema_url`: a resource carrying exactly the
/// service name, service version and deployment environment attributes.
#[verifier::external_body]
fn make_resource(service_name: &str, version: &str, deployment_env: &str) -> (r:
    opentelemetry_sdk::Resource)
{
    opentelemetry_sdk::Resource::from_schema_url(
        [
            KeyValue::new(SERVICE_NAME, service_name.to_string()),
            KeyValue::new(SERVICE_VERSION, version.to_string()),
            KeyValue::new(DEPLOYMENT_ENVIRONMENT, deployment_env.to_string()),
        ],
        SCHEMA_URL,
    )
}

/// Relies on `opentelemetry_otlp`'s pipeline builder with the tonic
/// exporter: builds a tracer bound to the endpoint and installs it as a
/// synchronous (simple) pipeline; errors become their display text.
#[verifier::external_body]
fn install_simple_tracer(endpoint: &str, resource: opentelemetry_sdk::Resource) -> (r: Result<
    opentelemetry_sdk::trace::Tracer,
    String,
>) {
    opentelemetry_otlp::new_pipeline().tracing().with_trace_config(
        opentelemetry_sdk::trace::Config::default().with_sampler(
            opentelemetry_sdk::trace::Sampler::ParentBased(
                Box::new(opentelemetry_sdk::trace::Sampler::AlwaysOn),
            ),
        ).with_id_generator(opentelemetry_sdk::trace::RandomIdGenerator::default()).with_resource(
            resource,
        ),
    ).with_exporter(
        opentelemetry_otlp::new_exporter().tonic().with_endpoint(endpoint),
    ).install_simple().map_err(|e| e.to_string())
}

/// Relies on `opentelemetry_otlp`'s pipeline builder with the tonic
/// exporter: as `install_simple_tracer`, but installs a batching pipeline on
/// the ambient Tokio runtime.
#[verifier::external_body]
fn install_batch_tracer(endpoint: &str, resource: opentelemetry_sdk::Resource) -> (r: Result<
    opentelemetry_sdk::trace::Tracer,
    String,
>) {
    opentelemetry_otlp::new_pipeline().tracing().with_trace_config(
        opentelemetry_sdk::trace::Config::default().with_sampler(
            opentelemetry_sdk::trace::Sampler::ParentBased(
                Box::new(opentelemetry_sdk::trace::Sampler::AlwaysOn),
            ),
        ).with_id_generator(opentelemetry_sdk::trace::RandomIdGenerator::default()).with_resource(
            resource,
        ),
    ).with_batch_config(opentelemetry_sdk::trace::BatchConfig::default()).with_exporter(
        opentelemetry_otlp::new_exporter().tonic().with_endpoint(endpoint),
    ).install_batch(opentelemetry_sdk::runtime::Tokio).map_err(|e| e.to_string())
}

/// Relies on `tracing_subscriber::registry` and
/// `tracing_opentelemetry::OpenTelemetryLayer`: installs the global
/// subscriber (INFO filter, console layer, OpenTelemetry layer); returns
/// whether this call installed it, `false` when one was already registered
/// (later calls degrade to a no-op rather than failing).
#[verifier::external_body]
fn install_otel_subscriber(tracer: opentelemetry_sdk::trace::Tracer) -> (installed: bool) {
    let subscriber = tracing_subscriber::registry().with(
        tracing_subscriber::filter::LevelFilter::from_level(tracing_core::Level::INFO),
    ).with(tracing_subscriber::fmt::layer()).with(
        tracing_opentelemetry::OpenTelemetryLayer::new(tracer),
    );
    subscriber.try_init().is_ok()
}

/// Relies on `opentelemetry::global::shutdown_tracer_provider`: flushes and
/// shuts down the installed tracer provider.
#[verifier::external_body]
fn shutdown_tracer_provider() {
    opentelemetry::global::shutdown_tracer_provider();
}

/// Scoped handle for the telemetry pipeline.  Active on creation; releasing
/// it shuts the pipeline down.  The contract of `release` makes a second
/// release impossible.
pub struct OtelGuard {
    released: bool,
}

impl OtelGuard {
    pub closed spec fn is_active(&self) -> bool {
        !self.released
    }

    /// Shut the pipeline down.  Exactly once per guard: the precondition
    /// rules a second release out.
    pub fn release(&mut self)
        requires
            old(self).is_active(),
        ensures
            !final(self).is_active(),
    {
        shutdown_tracer_provider();
        self.released = true;
    }

    pub fn is_released(&self) -> (r: bool)
        ensures
            r == !self.is_active(),
    {
        self.released
    }
}

/// Install the OTLP-backed global subscriber for an installed tracer and
/// hand out the pipeline guard.  The first call in a process registers the
/// subscriber; later calls observe that one is already registered and
/// proceed without re-installing.
pub fn init_otlp_subscribers(tracer: opentelemetry_sdk::trace::Tracer) -> (r: OtelGuard)
    ensures
        r.is_active(),
{
    let _installed_now = install_otel_subscriber(tracer);
    OtelGuard { released: false }
}

/// Builds batching pipelines bound to one collector endpoint and service
/// identity.
pub struct DefaultBatchOtelGuardFactory {
    collector_endpoint: String,
    service_name: String,
    version: String,
    deployment_environment: String,
}

impl DefaultBatchOtelGuardFactory {
    pub closed spec fn spec_endpoint(&self) -> Seq<char> {
        self.collector_endpoint@
    }

    pub closed spec fn spec_service_name(&self) -> Seq<char> {
        self.service_name@
    }

    pub closed spec fn spec_version(&self) -> Seq<char> {
        self.version@
    }

    pub closed spec fn spec_environment(&self) -> Seq<char> {
        self.deployment_environment@
    }

    /// The deployment environment defaults to "unknown" until the embedding
    /// binary supplies the real one.
    pub fn new(collector_endpoint: &str, service_name: &str, version: &str) -> (r: Self)
        ensures
            r.spec_endpoint() == collector_endpoint@,
            r.spec_service_name() == service_name@,
            r.spec_version() == version@,
            r.spec_environment() == "unknown"@,
    {
        DefaultBatchOtelGuardFactory {
            collector_endpoint: collector_endpoint.to_owned(),
            service_name: service_name.to_owned(),
            version: version.to_owned(),
            deployment_environment: "unknown".to_owned(),
        }
    }

    /// The same factory with the given deployment environment.
    pub fn with_deployment_environment(self, env: &str) -> (r: Self)
        ensures
            r.spec_endpoint() == self.spec_endpoint(),
            r.spec_service_name() == self.spec_service_name(),
            r.spec_version() == self.spec_version(),
            r.spec_environment() == env@,
    {
        DefaultBatchOtelGuardFactory {
            collector_endpoint: self.collector_endpoint,
            service_name: self.service_name,
            version: self.version,
            deployment_environment: env.to_owned(),
        }
    }

    /// Register the propagator, install the batching pipeline and the global
    /// subscriber, and hand out the active guard.  Construction failure is
    /// fatal and never retried.
    pub fn build(&self) -> (r: Result<OtelGuard, InitializationError>)
        ensures
            r matches Ok(g) ==> g.is_active(),
    {
        register_trace_context_propagator();
        let resource = make_resource(
            self.service_name.as_str(),
            self.version.as_str(),
            self.deployment_environment.as_str(),
        );
        match install_batch_tracer(self.collector_endpoint.as_str(), resource) {
            Ok(tracer) => Ok(init_otlp_subscribers(tracer)),
            Err(message) => Err(InitializationError { message }),
        }
    }
}

/// Builds synchronous (simple) pipelines bound to one collector endpoint and
/// service identity.
pub struct DefaultSimpleOtelGuardFactory {
    collector_endpoint: String,
    service_name: String,
    version: String,
    deployment_environment: String,
}

impl DefaultSimpleOtelGuardFactory {
    pub closed spec fn spec_endpoint(&self) -> Seq<char> {
        self.collector_endpoint@
    }

    pub closed spec fn spec_service_name(&self) -> Seq<char> {
        self.service_name@
    }

    pub closed spec fn spec_version(&self) -> Seq<char> {
        self.version@
    }

    pub closed spec fn spec_environment(&self) -> Seq<char> {
        self.deployment_environment@
    }

    /// The deployment environment defaults to "unknown" until the embedding
    /// binary supplies the real one.
    pub fn new(collector_endpoint: &str, service_name: &str, version: &str) -> (r: Self)
        ensures
            r.spec_endpoint() == collector_endpoint@,
            r.spec_service_name() == service_name@,
            r.spec_version() == version@,
            r.spec_environment() == "unknown"@,
    {
        DefaultSimpleOtelGuardFactory {
            collector_endpoint: collector_endpoint.to_owned(),
            service_name: service_name.to_owned(),
            version: version.to_owned(),
            deployment_environment: "unknown".to_owned(),
        }
    }

    /// The same factory with the given deployment environment.
    pub fn with_deployment_environment(self, env: &str) -> (r: Self)
        ensures
            r.spec_endpoint() == self.spec_endpoint(),
            r.spec_service_name() == self.spec_service_name(),
            r.spec_version() == self.spec_version(),
            r.spec_environment() == env@,
    {
        DefaultSimpleOtelGuardFactory {
            collector_endpoint: self.collector_endpoint,
            service_name: self.service_name,
            version: self.version,
            deployment_environment: env.to_owned(),
        }
    }

    /// Register the propagator, install the simple pipeline and the global
    /// subscriber, and hand out the active guard.  Construction failure is
    /// fatal and never retried.
    pub fn build(&self) -> (r: Result<OtelGuard, InitializationError>)
        ensures
            r matches Ok(g) ==> g.is_active(),
    {
        register_trace_context_propagator();
        let resource = make_resource(
            self.service_name.as_str(),
            self.version.as_str(),
            self.deployment_environment.as_str(),
        );
        match install_simple_tracer(self.collector_endpoint.as_str(), resource) {
            Ok(tracer) => Ok(init_otlp_subscribers(tracer)),
            Err(message) => Err(InitializationError { message }),
        }
    }
}

} // verus!
