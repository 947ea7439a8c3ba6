//! A verified harness around test-time distributed tracing: the lifecycle
//! and runner protocol that wraps a test body with a tracer pipeline, and the
//! verification engine that decodes the collector's export file and compares
//! it, projection by projection, against a reference trace.

pub mod compare;
pub mod content;
pub mod grammar;
pub mod lifecycle;
pub mod model;
pub mod propagation;
pub mod reader;
pub mod roundtrip;
pub mod runner;
pub mod strutil;
pub mod writer;

use vstd::prelude::*;

verus! {

} // verus!
