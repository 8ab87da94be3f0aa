//! Events published to realtime consumers of the gateway.
use vstd::prelude::*;

verus! {

/// A schema change: which service, at which stage, and when (RFC 3339).
#[derive(Debug, Clone)]
pub struct SchemaEvent {
    pub service_name: String,
    pub stage: String,
    pub at: String,
}

} // verus!
