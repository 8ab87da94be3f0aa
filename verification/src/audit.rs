//! Audit trail entries: who did what to which target, and when.
use vstd::prelude::*;

verus! {

/// One audit trail entry; `at` is an RFC 3339 timestamp.
#[derive(Debug, Clone)]
pub struct AuditRecord {
    pub actor: String,
    pub action: String,
    pub target: String,
    pub at: String,
}

} // verus!
