//! Evidence lineage export: the run header and redaction declaration of a
//! portable, JSON-first provenance graph. The graph's nodes and edges carry
//! kind-specific fields verbatim and are read by consumers, not by this
//! library; the envelope's logic lives here.

use vstd::prelude::*;

verus! {

/// Current lineage schema identity.
pub const LINEAGE_VERSION: &'static str = "hari-evidence-lineage-v0.1.0";

/// Run header: the replay or session the lineage came from.
#[derive(Debug, Clone, PartialEq, Eq)]
pub struct LineageRun {
    pub run_id: String,
    pub priority_model: String,
    pub trace_source: Option<String>,
    pub dimension: Option<usize>,
    pub event_count: Option<usize>,
    pub generated_at: Option<String>,
}

/// Declares that private source detail was withheld.
#[derive(Debug, Clone, PartialEq, Eq)]
pub struct LineageRedaction {
    pub policy: String,
    pub redacted_node_ids: Vec<String>,
    pub note: Option<String>,
}

/// How many source items the redaction withheld; none when there is no
/// redaction block.
pub fn redacted_source_count(redaction: &Option<LineageRedaction>) -> (n: usize)
    ensures
        n == match redaction {
            Some(r) => r.redacted_node_ids@.len(),
            None => 0,
        },
{
    match redaction {
        Some(r) => r.redacted_node_ids.len(),
        None => 0,
    }
}

} // verus!
