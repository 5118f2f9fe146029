//! Per-component memory accounting of an index.

use vstd::prelude::*;

verus! {

/// Approximate byte counts of the parts of an index.
#[derive(Debug, Clone, Copy, PartialEq, Eq, Structural)]
pub struct MemoryUsage {
    /// The postings of every term.
    pub postings_bytes: u64,
    /// The prefix side table.
    pub prefix_postings_bytes: u64,
    /// The values of sub-fields.
    pub subfield_values_bytes: u64,
    /// The stored source documents.
    pub stored_fields_bytes: u64,
    /// The per-field length statistics.
    pub field_stats_bytes: u64,
    /// The per-term block metadata.
    pub term_stats_bytes: u64,
}

/// The sum of all components of `m`.
pub open spec fn usage_sum(m: MemoryUsage) -> int {
    m.postings_bytes + m.prefix_postings_bytes + m.subfield_values_bytes + m.stored_fields_bytes
        + m.field_stats_bytes + m.term_stats_bytes
}

impl MemoryUsage {
    /// The sum of every component, `u64::MAX` when it does not fit.
    pub fn total_bytes(&self) -> (r: u64)
        ensures
            r == if usage_sum(*self) <= u64::MAX {
                usage_sum(*self)
            } else {
                u64::MAX as int
            },
    {
        self.postings_bytes.saturating_add(self.prefix_postings_bytes).saturating_add(self.subfield_values_bytes).saturating_add(
            self.stored_fields_bytes,
        ).saturating_add(self.field_stats_bytes).saturating_add(self.term_stats_bytes)
    }
}

impl Default for MemoryUsage {
    fn default() -> (r: MemoryUsage)
        ensures
            r == (MemoryUsage {
                postings_bytes: 0,
                prefix_postings_bytes: 0,
                subfield_values_bytes: 0,
                stored_fields_bytes: 0,
                field_stats_bytes: 0,
                term_stats_bytes: 0,
            }),
    {
        MemoryUsage {
            postings_bytes: 0,
            prefix_postings_bytes: 0,
            subfield_values_bytes: 0,
            stored_fields_bytes: 0,
            field_stats_bytes: 0,
            term_stats_bytes: 0,
        }
    }
}

} // verus!
