//! The consumer capability: a uniform sink for parsed records.
//!
//! Every statistics consumer ingests records one at a time and can be asked
//! at any moment for a self-contained textual summary of its aggregate
//! state.  The ingestion loop treats all registered consumers uniformly and
//! never special-cases a variant.
use crate::parser::HttpLog;
use vstd::prelude::*;

pub mod alerter;
pub mod errorwatcher;
pub mod ranker;

verus! {

pub trait Consumer {
    /// The consumer's internal invariant, established by its constructor
    /// and preserved by ingestion.
    spec fn wf(&self) -> bool;

    /// Feed one parsed record into the aggregate state.  Ingestion never
    /// fails visibly: a record the consumer cannot use is a silent no-op.
    fn ingest(&mut self, http_log: &HttpLog)
        requires
            old(self).wf(),
        ensures
            final(self).wf(),
    ;

    /// A pure read of the current state, producing a complete summary.  It
    /// may be called at any time, including before any ingestion.
    fn report(&self) -> (r: String)
        requires
            self.wf(),
    ;
}

} // verus!
