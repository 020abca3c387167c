//! The instruction-counter capability.
//!
//! Work weights come from a per-thread retired-instruction counter.
//! The backend is injected so hosts can plug in a real reader and
//! tests a scripted fake; a missing backend degrades every delta to
//! zero and the analysis to a purely time-weighted search.

use vstd::prelude::*;

use crate::events::FutexEvent;
use crate::flow_web::{step_model, FlowWeb};

verus! {

/// A source of per-thread instruction counts.  Readings for one
/// thread are expected to be monotonic, but nothing is assumed of
/// them: the engine is specified for every possible reading.
pub trait InstructionCounter {
    /// Reads the current count for `tid`, or `None` when no counter
    /// is available (no backend, or the thread is gone).
    fn read_counter(&mut self, tid: u32) -> (r: Option<u64>);
}

/// The stub backend: no counter, every reading is absent.
pub struct NullCounter;

impl InstructionCounter for NullCounter {
    fn read_counter(&mut self, _tid: u32) -> (r: Option<u64>) {
        None
    }
}

impl FlowWeb {
    /// Ingests one event, sampling `counter` for the event's thread.
    /// The reading depends on the environment, so the contract
    /// promises exactly one step for whatever reading came back.
    pub fn process_event_with<C: InstructionCounter>(&mut self, e: FutexEvent, counter: &mut C)
        requires
            old(self).inv(),
        ensures
            final(self).inv(),
            exists|r: Option<u64>| final(self)@ == step_model(old(self)@, e, r),
    {
        let r = counter.read_counter(e.tid);
        self.process_event_counted(e, r);
        proof {
            assert(self@ == step_model(old(self)@, e, r));
        }
    }
}

} // verus!
