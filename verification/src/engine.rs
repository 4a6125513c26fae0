//! The execution engine's decisions: the life of the one memory region that
//! holds the generated routine, as a state machine.
//!
//! The engine itself touches no memory. A host maps, fills, seals and calls
//! the region; after each of these it reports what happened, and the engine
//! says what is to be done next.

use vstd::prelude::*;

verus! {

/// The default number of cells of the tape.
pub const TAPE_CAPACITY: usize = 500_000;

/// Where the region stands.
#[derive(Clone, Copy, Debug, PartialEq, Eq, Structural)]
pub enum EngineState {
    /// No region yet.
    Unmapped,
    /// The region is mapped and can be written; `filled` says whether the
    /// routine has been copied into it.
    Writable { filled: bool },
    /// The region holds the routine and can be executed.
    Executable,
    /// The routine has been called. Nothing follows.
    Invoked,
}

/// What the host reports.
#[derive(Clone, Copy, Debug, PartialEq, Eq, Structural)]
pub enum EngineEvent {
    /// The run begins.
    Start,
    /// The region was mapped.
    Mapped,
    /// The platform denied the mapping.
    MapDenied,
    /// The routine was copied into the region.
    Copied,
    /// The region was made executable.
    Sealed,
    /// The platform denied making the region executable.
    SealDenied,
    /// The routine was called and has returned.
    Returned,
}

/// Why the engine gives up.
#[derive(Clone, Copy, Debug, PartialEq, Eq, Structural)]
pub enum EngineError {
    /// The platform did not provide the executable region.
    AllocationFailure,
    /// The host reported something that cannot happen in the state that the
    /// engine is in.
    OutOfOrder,
}

/// What the host is to do next.
#[derive(Clone, Copy, Debug, PartialEq, Eq, Structural)]
pub enum EngineAction {
    /// Map an anonymous region of `len` bytes that can be written.
    MapRegion { len: usize },
    /// Copy the routine to the start of the region.
    CopyCode,
    /// Make the region executable, in place.
    Seal,
    /// Call the start of the region as a routine without arguments.
    Invoke,
    /// Nothing: the run is over.
    Stop,
    /// Nothing: the run has failed.
    Abort { error: EngineError },
}

/// The state after `event` arrives in `state`, and what the host is to do
/// then, for a routine of `code_len` bytes. An event that does not belong to
/// the state leaves the state as it is and aborts.
pub open spec fn transition(state: EngineState, event: EngineEvent, code_len: usize) -> (
    EngineState,
    EngineAction,
) {
    match (state, event) {
        (EngineState::Unmapped, EngineEvent::Start) => (
            EngineState::Unmapped,
            EngineAction::MapRegion { len: code_len },
        ),
        (EngineState::Unmapped, EngineEvent::Mapped) => (
            EngineState::Writable { filled: false },
            EngineAction::CopyCode,
        ),
        (EngineState::Unmapped, EngineEvent::MapDenied) => (
            EngineState::Unmapped,
            EngineAction::Abort { error: EngineError::AllocationFailure },
        ),
        (EngineState::Writable { filled: false }, EngineEvent::Copied) => (
            EngineState::Writable { filled: true },
            EngineAction::Seal,
        ),
        (EngineState::Writable { filled: true }, EngineEvent::Sealed) => (
            EngineState::Executable,
            EngineAction::Invoke,
        ),
        (EngineState::Writable { filled: true }, EngineEvent::SealDenied) => (
            EngineState::Writable { filled: true },
            EngineAction::Abort { error: EngineError::AllocationFailure },
        ),
        (EngineState::Executable, EngineEvent::Returned) => (
            EngineState::Invoked,
            EngineAction::Stop,
        ),
        _ => (state, EngineAction::Abort { error: EngineError::OutOfOrder }),
    }
}

/// How far a state is along the region's life.
pub open spec fn progress(state: EngineState) -> nat {
    match state {
        EngineState::Unmapped => 0,
        EngineState::Writable { filled: false } => 1,
        EngineState::Writable { filled: true } => 2,
        EngineState::Executable => 3,
        EngineState::Invoked => 4,
    }
}

/// Takes the engine from `state` on the host's report `event`; returns the
/// new state and what the host is to do next.
pub fn engine_step(state: EngineState, event: EngineEvent, code_len: usize) -> (res: (
    EngineState,
    EngineAction,
))
    ensures
        res == transition(state, event, code_len),
        res.1 == EngineAction::Invoke <==> res.0 == EngineState::Executable && state
            != EngineState::Executable,
        progress(state) <= progress(res.0) <= progress(state) + 1,
{
    match (state, event) {
        (EngineState::Unmapped, EngineEvent::Start) => (
            EngineState::Unmapped,
            EngineAction::MapRegion { len: code_len },
        ),
        (EngineState::Unmapped, EngineEvent::Mapped) => (
            EngineState::Writable { filled: false },
            EngineAction::CopyCode,
        ),
        (EngineState::Unmapped, EngineEvent::MapDenied) => (
            EngineState::Unmapped,
            EngineAction::Abort { error: EngineError::AllocationFailure },
        ),
        (EngineState::Writable { filled: false }, EngineEvent::Copied) => (
            EngineState::Writable { filled: true },
            EngineAction::Seal,
        ),
        (EngineState::Writable { filled: true }, EngineEvent::Sealed) => (
            EngineState::Executable,
            EngineAction::Invoke,
        ),
        (EngineState::Writable { filled: true }, EngineEvent::SealDenied) => (
            EngineState::Writable { filled: true },
            EngineAction::Abort { error: EngineError::AllocationFailure },
        ),
        (EngineState::Executable, EngineEvent::Returned) => (
            EngineState::Invoked,
            EngineAction::Stop,
        ),
        _ => (state, EngineAction::Abort { error: EngineError::OutOfOrder }),
    }
}

} // verus!
