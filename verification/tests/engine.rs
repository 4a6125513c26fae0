use bf_jit::engine::{
    engine_step, EngineAction, EngineError, EngineEvent, EngineState, TAPE_CAPACITY,
};

const EVENTS: [EngineEvent; 7] = [
    EngineEvent::Start,
    EngineEvent::Mapped,
    EngineEvent::MapDenied,
    EngineEvent::Copied,
    EngineEvent::Sealed,
    EngineEvent::SealDenied,
    EngineEvent::Returned,
];

const STATES: [EngineState; 5] = [
    EngineState::Unmapped,
    EngineState::Writable { filled: false },
    EngineState::Writable { filled: true },
    EngineState::Executable,
    EngineState::Invoked,
];

#[test]
fn a_run_goes_through_every_state_in_order() {
    let mut state = EngineState::Unmapped;
    let (s, a) = engine_step(state, EngineEvent::Start, 16);
    assert_eq!((s, a), (EngineState::Unmapped, EngineAction::MapRegion { len: 16 }));
    state = s;
    let (s, a) = engine_step(state, EngineEvent::Mapped, 16);
    assert_eq!((s, a), (EngineState::Writable { filled: false }, EngineAction::CopyCode));
    state = s;
    let (s, a) = engine_step(state, EngineEvent::Copied, 16);
    assert_eq!((s, a), (EngineState::Writable { filled: true }, EngineAction::Seal));
    state = s;
    let (s, a) = engine_step(state, EngineEvent::Sealed, 16);
    assert_eq!((s, a), (EngineState::Executable, EngineAction::Invoke));
    state = s;
    let (s, a) = engine_step(state, EngineEvent::Returned, 16);
    assert_eq!((s, a), (EngineState::Invoked, EngineAction::Stop));
}

#[test]
fn a_denied_mapping_is_an_allocation_failure() {
    assert_eq!(
        engine_step(EngineState::Unmapped, EngineEvent::MapDenied, 16),
        (EngineState::Unmapped, EngineAction::Abort { error: EngineError::AllocationFailure })
    );
}

#[test]
fn a_denied_seal_is_an_allocation_failure() {
    assert_eq!(
        engine_step(EngineState::Writable { filled: true }, EngineEvent::SealDenied, 16),
        (
            EngineState::Writable { filled: true },
            EngineAction::Abort { error: EngineError::AllocationFailure }
        )
    );
}

#[test]
fn the_routine_is_called_only_from_a_sealed_region() {
    for state in STATES {
        for event in EVENTS {
            let (next, action) = engine_step(state, event, 16);
            if action == EngineAction::Invoke {
                assert_eq!(state, EngineState::Writable { filled: true });
                assert_eq!(event, EngineEvent::Sealed);
                assert_eq!(next, EngineState::Executable);
            }
        }
    }
}

#[test]
fn an_event_out_of_order_aborts_and_keeps_the_state() {
    let in_order = [
        (EngineState::Unmapped, EngineEvent::Start),
        (EngineState::Unmapped, EngineEvent::Mapped),
        (EngineState::Unmapped, EngineEvent::MapDenied),
        (EngineState::Writable { filled: false }, EngineEvent::Copied),
        (EngineState::Writable { filled: true }, EngineEvent::Sealed),
        (EngineState::Writable { filled: true }, EngineEvent::SealDenied),
        (EngineState::Executable, EngineEvent::Returned),
    ];
    for state in STATES {
        for event in EVENTS {
            if !in_order.contains(&(state, event)) {
                assert_eq!(
                    engine_step(state, event, 16),
                    (state, EngineAction::Abort { error: EngineError::OutOfOrder })
                );
            }
        }
    }
}

#[test]
fn nothing_follows_the_call() {
    for event in EVENTS {
        assert_eq!(
            engine_step(EngineState::Invoked, event, 16),
            (EngineState::Invoked, EngineAction::Abort { error: EngineError::OutOfOrder })
        );
    }
}

#[test]
fn the_routine_is_not_copied_twice() {
    assert_eq!(
        engine_step(EngineState::Writable { filled: true }, EngineEvent::Copied, 16),
        (
            EngineState::Writable { filled: true },
            EngineAction::Abort { error: EngineError::OutOfOrder }
        )
    );
}

#[test]
fn the_region_is_as_long_as_the_routine() {
    for len in [0usize, 1, 11, 4096, 1 << 20] {
        assert_eq!(
            engine_step(EngineState::Unmapped, EngineEvent::Start, len).1,
            EngineAction::MapRegion { len }
        );
    }
}

#[test]
fn default_tape_capacity() {
    assert_eq!(TAPE_CAPACITY, 500_000);
}
