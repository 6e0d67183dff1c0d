use c_ares_resolver::event_loop::{after_wait, cycle_engine_calls};
use c_ares_resolver::{EngineCall, LoopState, Readiness, Verdict, WaitOutcome};

#[test]
fn quit_flag_wins_over_any_wait_outcome() {
    for outcome in [WaitOutcome::Completed, WaitOutcome::Interrupted, WaitOutcome::Failed] {
        assert_eq!(
            after_wait(LoopState::Waiting, true, outcome),
            (LoopState::Terminated, Verdict::Stop)
        );
    }
}

#[test]
fn interrupted_wait_is_retried() {
    assert_eq!(
        after_wait(LoopState::Waiting, false, WaitOutcome::Interrupted),
        (LoopState::Waiting, Verdict::Retry)
    );
}

#[test]
fn failed_wait_is_fatal() {
    assert_eq!(
        after_wait(LoopState::Waiting, false, WaitOutcome::Failed),
        (LoopState::Terminated, Verdict::Fatal)
    );
}

#[test]
fn completed_wait_proceeds() {
    assert_eq!(
        after_wait(LoopState::Waiting, false, WaitOutcome::Completed),
        (LoopState::Waiting, Verdict::Proceed)
    );
}

#[test]
fn terminated_loop_stays_terminated() {
    for quit in [false, true] {
        assert_eq!(
            after_wait(LoopState::Terminated, quit, WaitOutcome::Completed),
            (LoopState::Terminated, Verdict::Stop)
        );
    }
}

#[test]
fn timed_out_wait_processes_no_socket() {
    let calls = cycle_engine_calls(false, &Vec::new());
    assert_eq!(calls, vec![EngineCall::Process(None, None), EngineCall::RearmAll]);
}

#[test]
fn pending_write_flush_comes_first() {
    let calls = cycle_engine_calls(true, &Vec::new());
    assert_eq!(
        calls,
        vec![
            EngineCall::FlushPendingWrites,
            EngineCall::Process(None, None),
            EngineCall::RearmAll,
        ]
    );
}

#[test]
fn each_notification_is_processed_in_order_then_rearmed() {
    let events = vec![
        Readiness { socket: 5, readable: true, writable: false },
        Readiness { socket: 6, readable: false, writable: true },
        Readiness { socket: 7, readable: true, writable: true },
    ];
    let calls = cycle_engine_calls(true, &events);
    assert_eq!(
        calls,
        vec![
            EngineCall::FlushPendingWrites,
            EngineCall::Process(Some(5), None),
            EngineCall::Process(None, Some(6)),
            EngineCall::Process(Some(7), Some(7)),
            EngineCall::RearmAll,
        ]
    );
}
