//! What the loop thread decides after each bounded wait on the poller.
//!
//! The loop has two states. After every wait it first honours the quit flag, then
//! looks at how the wait ended, and, when the wait returned normally, it makes a
//! fixed sequence of engine calls: an optional flush of pending writes, then one
//! processing call per readiness notification (or one "no socket" call when the wait
//! timed out), then a re-arm of every watched socket.
use crate::interest::Socket;
use vstd::prelude::*;

verus! {

/// The two states of the loop thread.
#[derive(Clone, Copy, Debug, PartialEq, Eq, Structural)]
pub enum LoopState {
    Waiting,
    Terminated,
}

/// How one bounded wait on the poller ended.
#[derive(Clone, Copy, Debug, PartialEq, Eq, Structural)]
pub enum WaitOutcome {
    /// The wait returned, with readiness notifications or because it timed out.
    Completed,
    /// A transient signal interrupted the wait.
    Interrupted,
    /// The wait failed for any other reason.
    Failed,
}

/// What the loop does once a wait has ended.
#[derive(Clone, Copy, Debug, PartialEq, Eq, Structural)]
pub enum Verdict {
    /// Leave the loop: the quit flag is set.
    Stop,
    /// Wait again and do nothing else.
    Retry,
    /// The poller is broken; the loop cannot go on.
    Fatal,
    /// Make this cycle's engine calls, then wait again.
    Proceed,
}

/// One readiness notification reported by the poller.
#[derive(Clone, Copy, Debug, PartialEq, Eq, Structural)]
pub struct Readiness {
    pub socket: Socket,
    pub readable: bool,
    pub writable: bool,
}

/// One call into the engine during a cycle.
#[derive(Clone, Copy, Debug, PartialEq, Eq, Structural)]
pub enum EngineCall {
    /// Flush the writes that the engine asked for outside the readiness cycle.
    FlushPendingWrites,
    /// Tell the engine which socket is readable and which is writable; `None` for
    /// "no socket", which still lets the engine handle its own timeouts.
    Process(Option<Socket>, Option<Socket>),
    /// Re-arm every socket that the registry still holds, with its recorded interest.
    RearmAll,
}

/// The processing call for one readiness notification.
pub open spec fn process_call(e: Readiness) -> EngineCall {
    EngineCall::Process(
        if e.readable {
            Some(e.socket)
        } else {
            None
        },
        if e.writable {
            Some(e.socket)
        } else {
            None
        },
    )
}

/// The processing calls for the notifications of one wait: one per notification, in
/// order, or a single "no socket" call when the wait reported none.
pub open spec fn process_calls(events: Seq<Readiness>) -> Seq<EngineCall> {
    if events.len() == 0 {
        seq![EngineCall::Process(None, None)]
    } else {
        events.map_values(|e: Readiness| process_call(e))
    }
}

/// All engine calls of one cycle, in order.
pub open spec fn cycle_calls(pending_write: bool, events: Seq<Readiness>) -> Seq<EngineCall> {
    let flush = if pending_write {
        seq![EngineCall::FlushPendingWrites]
    } else {
        Seq::empty()
    };
    flush + process_calls(events) + seq![EngineCall::RearmAll]
}

/// The loop's next state and verdict after a wait ended with `outcome`, while the
/// quit flag read `quit`.
///
/// A terminated loop stays terminated. Otherwise the quit flag is honoured first,
/// whatever the wait reported; an interrupted wait is simply retried; any other
/// failed wait terminates the loop; a normal return proceeds to the engine calls.
pub fn after_wait(state: LoopState, quit: bool, outcome: WaitOutcome) -> (r: (LoopState, Verdict))
    ensures
        state is Terminated ==> r == (LoopState::Terminated, Verdict::Stop),
        state is Waiting && quit ==> r == (LoopState::Terminated, Verdict::Stop),
        state is Waiting && !quit && outcome is Interrupted ==> r == (
            LoopState::Waiting,
            Verdict::Retry,
        ),
        state is Waiting && !quit && outcome is Failed ==> r == (
            LoopState::Terminated,
            Verdict::Fatal,
        ),
        state is Waiting && !quit && outcome is Completed ==> r == (
            LoopState::Waiting,
            Verdict::Proceed,
        ),
{
    match state {
        LoopState::Terminated => (LoopState::Terminated, Verdict::Stop),
        LoopState::Waiting => {
            if quit {
                (LoopState::Terminated, Verdict::Stop)
            } else {
                match outcome {
                    WaitOutcome::Interrupted => (LoopState::Waiting, Verdict::Retry),
                    WaitOutcome::Failed => (LoopState::Terminated, Verdict::Fatal),
                    WaitOutcome::Completed => (LoopState::Waiting, Verdict::Proceed),
                }
            }
        },
    }
}

/// The engine calls of one cycle, once the wait returned normally with `events`.
///
/// A pending-write flush comes first when one was requested; then one processing
/// call per notification, in the poller's order, or a single "no socket" call when
/// there was none; and the re-arm comes last, so that interest which the engine
/// announced while processing is re-armed in the same cycle.
pub fn cycle_engine_calls(pending_write: bool, events: &Vec<Readiness>) -> (calls: Vec<
    EngineCall,
>)
    ensures
        calls@ == cycle_calls(pending_write, events@),
        calls@.len() >= 2,
        calls@.last() == EngineCall::RearmAll,
        pending_write ==> calls@[0] == EngineCall::FlushPendingWrites,
        forall|j: int|
            0 < j < calls@.len() ==> #[trigger] calls@[j] != EngineCall::FlushPendingWrites,
        forall|j: int|
            0 <= j < calls@.len() - 1 ==> #[trigger] calls@[j] != EngineCall::RearmAll,
{
    let mut calls: Vec<EngineCall> = Vec::new();
    if pending_write {
        calls.push(EngineCall::FlushPendingWrites);
    }
    let ghost head = calls@;
    if events.len() == 0 {
        calls.push(EngineCall::Process(None, None));
    } else {
        let mut k: usize = 0;
        while k < events.len()
            invariant
                k <= events@.len(),
                calls@.len() == head.len() + k,
                calls@.subrange(0, head.len() as int) == head,
                forall|j: int|
                    0 <= j < k ==> #[trigger] calls@[head.len() + j] == process_call(events@[j]),
            decreases events@.len() - k,
        {
            let e = events[k];
            let read = if e.readable {
                Some(e.socket)
            } else {
                None
            };
            let write = if e.writable {
                Some(e.socket)
            } else {
                None
            };
            calls.push(EngineCall::Process(read, write));
            k = k + 1;
        }
        assert forall|j: int| 0 <= j < calls@.len() implies #[trigger] calls@[j] == (head
            + process_calls(events@))[j] by {
            if j < head.len() {
                assert(calls@[j] == calls@.subrange(0, head.len() as int)[j]);
            } else {
                assert(calls@[head.len() + (j - head.len())] == process_call(
                    events@[j - head.len()],
                ));
            }
        }
        assert(calls@ =~= head + process_calls(events@));
    }
    calls.push(EngineCall::RearmAll);
    assert(calls@ =~= cycle_calls(pending_write, events@));
    calls
}

} // verus!
