//! The flow-controlled copy of a body to an HTTP/2 stream, as a machine:
//! whoever holds the streams does what the machine says and reports back.

use vstd::prelude::*;

verus! {

/// Where the copy stands.
#[derive(Debug, Clone, Copy, PartialEq, Eq, Structural)]
pub enum BridgeState {
    /// The source has been asked for its next chunk.
    AwaitChunk,
    /// Capacity for `left` bytes has been reserved; the window is awaited.
    AwaitCapacity { left: usize },
    /// A frame of `len` bytes is being sent; `left` bytes follow it.
    AwaitSent { len: usize, left: usize },
    /// `len` bytes are being released on the source; `left` bytes of the
    /// chunk are still to be sent.
    AwaitReleased { len: usize, left: usize },
    /// The empty frame that ends the stream is being sent.
    AwaitFinished,
    /// The copy is over.
    Done,
}

/// What has happened.
#[derive(Debug, Clone, Copy, PartialEq, Eq, Structural)]
pub enum BridgeEvent {
    /// The source has yielded a chunk of this many bytes.
    Chunk(usize),
    /// The source has no further chunk.
    End,
    /// The destination has this much window available.
    Capacity(usize),
    /// The frame has been sent.
    Sent,
    /// The bytes have been released on the source.
    Released,
    /// The frame that ends the stream has been sent.
    Finished,
}

/// What is to be done next.
#[derive(Debug, Clone, Copy, PartialEq, Eq, Structural)]
pub enum BridgeAction {
    /// Ask the source for its next chunk.
    NextChunk,
    /// Reserve capacity for this many bytes on the destination, and await
    /// its window.
    Reserve(usize),
    /// Send the next this many bytes of the chunk as a data frame that does
    /// not end the stream.
    Send(usize),
    /// Release this many bytes on the source's window.
    Release(usize),
    /// Send an empty data frame that ends the stream.
    SendEnd,
    /// Nothing: the copy is over.
    Stop,
    /// Nothing: the event cannot happen in this state, and is passed over.
    Ignore,
}

/// The smaller of two numbers.
pub open spec fn least(a: usize, b: usize) -> usize {
    if a <= b {
        a
    } else {
        b
    }
}

/// The machine: the next state and what is to be done, for a state and an
/// event.
///
/// For each chunk of the source, capacity is reserved for what is left of
/// it, the window is awaited, as much as the window allows is sent, and the
/// same count is released on the source, until the chunk is drained. When
/// the source has ended, an empty frame ends the stream.
pub open spec fn bridge_step(state: BridgeState, event: BridgeEvent) -> (BridgeState, BridgeAction) {
    match (state, event) {
        (BridgeState::AwaitChunk, BridgeEvent::Chunk(len)) => if len == 0 {
            (BridgeState::AwaitChunk, BridgeAction::NextChunk)
        } else {
            (BridgeState::AwaitCapacity { left: len }, BridgeAction::Reserve(len))
        },
        (BridgeState::AwaitChunk, BridgeEvent::End) => (
            BridgeState::AwaitFinished,
            BridgeAction::SendEnd,
        ),
        (BridgeState::AwaitCapacity { left }, BridgeEvent::Capacity(available)) => (
            BridgeState::AwaitSent {
                len: least(available, left),
                left: (left - least(available, left)) as usize,
            },
            BridgeAction::Send(least(available, left)),
        ),
        (BridgeState::AwaitSent { len, left }, BridgeEvent::Sent) => (
            BridgeState::AwaitReleased { len, left },
            BridgeAction::Release(len),
        ),
        (BridgeState::AwaitReleased { len, left }, BridgeEvent::Released) => if left == 0 {
            (BridgeState::AwaitChunk, BridgeAction::NextChunk)
        } else {
            (BridgeState::AwaitCapacity { left }, BridgeAction::Reserve(left))
        },
        (BridgeState::AwaitFinished, BridgeEvent::Finished) => (
            BridgeState::Done,
            BridgeAction::Stop,
        ),
        (BridgeState::Done, _) => (BridgeState::Done, BridgeAction::Stop),
        _ => (state, BridgeAction::Ignore),
    }
}

/// Starts the copy of a body: the first thing to do is to ask the source
/// for a chunk. Where the head has already ended the stream there is
/// nothing to copy, and no frame is to end it again.
pub fn bridge_start(is_end: bool) -> (r: (BridgeState, BridgeAction))
    ensures
        r == if is_end {
            (BridgeState::Done, BridgeAction::Stop)
        } else {
            (BridgeState::AwaitChunk, BridgeAction::NextChunk)
        },
{
    if is_end {
        (BridgeState::Done, BridgeAction::Stop)
    } else {
        (BridgeState::AwaitChunk, BridgeAction::NextChunk)
    }
}

/// Moves the machine on by one event.
pub fn step(state: BridgeState, event: BridgeEvent) -> (r: (BridgeState, BridgeAction))
    ensures
        r == bridge_step(state, event),
{
    match (state, event) {
        (BridgeState::AwaitChunk, BridgeEvent::Chunk(len)) => {
            if len == 0 {
                (BridgeState::AwaitChunk, BridgeAction::NextChunk)
            } else {
                (BridgeState::AwaitCapacity { left: len }, BridgeAction::Reserve(len))
            }
        },
        (BridgeState::AwaitChunk, BridgeEvent::End) => (
            BridgeState::AwaitFinished,
            BridgeAction::SendEnd,
        ),
        (BridgeState::AwaitCapacity { left }, BridgeEvent::Capacity(available)) => {
            let send_len = if available <= left {
                available
            } else {
                left
            };
            (
                BridgeState::AwaitSent { len: send_len, left: left - send_len },
                BridgeAction::Send(send_len),
            )
        },
        (BridgeState::AwaitSent { len, left }, BridgeEvent::Sent) => (
            BridgeState::AwaitReleased { len, left },
            BridgeAction::Release(len),
        ),
        (BridgeState::AwaitReleased { len, left }, BridgeEvent::Released) => {
            if left == 0 {
                (BridgeState::AwaitChunk, BridgeAction::NextChunk)
            } else {
                (BridgeState::AwaitCapacity { left }, BridgeAction::Reserve(left))
            }
        },
        (BridgeState::AwaitFinished, BridgeEvent::Finished) => (
            BridgeState::Done,
            BridgeAction::Stop,
        ),
        (BridgeState::Done, _) => (BridgeState::Done, BridgeAction::Stop),
        (state, _) => (state, BridgeAction::Ignore),
    }
}

/// The state after a run of events, from a given state.
pub open spec fn run_state(state: BridgeState, events: Seq<BridgeEvent>) -> BridgeState
    decreases events.len(),
{
    if events.len() == 0 {
        state
    } else {
        bridge_step(run_state(state, events.drop_last()), events.last()).0
    }
}

/// How many bytes the frames sent in a run of events hold in all.
pub open spec fn run_sent(state: BridgeState, events: Seq<BridgeEvent>) -> nat
    decreases events.len(),
{
    if events.len() == 0 {
        0
    } else {
        let before = run_state(state, events.drop_last());
        run_sent(state, events.drop_last()) + match bridge_step(before, events.last()).1 {
            BridgeAction::Send(len) => len as nat,
            _ => 0,
        }
    }
}

/// How many bytes were released on the source in a run of events.
pub open spec fn run_released(state: BridgeState, events: Seq<BridgeEvent>) -> nat
    decreases events.len(),
{
    if events.len() == 0 {
        0
    } else {
        let before = run_state(state, events.drop_last());
        run_released(state, events.drop_last()) + match bridge_step(before, events.last()).1 {
            BridgeAction::Release(len) => len as nat,
            _ => 0,
        }
    }
}

/// How many bytes the chunks taken up in a run of events hold in all.
pub open spec fn run_taken(state: BridgeState, events: Seq<BridgeEvent>) -> nat
    decreases events.len(),
{
    if events.len() == 0 {
        0
    } else {
        let before = run_state(state, events.drop_last());
        run_taken(state, events.drop_last()) + match (before, events.last()) {
            (BridgeState::AwaitChunk, BridgeEvent::Chunk(len)) => len as nat,
            _ => 0,
        }
    }
}

/// How many bytes of the current chunk a state still has to send.
pub open spec fn unsent(state: BridgeState) -> nat {
    match state {
        BridgeState::AwaitCapacity { left } => left as nat,
        BridgeState::AwaitSent { len, left } => left as nat,
        BridgeState::AwaitReleased { len, left } => left as nat,
        _ => 0,
    }
}

/// How many bytes a state has sent and not released yet.
pub open spec fn unreleased(state: BridgeState) -> nat {
    match state {
        BridgeState::AwaitSent { len, left } => len as nat,
        _ => 0,
    }
}

/// Whatever the events: every byte of every chunk taken up is sent or
/// still to be sent, and every byte sent is released or about to be. So
/// when the copy is over, or the next chunk is awaited, exactly the bytes
/// of the chunks have been sent, and exactly those released.
pub proof fn law_bridge_conserves(events: Seq<BridgeEvent>)
    ensures
        run_taken(BridgeState::AwaitChunk, events) == run_sent(BridgeState::AwaitChunk, events)
            + unsent(run_state(BridgeState::AwaitChunk, events)),
        run_sent(BridgeState::AwaitChunk, events) == run_released(BridgeState::AwaitChunk, events)
            + unreleased(run_state(BridgeState::AwaitChunk, events)),
    decreases events.len(),
{
    if events.len() > 0 {
        law_bridge_conserves(events.drop_last());
    }
}

/// The stream is ended once, and after all that was sent: the machine is
/// over only behind the frame that ends the stream.
pub proof fn law_bridge_ends_once(state: BridgeState, event: BridgeEvent)
    ensures
        bridge_step(state, event).1 is SendEnd ==> state is AwaitChunk && event is End,
        bridge_step(state, event).0 is Done ==> state is Done || (state is AwaitFinished && event
            is Finished),
{
}

/// How many frames with bytes were sent in a run of events.
pub open spec fn run_frames(state: BridgeState, events: Seq<BridgeEvent>) -> nat
    decreases events.len(),
{
    if events.len() == 0 {
        0
    } else {
        let before = run_state(state, events.drop_last());
        run_frames(state, events.drop_last()) + match bridge_step(before, events.last()).1 {
            BridgeAction::Send(len) => 1nat,
            _ => 0,
        }
    }
}

/// How many frames that end the stream were sent in a run of events.
pub open spec fn run_ends(state: BridgeState, events: Seq<BridgeEvent>) -> nat
    decreases events.len(),
{
    if events.len() == 0 {
        0
    } else {
        let before = run_state(state, events.drop_last());
        run_ends(state, events.drop_last()) + match bridge_step(before, events.last()).1 {
            BridgeAction::SendEnd => 1nat,
            _ => 0,
        }
    }
}

/// Whether no window that the destination reported in a run was wider than
/// `window`.
pub open spec fn windows_within(events: Seq<BridgeEvent>, window: nat) -> bool {
    forall|i: int|
        0 <= i < events.len() ==> (#[trigger] events[i] matches BridgeEvent::Capacity(c) ==> c
            <= window)
}

/// No frame holds more than the window that was reported for it. So where
/// no window is wider than `window`, the frames of a run hold at most
/// `window` bytes each: a body of so many bytes takes at least so many
/// frames that they can hold it.
pub proof fn law_bridge_frames(events: Seq<BridgeEvent>, window: nat)
    requires
        windows_within(events, window),
    ensures
        run_sent(BridgeState::AwaitChunk, events) <= window * run_frames(
            BridgeState::AwaitChunk,
            events,
        ),
    decreases events.len(),
{
    let start = BridgeState::AwaitChunk;
    if events.len() > 0 {
        let front = events.drop_last();
        assert forall|i: int| 0 <= i < front.len() implies (#[trigger] front[i] matches BridgeEvent::Capacity(
            c,
        ) ==> c <= window) by {
            assert(front[i] == events[i]);
        }
        law_bridge_frames(front, window);
        let k = run_frames(start, front);
        assert(events.last() == events[events.len() - 1]);
        assert(window * (k + 1) == window * k + window) by (nonlinear_arith);
    }
}

/// The stream is ended once at most, and exactly once when the copy is
/// over: a run that has reached the end has sent one frame that ends the
/// stream, and any other run none; and once it is sent, no frame with bytes
/// follows.
pub proof fn law_bridge_one_end(events: Seq<BridgeEvent>)
    ensures
        run_ends(BridgeState::AwaitChunk, events) == if run_state(BridgeState::AwaitChunk, events)
            is AwaitFinished || run_state(BridgeState::AwaitChunk, events) is Done {
            1nat
        } else {
            0nat
        },
    decreases events.len(),
{
    if events.len() > 0 {
        law_bridge_one_end(events.drop_last());
    }
}

/// Once the stream is ended no frame is sent: from the state behind the
/// frame that ends the stream, and from the end, no event leads to a frame.
pub proof fn law_bridge_end_is_last(state: BridgeState, event: BridgeEvent)
    requires
        state is AwaitFinished || state is Done,
    ensures
        !(bridge_step(state, event).1 is Send),
        !(bridge_step(state, event).1 is SendEnd),
        bridge_step(state, event).0 is AwaitFinished || bridge_step(state, event).0 is Done,
{
}

} // verus!
