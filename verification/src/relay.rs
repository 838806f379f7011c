//! The bidirectional relay tunnel.
//!
//! A tunnel pairs one inbound stream with one outbound stream and copies bytes
//! both ways, unmodified and in order, until either side closes or errors.
//! The machine here holds every decision of that relay; the surrounding
//! program only performs the reads and writes it asks for and feeds the
//! results back as events.
//!
//! States follow the relay's life: `Active` races a read on each side;
//! `Writing` has one chunk in flight to one side (the read race resumes only
//! once the chunk is fully written); `Closing` has stopped reading and is
//! releasing both streams; `Closed` is terminal. A read of zero bytes (peer
//! closed), a read error or a write error all move the tunnel to `Closing`.
//!
//! Because a chunk is written whole before the read race resumes, no bytes
//! are ever held read-but-unwritten when the tunnel begins to close: every
//! chunk read before the closing event has already been flushed to its side,
//! and a chunk whose write failed had its best-effort delivery in that very
//! write.

use vstd::prelude::*;

verus! {

/// What one relay step asks the surrounding program to do next.
pub enum RelayAction {
    /// Race a pending read on each side; feed back whichever completes first.
    AwaitReads,
    /// Write `data`, whole and in order, to the inbound (`true`) or outbound
    /// (`false`) side; feed back whether the write completed.
    Write { to_inbound: bool, data: Vec<u8> },
    /// Stop all reads and release both streams; feed back `Released`.
    Release,
    /// Nothing: the tunnel is closed.
    Done,
}

/// What the surrounding program observed on the streams.
#[derive(Debug, Clone)]
pub enum RelayEvent {
    /// A read on one side completed with these bytes; empty means the peer
    /// closed its sending half.
    ReadOk { from_inbound: bool, data: Vec<u8> },
    /// A read on one side failed.
    ReadErr { from_inbound: bool },
    /// The requested write completed in full.
    WriteOk,
    /// The requested write failed; an unknown prefix of the chunk may have
    /// been delivered, and the chunk must not be counted as relayed.
    WriteErr,
    /// Both streams have been released.
    Released,
}

/// The relay state. `Writing` remembers (in ghost form) which chunk is in
/// flight so that the delivered streams can be accounted for exactly.
pub enum RelayState {
    Active,
    Writing { to_inbound: bool, data: Ghost<Seq<u8>> },
    Closing,
    Closed,
}

/// Mathematical image of a `RelayAction`.
pub ghost enum ActionView {
    AwaitReads,
    Write { to_inbound: bool, data: Seq<u8> },
    Release,
    Done,
}

/// Mathematical image of a `RelayEvent`.
pub ghost enum EventView {
    ReadOk { from_inbound: bool, data: Seq<u8> },
    ReadErr { from_inbound: bool },
    WriteOk,
    WriteErr,
    Released,
}

/// Mathematical image of a `RelayState`.
pub ghost enum StateView {
    Active,
    Writing { to_inbound: bool, data: Seq<u8> },
    Closing,
    Closed,
}

impl View for RelayAction {
    type V = ActionView;

    open spec fn view(&self) -> ActionView {
        match self {
            RelayAction::AwaitReads => ActionView::AwaitReads,
            RelayAction::Write { to_inbound, data } => ActionView::Write {
                to_inbound: *to_inbound,
                data: data@,
            },
            RelayAction::Release => ActionView::Release,
            RelayAction::Done => ActionView::Done,
        }
    }
}

impl View for RelayEvent {
    type V = EventView;

    open spec fn view(&self) -> EventView {
        match self {
            RelayEvent::ReadOk { from_inbound, data } => EventView::ReadOk {
                from_inbound: *from_inbound,
                data: data@,
            },
            RelayEvent::ReadErr { from_inbound } => EventView::ReadErr {
                from_inbound: *from_inbound,
            },
            RelayEvent::WriteOk => EventView::WriteOk,
            RelayEvent::WriteErr => EventView::WriteErr,
            RelayEvent::Released => EventView::Released,
        }
    }
}

impl View for RelayState {
    type V = StateView;

    open spec fn view(&self) -> StateView {
        match self {
            RelayState::Active => StateView::Active,
            RelayState::Writing { to_inbound, data } => StateView::Writing {
                to_inbound: *to_inbound,
                data: data@,
            },
            RelayState::Closing => StateView::Closing,
            RelayState::Closed => StateView::Closed,
        }
    }
}

/// One decision of the relay: given the current state and the event the
/// streams produced, the next state and the action to perform.
///
/// While `Active`, a read of `n > 0` bytes starts a write of exactly those
/// bytes to the opposite side; a read of zero bytes or a read error closes the
/// tunnel. While `Writing`, a completed write resumes the read race and a
/// failed write closes the tunnel. An event that the state never solicits also
/// closes the tunnel. `Closing` releases both streams and `Closed` is
/// terminal.
pub open spec fn spec_step(state: StateView, event: EventView) -> (StateView, ActionView) {
    match state {
        StateView::Active => match event {
            EventView::ReadOk { from_inbound, data } => {
                if data.len() > 0 {
                    (
                        StateView::Writing { to_inbound: !from_inbound, data },
                        ActionView::Write { to_inbound: !from_inbound, data },
                    )
                } else {
                    (StateView::Closing, ActionView::Release)
                }
            },
            _ => (StateView::Closing, ActionView::Release),
        },
        StateView::Writing { .. } => match event {
            EventView::WriteOk => (StateView::Active, ActionView::AwaitReads),
            _ => (StateView::Closing, ActionView::Release),
        },
        StateView::Closing => (StateView::Closed, ActionView::Done),
        StateView::Closed => (StateView::Closed, ActionView::Done),
    }
}

/// Executable relay step; its result is exactly `spec_step` on the views.
pub fn step(state: RelayState, event: RelayEvent) -> (r: (RelayState, RelayAction))
    ensures
        (r.0@, r.1@) == spec_step(state@, event@),
{
    match state {
        RelayState::Active => match event {
            RelayEvent::ReadOk { from_inbound, data } => {
                if data.len() > 0 {
                    let ghost d = data@;
                    (
                        RelayState::Writing { to_inbound: !from_inbound, data: Ghost(d) },
                        RelayAction::Write { to_inbound: !from_inbound, data },
                    )
                } else {
                    (RelayState::Closing, RelayAction::Release)
                }
            },
            _ => (RelayState::Closing, RelayAction::Release),
        },
        RelayState::Writing { .. } => match event {
            RelayEvent::WriteOk => (RelayState::Active, RelayAction::AwaitReads),
            _ => (RelayState::Closing, RelayAction::Release),
        },
        RelayState::Closing => (RelayState::Closed, RelayAction::Done),
        RelayState::Closed => (RelayState::Closed, RelayAction::Done),
    }
}

/// The state a tunnel reaches after a sequence of events, starting `Active`.
pub open spec fn run_state(events: Seq<EventView>) -> StateView
    decreases events.len(),
{
    if events.len() == 0 {
        StateView::Active
    } else {
        spec_step(run_state(events.drop_last()), events.last()).0
    }
}

/// The bytes known to be delivered to one side (`to_inbound` picks which)
/// after a sequence of events: a chunk counts once its write completes.
pub open spec fn delivered(events: Seq<EventView>, to_inbound: bool) -> Seq<u8>
    decreases events.len(),
{
    if events.len() == 0 {
        Seq::empty()
    } else {
        let before = delivered(events.drop_last(), to_inbound);
        match run_state(events.drop_last()) {
            StateView::Writing { to_inbound: t, data } => {
                if events.last() == EventView::WriteOk && t == to_inbound {
                    before + data
                } else {
                    before
                }
            },
            _ => before,
        }
    }
}

/// The concatenation of the chunks read from one side (`from_inbound` picks
/// which) whose write to the opposite side completed.
pub open spec fn relayed_reads(events: Seq<EventView>, from_inbound: bool) -> Seq<u8>
    decreases events.len(),
{
    if events.len() == 0 {
        Seq::empty()
    } else {
        let before = relayed_reads(events.drop_last(), from_inbound);
        match run_state(events.drop_last()) {
            StateView::Writing { to_inbound: t, data } => {
                if events.last() == EventView::WriteOk && t == !from_inbound {
                    before + data
                } else {
                    before
                }
            },
            _ => before,
        }
    }
}

/// Byte-exact relay law: whatever the events — any chunk sizes, any
/// interleaving of the two directions, reads of zero bytes, read or write
/// errors, any byte values — the bytes delivered to each side are exactly the
/// relayed chunks read from the opposite side, concatenated in reading order:
/// nothing reordered, nothing altered, nothing merged across directions, and
/// nothing delivered that was not read.
pub proof fn lemma_byte_exact(events: Seq<EventView>)
    ensures
        delivered(events, false) == relayed_reads(events, true),
        delivered(events, true) == relayed_reads(events, false),
    decreases events.len(),
{
    if events.len() > 0 {
        lemma_byte_exact(events.drop_last());
    }
}

/// Isolation law: a tunnel's deliveries are a function of its own events
/// alone. For two concurrent connections, each delivered stream equals the
/// relayed chunks of its own reads, so no byte of one connection can appear
/// on the other, whatever the two event histories are.
pub proof fn lemma_isolation(events_a: Seq<EventView>, events_b: Seq<EventView>)
    ensures
        delivered(events_a, false) == relayed_reads(events_a, true),
        delivered(events_a, true) == relayed_reads(events_a, false),
        delivered(events_b, false) == relayed_reads(events_b, true),
        delivered(events_b, true) == relayed_reads(events_b, false),
{
    lemma_byte_exact(events_a);
    lemma_byte_exact(events_b);
}

/// Once delivered, always delivered: later events only append to a delivered
/// stream, so delivery is order-preserving over time as well.
pub proof fn lemma_delivered_monotone(
    events: Seq<EventView>,
    more: Seq<EventView>,
    to_inbound: bool,
)
    ensures
        delivered(events, to_inbound).is_prefix_of(delivered(events + more, to_inbound)),
    decreases more.len(),
{
    if more.len() == 0 {
        assert(events + more =~= events);
    } else {
        lemma_delivered_monotone(events, more.drop_last(), to_inbound);
        assert((events + more).drop_last() =~= events + more.drop_last());
    }
}

/// Outcome of a modelled relay run: the two delivered streams and the final
/// state.
pub struct RelayOutcome {
    pub to_inbound: Vec<u8>,
    pub to_outbound: Vec<u8>,
    pub state: RelayState,
}

/// Spec-level image of a sequence of owned events.
pub open spec fn views_of(events: Seq<RelayEvent>) -> Seq<EventView> {
    events.map_values(|e: RelayEvent| e@)
}

/// The chunk in flight tracked by the model run matches the `Writing` state.
spec fn pending_matches(state: StateView, pending: Option<(bool, Vec<u8>)>) -> bool {
    match state {
        StateView::Writing { to_inbound, data } => match pending {
            Some(p) => p.0 == to_inbound && p.1@ == data,
            None => false,
        },
        _ => pending is None,
    }
}

/// Model of a whole tunnel: fold the relay over a sequence of events,
/// collecting the bytes each completed write delivers. The surrounding
/// program's relay loop performs the same fold with real streams producing
/// the events.
pub fn run_relay(events: Vec<RelayEvent>) -> (r: RelayOutcome)
    ensures
        r.to_inbound@ == delivered(views_of(events@), true),
        r.to_outbound@ == delivered(views_of(events@), false),
        r.state@ == run_state(views_of(events@)),
{
    let ghost all = events@;
    let mut rest = events;
    let mut state = RelayState::Active;
    let mut pending: Option<(bool, Vec<u8>)> = None;
    let mut to_inbound: Vec<u8> = Vec::new();
    let mut to_outbound: Vec<u8> = Vec::new();
    let ghost mut done: int = 0;
    while rest.len() > 0
        invariant
            0 <= done <= all.len(),
            rest@ == all.skip(done),
            state@ == run_state(views_of(all.take(done))),
            pending_matches(state@, pending),
            to_inbound@ == delivered(views_of(all.take(done)), true),
            to_outbound@ == delivered(views_of(all.take(done)), false),
        decreases rest@.len(),
    {
        let event = rest.remove(0);
        proof {
            assert(all.skip(done)[0] == all[done]);
            assert(rest@ =~= all.skip(done + 1));
            assert(views_of(all.take(done + 1)).drop_last() =~= views_of(all.take(done)));
            assert(views_of(all.take(done + 1)).last() == all[done]@);
        }
        let ghost prev = state@;
        let ghost ev = event@;
        let (next, action) = step(state, event);
        state = next;
        let held = pending;
        pending = None;
        match action {
            RelayAction::AwaitReads => {
                // Only a completed write resumes the read race, so a chunk was
                // in flight and is now fully delivered to its side.
                proof {
                    assert(prev is Writing && ev == EventView::WriteOk);
                }
                match held {
                    Some((t, mut chunk)) => {
                        if t {
                            to_inbound.append(&mut chunk);
                        } else {
                            to_outbound.append(&mut chunk);
                        }
                    },
                    None => {
                        proof {
                            assert(false);
                        }
                    },
                }
            },
            RelayAction::Write { to_inbound: t, data } => {
                pending = Some((t, data));
            },
            RelayAction::Release => {},
            RelayAction::Done => {},
        }
        proof {
            done = done + 1;
        }
    }
    proof {
        assert(all.take(done) =~= all);
    }
    RelayOutcome { to_inbound, to_outbound, state }
}

} // verus!
