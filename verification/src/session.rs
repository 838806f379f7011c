//! One handled connection, whole: a failover pass over the destination list,
//! then — only when some destination accepted — a tunnel over the two
//! streams. When every destination is unreachable the inbound connection is
//! closed without any tunnel, so nothing is relayed in either direction.

use vstd::prelude::*;

use crate::failover::{run_dial, spec_attempted, spec_connected};
use crate::relay::{delivered, run_relay, views_of, EventView, RelayEvent};

verus! {

/// What one handled connection delivers to each side: what its tunnel run
/// delivers, and nothing at all when no destination was reachable.
pub open spec fn session_delivered(
    outcomes: Seq<bool>,
    events: Seq<EventView>,
    to_inbound: bool,
) -> Seq<u8> {
    if spec_connected(outcomes) is Some {
        delivered(events, to_inbound)
    } else {
        Seq::empty()
    }
}

/// All-unreachable law, whole-connection form: when every destination is
/// unreachable no tunnel exists, so zero bytes are transferred in either
/// direction, whatever events the streams could have produced.
pub proof fn lemma_all_unreachable_no_transfer(outcomes: Seq<bool>, events: Seq<EventView>)
    requires
        forall|j: int| 0 <= j < outcomes.len() ==> !outcomes[j],
    ensures
        session_delivered(outcomes, events, true) == Seq::<u8>::empty(),
        session_delivered(outcomes, events, false) == Seq::<u8>::empty(),
{
    crate::failover::lemma_all_unreachable(outcomes);
}

/// Result of one modelled connection: the dial pass and the delivered bytes.
pub struct SessionOutcome {
    pub attempted: Vec<usize>,
    pub connected: Option<usize>,
    pub to_inbound: Vec<u8>,
    pub to_outbound: Vec<u8>,
}

/// Model of one whole handled connection: dial the destinations in order;
/// on the first success run the tunnel over the relay events; on total
/// failure close the inbound stream with nothing transferred.
pub fn run_session(outcomes: &Vec<bool>, events: Vec<RelayEvent>) -> (r: SessionOutcome)
    requires
        outcomes.len() >= 1,
    ensures
        r.attempted@ == spec_attempted(outcomes@),
        r.connected == spec_connected(outcomes@),
        r.to_inbound@ == session_delivered(outcomes@, views_of(events@), true),
        r.to_outbound@ == session_delivered(outcomes@, views_of(events@), false),
{
    let dial = run_dial(outcomes);
    match dial.connected {
        Some(i) => {
            let relay = run_relay(events);
            SessionOutcome {
                attempted: dial.attempted,
                connected: Some(i),
                to_inbound: relay.to_inbound,
                to_outbound: relay.to_outbound,
            }
        },
        None => SessionOutcome {
            attempted: dial.attempted,
            connected: None,
            to_inbound: Vec::new(),
            to_outbound: Vec::new(),
        },
    }
}

} // verus!
