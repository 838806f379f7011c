//! Ordered destination failover.
//!
//! One inbound connection is routed to the first destination, in list order,
//! that accepts an outbound connection. `DestinationSelector` is the decision
//! state of that single pass: which index to attempt next, advanced on each
//! failure, until a connect succeeds or the list is exhausted. `run_dial`
//! models a whole pass over a list of per-destination connect outcomes.

use vstd::prelude::*;

verus! {

/// Index of the first successful outcome (`true` means the connect attempt to
/// that destination succeeds), or `None` when every attempt fails.
pub open spec fn first_success(outcomes: Seq<bool>) -> Option<int>
    decreases outcomes.len(),
{
    if outcomes.len() == 0 {
        None
    } else if outcomes[0] {
        Some(0int)
    } else {
        match first_success(outcomes.drop_first()) {
            None => None,
            Some(i) => Some(i + 1),
        }
    }
}

/// `first_success` returns exactly the least index holding `true`.
pub proof fn lemma_first_success(outcomes: Seq<bool>)
    ensures
        match first_success(outcomes) {
            Some(i) => 0 <= i < outcomes.len() && outcomes[i] && (forall|j: int|
                0 <= j < i ==> !outcomes[j]),
            None => forall|j: int| 0 <= j < outcomes.len() ==> !outcomes[j],
        },
    decreases outcomes.len(),
{
    if outcomes.len() > 0 && !outcomes[0] {
        let tail = outcomes.drop_first();
        lemma_first_success(tail);
        assert(forall|j: int| 0 <= j < tail.len() ==> tail[j] == outcomes[j + 1]);
        match first_success(tail) {
            Some(i) => {
                assert(first_success(outcomes) == Some(i + 1));
                assert(outcomes[i + 1] == tail[i]);
                assert forall|j: int| 0 <= j < i + 1 implies !outcomes[j] by {
                    if j > 0 {
                        assert(!tail[j - 1]);
                    }
                }
            },
            None => {
                assert forall|j: int| 0 <= j < outcomes.len() implies !outcomes[j] by {
                    if j > 0 {
                        assert(!tail[j - 1]);
                    }
                }
            },
        }
    }
}

/// The sequence `0, 1, ..., n - 1` of destination indices.
pub open spec fn indices_upto(n: int) -> Seq<usize> {
    Seq::new(n as nat, |k: int| k as usize)
}

/// The indices a dial pass attempts: every index up to and including the first
/// success, or the whole list when every attempt fails.
pub open spec fn spec_attempted(outcomes: Seq<bool>) -> Seq<usize> {
    match first_success(outcomes) {
        Some(i) => indices_upto(i + 1),
        None => indices_upto(outcomes.len() as int),
    }
}

/// The destination a dial pass connects to, if any.
pub open spec fn spec_connected(outcomes: Seq<bool>) -> Option<usize> {
    match first_success(outcomes) {
        Some(i) => Some(i as usize),
        None => None,
    }
}

/// Decision state of one connection's failover pass over a destination list.
///
/// The list itself lives with the caller; the selector only tracks how far the
/// single in-order pass has advanced. It is created fresh for every inbound
/// connection, so no failure observed for an earlier connection can influence
/// a later one.
pub struct DestinationSelector {
    /// Number of destinations in the list; positive.
    count: usize,
    /// Index of the next destination to attempt; `count` once exhausted.
    next: usize,
}

impl DestinationSelector {
    pub closed spec fn wf(self) -> bool {
        0 < self.count && self.next <= self.count
    }

    pub closed spec fn spec_count(self) -> int {
        self.count as int
    }

    pub closed spec fn spec_next(self) -> int {
        self.next as int
    }

    /// A fresh selector for one inbound connection always starts at the first
    /// destination, whatever happened to earlier connections.
    pub fn new(count: usize) -> (s: Self)
        requires
            count >= 1,
        ensures
            s.wf(),
            s.spec_count() == count,
            s.spec_next() == 0,
    {
        DestinationSelector { count, next: 0 }
    }

    /// The destination to attempt now, or `None` when the list is exhausted
    /// and the connection must be reported as `AllFailed`.
    pub fn next_attempt(&self) -> (r: Option<usize>)
        requires
            self.wf(),
        ensures
            self.spec_next() < self.spec_count() ==> r == Some(self.spec_next() as usize),
            self.spec_next() == self.spec_count() ==> r is None,
    {
        if self.next < self.count {
            Some(self.next)
        } else {
            None
        }
    }

    /// Record that the attempt at the current destination failed; the pass
    /// advances to the next destination in list order.
    pub fn record_failure(&mut self)
        requires
            old(self).wf(),
            old(self).spec_next() < old(self).spec_count(),
        ensures
            final(self).wf(),
            final(self).spec_count() == old(self).spec_count(),
            final(self).spec_next() == old(self).spec_next() + 1,
    {
        self.next = self.next + 1;
    }
}

/// Result of one modelled dial pass: the indices attempted, in order, and the
/// destination connected to, if any.
pub struct DialOutcome {
    pub attempted: Vec<usize>,
    pub connected: Option<usize>,
}

/// Model of one connection's failover pass: `outcomes[i]` says whether a
/// connect attempt to destination `i` would succeed. Attempts run strictly in
/// list order; the first success ends the pass at once, so no later
/// destination is ever attempted; when every attempt fails the pass reports no
/// connection, and the caller closes the inbound stream without relaying.
pub fn run_dial(outcomes: &Vec<bool>) -> (r: DialOutcome)
    requires
        outcomes.len() >= 1,
    ensures
        r.attempted@ == spec_attempted(outcomes@),
        r.connected == spec_connected(outcomes@),
{
    let mut selector = DestinationSelector::new(outcomes.len());
    let mut attempted: Vec<usize> = Vec::new();
    let mut connected: Option<usize> = None;
    loop
        invariant_except_break
            selector.wf(),
            selector.spec_count() == outcomes.len(),
            forall|j: int| 0 <= j < selector.spec_next() ==> !outcomes@[j],
            connected is None,
            attempted@ == indices_upto(selector.spec_next()),
        ensures
            attempted@ == spec_attempted(outcomes@),
            connected == spec_connected(outcomes@),
        decreases outcomes.len() - selector.spec_next(),
    {
        match selector.next_attempt() {
            None => {
                proof {
                    lemma_none_of(outcomes@, selector.spec_next());
                }
                break;
            },
            Some(i) => {
                attempted.push(i);
                if outcomes[i] {
                    connected = Some(i);
                    proof {
                        lemma_some_of(outcomes@, i as int);
                        assert(attempted@ =~= indices_upto(i as int + 1));
                    }
                    break;
                } else {
                    selector.record_failure();
                    proof {
                        assert(attempted@ =~= indices_upto(selector.spec_next()));
                    }
                }
            },
        }
    }
    DialOutcome { attempted, connected }
}

/// If no index below `n == outcomes.len()` succeeds, the whole pass fails.
proof fn lemma_none_of(outcomes: Seq<bool>, n: int)
    requires
        n == outcomes.len(),
        forall|j: int| 0 <= j < n ==> !outcomes[j],
    ensures
        first_success(outcomes) is None,
{
    lemma_first_success(outcomes);
    if first_success(outcomes) is Some {
        let i = first_success(outcomes)->Some_0;
        assert(outcomes[i]);
    }
}

/// If index `i` succeeds and no earlier index does, `i` is the first success.
proof fn lemma_some_of(outcomes: Seq<bool>, i: int)
    requires
        0 <= i < outcomes.len(),
        outcomes[i],
        forall|j: int| 0 <= j < i ==> !outcomes[j],
    ensures
        first_success(outcomes) == Some(i),
{
    lemma_first_success(outcomes);
    match first_success(outcomes) {
        None => {
            assert(!outcomes[i]);
        },
        Some(k) => {
            if k < i {
                assert(!outcomes[k]);
            }
            if i < k {
                assert(!outcomes[i]);
            }
        },
    }
}

/// Ordered failover law: when destination `i` is the first reachable one, a
/// dial pass connects to `i` and to nothing else; every destination before `i`
/// is attempted exactly once, in list order, and no destination after `i` is
/// ever attempted (so none of them can receive any bytes).
pub proof fn lemma_ordered_failover(outcomes: Seq<bool>, i: int)
    requires
        0 <= i < outcomes.len(),
        outcomes[i],
        forall|j: int| 0 <= j < i ==> !outcomes[j],
    ensures
        spec_connected(outcomes) == Some(i as usize),
        spec_attempted(outcomes) == indices_upto(i + 1),
        forall|k: int|
            0 <= k < spec_attempted(outcomes).len() ==> #[trigger] spec_attempted(outcomes)[k]
                == k as usize && k <= i,
{
    lemma_some_of(outcomes, i);
}

/// All-unreachable law: when every destination is unreachable, the pass
/// attempts each one once, in order, and connects to none, so the inbound
/// connection is closed without any tunnel being created.
pub proof fn lemma_all_unreachable(outcomes: Seq<bool>)
    requires
        forall|j: int| 0 <= j < outcomes.len() ==> !outcomes[j],
    ensures
        spec_connected(outcomes) is None,
        spec_attempted(outcomes) == indices_upto(outcomes.len() as int),
{
    lemma_none_of(outcomes, outcomes.len() as int);
}

/// Per-connection independence law: each inbound connection dials from a fresh
/// selector, so the pass over `now` is untouched by any earlier pass. In
/// particular, when the first destination has become reachable it is attempted
/// first and wins at once, whatever `prior` outcomes an earlier connection saw
/// for the same list.
pub proof fn lemma_fresh_start(prior: Seq<bool>, now: Seq<bool>)
    requires
        now.len() >= 1,
        now[0],
    ensures
        spec_connected(now) == Some(0usize),
        spec_attempted(now) == indices_upto(1),
{
    lemma_some_of(now, 0);
}

} // verus!
