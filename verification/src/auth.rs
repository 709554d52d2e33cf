//! The authorization gate: the process-wide register of pending PIN
//! confirmations.
//!
//! Every sensitive operation first registers a request here and then
//! suspends until the prompt resolves it. Requests are queued and served
//! strictly one at a time, oldest first: only the front of the queue is
//! ever visible to the prompt, and resolving delivers the prompt's
//! verdict to exactly that request. (Replacing a pending request with a
//! newer one — so that two callers share one verdict — is deliberately
//! not possible here; queueing serves each caller its own verdict.)
//!
//! A request is identified by a ticket. The unverified driver parks each
//! suspended caller under its ticket and wakes it when `resolve` hands
//! the ticket back; a caller whose responder is dropped without a
//! verdict is woken with `false`.

use vstd::prelude::*;

verus! {

/// Process-wide single-service queue of pending authorization requests.
#[derive(Debug)]
pub struct AuthGate {
    next_ticket: u64,
    queue: Vec<u64>,
}

impl AuthGate {
    /// The tickets of the requests still awaiting a verdict, oldest
    /// first.
    pub closed spec fn pending(&self) -> Seq<u64> {
        self.queue@
    }

    /// How many tickets have ever been issued; also the next ticket.
    pub closed spec fn issued(&self) -> u64 {
        self.next_ticket
    }

    /// Tickets are never repeated, and only issued ones are queued.
    pub open spec fn wf(&self) -> bool {
        &&& self.pending().no_duplicates()
        &&& forall|i: int| 0 <= i < self.pending().len() ==> self.pending()[i] < self.issued()
    }

    /// The one request the prompt may see: the front of the queue.
    pub open spec fn visible(&self) -> Option<u64> {
        if self.pending().len() > 0 {
            Some(self.pending()[0])
        } else {
            None
        }
    }

    /// A fresh gate with nothing pending.
    pub fn new() -> (g: AuthGate)
        ensures
            g.pending() == Seq::<u64>::empty(),
            g.issued() == 0,
            g.wf(),
    {
        AuthGate { next_ticket: 0, queue: Vec::new() }
    }

    /// Register a new authorization request and return its ticket. The
    /// request joins the back of the queue; earlier requests keep their
    /// place, so a new request never disturbs the one the prompt shows.
    pub fn request_confirmation(&mut self) -> (t: u64)
        requires
            old(self).wf(),
            old(self).issued() < u64::MAX,
        ensures
            t == old(self).issued(),
            !old(self).pending().contains(t),
            final(self).pending() == old(self).pending().push(t),
            final(self).issued() == old(self).issued() + 1,
            final(self).wf(),
    {
        let t = self.next_ticket;
        self.queue.push(t);
        self.next_ticket = self.next_ticket + 1;
        proof {
            assert(!old(self).pending().contains(t));
            assert(self.pending().no_duplicates()) by {
                assert(forall|i: int, j: int|
                    0 <= i < j < self.pending().len() ==> self.pending()[i]
                        != self.pending()[j]);
            }
        }
        t
    }

    /// The ticket of the request the prompt should display, if any.
    pub fn current(&self) -> (t: Option<u64>)
        ensures
            t == self.visible(),
    {
        if self.queue.len() > 0 {
            Some(self.queue[0])
        } else {
            None
        }
    }

    /// Deliver the prompt's verdict. The visible request — and only it —
    /// is consumed and receives exactly `accepted`: resolving with
    /// `false` can never unblock a caller with `true`. With nothing
    /// pending this is a no-op, so a stale prompt callback is harmless.
    pub fn resolve(&mut self, accepted: bool) -> (r: Option<(u64, bool)>)
        requires
            old(self).wf(),
        ensures
            final(self).wf(),
            final(self).issued() == old(self).issued(),
            old(self).visible() is None ==> r is None && final(self).pending() == old(self).pending(),
            old(self).visible() matches Some(t) ==> r == Some((t, accepted))
                && final(self).pending() == old(self).pending().drop_first(),
    {
        if self.queue.len() == 0 {
            return None;
        }
        let t = self.queue.remove(0);
        proof {
            assert(self.pending() =~= old(self).pending().drop_first());
            assert(self.pending().no_duplicates()) by {
                assert(forall|i: int, j: int|
                    0 <= i < j < self.pending().len() ==> self.pending()[i]
                        != self.pending()[j]);
            }
        }
        Some((t, accepted))
    }

    /// Law: at any instant at most one request is visible as pending —
    /// whatever two observations of the visible request yield, they
    /// yield the same ticket.
    pub proof fn lemma_at_most_one_visible(g: &AuthGate, t1: u64, t2: u64)
        requires
            g.visible() == Some(t1),
            g.visible() == Some(t2),
        ensures
            t1 == t2,
    {
    }
}

} // verus!
