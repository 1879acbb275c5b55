//! The durable record of every ticket ever issued and not yet settled.
//!
//! Ticket ids come from a monotonically increasing sequence and are never
//! reused. Each outstanding ticket is either still `Pending` or has `Won` a
//! particular prize; settling a ticket erases its record for good.

use vstd::prelude::*;
use std::collections::HashMap;

use crate::Error;

verus! {

broadcast use vstd::std_specs::hash::group_hash_axioms;

/// The current outcome recorded for an outstanding ticket.
#[derive(Clone, Copy, Debug, PartialEq, Eq, Structural)]
pub enum TicketOutcome {
    /// Still eligible for a draw; redeems for one deposit unit.
    Pending,
    /// Assigned the prize with this id; redeems for that prize.
    Won(u64),
}

pub struct TicketLedger {
    /// The outcome of each outstanding ticket, by ticket id.
    records: HashMap<u32, TicketOutcome>,
    /// The id the next issued ticket will get.
    ticket_seq: u32,
}

impl View for TicketLedger {
    type V = Map<u32, TicketOutcome>;

    /// A ledger is abstractly the map from outstanding ids to outcomes.
    closed spec fn view(&self) -> Map<u32, TicketOutcome> {
        self.records@
    }
}

impl TicketLedger {
    /// The id the next issued ticket will get.
    pub closed spec fn next_id(&self) -> u32 {
        self.ticket_seq
    }

    /// Ids start at 1, and every outstanding id was issued earlier than the
    /// next one will be, so freshly issued ids never collide.
    pub open spec fn wf(&self) -> bool {
        &&& self.next_id() >= 1
        &&& self@.dom().finite()
        &&& forall|id: u32| #[trigger] self@.contains_key(id) ==> 1 <= id < self.next_id()
    }

    pub fn new() -> (ledger: Self)
        ensures
            ledger.wf(),
            ledger@ == Map::<u32, TicketOutcome>::empty(),
            ledger.next_id() == 1,
    {
        TicketLedger { records: HashMap::new(), ticket_seq: 1 }
    }

    /// Allocates the next sequence number and records it as `Pending`.
    pub fn issue(&mut self) -> (id: u32)
        requires
            old(self).wf(),
            old(self).next_id() < u32::MAX,
        ensures
            final(self).wf(),
            id == old(self).next_id(),
            !old(self)@.contains_key(id),
            final(self)@ == old(self)@.insert(id, TicketOutcome::Pending),
            final(self).next_id() == old(self).next_id() + 1,
    {
        let id = self.ticket_seq;
        self.records.insert(id, TicketOutcome::Pending);
        self.ticket_seq = self.ticket_seq + 1;
        id
    }

    /// Marks a still-pending ticket as having won `prize_id`. Fails with
    /// `InvalidState` when the ticket is unknown or not pending, leaving the
    /// ledger unchanged.
    pub fn record_win(&mut self, ticket_id: u32, prize_id: u64) -> (r: Result<(), Error>)
        requires
            old(self).wf(),
        ensures
            final(self).wf(),
            final(self).next_id() == old(self).next_id(),
            old(self)@.contains_key(ticket_id) && old(self)@[ticket_id]
                == TicketOutcome::Pending ==> {
                &&& r == Ok::<(), Error>(())
                &&& final(self)@ == old(self)@.insert(ticket_id, TicketOutcome::Won(prize_id))
            },
            !(old(self)@.contains_key(ticket_id) && old(self)@[ticket_id]
                == TicketOutcome::Pending) ==> {
                &&& r == Err::<(), Error>(Error::InvalidState)
                &&& final(self)@ == old(self)@
            },
    {
        let pending = match self.records.get(&ticket_id) {
            Some(outcome) => *outcome == TicketOutcome::Pending,
            None => false,
        };
        if pending {
            self.records.insert(ticket_id, TicketOutcome::Won(prize_id));
            Ok(())
        } else {
            Err(Error::InvalidState)
        }
    }

    /// Undoes a win: clears the ticket back to `Pending` and returns the
    /// prize id it held. A missing ticket was already settled and fails with
    /// `InvalidState`; a reversal must never be asked of a pending ticket.
    pub fn record_reversal(&mut self, ticket_id: u32) -> (r: Result<u64, Error>)
        requires
            old(self).wf(),
            old(self)@.contains_key(ticket_id) ==> old(self)@[ticket_id] is Won,
        ensures
            final(self).wf(),
            final(self).next_id() == old(self).next_id(),
            old(self)@.contains_key(ticket_id) ==> {
                &&& r == Ok::<u64, Error>(old(self)@[ticket_id]->Won_0)
                &&& final(self)@ == old(self)@.insert(ticket_id, TicketOutcome::Pending)
            },
            !old(self)@.contains_key(ticket_id) ==> {
                &&& r == Err::<u64, Error>(Error::InvalidState)
                &&& final(self)@ == old(self)@
            },
    {
        let won = match self.records.get(&ticket_id) {
            Some(outcome) => match outcome {
                TicketOutcome::Won(prize_id) => Some(*prize_id),
                TicketOutcome::Pending => None,
            },
            None => None,
        };
        match won {
            Some(prize_id) => {
                self.records.insert(ticket_id, TicketOutcome::Pending);
                Ok(prize_id)
            },
            None => Err(Error::InvalidState),
        }
    }

    /// Returns and erases the ticket's record; the id never reappears. An
    /// unknown id returns `None` and changes nothing.
    pub fn settle_and_forget(&mut self, ticket_id: u32) -> (r: Option<TicketOutcome>)
        requires
            old(self).wf(),
        ensures
            final(self).wf(),
            final(self).next_id() == old(self).next_id(),
            old(self)@.contains_key(ticket_id) ==> {
                &&& r == Some(old(self)@[ticket_id])
                &&& final(self)@ == old(self)@.remove(ticket_id)
            },
            !old(self)@.contains_key(ticket_id) ==> {
                &&& r == None::<TicketOutcome>
                &&& final(self)@ == old(self)@
            },
    {
        self.records.remove(&ticket_id)
    }

    /// The outcome currently recorded for the ticket, if it is outstanding.
    pub fn outcome_of(&self, ticket_id: u32) -> (r: Option<TicketOutcome>)
        ensures
            r == if self@.contains_key(ticket_id) {
                Some(self@[ticket_id])
            } else {
                None::<TicketOutcome>
            },
    {
        match self.records.get(&ticket_id) {
            Some(outcome) => Some(*outcome),
            None => None,
        }
    }

    /// The id the next issued ticket will get.
    pub fn next_ticket_id(&self) -> (id: u32)
        ensures
            id == self.next_id(),
    {
        self.ticket_seq
    }

    /// How many tickets are outstanding (pending or won, not yet settled).
    pub fn outstanding(&self) -> (n: usize)
        ensures
            n == self@.dom().len(),
    {
        self.records.len()
    }
}

} // verus!
