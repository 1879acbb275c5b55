//! The dense pool of tickets that are still eligible for a draw.
//!
//! The pool keeps two mappings that are inverses of each other: a dense
//! array mapping each slot in `[0, count)` to a ticket id, and a hash map
//! mapping each pooled ticket id back to its slot. Insertion appends at the
//! end; removal relocates the last slot into the vacated one, so both
//! operations run in constant time and the slots never have a gap.

use vstd::prelude::*;
use vstd::seq_lib::*;
use std::collections::HashMap;

use crate::Error;

verus! {

broadcast use vstd::std_specs::hash::group_hash_axioms;

/// The number of slots a pool can hold: slot indices must fit in `u16`.
pub const POOL_CAPACITY: usize = 65535;

pub struct TicketPool {
    /// Maps each slot in `[0, count)` to the ticket id stored there.
    slots: Vec<u32>,
    /// Maps each pooled ticket id back to its slot.
    index_of: HashMap<u32, u16>,
}

impl View for TicketPool {
    type V = Seq<u32>;

    /// A pool is abstractly the sequence of ticket ids by slot.
    closed spec fn view(&self) -> Seq<u32> {
        self.slots@
    }
}

impl TicketPool {
    /// Both mappings agree: every occupied slot's id maps back to that slot,
    /// and every id in the reverse map sits in the slot recorded for it.
    pub closed spec fn wf(&self) -> bool {
        &&& self.slots@.len() <= POOL_CAPACITY
        &&& forall|i: int|
            0 <= i < self.slots@.len() ==> {
                &&& self.index_of@.contains_key(#[trigger] self.slots@[i])
                &&& self.index_of@[self.slots@[i]] == i as u16
            }
        &&& forall|id: u32|
            #[trigger] self.index_of@.contains_key(id) ==> {
                &&& (self.index_of@[id] as int) < self.slots@.len()
                &&& self.slots@[self.index_of@[id] as int] == id
            }
    }

    /// In a well-formed pool no ticket occupies two slots, so `count` is
    /// exactly the number of distinct ids currently inserted.
    pub proof fn lemma_wf_distinct(&self)
        requires
            self.wf(),
        ensures
            self@.no_duplicates(),
            self@.to_set().len() == self@.len(),
            self@.len() <= POOL_CAPACITY,
    {
        assert forall|i: int, j: int|
            0 <= i < self@.len() && 0 <= j < self@.len() && i != j implies self@[i]
            != self@[j] by {
            assert(self.index_of@[self.slots@[i]] == i as u16);
            assert(self.index_of@[self.slots@[j]] == j as u16);
        }
        self@.unique_seq_to_set();
    }

    pub fn new() -> (pool: Self)
        ensures
            pool.wf(),
            pool@ == Seq::<u32>::empty(),
    {
        TicketPool { slots: Vec::new(), index_of: HashMap::new() }
    }

    pub fn len(&self) -> (n: usize)
        ensures
            n == self@.len(),
    {
        self.slots.len()
    }

    /// Whether `ticket_id` currently occupies a slot.
    pub fn contains(&self, ticket_id: u32) -> (present: bool)
        requires
            self.wf(),
        ensures
            present == self@.contains(ticket_id),
    {
        let present = self.index_of.contains_key(&ticket_id);
        proof {
            if present {
                assert(self@[self.index_of@[ticket_id] as int] == ticket_id);
            } else if self@.contains(ticket_id) {
                let i = choose|i: int| 0 <= i < self@.len() && self@[i] == ticket_id;
                assert(self.index_of@.contains_key(self@[i]));
            }
        }
        present
    }

    /// Appends the ticket at slot `count`. The caller guarantees the id is
    /// fresh, so insertion cannot fail.
    pub fn add(&mut self, ticket_id: u32)
        requires
            old(self).wf(),
            !old(self)@.contains(ticket_id),
            old(self)@.len() < POOL_CAPACITY,
        ensures
            final(self).wf(),
            final(self)@ == old(self)@.push(ticket_id),
    {
        let idx = self.slots.len() as u16;
        self.slots.push(ticket_id);
        self.index_of.insert(ticket_id, idx);
        proof {
            assert forall|i: int| 0 <= i < self.slots@.len() implies {
                &&& self.index_of@.contains_key(#[trigger] self.slots@[i])
                &&& self.index_of@[self.slots@[i]] == i as u16
            } by {
                if i < old(self).slots@.len() {
                    assert(old(self).slots@[i] != ticket_id);
                }
            }
        }
    }

    /// Removes the ticket from its slot; if that slot is not the last one,
    /// the ticket from the last slot is relocated into it. Fails with
    /// `NotInPool` when the id occupies no slot, leaving the pool unchanged.
    pub fn remove(&mut self, ticket_id: u32) -> (r: Result<(), Error>)
        requires
            old(self).wf(),
        ensures
            final(self).wf(),
            old(self)@.contains(ticket_id) ==> {
                &&& r == Ok::<(), Error>(())
                &&& final(self)@.len() == old(self)@.len() - 1
                &&& final(self)@.to_set() == old(self)@.to_set().remove(ticket_id)
                &&& exists|i: int|
                    {
                        &&& 0 <= i < old(self)@.len()
                        &&& old(self)@[i] == ticket_id
                        &&& final(self)@ == old(self)@.update(i, old(self)@.last()).drop_last()
                    }
            },
            !old(self)@.contains(ticket_id) ==> {
                &&& r == Err::<(), Error>(Error::NotInPool)
                &&& final(self)@ == old(self)@
            },
    {
        proof {
            self.lemma_wf_distinct();
        }
        let idx_ref = self.index_of.get(&ticket_id);
        match idx_ref {
            None => {
                proof {
                    if self@.contains(ticket_id) {
                        let i = choose|i: int| 0 <= i < self@.len() && self@[i] == ticket_id;
                        assert(self.index_of@.contains_key(self@[i]));
                    }
                }
                Err(Error::NotInPool)
            },
            Some(idx_ref) => {
                let idx: u16 = *idx_ref;
                proof {
                    assert(self.slots@[idx as int] == ticket_id);
                }
                let idx = idx as usize;
                self.index_of.remove(&ticket_id);
                let moved = self.slots.swap_remove(idx);
                if idx < self.slots.len() {
                    // The id from the last slot now sits in the vacated slot.
                    let relocated = self.slots[idx];
                    self.index_of.insert(relocated, idx as u16);
                    proof {
                        assert(relocated == old(self)@.last());
                        assert(relocated != ticket_id);
                    }
                }
                proof {
                    let ghost s0 = old(self)@;
                    let ghost s1 = self@;
                    assert(s1 == s0.update(idx as int, s0.last()).drop_last());
                    assert forall|i: int| 0 <= i < s1.len() implies {
                        &&& self.index_of@.contains_key(#[trigger] s1[i])
                        &&& self.index_of@[s1[i]] == i as u16
                    } by {
                        assert(s1[i] == if i == idx { s0.last() } else { s0[i] });
                        assert(s0[i] != ticket_id || i == idx);
                    }
                    assert forall|id: u32| #[trigger]
                        self.index_of@.contains_key(id) implies {
                        &&& (self.index_of@[id] as int) < s1.len()
                        &&& s1[self.index_of@[id] as int] == id
                    } by {
                        if id != ticket_id && id != s0.last() {
                            assert(self.index_of@[id] == old(self).index_of@[id]);
                            assert(s0[self.index_of@[id] as int] == id);
                            assert(self.index_of@[id] as int != idx as int);
                            assert(self.index_of@[id] as int != s0.len() - 1);
                        }
                    }
                    crate::lemma_swap_remove_distinct(s0, idx as int);
                }
                Ok(())
            },
        }
    }

    /// Returns the ticket id at slot `ordinal`. Fails with `EmptyPool` when
    /// no slot holds that ordinal, which the draw logic never requests.
    pub fn pick(&self, ordinal: u16) -> (r: Result<u32, Error>)
        ensures
            (ordinal as int) < self@.len() ==> r == Ok::<u32, Error>(self@[ordinal as int]),
            (ordinal as int) >= self@.len() ==> r == Err::<u32, Error>(Error::EmptyPool),
    {
        if (ordinal as usize) < self.slots.len() {
            Ok(self.slots[ordinal as usize])
        } else {
            Err(Error::EmptyPool)
        }
    }
}

} // verus!
