//! The raffle engine: deposits, randomized draws, melts and withdrawals.
//!
//! The engine owns the ticket ledger, the pool of still-eligible tickets,
//! the melt queue and the two custody balances: `water` (whole deposit
//! units awaiting conversion or refund) and `ice` (prize ids awaiting claim
//! or reversal). The asset movements themselves, resource minting and the
//! randomness request channel are external collaborators; the engine tracks
//! what they hold on its behalf and decides every outcome.

use vstd::prelude::*;
use vstd::seq_lib::*;
use vstd::set_lib::*;

use crate::Error;
use crate::SUBUNITS_PER_UNIT;
use crate::ledger::TicketLedger;
use crate::ledger::TicketOutcome;
use crate::pool::POOL_CAPACITY;
use crate::pool::TicketPool;
use crate::rng;

verus! {

/// The map that records every id of `ids` as pending.
pub open spec fn pending_map(ids: Seq<u32>) -> Map<u32, TicketOutcome> {
    Map::new(|id: u32| ids.contains(id), |id: u32| TicketOutcome::Pending)
}

/// The prize ids that `ids` hold under `tickets`, in order; ids that are
/// not outstanding or still pending contribute nothing.
pub open spec fn prizes_of(ids: Seq<u32>, tickets: Map<u32, TicketOutcome>) -> Seq<u64>
    decreases ids.len(),
{
    if ids.len() == 0 {
        Seq::empty()
    } else {
        let rest = prizes_of(ids.drop_last(), tickets);
        if tickets.contains_key(ids.last()) && tickets[ids.last()] is Won {
            rest.push(tickets[ids.last()]->Won_0)
        } else {
            rest
        }
    }
}

/// How many of `ids` are still pending under `tickets`.
pub open spec fn pending_count(ids: Seq<u32>, tickets: Map<u32, TicketOutcome>) -> int
    decreases ids.len(),
{
    if ids.len() == 0 {
        0
    } else {
        pending_count(ids.drop_last(), tickets) + if tickets.contains_key(ids.last())
            && tickets[ids.last()] == TicketOutcome::Pending {
            1int
        } else {
            0int
        }
    }
}

/// The ids of `queue` whose ticket is still outstanding, in order.
pub open spec fn revivable_ids(queue: Seq<u32>, tickets: Map<u32, TicketOutcome>) -> Seq<u32>
    decreases queue.len(),
{
    if queue.len() == 0 {
        Seq::empty()
    } else {
        let rest = revivable_ids(queue.drop_last(), tickets);
        if tickets.contains_key(queue.last()) {
            rest.push(queue.last())
        } else {
            rest
        }
    }
}

/// Every prize collected from `ids` is the recorded win of one of them.
proof fn lemma_prizes_of_membership(ids: Seq<u32>, t: Map<u32, TicketOutcome>, p: u64)
    requires
        prizes_of(ids, t).contains(p),
    ensures
        exists|k: int|
            0 <= k < ids.len() && t.contains_key(#[trigger] ids[k]) && t[ids[k]]
                == TicketOutcome::Won(p),
    decreases ids.len(),
{
    let rest = prizes_of(ids.drop_last(), t);
    if t.contains_key(ids.last()) && t[ids.last()] is Won {
        let whole = rest.push(t[ids.last()]->Won_0);
        let j = choose|j: int| 0 <= j < whole.len() && whole[j] == p;
        if j < rest.len() {
            assert(rest.contains(p));
            lemma_prizes_of_membership(ids.drop_last(), t, p);
            let k = choose|k: int|
                0 <= k < ids.drop_last().len() && t.contains_key(#[trigger] ids.drop_last()[k])
                    && t[ids.drop_last()[k]] == TicketOutcome::Won(p);
            assert(ids[k] == ids.drop_last()[k]);
        } else {
            assert(ids[ids.len() - 1] == ids.last());
        }
    } else {
        lemma_prizes_of_membership(ids.drop_last(), t, p);
        let k = choose|k: int|
            0 <= k < ids.drop_last().len() && t.contains_key(#[trigger] ids.drop_last()[k])
                && t[ids.drop_last()[k]] == TicketOutcome::Won(p);
        assert(ids[k] == ids.drop_last()[k]);
    }
}

/// A queue whose every entry was already settled yields nothing to revive
/// and no prize to reverse.
proof fn lemma_settled_queue_revives_nothing(ids: Seq<u32>, t: Map<u32, TicketOutcome>)
    requires
        forall|k: int| 0 <= k < ids.len() ==> !t.contains_key(#[trigger] ids[k]),
    ensures
        revivable_ids(ids, t) == Seq::<u32>::empty(),
        prizes_of(ids, t) == Seq::<u64>::empty(),
    decreases ids.len(),
{
    if ids.len() > 0 {
        assert(forall|k: int|
            0 <= k < ids.drop_last().len() ==> #[trigger] ids.drop_last()[k] == ids[k]);
        lemma_settled_queue_revives_nothing(ids.drop_last(), t);
        assert(ids[ids.len() - 1] == ids.last());
    }
}

/// Recording one more ticket as pending extends the pending overlay by it.
proof fn lemma_pending_map_push(t: Map<u32, TicketOutcome>, ids: Seq<u32>, id: u32)
    ensures
        t.union_prefer_right(pending_map(ids)).insert(id, TicketOutcome::Pending)
            == t.union_prefer_right(pending_map(ids.push(id))),
{
    assert(ids.push(id).contains(id)) by {
        assert(ids.push(id)[ids.len() as int] == id);
    }
    assert forall|k: u32| #[trigger] ids.contains(k) implies ids.push(id).contains(k) by {
        let j = choose|j: int| 0 <= j < ids.len() && ids[j] == k;
        assert(ids.push(id)[j] == k);
    }
    assert forall|k: u32| #[trigger] ids.push(id).contains(k) && k != id implies ids.contains(
        k,
    ) by {
        let j = choose|j: int| 0 <= j < ids.push(id).len() && ids.push(id)[j] == k;
        assert(j < ids.len());
        assert(ids[j] == k);
    }
    assert(t.union_prefer_right(pending_map(ids)).insert(id, TicketOutcome::Pending)
        =~= t.union_prefer_right(pending_map(ids.push(id))));
}

/// A ticket that is still pending is worth exactly one unit of refund and
/// no prize when surrendered on its own: a deposit of `A` whole units, all
/// of whose tickets stay pending, is refunded unit for unit.
pub proof fn lemma_pending_ticket_refund(t: Map<u32, TicketOutcome>, id: u32)
    requires
        t.contains_key(id),
        t[id] == TicketOutcome::Pending,
    ensures
        pending_count(seq![id], t) == 1,
        prizes_of(seq![id], t) == Seq::<u64>::empty(),
{
    assert(seq![id].drop_last() =~= Seq::<u32>::empty());
    assert(seq![id].last() == id);
    assert(pending_count(Seq::<u32>::empty(), t) == 0);
    assert(prizes_of(Seq::<u32>::empty(), t) == Seq::<u64>::empty());
}

pub struct IceRandomizer {
    /// The record of every outstanding ticket.
    ledger: TicketLedger,
    /// The tickets still eligible for a draw.
    pool: TicketPool,
    /// Tickets whose win is provisional and awaits reversal.
    melt_list: Vec<u32>,
    /// Whole deposit units held in custody.
    water_units: u32,
    /// Prize ids held in custody.
    ice: Vec<u64>,
}

impl IceRandomizer {
    /// The outcome recorded for each outstanding ticket.
    pub closed spec fn tickets(&self) -> Map<u32, TicketOutcome> {
        self.ledger@
    }

    /// The still-eligible tickets, by pool slot.
    pub closed spec fn pool_ids(&self) -> Seq<u32> {
        self.pool@
    }

    /// The tickets flagged for reversal, in insertion order.
    pub closed spec fn melt_queue(&self) -> Seq<u32> {
        self.melt_list@
    }

    /// Whole deposit units held in custody.
    pub closed spec fn water(&self) -> u32 {
        self.water_units
    }

    /// The prize ids held in custody.
    pub closed spec fn ice_custody(&self) -> Seq<u64> {
        self.ice@
    }

    /// The id the next issued ticket will get.
    pub closed spec fn next_ticket(&self) -> u32 {
        self.ledger.next_id()
    }

    /// Some outstanding ticket has won the prize `p`.
    pub open spec fn prize_backed(&self, p: u64) -> bool {
        exists|w: u32|
            #[trigger] self.tickets().contains_key(w) && self.tickets()[w] == TicketOutcome::Won(p)
    }

    /// The engine's invariant.
    ///
    /// The pool holds exactly the pending tickets and the deposit custody
    /// holds one unit for each of them; every melt-queue entry is distinct
    /// and, while its ticket is outstanding, that ticket has won; the prize
    /// custody holds exactly the prizes won by outstanding tickets, each
    /// won by exactly one of them.
    pub closed spec fn wf(&self) -> bool {
        &&& self.ledger.wf()
        &&& self.pool.wf()
        &&& self.tickets().dom().len() <= POOL_CAPACITY
        &&& forall|id: u32| #[trigger]
            self.pool_ids().contains(id) ==> self.tickets().contains_key(id) && self.tickets()[id]
                == TicketOutcome::Pending
        &&& forall|id: u32| #[trigger]
            self.tickets().contains_key(id) && self.tickets()[id] == TicketOutcome::Pending
                ==> self.pool_ids().contains(id)
        &&& self.water() == self.pool_ids().len()
        &&& self.melt_queue().no_duplicates()
        &&& forall|i: int|
            0 <= i < self.melt_queue().len() ==> (self.tickets().contains_key(
                #[trigger] self.melt_queue()[i],
            ) ==> self.tickets()[self.melt_queue()[i]] is Won)
        &&& forall|i: int|
            0 <= i < self.melt_queue().len() ==> #[trigger] self.melt_queue()[i]
                < self.next_ticket()
        &&& self.ice_custody().no_duplicates()
        &&& forall|i: int|
            0 <= i < self.ice_custody().len() ==> self.prize_backed(#[trigger] self.ice_custody()[i])
        &&& forall|id: u32| #[trigger]
            self.tickets().contains_key(id) && self.tickets()[id] is Won
                ==> self.ice_custody().contains(self.tickets()[id]->Won_0)
        &&& forall|id1: u32, id2: u32|
            #![trigger self.tickets()[id1], self.tickets()[id2]]
            self.tickets().contains_key(id1) && self.tickets().contains_key(id2) && id1 != id2
                && self.tickets()[id1] is Won && self.tickets()[id2] is Won ==> self.tickets()[id1]
                != self.tickets()[id2]
    }

    /// A fresh engine: nothing issued, nothing pooled, nothing in custody.
    pub fn instantiate() -> (engine: Self)
        ensures
            engine.wf(),
            engine.tickets() == Map::<u32, TicketOutcome>::empty(),
            engine.pool_ids() == Seq::<u32>::empty(),
            engine.melt_queue() == Seq::<u32>::empty(),
            engine.water() == 0,
            engine.ice_custody() == Seq::<u64>::empty(),
            engine.next_ticket() == 1,
    {
        let engine = IceRandomizer {
            ledger: TicketLedger::new(),
            pool: TicketPool::new(),
            melt_list: Vec::new(),
            water_units: 0,
            ice: Vec::new(),
        };
        proof {
            assert(engine.tickets().dom() =~= Set::<u32>::empty());
        }
        engine
    }

    /// Splits a subunit amount into whole units and fractional remainder.
    pub fn split_int_and_fraction(amount_subunits: u128) -> (r: (u128, u128))
        ensures
            r.0 == amount_subunits / SUBUNITS_PER_UNIT,
            r.1 == amount_subunits % SUBUNITS_PER_UNIT,
    {
        (amount_subunits / SUBUNITS_PER_UNIT, amount_subunits % SUBUNITS_PER_UNIT)
    }

    /// Issuing a fresh ticket as pending, adding it to the pool and backing
    /// it by one custody unit preserves the engine invariant.
    proof fn lemma_wf_after_deposit_step(pre: Self, post: Self, id: u32)
        requires
            pre.wf(),
            pre.tickets().dom().len() < POOL_CAPACITY,
            id == pre.next_ticket(),
            post.ledger.wf(),
            post.pool.wf(),
            post.tickets() == pre.tickets().insert(id, TicketOutcome::Pending),
            post.pool_ids() == pre.pool_ids().push(id),
            post.melt_queue() == pre.melt_queue(),
            post.ice_custody() == pre.ice_custody(),
            post.water() == pre.water() + 1,
            post.next_ticket() == pre.next_ticket() + 1,
        ensures
            post.wf(),
    {
        assert(!pre.tickets().contains_key(id));
        assert(post.tickets().dom() == pre.tickets().dom().insert(id));
        assert(post.tickets().dom().len() == pre.tickets().dom().len() + 1);
        assert forall|x: u32| pre.pool_ids().contains(x) implies post.pool_ids().contains(x) by {
            let j = choose|j: int| 0 <= j < pre.pool_ids().len() && pre.pool_ids()[j] == x;
            assert(post.pool_ids()[j] == x);
        }
        assert(post.pool_ids().contains(id)) by {
            assert(post.pool_ids()[post.pool_ids().len() - 1] == id);
        }
        assert forall|x: u32| #[trigger] post.pool_ids().contains(x) implies
            post.tickets().contains_key(x) && post.tickets()[x] == TicketOutcome::Pending by {
            if x != id {
                let j = choose|j: int| 0 <= j < post.pool_ids().len() && post.pool_ids()[j] == x;
                assert(j < pre.pool_ids().len());
                assert(pre.pool_ids()[j] == x);
                assert(pre.pool_ids().contains(x));
            }
        }
        assert forall|x: u32| #[trigger]
            post.tickets().contains_key(x) && post.tickets()[x]
            == TicketOutcome::Pending implies post.pool_ids().contains(x) by {
            if x != id {
                assert(pre.pool_ids().contains(x));
            }
        }
        assert forall|i: int|
            0 <= i < post.ice_custody().len() implies post.prize_backed(
            post.ice_custody()[i],
        ) by {
            assert(pre.prize_backed(pre.ice_custody()[i]));
            let w = choose|w: u32|
                #[trigger] pre.tickets().contains_key(w) && pre.tickets()[w]
                    == TicketOutcome::Won(pre.ice_custody()[i]);
            assert(post.tickets().contains_key(w) && post.tickets()[w] == TicketOutcome::Won(
                post.ice_custody()[i],
            ));
        }
    }

    /// The whole units a subunit amount is worth.
    pub open spec fn units_of(amount_subunits: u128) -> int {
        (amount_subunits / SUBUNITS_PER_UNIT) as int
    }

    /// Accepts a deposit of a whole number of units and issues one ticket
    /// per unit, each freshly numbered, pending, and eligible for a draw.
    /// A fractional amount is rejected whole: `FractionalDeposit`, and
    /// nothing changes.
    pub fn deposit(&mut self, amount_subunits: u128) -> (r: Result<Vec<u32>, Error>)
        requires
            old(self).wf(),
            amount_subunits % SUBUNITS_PER_UNIT == 0 ==> {
                &&& old(self).tickets().dom().len() + Self::units_of(amount_subunits)
                    <= POOL_CAPACITY
                &&& old(self).next_ticket() + Self::units_of(amount_subunits) <= u32::MAX
            },
        ensures
            final(self).wf(),
            amount_subunits % SUBUNITS_PER_UNIT != 0 ==> {
                &&& r == Err::<Vec<u32>, Error>(Error::FractionalDeposit)
                &&& final(self).tickets() == old(self).tickets()
                &&& final(self).pool_ids() == old(self).pool_ids()
                &&& final(self).melt_queue() == old(self).melt_queue()
                &&& final(self).water() == old(self).water()
                &&& final(self).ice_custody() == old(self).ice_custody()
                &&& final(self).next_ticket() == old(self).next_ticket()
            },
            amount_subunits % SUBUNITS_PER_UNIT == 0 ==> {
                &&& r is Ok
                &&& r->Ok_0@.len() == Self::units_of(amount_subunits)
                &&& forall|k: int|
                    0 <= k < r->Ok_0@.len() ==> #[trigger] r->Ok_0@[k] == old(self).next_ticket()
                        + k
                &&& final(self).next_ticket() == old(self).next_ticket() + Self::units_of(
                    amount_subunits,
                )
                &&& final(self).tickets() == old(self).tickets().union_prefer_right(
                    pending_map(r->Ok_0@),
                )
                &&& final(self).tickets().dom().len() == old(self).tickets().dom().len()
                    + Self::units_of(amount_subunits)
                &&& final(self).pool_ids() == old(self).pool_ids() + r->Ok_0@
                &&& final(self).water() == old(self).water() + Self::units_of(amount_subunits)
                &&& final(self).melt_queue() == old(self).melt_queue()
                &&& final(self).ice_custody() == old(self).ice_custody()
            },
    {
        let (quotient, remainder) = Self::split_int_and_fraction(amount_subunits);
        if remainder != 0 {
            return Err(Error::FractionalDeposit);
        }
        let units = quotient as u32;
        let mut ids: Vec<u32> = Vec::new();
        let mut i: u32 = 0;
        while i < units
            invariant
                self.wf(),
                old(self).wf(),
                i <= units,
                units == Self::units_of(amount_subunits),
                old(self).tickets().dom().len() + units <= POOL_CAPACITY,
                old(self).next_ticket() + units <= u32::MAX,
                ids@.len() == i,
                forall|k: int|
                    0 <= k < i ==> #[trigger] ids@[k] == old(self).next_ticket() + k,
                self.next_ticket() == old(self).next_ticket() + i,
                self.tickets() == old(self).tickets().union_prefer_right(pending_map(ids@)),
                self.tickets().dom().len() == old(self).tickets().dom().len() + i,
                self.pool_ids() == old(self).pool_ids() + ids@,
                self.water() == old(self).water() + i,
                self.melt_queue() == old(self).melt_queue(),
                self.ice_custody() == old(self).ice_custody(),
            decreases units - i,
        {
            proof {
                self.pool.lemma_wf_distinct();
                assert(self.pool_ids().to_set().subset_of(self.tickets().dom())) by {
                    assert forall|x: u32|
                        self.pool_ids().to_set().contains(x) implies self.tickets().dom().contains(
                        x,
                    ) by {
                        assert(self.pool_ids().contains(x));
                    }
                }
                lemma_len_subset(self.pool_ids().to_set(), self.tickets().dom());
            }
            let ghost pre = *self;
            let ghost prev_ids = ids@;
            let id = self.ledger.issue();
            self.pool.add(id);
            self.water_units = self.water_units + 1;
            ids.push(id);
            i = i + 1;
            proof {
                assert(ids@ == prev_ids.push(id));
                lemma_pending_map_push(old(self).tickets(), prev_ids, id);
                assert(self.tickets() == pre.tickets().insert(id, TicketOutcome::Pending));
                assert(self.tickets().dom() == pre.tickets().dom().insert(id));
                Seq::push_distributes_over_add(old(self).pool_ids(), prev_ids, id);
                Self::lemma_wf_after_deposit_step(pre, *self, id);
            }
        }
        Ok(ids)
    }

    /// Settling a still-pending ticket removes it from the ledger and the
    /// pool and refunds its custody unit, preserving the engine invariant.
    proof fn lemma_wf_after_settle_pending(pre: Self, post: Self, id: u32)
        requires
            pre.wf(),
            pre.tickets().contains_key(id),
            pre.tickets()[id] == TicketOutcome::Pending,
            post.ledger.wf(),
            post.pool.wf(),
            post.tickets() == pre.tickets().remove(id),
            post.pool_ids().to_set() == pre.pool_ids().to_set().remove(id),
            post.pool_ids().len() == pre.pool_ids().len() - 1,
            post.melt_queue() == pre.melt_queue(),
            post.ice_custody() == pre.ice_custody(),
            post.water() == pre.water() - 1,
            post.next_ticket() == pre.next_ticket(),
        ensures
            post.wf(),
    {
        assert(post.tickets().dom() == pre.tickets().dom().remove(id));
        assert forall|x: u32| #[trigger] post.pool_ids().contains(x) implies
            post.tickets().contains_key(x) && post.tickets()[x] == TicketOutcome::Pending by {
            assert(post.pool_ids().to_set().contains(x));
            assert(pre.pool_ids().contains(x));
        }
        assert forall|x: u32| #[trigger]
            post.tickets().contains_key(x) && post.tickets()[x]
            == TicketOutcome::Pending implies post.pool_ids().contains(x) by {
            assert(pre.pool_ids().contains(x));
            assert(post.pool_ids().to_set().contains(x));
        }
        assert forall|i: int|
            0 <= i < post.ice_custody().len() implies post.prize_backed(
            post.ice_custody()[i],
        ) by {
            assert(pre.prize_backed(pre.ice_custody()[i]));
            let w = choose|w: u32|
                #[trigger] pre.tickets().contains_key(w) && pre.tickets()[w]
                    == TicketOutcome::Won(pre.ice_custody()[i]);
            assert(w != id);
            assert(post.tickets().contains_key(w) && post.tickets()[w] == TicketOutcome::Won(
                post.ice_custody()[i],
            ));
        }
    }

    /// Settling a winning ticket removes it from the ledger and its prize
    /// from custody, preserving the engine invariant.
    proof fn lemma_wf_after_settle_won(pre: Self, post: Self, id: u32, prize: u64)
        requires
            pre.wf(),
            pre.tickets().contains_key(id),
            pre.tickets()[id] == TicketOutcome::Won(prize),
            post.ledger.wf(),
            post.pool.wf(),
            post.tickets() == pre.tickets().remove(id),
            post.pool_ids() == pre.pool_ids(),
            post.melt_queue() == pre.melt_queue(),
            post.ice_custody().no_duplicates(),
            post.ice_custody().to_set() == pre.ice_custody().to_set().remove(prize),
            post.ice_custody().len() == pre.ice_custody().len() - 1,
            post.water() == pre.water(),
            post.next_ticket() == pre.next_ticket(),
        ensures
            post.wf(),
    {
        assert(post.tickets().dom() == pre.tickets().dom().remove(id));
        assert(!pre.pool_ids().contains(id));
        assert forall|x: u32| #[trigger]
            post.tickets().contains_key(x) && post.tickets()[x]
            == TicketOutcome::Pending implies post.pool_ids().contains(x) by {
            assert(pre.pool_ids().contains(x));
        }
        assert(!post.ice_custody().contains(prize)) by {
            if post.ice_custody().contains(prize) {
                assert(post.ice_custody().to_set().contains(prize));
            }
        }
        assert forall|i: int|
            0 <= i < post.ice_custody().len() implies post.prize_backed(
            post.ice_custody()[i],
        ) by {
            let p = post.ice_custody()[i];
            assert(post.ice_custody().to_set().contains(p));
            assert(pre.ice_custody().to_set().contains(p));
            assert(pre.ice_custody().contains(p));
            let j = choose|j: int|
                0 <= j < pre.ice_custody().len() && pre.ice_custody()[j] == p;
            assert(pre.prize_backed(pre.ice_custody()[j]));
            let w = choose|w: u32|
                #[trigger] pre.tickets().contains_key(w) && pre.tickets()[w]
                    == TicketOutcome::Won(pre.ice_custody()[j]);
            assert(w != id);
            assert(post.tickets().contains_key(w) && post.tickets()[w] == TicketOutcome::Won(p));
        }
        assert forall|x: u32| #[trigger]
            post.tickets().contains_key(x) && post.tickets()[x] is Won implies
            post.ice_custody().contains(post.tickets()[x]->Won_0) by {
            let px = post.tickets()[x]->Won_0;
            assert(pre.tickets()[x] is Won);
            assert(pre.ice_custody().contains(px));
            assert(px != prize);
            assert(post.ice_custody().to_set().contains(px));
        }
    }

    /// The slot in prize custody where `prize` sits.
    fn find_ice(&self, prize: u64) -> (idx: usize)
        requires
            self.ice_custody().contains(prize),
        ensures
            idx < self.ice_custody().len(),
            self.ice_custody()[idx as int] == prize,
    {
        let mut idx: usize = 0;
        while idx < self.ice.len()
            invariant
                self.ice_custody().contains(prize),
                idx <= self.ice_custody().len(),
                forall|k: int| 0 <= k < idx ==> self.ice_custody()[k] != prize,
            decreases self.ice_custody().len() - idx,
        {
            if self.ice[idx] == prize {
                return idx;
            }
            idx = idx + 1;
        }
        proof {
            let j = choose|j: int|
                0 <= j < self.ice_custody().len() && self.ice_custody()[j] == prize;
            assert(false);
        }
        idx
    }

    /// Surrenders tickets for settlement. Each one is erased for good; a
    /// still-pending ticket leaves the pool and refunds one deposit unit,
    /// a winning ticket releases its prize from custody. The refund total
    /// and the released prizes come back together, in surrender order.
    pub fn withdraw(&mut self, ticket_ids: &Vec<u32>) -> (r: (u32, Vec<u64>))
        requires
            old(self).wf(),
            ticket_ids@.no_duplicates(),
            forall|k: int|
                0 <= k < ticket_ids@.len() ==> old(self).tickets().contains_key(
                    #[trigger] ticket_ids@[k],
                ),
        ensures
            final(self).wf(),
            r.0 == pending_count(ticket_ids@, old(self).tickets()),
            r.1@ == prizes_of(ticket_ids@, old(self).tickets()),
            final(self).tickets() == old(self).tickets().remove_keys(ticket_ids@.to_set()),
            final(self).pool_ids().to_set() == old(self).pool_ids().to_set().difference(
                ticket_ids@.to_set(),
            ),
            final(self).pool_ids().len() == old(self).pool_ids().len() - r.0,
            final(self).water() == old(self).water() - r.0,
            final(self).ice_custody().to_set() == old(self).ice_custody().to_set().difference(
                r.1@.to_set(),
            ),
            final(self).ice_custody().len() == old(self).ice_custody().len() - r.1@.len(),
            final(self).melt_queue() == old(self).melt_queue(),
            final(self).next_ticket() == old(self).next_ticket(),
    {
        let mut refund: u32 = 0;
        let mut prizes: Vec<u64> = Vec::new();
        let mut i: usize = 0;
        while i < ticket_ids.len()
            invariant
                self.wf(),
                old(self).wf(),
                i <= ticket_ids@.len(),
                ticket_ids@.no_duplicates(),
                forall|k: int|
                    0 <= k < ticket_ids@.len() ==> old(self).tickets().contains_key(
                        #[trigger] ticket_ids@[k],
                    ),
                refund == pending_count(ticket_ids@.take(i as int), old(self).tickets()),
                prizes@ == prizes_of(ticket_ids@.take(i as int), old(self).tickets()),
                self.tickets() == old(self).tickets().remove_keys(
                    ticket_ids@.take(i as int).to_set(),
                ),
                self.pool_ids().to_set() == old(self).pool_ids().to_set().difference(
                    ticket_ids@.take(i as int).to_set(),
                ),
                self.pool_ids().len() == old(self).pool_ids().len() - refund,
                self.water() == old(self).water() - refund,
                self.ice_custody().to_set() == old(self).ice_custody().to_set().difference(
                    prizes@.to_set(),
                ),
                self.ice_custody().len() == old(self).ice_custody().len() - prizes@.len(),
                self.melt_queue() == old(self).melt_queue(),
                self.next_ticket() == old(self).next_ticket(),
            decreases ticket_ids@.len() - i,
        {
            let id = ticket_ids[i];
            let ghost taken = ticket_ids@.take(i as int);
            proof {
                assert(!taken.contains(id)) by {
                    if taken.contains(id) {
                        let k = choose|k: int| 0 <= k < taken.len() && taken[k] == id;
                        assert(ticket_ids@[k] == ticket_ids@[i as int]);
                    }
                }
                assert(self.tickets().contains_key(id));
                assert(ticket_ids@.take(i + 1) =~= taken.push(id));
                assert(ticket_ids@.take(i + 1).drop_last() =~= taken);
                assert(ticket_ids@.take(i + 1).to_set() =~= taken.to_set().insert(id)) by {
                    lemma_pending_map_push(Map::<u32, TicketOutcome>::empty(), taken, id);
                    assert forall|x: u32| #[trigger] taken.push(id).contains(x) implies
                        taken.contains(x) || x == id by {
                        let j = choose|j: int|
                            0 <= j < taken.push(id).len() && taken.push(id)[j] == x;
                        if j < taken.len() {
                            assert(taken[j] == x);
                        }
                    }
                    assert forall|x: u32| #[trigger] taken.contains(x) implies taken.push(
                        id,
                    ).contains(x) by {
                        let j = choose|j: int| 0 <= j < taken.len() && taken[j] == x;
                        assert(taken.push(id)[j] == x);
                    }
                    assert(taken.push(id)[taken.len() as int] == id);
                }
            }
            let ghost pre = *self;
            match self.ledger.settle_and_forget(id) {
                Some(outcome) => match outcome {
                    TicketOutcome::Pending => {
                        let removed = self.pool.remove(id);
                        proof {
                            assert(pre.pool_ids().contains(id));
                            assert(removed == Ok::<(), Error>(()));
                        }
                        refund = refund + 1;
                        self.water_units = self.water_units - 1;
                        proof {
                            Self::lemma_wf_after_settle_pending(pre, *self, id);
                            assert(self.tickets() =~= old(self).tickets().remove_keys(
                                ticket_ids@.take(i + 1).to_set(),
                            ));
                            assert(self.pool_ids().to_set() =~= old(
                                self,
                            ).pool_ids().to_set().difference(ticket_ids@.take(i + 1).to_set()));
                        }
                    },
                    TicketOutcome::Won(prize) => {
                        proof {
                            assert(pre.tickets()[id] == TicketOutcome::Won(prize));
                            assert(pre.ice_custody().contains(prize));
                        }
                        let idx = self.find_ice(prize);
                        self.ice.swap_remove(idx);
                        prizes.push(prize);
                        proof {
                            crate::lemma_swap_remove_distinct(pre.ice_custody(), idx as int);
                            Self::lemma_wf_after_settle_won(pre, *self, id, prize);
                            assert(self.tickets() =~= old(self).tickets().remove_keys(
                                ticket_ids@.take(i + 1).to_set(),
                            ));
                            assert(self.pool_ids().to_set() =~= old(
                                self,
                            ).pool_ids().to_set().difference(ticket_ids@.take(i + 1).to_set())) by {
                                assert(!pre.pool_ids().contains(id));
                                assert(!old(self).pool_ids().to_set().contains(id)) by {
                                    if old(self).pool_ids().contains(id) {
                                        assert(old(self).tickets()[id] == TicketOutcome::Pending);
                                        assert(old(self).tickets().contains_key(id));
                                        assert(!taken.to_set().contains(id));
                                        assert(pre.tickets()[id] == old(self).tickets()[id]);
                                    }
                                }
                            }
                            assert(prizes@.drop_last() =~= prizes_of(taken, old(self).tickets()));
                            assert(self.ice_custody().to_set() =~= old(
                                self,
                            ).ice_custody().to_set().difference(prizes@.to_set())) by {
                                assert(prizes@ == prizes_of(taken, old(self).tickets()).push(
                                    prize,
                                ));
                                assert forall|p: u64| #[trigger] prizes@.contains(p) implies
                                    prizes@.drop_last().contains(p) || p == prize by {
                                    let j = choose|j: int|
                                        0 <= j < prizes@.len() && prizes@[j] == p;
                                    if j < prizes@.len() - 1 {
                                        assert(prizes@.drop_last()[j] == p);
                                    }
                                }
                                assert forall|p: u64| #[trigger]
                                    prizes@.drop_last().contains(p) implies prizes@.contains(
                                    p,
                                ) by {
                                    let j = choose|j: int|
                                        0 <= j < prizes@.drop_last().len() && prizes@.drop_last()[j]
                                            == p;
                                    assert(prizes@[j] == p);
                                }
                                assert(prizes@[prizes@.len() - 1] == prize);
                            }
                        }
                    },
                },
                None => {
                    proof {
                        assert(false);
                    }
                },
            }
            i = i + 1;
            proof {
                assert(ticket_ids@.take(i as int) == ticket_ids@.take(i - 1 + 1));
            }
        }
        proof {
            assert(ticket_ids@.take(i as int) == ticket_ids@);
        }
        (refund, prizes)
    }

    /// The correlation key a mint request carries: it encodes how many
    /// prize units to mint and how many of the fresh winners to flag for a
    /// later melt. The draw callback decodes it again.
    pub fn mint(&self, mint_count: u8, melt_count: u8) -> (key: u32)
        ensures
            key == (melt_count as int) * 100 + (mint_count as int),
    {
        (melt_count as u32) * 100u32 + (mint_count as u32)
    }

    /// How many prize units the draw for `key` will actually mint: the
    /// requested count, capped by the deposit units held in custody.
    pub open spec fn spec_draw_amount(&self, key: u32) -> u32 {
        if self.water() < key % 100 {
            self.water()
        } else {
            key % 100
        }
    }

    /// The deposit units the draw for `key` will consume, and so the number
    /// of freshly minted prize ids it must be handed.
    pub fn draw_amount(&self, key: u32) -> (n: u32)
        ensures
            n == self.spec_draw_amount(key),
    {
        let mint_count = key % 100;
        if self.water_units < mint_count {
            self.water_units
        } else {
            mint_count
        }
    }

    /// Drawing one winner out of the pool, recording its win of a fresh
    /// prize taken into custody, and optionally flagging it for a melt
    /// preserves the engine invariant.
    proof fn lemma_wf_after_draw_step(pre: Self, post: Self, winner: u32, prize: u64)
        requires
            pre.wf(),
            pre.pool_ids().contains(winner),
            !pre.ice_custody().contains(prize),
            post.ledger.wf(),
            post.pool.wf(),
            post.tickets() == pre.tickets().insert(winner, TicketOutcome::Won(prize)),
            post.pool_ids().to_set() == pre.pool_ids().to_set().remove(winner),
            post.pool_ids().len() == pre.pool_ids().len() - 1,
            post.ice_custody() == pre.ice_custody().push(prize),
            post.water() == pre.water() - 1,
            post.melt_queue() == pre.melt_queue() || post.melt_queue() == pre.melt_queue().push(
                winner,
            ),
            post.next_ticket() == pre.next_ticket(),
        ensures
            post.wf(),
    {
        assert(pre.tickets().contains_key(winner) && pre.tickets()[winner]
            == TicketOutcome::Pending);
        assert(post.tickets().dom() =~= pre.tickets().dom());
        assert forall|x: u32| #[trigger] post.pool_ids().contains(x) implies
            post.tickets().contains_key(x) && post.tickets()[x] == TicketOutcome::Pending by {
            assert(post.pool_ids().to_set().contains(x));
            assert(pre.pool_ids().contains(x));
        }
        assert forall|x: u32| #[trigger]
            post.tickets().contains_key(x) && post.tickets()[x]
            == TicketOutcome::Pending implies post.pool_ids().contains(x) by {
            assert(x != winner);
            assert(pre.pool_ids().contains(x));
            assert(post.pool_ids().to_set().contains(x));
        }
        assert forall|x: u64| #[trigger] pre.ice_custody().contains(x) implies
            post.ice_custody().contains(x) by {
            let j = choose|j: int|
                0 <= j < pre.ice_custody().len() && pre.ice_custody()[j] == x;
            assert(post.ice_custody()[j] == x);
        }
        assert forall|x: u64| #[trigger] post.ice_custody().contains(x) implies
            pre.ice_custody().contains(x) || x == prize by {
            let j = choose|j: int|
                0 <= j < post.ice_custody().len() && post.ice_custody()[j] == x;
            if j < pre.ice_custody().len() {
                assert(pre.ice_custody()[j] == x);
            }
        }
        assert(post.ice_custody()[post.ice_custody().len() - 1] == prize);
        assert(post.ice_custody().no_duplicates()) by {
            assert forall|a: int, b: int|
                0 <= a < post.ice_custody().len() && 0 <= b < post.ice_custody().len() && a
                    != b implies post.ice_custody()[a] != post.ice_custody()[b] by {
                if a < pre.ice_custody().len() && b < pre.ice_custody().len() {
                } else if a < pre.ice_custody().len() {
                    assert(pre.ice_custody().contains(pre.ice_custody()[a]));
                } else {
                    assert(pre.ice_custody().contains(pre.ice_custody()[b]));
                }
            }
        }
        if post.melt_queue() == pre.melt_queue().push(winner) {
            assert(!pre.melt_queue().contains(winner)) by {
                if pre.melt_queue().contains(winner) {
                    let k = choose|k: int|
                        0 <= k < pre.melt_queue().len() && pre.melt_queue()[k] == winner;
                }
            }
            assert(post.melt_queue().no_duplicates()) by {
                assert forall|a: int, b: int|
                    0 <= a < post.melt_queue().len() && 0 <= b < post.melt_queue().len() && a
                        != b implies post.melt_queue()[a] != post.melt_queue()[b] by {
                    if a < pre.melt_queue().len() && b < pre.melt_queue().len() {
                    } else if a < pre.melt_queue().len() {
                        assert(pre.melt_queue().contains(pre.melt_queue()[a]));
                    } else if b < pre.melt_queue().len() {
                        assert(pre.melt_queue().contains(pre.melt_queue()[b]));
                    }
                }
            }
        }
        assert forall|i: int|
            0 <= i < post.ice_custody().len() implies post.prize_backed(
            post.ice_custody()[i],
        ) by {
            if i < pre.ice_custody().len() {
                assert(pre.prize_backed(pre.ice_custody()[i]));
                let w = choose|w: u32|
                    #[trigger] pre.tickets().contains_key(w) && pre.tickets()[w]
                        == TicketOutcome::Won(pre.ice_custody()[i]);
                assert(w != winner);
                assert(post.tickets().contains_key(w) && post.tickets()[w] == TicketOutcome::Won(
                    post.ice_custody()[i],
                ));
            } else {
                assert(post.tickets().contains_key(winner) && post.tickets()[winner]
                    == TicketOutcome::Won(prize));
            }
        }
        assert forall|x: u32| #[trigger]
            post.tickets().contains_key(x) && post.tickets()[x] is Won implies
            post.ice_custody().contains(post.tickets()[x]->Won_0) by {
            if x != winner {
                assert(pre.ice_custody().contains(pre.tickets()[x]->Won_0));
            }
        }
        assert forall|id1: u32, id2: u32|
            #![trigger post.tickets()[id1], post.tickets()[id2]]
            post.tickets().contains_key(id1) && post.tickets().contains_key(id2) && id1 != id2
                && post.tickets()[id1] is Won && post.tickets()[id2] is Won implies
            post.tickets()[id1] != post.tickets()[id2] by {
            if id1 == winner {
                assert(pre.ice_custody().contains(pre.tickets()[id2]->Won_0));
            } else if id2 == winner {
                assert(pre.ice_custody().contains(pre.tickets()[id1]->Won_0));
            }
        }
    }

    /// Runs the draw that answers the mint request carrying `key`, fed by
    /// the opaque `random_seed` the randomness provider delivered. The
    /// caller has converted the consumed deposit units into `minted_ice`:
    /// one freshly minted, distinct prize id per consumed unit, as many as
    /// `draw_amount(key)` says. One prize at a time, a still-pending ticket
    /// is drawn uniformly from the shrinking pool, leaves it, and has its
    /// win recorded; the first `key / 100` winners of this draw are also
    /// flagged for a later melt.
    pub fn do_mint(&mut self, key: u32, random_seed: &Vec<u8>, minted_ice: &Vec<u64>)
        requires
            old(self).wf(),
            minted_ice@.len() == old(self).spec_draw_amount(key),
            minted_ice@.no_duplicates(),
            forall|k: int|
                0 <= k < minted_ice@.len() ==> !old(self).ice_custody().contains(
                    #[trigger] minted_ice@[k],
                ),
        ensures
            final(self).wf(),
            final(self).water() == old(self).water() - minted_ice@.len(),
            final(self).pool_ids().len() == old(self).pool_ids().len() - minted_ice@.len(),
            final(self).ice_custody() == old(self).ice_custody() + minted_ice@,
            final(self).next_ticket() == old(self).next_ticket(),
            final(self).tickets().dom() == old(self).tickets().dom(),
            final(self).melt_queue().len() == old(self).melt_queue().len() + (
            if (key / 100) as int <= minted_ice@.len() {
                (key / 100) as int
            } else {
                minted_ice@.len() as int
            }),
            exists|winners: Seq<u32>|
                {
                    &&& winners.len() == minted_ice@.len()
                    &&& winners.no_duplicates()
                    &&& forall|j: int|
                        0 <= j < winners.len() ==> old(self).pool_ids().contains(
                            #[trigger] winners[j],
                        )
                    &&& final(self).pool_ids().to_set() == old(self).pool_ids().to_set().difference(
                        winners.to_set(),
                    )
                    &&& forall|j: int|
                        0 <= j < winners.len() ==> final(self).tickets()[#[trigger] winners[j]]
                            == TicketOutcome::Won(minted_ice@[j])
                    &&& forall|x: u32|
                        final(self).tickets().contains_key(x) && !winners.contains(x)
                            ==> final(self).tickets()[x] == #[trigger] old(self).tickets()[x]
                    &&& final(self).melt_queue() == old(self).melt_queue() + winners.take(
                        if (key / 100) as int <= winners.len() {
                            (key / 100) as int
                        } else {
                            winners.len() as int
                        },
                    )
                },
    {
        let melt_target: u32 = key / 100;
        let n: usize = minted_ice.len();
        let mut source = rng::source_from_seed(random_seed);
        let ghost mut winners: Seq<u32> = Seq::<u32>::empty();
        let mut flagged: u32 = 0;
        let mut j: usize = 0;
        while j < n
            invariant
                self.wf(),
                old(self).wf(),
                n == minted_ice@.len(),
                n == old(self).spec_draw_amount(key),
                minted_ice@.no_duplicates(),
                forall|k: int|
                    0 <= k < minted_ice@.len() ==> !old(self).ice_custody().contains(
                        #[trigger] minted_ice@[k],
                    ),
                j <= n,
                winners.len() == j,
                winners.no_duplicates(),
                forall|k: int|
                    0 <= k < winners.len() ==> old(self).pool_ids().contains(#[trigger] winners[k]),
                self.pool_ids().to_set() == old(self).pool_ids().to_set().difference(
                    winners.to_set(),
                ),
                self.pool_ids().len() == old(self).pool_ids().len() - j,
                self.water() == old(self).water() - j,
                self.tickets().dom() == old(self).tickets().dom(),
                forall|k: int|
                    0 <= k < winners.len() ==> self.tickets()[#[trigger] winners[k]]
                        == TicketOutcome::Won(minted_ice@[k]),
                forall|x: u32|
                    self.tickets().contains_key(x) && !winners.contains(x) ==> self.tickets()[x]
                        == #[trigger] old(self).tickets()[x],
                self.ice_custody() == old(self).ice_custody() + minted_ice@.take(j as int),
                flagged == if melt_target <= j {
                    melt_target as int
                } else {
                    j as int
                },
                self.melt_queue() == old(self).melt_queue() + winners.take(flagged as int),
                self.next_ticket() == old(self).next_ticket(),
            decreases n - j,
        {
            proof {
                assert(old(self).pool_ids().len() == old(self).water());
                assert(self.pool_ids().len() > 0);
                self.pool.lemma_wf_distinct();
            }
            let bound: u16 = self.pool.len() as u16;
            let ordinal = rng::roll(&mut source, bound);
            let picked = self.pool.pick(ordinal);
            let winner = match picked {
                Ok(w) => w,
                Err(_) => {
                    proof {
                        assert(false);
                    }
                    0
                },
            };
            proof {
                assert(self.pool_ids()[ordinal as int] == winner);
                assert(self.pool_ids().contains(winner));
                assert(self.pool_ids().to_set().contains(winner));
                assert(old(self).pool_ids().contains(winner));
                assert(!winners.contains(winner));
                assert(self.tickets().contains_key(winner) && self.tickets()[winner]
                    == TicketOutcome::Pending);
                assert(!self.ice_custody().contains(minted_ice@[j as int])) by {
                    if self.ice_custody().contains(minted_ice@[j as int]) {
                        let q = choose|q: int|
                            0 <= q < self.ice_custody().len() && self.ice_custody()[q]
                                == minted_ice@[j as int];
                        if q < old(self).ice_custody().len() {
                            assert(old(self).ice_custody()[q] == minted_ice@[j as int]);
                            assert(old(self).ice_custody().contains(minted_ice@[j as int]));
                        } else {
                            assert(minted_ice@.take(j as int)[q - old(
                                self,
                            ).ice_custody().len()] == minted_ice@[j as int]);
                        }
                    }
                }
            }
            let ghost pre = *self;
            let removed = self.pool.remove(winner);
            proof {
                assert(removed == Ok::<(), Error>(()));
            }
            let won = self.ledger.record_win(winner, minted_ice[j]);
            proof {
                assert(won == Ok::<(), Error>(()));
            }
            self.ice.push(minted_ice[j]);
            self.water_units = self.water_units - 1;
            let ghost flag = flagged < melt_target;
            if flagged < melt_target {
                self.melt_list.push(winner);
                flagged = flagged + 1;
            }
            proof {
                let prize = minted_ice@[j as int];
                let prev_winners = winners;
                winners = winners.push(winner);
                assert(winners.take(j as int) =~= prev_winners);
                assert(winners[j as int] == winner);
                assert forall|x: u32| #[trigger] winners.contains(x) implies prev_winners.contains(
                    x,
                ) || x == winner by {
                    let q = choose|q: int| 0 <= q < winners.len() && winners[q] == x;
                    if q < prev_winners.len() {
                        assert(prev_winners[q] == x);
                    }
                }
                assert forall|x: u32| #[trigger] prev_winners.contains(x) implies winners.contains(
                    x,
                ) by {
                    let q = choose|q: int| 0 <= q < prev_winners.len() && prev_winners[q] == x;
                    assert(winners[q] == x);
                }
                assert(winners.no_duplicates()) by {
                    assert forall|a: int, b: int|
                        0 <= a < winners.len() && 0 <= b < winners.len() && a != b implies
                        winners[a] != winners[b] by {
                        if a < prev_winners.len() && b < prev_winners.len() {
                        } else if a < prev_winners.len() {
                            assert(prev_winners.contains(prev_winners[a]));
                        } else if b < prev_winners.len() {
                            assert(prev_winners.contains(prev_winners[b]));
                        }
                    }
                }
                Self::lemma_wf_after_draw_step(pre, *self, winner, prize);
                assert(self.tickets().dom() =~= old(self).tickets().dom());
                assert(self.pool_ids().to_set() =~= old(self).pool_ids().to_set().difference(
                    winners.to_set(),
                ));
                assert(minted_ice@.take(j + 1) =~= minted_ice@.take(j as int).push(prize));
                Seq::push_distributes_over_add(
                    old(self).ice_custody(),
                    minted_ice@.take(j as int),
                    prize,
                );
                if flag {
                    assert(winners.take(flagged as int) =~= prev_winners.take(
                        flagged as int - 1,
                    ).push(winner));
                    Seq::push_distributes_over_add(
                        old(self).melt_queue(),
                        prev_winners.take(flagged as int - 1),
                        winner,
                    );
                } else {
                    assert(winners.take(flagged as int) =~= prev_winners.take(flagged as int));
                }
            }
            j = j + 1;
        }
        proof {
            assert(minted_ice@.take(n as int) == minted_ice@);
            assert(winners.take(flagged as int) == winners.take(
                if (key / 100) as int <= winners.len() {
                    (key / 100) as int
                } else {
                    winners.len() as int
                },
            ));
        }
    }

    /// Reversing one win while the queue is already drained — the ticket
    /// back to pending and into the pool, its prize out of custody, one
    /// unit back into deposit custody — preserves the engine invariant.
    proof fn lemma_wf_after_reversal(pre: Self, post: Self, id: u32, prize: u64)
        requires
            pre.wf(),
            pre.melt_queue() == Seq::<u32>::empty(),
            pre.tickets().contains_key(id),
            pre.tickets()[id] == TicketOutcome::Won(prize),
            post.ledger.wf(),
            post.pool.wf(),
            post.tickets() == pre.tickets().insert(id, TicketOutcome::Pending),
            post.pool_ids() == pre.pool_ids().push(id),
            post.melt_queue() == Seq::<u32>::empty(),
            post.ice_custody().no_duplicates(),
            post.ice_custody().to_set() == pre.ice_custody().to_set().remove(prize),
            post.ice_custody().len() == pre.ice_custody().len() - 1,
            post.water() == pre.water() + 1,
            post.next_ticket() == pre.next_ticket(),
        ensures
            post.wf(),
    {
        assert(post.tickets().dom() =~= pre.tickets().dom());
        assert(!pre.pool_ids().contains(id));
        assert forall|x: u32| pre.pool_ids().contains(x) implies post.pool_ids().contains(x) by {
            let j = choose|j: int| 0 <= j < pre.pool_ids().len() && pre.pool_ids()[j] == x;
            assert(post.pool_ids()[j] == x);
        }
        assert(post.pool_ids().contains(id)) by {
            assert(post.pool_ids()[post.pool_ids().len() - 1] == id);
        }
        assert forall|x: u32| #[trigger] post.pool_ids().contains(x) implies
            post.tickets().contains_key(x) && post.tickets()[x] == TicketOutcome::Pending by {
            if x != id {
                let j = choose|j: int| 0 <= j < post.pool_ids().len() && post.pool_ids()[j] == x;
                assert(j < pre.pool_ids().len());
                assert(pre.pool_ids()[j] == x);
                assert(pre.pool_ids().contains(x));
            }
        }
        assert forall|x: u32| #[trigger]
            post.tickets().contains_key(x) && post.tickets()[x]
            == TicketOutcome::Pending implies post.pool_ids().contains(x) by {
            if x != id {
                assert(pre.pool_ids().contains(x));
            }
        }
        assert(!post.ice_custody().contains(prize)) by {
            if post.ice_custody().contains(prize) {
                assert(post.ice_custody().to_set().contains(prize));
            }
        }
        assert forall|i: int|
            0 <= i < post.ice_custody().len() implies post.prize_backed(
            post.ice_custody()[i],
        ) by {
            let p = post.ice_custody()[i];
            assert(post.ice_custody().to_set().contains(p));
            assert(pre.ice_custody().to_set().contains(p));
            assert(pre.ice_custody().contains(p));
            let j = choose|j: int|
                0 <= j < pre.ice_custody().len() && pre.ice_custody()[j] == p;
            assert(pre.prize_backed(pre.ice_custody()[j]));
            let w = choose|w: u32|
                #[trigger] pre.tickets().contains_key(w) && pre.tickets()[w]
                    == TicketOutcome::Won(pre.ice_custody()[j]);
            assert(w != id);
            assert(post.tickets().contains_key(w) && post.tickets()[w] == TicketOutcome::Won(p));
        }
        assert forall|x: u32| #[trigger]
            post.tickets().contains_key(x) && post.tickets()[x] is Won implies
            post.ice_custody().contains(post.tickets()[x]->Won_0) by {
            let px = post.tickets()[x]->Won_0;
            assert(x != id);
            assert(pre.tickets()[x] is Won);
            assert(pre.ice_custody().contains(px));
            assert(px != prize);
            assert(post.ice_custody().to_set().contains(px));
        }
    }

    /// Processes the melt queue in insertion order. Every entry whose
    /// ticket is still outstanding has its win undone: the ticket becomes
    /// pending again and rejoins the pool, its prize leaves custody, and
    /// one deposit unit returns to custody in its place. Entries whose
    /// ticket was withdrawn meanwhile are skipped. The queue is cleared
    /// unconditionally. Returns the reversed prize ids in queue order, for
    /// the caller to burn back into deposit resource.
    pub fn melt(&mut self) -> (reversed: Vec<u64>)
        requires
            old(self).wf(),
        ensures
            final(self).wf(),
            reversed@ == prizes_of(old(self).melt_queue(), old(self).tickets()),
            final(self).melt_queue() == Seq::<u32>::empty(),
            final(self).pool_ids() == old(self).pool_ids() + revivable_ids(
                old(self).melt_queue(),
                old(self).tickets(),
            ),
            final(self).tickets() == old(self).tickets().union_prefer_right(
                pending_map(revivable_ids(old(self).melt_queue(), old(self).tickets())),
            ),
            final(self).water() == old(self).water() + reversed@.len(),
            final(self).ice_custody().to_set() == old(self).ice_custody().to_set().difference(
                reversed@.to_set(),
            ),
            final(self).ice_custody().len() == old(self).ice_custody().len() - reversed@.len(),
            final(self).next_ticket() == old(self).next_ticket(),
            old(self).melt_queue().len() == 0 ==> {
                &&& reversed@ == Seq::<u64>::empty()
                &&& final(self).tickets() == old(self).tickets()
                &&& final(self).pool_ids() == old(self).pool_ids()
                &&& final(self).water() == old(self).water()
                &&& final(self).ice_custody() == old(self).ice_custody()
            },
            (forall|k: int|
                0 <= k < old(self).melt_queue().len() ==> !old(self).tickets().contains_key(
                    #[trigger] old(self).melt_queue()[k],
                )) ==> {
                &&& reversed@ == Seq::<u64>::empty()
                &&& final(self).tickets() == old(self).tickets()
                &&& final(self).pool_ids() == old(self).pool_ids()
                &&& final(self).water() == old(self).water()
                &&& final(self).ice_custody() == old(self).ice_custody()
            },
    {
        let queue = self.melt_list.split_off(0);
        proof {
            assert(queue@ == old(self).melt_queue());
            assert(self.melt_queue() =~= Seq::<u32>::empty());
        }
        let mut reversed: Vec<u64> = Vec::new();
        let mut i: usize = 0;
        while i < queue.len()
            invariant
                self.wf(),
                old(self).wf(),
                queue@ == old(self).melt_queue(),
                self.melt_queue() == Seq::<u32>::empty(),
                i <= queue@.len(),
                reversed@ == prizes_of(queue@.take(i as int), old(self).tickets()),
                self.pool_ids() == old(self).pool_ids() + revivable_ids(
                    queue@.take(i as int),
                    old(self).tickets(),
                ),
                self.tickets() == old(self).tickets().union_prefer_right(
                    pending_map(revivable_ids(queue@.take(i as int), old(self).tickets())),
                ),
                self.water() == old(self).water() + reversed@.len(),
                self.ice_custody().to_set() == old(self).ice_custody().to_set().difference(
                    reversed@.to_set(),
                ),
                self.ice_custody().len() == old(self).ice_custody().len() - reversed@.len(),
                reversed@.len() == 0 ==> self.ice_custody() == old(self).ice_custody(),
                self.next_ticket() == old(self).next_ticket(),
            decreases queue@.len() - i,
        {
            let id = queue[i];
            let ghost taken = queue@.take(i as int);
            let ghost revived = revivable_ids(taken, old(self).tickets());
            proof {
                assert(!taken.contains(id)) by {
                    if taken.contains(id) {
                        let k = choose|k: int| 0 <= k < taken.len() && taken[k] == id;
                        assert(queue@[k] == queue@[i as int]);
                    }
                }
                assert(!revived.contains(id)) by {
                    Self::lemma_revivable_subset(taken, old(self).tickets(), id);
                }
                assert(old(self).melt_queue()[i as int] == id);
                assert(self.tickets().contains_key(id) <==> old(self).tickets().contains_key(id));
                assert(old(self).tickets().contains_key(id)
                    ==> self.tickets()[id] == old(self).tickets()[id]);
                assert(old(self).tickets().contains_key(id) ==> old(self).tickets()[id] is Won);
                assert(queue@.take(i + 1) =~= taken.push(id));
                assert(queue@.take(i + 1).drop_last() =~= taken);
            }
            let ghost pre = *self;
            match self.ledger.record_reversal(id) {
                Ok(prize) => {
                    proof {
                        assert(pre.tickets()[id] == TicketOutcome::Won(prize));
                        assert(old(self).tickets()[id] == TicketOutcome::Won(prize));
                        assert(!pre.pool_ids().contains(id));
                        // The pool still has room: the reversed ticket is
                        // outstanding but not pooled, and every pooled
                        // ticket is outstanding too.
                        pre.pool.lemma_wf_distinct();
                        assert(pre.pool_ids().to_set().insert(id).subset_of(
                            pre.tickets().dom(),
                        )) by {
                            assert forall|x: u32|
                                pre.pool_ids().to_set().insert(id).contains(
                                    x,
                                ) implies pre.tickets().dom().contains(x) by {
                                if x != id {
                                    assert(pre.pool_ids().contains(x));
                                }
                            }
                        }
                        lemma_len_subset(pre.pool_ids().to_set().insert(id), pre.tickets().dom());
                        assert(pre.pool_ids().to_set().insert(id).len() == pre.pool_ids().len()
                            + 1);
                        assert(pre.ice_custody().contains(prize)) by {
                            assert(old(self).ice_custody().contains(prize));
                            assert(!reversed@.contains(prize)) by {
                                if reversed@.contains(prize) {
                                    lemma_prizes_of_membership(taken, old(self).tickets(), prize);
                                    let k = choose|k: int|
                                        0 <= k < taken.len() && old(self).tickets().contains_key(
                                            #[trigger] taken[k],
                                        ) && old(self).tickets()[taken[k]] == TicketOutcome::Won(
                                            prize,
                                        );
                                    assert(taken[k] == id);
                                }
                            }
                            assert(old(self).ice_custody().to_set().difference(
                                reversed@.to_set(),
                            ).contains(prize));
                            assert(pre.ice_custody().to_set().contains(prize));
                        }
                    }
                    self.pool.add(id);
                    self.water_units = self.water_units + 1;
                    let idx = self.find_ice(prize);
                    self.ice.swap_remove(idx);
                    reversed.push(prize);
                    proof {
                        crate::lemma_swap_remove_distinct(pre.ice_custody(), idx as int);
                        Self::lemma_wf_after_reversal(pre, *self, id, prize);
                        lemma_pending_map_push(old(self).tickets(), revived, id);
                        assert(revivable_ids(queue@.take(i + 1), old(self).tickets())
                            == revived.push(id));
                        assert(prizes_of(queue@.take(i + 1), old(self).tickets())
                            == prizes_of(taken, old(self).tickets()).push(prize));
                        assert(self.pool_ids() =~= old(self).pool_ids() + revived.push(id));
                        assert(self.ice_custody().to_set() =~= old(
                            self,
                        ).ice_custody().to_set().difference(reversed@.to_set())) by {
                            assert(reversed@.drop_last() =~= prizes_of(taken, old(self).tickets()));
                            assert forall|p: u64| #[trigger] reversed@.contains(p) implies
                                reversed@.drop_last().contains(p) || p == prize by {
                                let q = choose|q: int|
                                    0 <= q < reversed@.len() && reversed@[q] == p;
                                if q < reversed@.len() - 1 {
                                    assert(reversed@.drop_last()[q] == p);
                                }
                            }
                            assert forall|p: u64| #[trigger]
                                reversed@.drop_last().contains(p) implies reversed@.contains(
                                p,
                            ) by {
                                let q = choose|q: int|
                                    0 <= q < reversed@.drop_last().len()
                                        && reversed@.drop_last()[q] == p;
                                assert(reversed@[q] == p);
                            }
                            assert(reversed@[reversed@.len() - 1] == prize);
                        }
                    }
                },
                Err(_) => {
                    proof {
                        assert(!old(self).tickets().contains_key(id));
                        assert(revivable_ids(queue@.take(i + 1), old(self).tickets()) == revived);
                        assert(prizes_of(queue@.take(i + 1), old(self).tickets()) == prizes_of(
                            taken,
                            old(self).tickets(),
                        ));
                    }
                },
            }
            i = i + 1;
        }
        proof {
            assert(queue@.take(i as int) == queue@);
            if queue@.len() == 0 {
                assert(reversed@ == Seq::<u64>::empty());
                assert(self.pool_ids() =~= old(self).pool_ids());
                assert(self.tickets() =~= old(self).tickets());
            }
            if forall|k: int|
                0 <= k < queue@.len() ==> !old(self).tickets().contains_key(
                    #[trigger] queue@[k],
                ) {
                lemma_settled_queue_revives_nothing(queue@, old(self).tickets());
                assert(self.pool_ids() =~= old(self).pool_ids());
                assert(self.tickets() =~= old(self).tickets());
            }
        }
        reversed
    }

    /// An id outside a queue is outside the queue's revivable part too.
    proof fn lemma_revivable_subset(queue: Seq<u32>, t: Map<u32, TicketOutcome>, id: u32)
        requires
            !queue.contains(id),
        ensures
            !revivable_ids(queue, t).contains(id),
        decreases queue.len(),
    {
        if queue.len() > 0 {
            assert(queue[queue.len() - 1] == queue.last());
            assert(!queue.drop_last().contains(id)) by {
                if queue.drop_last().contains(id) {
                    let k = choose|k: int|
                        0 <= k < queue.drop_last().len() && queue.drop_last()[k] == id;
                    assert(queue[k] == id);
                }
            }
            Self::lemma_revivable_subset(queue.drop_last(), t, id);
            let rest = revivable_ids(queue.drop_last(), t);
            if t.contains_key(queue.last()) {
                assert forall|q: int|
                    0 <= q < rest.push(queue.last()).len() implies rest.push(queue.last())[q]
                    != id by {
                    if q < rest.len() {
                        assert(rest[q] != id) by {
                            if rest[q] == id {
                                assert(rest.contains(id));
                            }
                        }
                    }
                }
                if rest.push(queue.last()).contains(id) {
                    let q = choose|q: int|
                        0 <= q < rest.push(queue.last()).len() && rest.push(queue.last())[q] == id;
                }
            }
        }
    }

    /// Whole deposit units held in custody.
    pub fn water_units(&self) -> (n: u32)
        ensures
            n == self.water(),
    {
        self.water_units
    }

    /// The prize ids held in custody.
    pub fn ice_ids(&self) -> (r: &Vec<u64>)
        ensures
            r@ == self.ice_custody(),
    {
        &self.ice
    }

    /// How many tickets are still eligible for a draw.
    pub fn pool_len(&self) -> (n: usize)
        ensures
            n == self.pool_ids().len(),
    {
        self.pool.len()
    }

    /// Whether the ticket still occupies a pool slot.
    pub fn pool_contains(&self, ticket_id: u32) -> (present: bool)
        requires
            self.wf(),
        ensures
            present == self.pool_ids().contains(ticket_id),
    {
        self.pool.contains(ticket_id)
    }

    /// How many tickets are flagged for reversal.
    pub fn melt_queue_len(&self) -> (n: usize)
        ensures
            n == self.melt_queue().len(),
    {
        self.melt_list.len()
    }

    /// The tickets flagged for reversal, in insertion order.
    pub fn melt_queue_ids(&self) -> (r: &Vec<u32>)
        ensures
            r@ == self.melt_queue(),
    {
        &self.melt_list
    }

    /// The outcome currently recorded for the ticket, if it is outstanding.
    pub fn outcome_of(&self, ticket_id: u32) -> (r: Option<TicketOutcome>)
        ensures
            r == if self.tickets().contains_key(ticket_id) {
                Some(self.tickets()[ticket_id])
            } else {
                None::<TicketOutcome>
            },
    {
        self.ledger.outcome_of(ticket_id)
    }

    /// How many tickets are outstanding (pending or won, not yet settled).
    pub fn outstanding(&self) -> (n: usize)
        ensures
            n == self.tickets().dom().len(),
    {
        self.ledger.outstanding()
    }

    /// The id the next issued ticket will get.
    pub fn next_ticket_id(&self) -> (id: u32)
        ensures
            id == self.next_ticket(),
    {
        self.ledger.next_ticket_id()
    }
}

} // verus!
