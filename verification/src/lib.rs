//! A raffle allocation engine: depositors receive one ticket per whole unit
//! of a fungible resource, an operator triggers randomized draws that convert
//! pooled deposits into prize units assigned to uniformly drawn tickets, and
//! a deferred melt queue can reverse freshly won prizes back into the pool.

use vstd::prelude::*;

pub mod ledger;
pub mod pool;
pub mod randomizer;
pub mod rng;

pub use ledger::TicketLedger;
pub use ledger::TicketOutcome;
pub use pool::TicketPool;
pub use randomizer::IceRandomizer;

verus! {

/// One whole deposit unit, counted in indivisible subunits.
pub const SUBUNITS_PER_UNIT: u128 = 1_000_000_000_000_000_000;

/// Swap-removal (overwrite with the last element, then shorten by one) of
/// the element at `i` from a duplicate-free sequence removes exactly that
/// element from the set of members and keeps the rest duplicate-free.
pub(crate) proof fn lemma_swap_remove_distinct<A>(s: Seq<A>, i: int)
    requires
        s.no_duplicates(),
        0 <= i < s.len(),
    ensures
        s.update(i, s.last()).drop_last().no_duplicates(),
        s.update(i, s.last()).drop_last().to_set() == s.to_set().remove(s[i]),
        s.update(i, s.last()).drop_last().len() == s.len() - 1,
{
    let t = s.update(i, s.last()).drop_last();
    assert forall|a: int, b: int| 0 <= a < t.len() && 0 <= b < t.len() && a != b implies t[a]
        != t[b] by {
        assert(t[a] == if a == i {
            s[s.len() - 1]
        } else {
            s[a]
        });
        assert(t[b] == if b == i {
            s[s.len() - 1]
        } else {
            s[b]
        });
    }
    assert forall|x: A| t.to_set().contains(x) implies s.to_set().remove(s[i]).contains(x) by {
        let j = choose|j: int| 0 <= j < t.len() && t[j] == x;
        if j == i {
            assert(s[s.len() - 1] == x);
        } else {
            assert(s[j] == x);
        }
        if x == s[i] {
            assert(j != i || i == s.len() - 1);
        }
    }
    assert forall|x: A| s.to_set().remove(s[i]).contains(x) implies t.to_set().contains(x) by {
        let j = choose|j: int| 0 <= j < s.len() && s[j] == x;
        if j == s.len() - 1 {
            assert(t[i] == x);
        } else {
            assert(t[j] == x);
        }
    }
    assert(t.to_set() =~= s.to_set().remove(s[i]));
}

/// How an operation can fail, or find the state it must not find.
#[derive(Clone, Copy, Debug, PartialEq, Eq, Structural)]
pub enum Error {
    /// A deposit was not a whole number of units.
    FractionalDeposit,
    /// A removal named a ticket that occupies no pool slot.
    NotInPool,
    /// A pick named a slot that no ticket occupies.
    EmptyPool,
    /// A ledger update found the ticket in a state it cannot be in.
    InvalidState,
}

} // verus!
