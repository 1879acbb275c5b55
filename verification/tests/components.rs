use ice_randomizer::Error;
use ice_randomizer::TicketLedger;
use ice_randomizer::TicketOutcome;
use ice_randomizer::TicketPool;
use ice_randomizer::rng::roll;
use ice_randomizer::rng::source_from_seed;
use ice_randomizer::rng::word_of_seed;

#[test]
fn pool_add_remove_keeps_dense_count() {
    let mut pool = TicketPool::new();
    assert_eq!(pool.len(), 0);
    pool.add(10);
    pool.add(20);
    pool.add(30);
    assert_eq!(pool.len(), 3);
    assert!(pool.contains(10));
    assert!(pool.contains(20));
    assert!(pool.contains(30));
    assert_eq!(pool.pick(0), Ok(10));
    assert_eq!(pool.pick(1), Ok(20));
    assert_eq!(pool.pick(2), Ok(30));
    // Removing the middle ticket relocates the last one into its slot.
    assert_eq!(pool.remove(20), Ok(()));
    assert_eq!(pool.len(), 2);
    assert!(!pool.contains(20));
    assert_eq!(pool.pick(0), Ok(10));
    assert_eq!(pool.pick(1), Ok(30));
    assert_eq!(pool.remove(10), Ok(()));
    assert_eq!(pool.remove(30), Ok(()));
    assert_eq!(pool.len(), 0);
}

#[test]
fn pool_remove_absent_fails() {
    let mut pool = TicketPool::new();
    pool.add(7);
    assert_eq!(pool.remove(8), Err(Error::NotInPool));
    assert_eq!(pool.len(), 1);
    assert_eq!(pool.remove(7), Ok(()));
    assert_eq!(pool.remove(7), Err(Error::NotInPool));
}

#[test]
fn pool_pick_beyond_slots_fails() {
    let mut pool = TicketPool::new();
    assert_eq!(pool.pick(0), Err(Error::EmptyPool));
    pool.add(5);
    assert_eq!(pool.pick(1), Err(Error::EmptyPool));
}

#[test]
fn ledger_issues_sequential_ids() {
    let mut ledger = TicketLedger::new();
    assert_eq!(ledger.next_ticket_id(), 1);
    assert_eq!(ledger.issue(), 1);
    assert_eq!(ledger.issue(), 2);
    assert_eq!(ledger.issue(), 3);
    assert_eq!(ledger.next_ticket_id(), 4);
    assert_eq!(ledger.outstanding(), 3);
    assert_eq!(ledger.outcome_of(2), Some(TicketOutcome::Pending));
    assert_eq!(ledger.outcome_of(4), None);
}

#[test]
fn ledger_records_and_reverses_wins() {
    let mut ledger = TicketLedger::new();
    let id = ledger.issue();
    assert_eq!(ledger.record_win(id, 77), Ok(()));
    assert_eq!(ledger.outcome_of(id), Some(TicketOutcome::Won(77)));
    // A ticket that is not pending cannot win again.
    assert_eq!(ledger.record_win(id, 88), Err(Error::InvalidState));
    // An unknown ticket cannot win.
    assert_eq!(ledger.record_win(9, 88), Err(Error::InvalidState));
    assert_eq!(ledger.record_reversal(id), Ok(77));
    assert_eq!(ledger.outcome_of(id), Some(TicketOutcome::Pending));
    // A reversal of an already settled ticket reports the absence.
    assert_eq!(ledger.record_reversal(9), Err(Error::InvalidState));
}

#[test]
fn ledger_settle_erases_for_good() {
    let mut ledger = TicketLedger::new();
    let a = ledger.issue();
    let b = ledger.issue();
    ledger.record_win(b, 500).unwrap();
    assert_eq!(ledger.settle_and_forget(a), Some(TicketOutcome::Pending));
    assert_eq!(ledger.settle_and_forget(b), Some(TicketOutcome::Won(500)));
    assert_eq!(ledger.settle_and_forget(a), None);
    assert_eq!(ledger.outstanding(), 0);
    assert_eq!(ledger.outcome_of(a), None);
    // The sequence never rewinds: the next id is still fresh.
    assert_eq!(ledger.issue(), 3);
}

#[test]
fn seed_word_folds_first_eight_bytes() {
    assert_eq!(word_of_seed(&vec![]), 0);
    assert_eq!(word_of_seed(&vec![1, 2]), 0x0201);
    assert_eq!(
        word_of_seed(&vec![1, 2, 3, 4, 5, 6, 7, 8, 9, 10]),
        0x0807060504030201
    );
}

#[test]
fn rolls_stay_in_bounds_and_follow_the_seed() {
    let mut a = source_from_seed(&vec![42, 0, 99]);
    let mut b = source_from_seed(&vec![42, 0, 99]);
    for bound in 1..=64u16 {
        let x = roll(&mut a, bound);
        let y = roll(&mut b, bound);
        assert!(x < bound);
        assert_eq!(x, y);
    }
}
