use ice_randomizer::Error;
use ice_randomizer::IceRandomizer;
use ice_randomizer::SUBUNITS_PER_UNIT;
use ice_randomizer::TicketOutcome;

fn units(n: u64) -> u128 {
    (n as u128) * SUBUNITS_PER_UNIT
}

fn fresh_ice(start: u64, n: u64) -> Vec<u64> {
    let mut ids = Vec::new();
    let mut i = 0u64;
    while i < n {
        ids.push(start + i);
        i += 1;
    }
    ids
}

#[test]
fn deposit_issues_one_ticket_per_unit() {
    let mut engine = IceRandomizer::instantiate();
    let ids = engine.deposit(units(10)).unwrap();
    assert_eq!(ids, (1..=10).collect::<Vec<u32>>());
    assert_eq!(engine.water_units(), 10);
    assert_eq!(engine.pool_len(), 10);
    assert_eq!(engine.outstanding(), 10);
    assert_eq!(engine.next_ticket_id(), 11);
    for id in ids {
        assert_eq!(engine.outcome_of(id), Some(TicketOutcome::Pending));
        assert!(engine.pool_contains(id));
    }
}

#[test]
fn zero_deposit_issues_no_ticket() {
    let mut engine = IceRandomizer::instantiate();
    assert_eq!(engine.deposit(0), Ok(Vec::<u32>::new()));
    assert_eq!(engine.water_units(), 0);
    assert_eq!(engine.outstanding(), 0);
    assert_eq!(engine.next_ticket_id(), 1);
}

#[test]
fn fractional_deposit_is_rejected_whole() {
    let mut engine = IceRandomizer::instantiate();
    assert_eq!(
        engine.deposit(units(3) + 1),
        Err(Error::FractionalDeposit)
    );
    assert_eq!(engine.water_units(), 0);
    assert_eq!(engine.pool_len(), 0);
    assert_eq!(engine.outstanding(), 0);
    assert_eq!(engine.next_ticket_id(), 1);
}

#[test]
fn split_int_and_fraction_splits_subunits() {
    assert_eq!(
        IceRandomizer::split_int_and_fraction(2 * SUBUNITS_PER_UNIT + 123),
        (2, 123)
    );
    assert_eq!(IceRandomizer::split_int_and_fraction(0), (0, 0));
    assert_eq!(
        IceRandomizer::split_int_and_fraction(SUBUNITS_PER_UNIT - 1),
        (0, SUBUNITS_PER_UNIT - 1)
    );
}

#[test]
fn mint_key_encodes_both_counts() {
    let engine = IceRandomizer::instantiate();
    assert_eq!(engine.mint(80, 0), 80);
    assert_eq!(engine.mint(56, 40), 4056);
    assert_eq!(engine.mint(0, 1), 100);
}

#[test]
fn draw_amount_is_capped_by_deposit_custody() {
    let mut engine = IceRandomizer::instantiate();
    engine.deposit(units(10)).unwrap();
    let partial = engine.mint(80, 0);
    assert_eq!(engine.draw_amount(partial), 10);
    let full = engine.mint(5, 0);
    assert_eq!(engine.draw_amount(full), 5);
}

#[test]
fn each_pending_ticket_refunds_exactly_one_unit() {
    let mut engine = IceRandomizer::instantiate();
    let ids = engine.deposit(units(10)).unwrap();
    for (k, id) in ids.iter().enumerate() {
        let (refund, prizes) = engine.withdraw(&vec![*id]);
        assert_eq!(refund, 1);
        assert_eq!(prizes, Vec::<u64>::new());
        assert_eq!(engine.water_units(), 10 - (k as u32) - 1);
    }
    assert_eq!(engine.outstanding(), 0);
    assert_eq!(engine.pool_len(), 0);
}

#[test]
fn draw_removes_mint_count_and_flags_melt_minimum() {
    let mut engine = IceRandomizer::instantiate();
    engine.deposit(units(10)).unwrap();
    let key = engine.mint(6, 4);
    assert_eq!(key, 406);
    engine.do_mint(key, &vec![9, 9, 9], &fresh_ice(1000, 6));
    assert_eq!(engine.pool_len(), 4);
    assert_eq!(engine.water_units(), 4);
    assert_eq!(engine.ice_ids().len(), 6);
    assert_eq!(engine.melt_queue_len(), 4);

    let mut second = IceRandomizer::instantiate();
    second.deposit(units(5)).unwrap();
    let key = second.mint(2, 9);
    second.do_mint(key, &vec![7], &fresh_ice(2000, 2));
    assert_eq!(second.pool_len(), 3);
    // Only two winners exist, so only two can be flagged.
    assert_eq!(second.melt_queue_len(), 2);
}

#[test]
fn melt_of_empty_queue_changes_nothing() {
    let mut engine = IceRandomizer::instantiate();
    engine.deposit(units(2)).unwrap();
    let reversed = engine.melt();
    assert_eq!(reversed, Vec::<u64>::new());
    assert_eq!(engine.melt_queue_len(), 0);
    assert_eq!(engine.water_units(), 2);
    assert_eq!(engine.pool_len(), 2);
    assert_eq!(engine.outstanding(), 2);
}

#[test]
fn melt_skips_settled_tickets_and_clears_the_queue() {
    let mut engine = IceRandomizer::instantiate();
    let ids = engine.deposit(units(3)).unwrap();
    let key = engine.mint(3, 3);
    engine.do_mint(key, &vec![5, 4, 3], &fresh_ice(900, 3));
    assert_eq!(engine.melt_queue_len(), 3);
    // Every winner is withdrawn before the melt runs.
    let (refund, prizes) = engine.withdraw(&ids);
    assert_eq!(refund, 0);
    assert_eq!(prizes.len(), 3);
    let reversed = engine.melt();
    assert_eq!(reversed, Vec::<u64>::new());
    assert_eq!(engine.melt_queue_len(), 0);
    assert_eq!(engine.water_units(), 0);
    assert_eq!(engine.ice_ids().len(), 0);
    assert_eq!(engine.pool_len(), 0);
}

#[test]
fn test_mint_partial() {
    let mut engine = IceRandomizer::instantiate();
    let amounts: [u64; 5] = [10, 40, 5, 25, 60];
    let mut accounts: Vec<Vec<u32>> = Vec::new();
    for amount in amounts {
        accounts.push(engine.deposit(units(amount)).unwrap());
    }
    assert_eq!(engine.water_units(), 140);

    let key = engine.mint(80, 0);
    assert_eq!(engine.draw_amount(key), 80);
    engine.do_mint(key, &vec![11, 22, 33, 44], &fresh_ice(1000, 80));

    assert_eq!(engine.ice_ids().len(), 80);
    assert_eq!(engine.water_units(), 60);

    let mut all_prizes: Vec<u64> = Vec::new();
    for (account, amount) in accounts.iter().zip(amounts) {
        let (refund, prizes) = engine.withdraw(account);
        assert_eq!(refund as u64 + prizes.len() as u64, amount);
        all_prizes.extend(prizes);
    }
    all_prizes.sort();
    assert_eq!(all_prizes, fresh_ice(1000, 80));
    assert_eq!(engine.ice_ids().len(), 0);
    assert_eq!(engine.water_units(), 0);
    assert_eq!(engine.outstanding(), 0);
}

#[test]
fn test_mint_in_batches() {
    let mut engine = IceRandomizer::instantiate();
    let amounts: [u64; 5] = [10, 40, 5, 25, 60];
    let mut accounts: Vec<Vec<u32>> = Vec::new();
    for amount in amounts {
        accounts.push(engine.deposit(units(amount)).unwrap());
    }

    for batch in 0u64..5 {
        let key = engine.mint(28, 0);
        engine.do_mint(key, &vec![batch as u8, 200], &fresh_ice(1000 + 100 * batch, 28));
    }

    assert_eq!(engine.ice_ids().len(), 140);
    assert_eq!(engine.water_units(), 0);

    for (account, amount) in accounts.iter().zip(amounts) {
        let (refund, prizes) = engine.withdraw(account);
        assert_eq!(refund, 0);
        assert_eq!(prizes.len() as u64, amount);
    }
    assert_eq!(engine.ice_ids().len(), 0);
    assert_eq!(engine.water_units(), 0);
    assert_eq!(engine.outstanding(), 0);
}

#[test]
fn test_whole_flow() {
    let mut engine = IceRandomizer::instantiate();
    let amounts: [u64; 5] = [20, 70, 15, 55, 120];
    let mut accounts: Vec<Vec<u32>> = Vec::new();
    for amount in amounts {
        accounts.push(engine.deposit(units(amount)).unwrap());
    }
    assert_eq!(engine.water_units(), 280);

    for batch in 0u64..5 {
        let key = if batch == 0 {
            engine.mint(56, 40)
        } else {
            engine.mint(56, 0)
        };
        engine.do_mint(key, &vec![batch as u8, 7, 7], &fresh_ice(5000 + 100 * batch, 56));
    }

    assert_eq!(engine.ice_ids().len(), 280);
    assert_eq!(engine.water_units(), 0);
    assert_eq!(engine.melt_queue_len(), 40);

    let flagged = engine.melt_queue_ids().clone();
    let reversed = engine.melt();
    assert_eq!(reversed.len(), 40);
    assert_eq!(engine.melt_queue_len(), 0);
    assert_eq!(engine.ice_ids().len(), 240);
    assert_eq!(engine.water_units(), 40);
    assert_eq!(engine.pool_len(), 40);
    for id in flagged {
        assert_eq!(engine.outcome_of(id), Some(TicketOutcome::Pending));
        assert!(engine.pool_contains(id));
    }
    for prize in &reversed {
        assert!(!engine.ice_ids().contains(prize));
    }

    let mut total_refund = 0u64;
    let mut total_prizes = 0u64;
    for (account, amount) in accounts.iter().zip(amounts) {
        let (refund, prizes) = engine.withdraw(account);
        assert_eq!(refund as u64 + prizes.len() as u64, amount);
        total_refund += refund as u64;
        total_prizes += prizes.len() as u64;
    }
    assert_eq!(total_refund, 40);
    assert_eq!(total_prizes, 240);
    assert_eq!(engine.ice_ids().len(), 0);
    assert_eq!(engine.water_units(), 0);
    assert_eq!(engine.outstanding(), 0);
}

#[test]
fn test_can_withdraw_during_mint() {
    let mut engine = IceRandomizer::instantiate();
    let first = engine.deposit(units(4)).unwrap();
    let second = engine.deposit(units(5)).unwrap();
    let third = engine.deposit(units(6)).unwrap();

    // The mint request goes out first; the draw arrives only later.
    let key = engine.mint(40, 10);

    // A still-pending ticket holder withdraws while the request is open.
    let (refund, prizes) = engine.withdraw(&first);
    assert_eq!(refund, 4);
    assert_eq!(prizes, Vec::<u64>::new());
    assert_eq!(engine.water_units(), 11);
    assert_eq!(engine.pool_len(), 11);

    // The draw settles against the shrunken pool and succeeds.
    assert_eq!(engine.draw_amount(key), 11);
    engine.do_mint(key, &vec![8, 8, 8], &fresh_ice(3000, 11));

    // The withdrawn tickets were never selected: they are gone for good.
    for id in &first {
        assert_eq!(engine.outcome_of(*id), None);
    }
    assert_eq!(engine.pool_len(), 0);
    assert_eq!(engine.water_units(), 0);
    assert_eq!(engine.ice_ids().len(), 11);
    assert_eq!(engine.melt_queue_len(), 10);

    let reversed = engine.melt();
    assert_eq!(reversed.len(), 10);
    assert_eq!(engine.water_units(), 10);
    assert_eq!(engine.ice_ids().len(), 1);
    assert_eq!(engine.pool_len(), 10);
    assert_eq!(engine.melt_queue_len(), 0);

    let (refund2, prizes2) = engine.withdraw(&second);
    assert_eq!(refund2 as u64 + prizes2.len() as u64, 5);
    let (refund3, prizes3) = engine.withdraw(&third);
    assert_eq!(refund3 as u64 + prizes3.len() as u64, 6);
    assert_eq!(engine.water_units(), 0);
    assert_eq!(engine.ice_ids().len(), 0);
    assert_eq!(engine.outstanding(), 0);
}
