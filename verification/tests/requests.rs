use bal_daemon::merge::merge_lists;
use bal_daemon::server::{generate_bal, Gathering, TaskOutcome};
use bal_daemon::stats::{has_contract_interactions, measure_block, totals, BlockSearch, BlockStats};
use bal_daemon::verify::verify_bal_payload;
use bal_daemon::{
    merge_simulations, HeadContext, PendingTransaction, SimulatedTransaction, StorageAccessItem,
};

fn simulation(tx_index: u32, key: u8, dirty: bool) -> SimulatedTransaction {
    let slot = StorageAccessItem::new(tx_index, dirty, [key; 32], [key; 32]);
    SimulatedTransaction { tx_index, accounts: vec![([1; 20], vec![slot])] }
}

fn transaction(input: Vec<u8>) -> PendingTransaction {
    PendingTransaction {
        from: [0; 20],
        to: None,
        input,
        gas: [0; 32],
        gas_price: None,
        value: [0; 32],
    }
}

#[test]
fn successful_tasks_are_gathered() {
    let mut gathering = Gathering::new();
    assert_eq!(gathering.accept(TaskOutcome::Done(Some(simulation(4, 1, true)))), Ok(()));
    assert_eq!(gathering.accept(TaskOutcome::Done(None)), Ok(()));
    assert_eq!(gathering.accept(TaskOutcome::Done(Some(simulation(2, 1, true)))), Ok(()));
    let found: Vec<u32> = gathering.simulations.iter().map(|s| s.tx_index).collect();
    assert_eq!(found, vec![4, 2]);
}

#[test]
fn failed_tasks_are_answers() {
    let mut gathering = Gathering::new();
    assert_eq!(
        gathering.accept(TaskOutcome::SimulationFailed("no node".to_string())),
        Err("Simulation failed: no node".to_string())
    );
    assert_eq!(
        gathering.accept(TaskOutcome::TaskFailed("panic".to_string())),
        Err("Task failed: panic".to_string())
    );
    assert!(gathering.simulations.is_empty());
}

#[test]
fn answers_describe_the_merged_list() {
    let parts = || vec![simulation(1, 9, true), simulation(0, 3, false)];
    let answer = generate_bal(5, parts());
    let lists = merge_lists(HeadContext { number: 5, hash: [0; 32] }, parts());
    let payload = lists.accesses.rlp_encode();
    let changes = lists.changes.encode_from(1);
    assert_eq!(answer.bep592_payload, format!("0x{}", hex::encode(&payload)));
    assert_eq!(answer.eip7928_payload, format!("0x{}", hex::encode(&changes)));
    assert_eq!(answer.size_bytes, payload.len());
    assert_eq!((answer.accounts, answer.reads, answer.writes), (1, 1, 1));
    assert_eq!((lists.slots, lists.reads, lists.writes), (2, 1, 1));
    assert!(answer.fresh);
    let check = verify_bal_payload(&answer.bep592_payload[2..]).unwrap();
    assert!(check.valid);
    assert_eq!((check.accounts, check.reads, check.writes), (1, 1, 1));
}

/// The index and value of the only change of the only account in an answer.
fn only_change(simulations: Vec<SimulatedTransaction>) -> (u16, Vec<u8>) {
    let answer = generate_bal(5, simulations);
    let bytes = hex::decode(&answer.eip7928_payload[2..]).unwrap();
    let list = rlp::Rlp::new(&bytes);
    assert_eq!(list.item_count().unwrap(), 1);
    let account = list.at(0).unwrap();
    let changes = account.at(1).unwrap();
    assert_eq!(changes.item_count().unwrap(), 1);
    let change = changes.at(0).unwrap();
    let values = change.at(1).unwrap();
    assert_eq!(values.item_count().unwrap(), 1);
    let value = values.at(0).unwrap();
    (value.val_at(0).unwrap(), value.val_at(1).unwrap())
}

#[test]
fn transactions_are_counted_from_one() {
    assert_eq!(only_change(vec![simulation(0, 9, true)]), (1, vec![9; 32]));
    assert_eq!(only_change(vec![simulation(6, 9, true)]), (7, vec![9; 32]));
    // The slot is read by the first transaction and written by the second.
    assert_eq!(
        only_change(vec![simulation(0, 9, false), simulation(1, 9, true)]),
        (2, vec![9; 32])
    );
}

#[test]
fn every_change_of_a_slot_is_answered() {
    let write = |tx_index: u32, value: u8| {
        let slot = StorageAccessItem::new(tx_index, true, [9; 32], [value; 32]);
        SimulatedTransaction { tx_index, accounts: vec![([1; 20], vec![slot])] }
    };
    let answer = generate_bal(5, vec![write(2, 0xcc), write(0, 0xaa)]);
    let bytes = hex::decode(&answer.eip7928_payload[2..]).unwrap();
    let list = rlp::Rlp::new(&bytes);
    let account = list.at(0).unwrap();
    let changes = account.at(1).unwrap();
    assert_eq!(changes.item_count().unwrap(), 1);
    let slot = changes.at(0).unwrap();
    assert_eq!(slot.val_at::<Vec<u8>>(0).unwrap(), vec![9; 32]);
    let writes: Vec<(u16, Vec<u8>)> = slot
        .at(1)
        .unwrap()
        .iter()
        .map(|w| (w.val_at(0).unwrap(), w.val_at(1).unwrap()))
        .collect();
    assert_eq!(writes, vec![(1, vec![0xaa; 32]), (3, vec![0xcc; 32])]);
}

#[test]
fn an_answer_without_transactions_is_exact() {
    let answer = generate_bal(1, vec![]);
    assert_eq!(answer.bep592_payload, format!("0xe58001a0{}80c0", "00".repeat(32)));
    assert_eq!(answer.eip7928_payload, "0xc0");
    assert_eq!((answer.accounts, answer.size_bytes), (0, 38));
}

#[test]
fn transactions_with_data_make_a_block_interesting() {
    assert!(!has_contract_interactions(&vec![]));
    assert!(!has_contract_interactions(&vec![transaction(vec![])]));
    assert!(has_contract_interactions(&vec![transaction(vec![]), transaction(vec![0])]));
}

#[test]
fn five_blocks_are_searched_backwards() {
    let plain = vec![transaction(vec![])];
    let call = vec![transaction(vec![1])];
    let mut search = BlockSearch::new(100);
    let mut found = Vec::new();
    while let Some(number) = search.wanted() {
        if search.record(if number % 2 == 0 { &call } else { &plain }) {
            found.push(number);
        }
    }
    assert_eq!(found, vec![100, 98, 96, 94, 92]);
    assert_eq!((search.next, search.found), (91, 5));
}

#[test]
fn blocks_are_measured() {
    let head = HeadContext { number: 8, hash: [2; 32] };
    let outcomes = vec![Some(simulation(1, 1, true)), None, Some(simulation(0, 2, false))];
    let stats = measure_block(head, outcomes).timed(250);
    let (list, slots, ..) =
        merge_simulations(head, vec![simulation(1, 1, true), simulation(0, 2, false)]);
    assert_eq!(
        stats,
        BlockStats {
            number: 8,
            tx_count: 3,
            success_count: 2,
            fail_count: 1,
            time_ms: 250,
            accounts: 1,
            slots,
            payload_size: list.rlp_encode().len(),
        }
    );
    assert_eq!(slots, 2);
}

#[test]
fn blocks_are_summed_up() {
    let block = |n: usize| BlockStats {
        number: n as u64,
        tx_count: n,
        success_count: 2 * n,
        fail_count: 3 * n,
        time_ms: 4 * n as u128,
        accounts: 5 * n,
        slots: 6 * n,
        payload_size: 7 * n,
    };
    let sums = totals(&vec![block(1), block(10), block(100)]);
    assert_eq!((sums.txs, sums.success, sums.fail), (111, 222, 333));
    assert_eq!((sums.time_ms, sums.accounts, sums.slots, sums.size), (444, 555, 666, 777));
    let none = totals(&vec![]);
    assert_eq!((none.txs, none.time_ms, none.size), (0, 0, 0));
}
