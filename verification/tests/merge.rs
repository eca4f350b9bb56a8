use bal_daemon::merge::merge_lists;
use bal_daemon::{merge_simulations, HeadContext, SimulatedTransaction, StorageAccessItem};

const HEAD: HeadContext = HeadContext { number: 42, hash: [0x42; 32] };

fn slot(tx_index: u32, dirty: bool, key: u8, value: u8) -> StorageAccessItem {
    StorageAccessItem::new(tx_index, dirty, [key; 32], [value; 32])
}

fn simulation(tx_index: u32, accounts: Vec<(u8, Vec<StorageAccessItem>)>) -> SimulatedTransaction {
    SimulatedTransaction {
        tx_index,
        accounts: accounts.into_iter().map(|(a, items)| ([a; 20], items)).collect(),
    }
}

#[test]
fn nothing_merges_to_an_empty_list() {
    let (list, slots, reads, writes) = merge_simulations(HEAD, vec![]);
    assert_eq!((slots, reads, writes), (0, 0, 0));
    assert_eq!((list.version, list.number, list.hash), (0, 42, [0x42; 32]));
    assert!(list.sign_data.is_empty() && list.accounts.is_empty());
}

#[test]
fn accounts_and_slots_come_in_ascending_order() {
    let (list, slots, reads, writes) = merge_simulations(
        HEAD,
        vec![
            simulation(1, vec![(9, vec![slot(1, true, 5, 0), slot(1, false, 3, 0)])]),
            simulation(0, vec![(2, vec![slot(0, false, 7, 0)]), (9, vec![slot(0, false, 1, 0)])]),
        ],
    );
    assert_eq!((slots, reads, writes), (4, 3, 1));
    let found: Vec<(u32, u8, Vec<u8>)> = list
        .accounts
        .iter()
        .map(|a| (a.tx_index, a.address[0], a.storage_items.iter().map(|i| i.key[0]).collect()))
        .collect();
    assert_eq!(found, vec![(0, 2, vec![7]), (0, 9, vec![1, 3, 5])]);
}

#[test]
fn a_slot_is_dirty_once_any_transaction_wrote_it() {
    let (list, slots, reads, writes) = merge_simulations(
        HEAD,
        vec![
            simulation(0, vec![(1, vec![slot(0, false, 1, 0), slot(0, false, 2, 0)])]),
            simulation(1, vec![(1, vec![slot(1, true, 1, 0), slot(1, false, 2, 0)])]),
            simulation(2, vec![(1, vec![slot(2, false, 1, 0)])]),
        ],
    );
    assert_eq!((slots, reads, writes), (2, 1, 1));
    let items = &list.accounts[0].storage_items;
    assert_eq!((items[0].tx_index, items[0].dirty), (0, true));
    assert_eq!((items[1].tx_index, items[1].dirty), (0, false));
}

#[test]
fn the_first_transaction_is_kept_for_accounts_and_slots() {
    let (list, ..) = merge_simulations(
        HEAD,
        vec![
            simulation(5, vec![(1, vec![slot(5, true, 1, 5)])]),
            simulation(3, vec![(1, vec![slot(3, true, 2, 3)])]),
            simulation(4, vec![(1, vec![slot(4, true, 1, 4)])]),
        ],
    );
    assert_eq!(list.accounts[0].tx_index, 3);
    let items = &list.accounts[0].storage_items;
    assert_eq!((items[0].key[0], items[0].tx_index), (1, 4));
    assert_eq!((items[1].key[0], items[1].tx_index), (2, 3));
}

#[test]
fn later_transactions_leave_their_value() {
    let value = |order: [u32; 3]| {
        let simulations = order
            .iter()
            .map(|&n| simulation(n, vec![(1, vec![slot(n, true, 1, 10 + n as u8)])]))
            .collect();
        let (list, ..) = merge_simulations(HEAD, simulations);
        list.accounts[0].storage_items[0].value[0]
    };
    assert_eq!(value([0, 1, 2]), 12);
    assert_eq!(value([2, 1, 0]), 12);
    assert_eq!(value([0, 2, 1]), 12);
    assert_eq!(value([1, 2, 0]), 12);
}

#[test]
fn reads_do_not_replace_what_was_written() {
    let written = || simulation(0, vec![(1, vec![slot(0, true, 1, 0xaa)])]);
    let read = || simulation(1, vec![(1, vec![slot(1, false, 1, 0xbb)])]);
    for simulations in [vec![written(), read()], vec![read(), written()]] {
        let (list, slots, reads, writes) = merge_simulations(HEAD, simulations);
        assert_eq!((slots, reads, writes), (1, 0, 1));
        let items = &list.accounts[0].storage_items;
        assert_eq!(items.len(), 1);
        assert_eq!((items[0].tx_index, items[0].dirty), (0, true));
        assert_eq!((items[0].key, items[0].value), ([1; 32], [0xaa; 32]));
    }
}

#[test]
fn a_slot_that_is_only_read_takes_over_later_values() {
    let value = |order: [u32; 3]| {
        let simulations = order
            .iter()
            .map(|&n| simulation(n, vec![(1, vec![slot(n, false, 1, 10 + n as u8)])]))
            .collect();
        let (list, ..) = merge_simulations(HEAD, simulations);
        let item = list.accounts[0].storage_items[0];
        assert_eq!((item.tx_index, item.dirty), (0, false));
        item.value[0]
    };
    assert_eq!(value([0, 1, 2]), 12);
    assert_eq!(value([1, 2, 0]), 12);
    assert_eq!(value([2, 1, 0]), 12);
    // Later than the earliest transaction so far is enough.
    assert_eq!(value([2, 0, 1]), 11);
    assert_eq!(value([0, 2, 1]), 11);
}

#[test]
fn the_first_of_two_values_of_one_transaction_is_kept() {
    let (list, ..) = merge_simulations(
        HEAD,
        vec![simulation(0, vec![(1, vec![slot(0, true, 1, 5), slot(0, true, 1, 6)])])],
    );
    assert_eq!(list.accounts[0].storage_items[0].value, [5; 32]);
}

#[test]
fn every_write_is_listed_under_its_transaction() {
    let lists = merge_lists(
        HEAD,
        vec![
            simulation(0, vec![(1, vec![slot(0, false, 1, 0xa0), slot(0, false, 2, 0)])]),
            simulation(4, vec![(1, vec![slot(4, true, 1, 0xa4)])]),
            simulation(1, vec![(1, vec![slot(1, true, 1, 0xa1)]), (0, vec![slot(1, true, 7, 7)])]),
            simulation(5, vec![(1, vec![slot(5, false, 1, 0xa5)])]),
        ],
    );
    assert_eq!((lists.slots, lists.reads, lists.writes), (3, 1, 2));
    let first = &lists.accesses.accounts[1].storage_items;
    assert_eq!((first[0].tx_index, first[0].dirty, first[0].value[0]), (0, true, 0xa4));
    let accounts = &lists.changes.accounts;
    assert_eq!((accounts[0].address, accounts[1].address), ([0; 20], [1; 20]));
    assert_eq!(accounts[1].changes.len(), 1);
    assert_eq!(accounts[1].changes[0].key, [1; 32]);
    let writes: Vec<(u32, u8)> =
        accounts[1].changes[0].writes.iter().map(|w| (w.tx_index, w.value[0])).collect();
    assert_eq!(writes, vec![(1, 0xa1), (4, 0xa4)]);
    assert_eq!(accounts[1].reads, vec![[2; 32]]);
    assert!(accounts[0].reads.is_empty());
}

#[test]
fn changes_have_exact_bytes() {
    let lists = merge_lists(
        HEAD,
        vec![
            simulation(1, vec![(0x22, vec![slot(1, true, 0x33, 0x55), slot(1, false, 0x11, 0)])]),
            simulation(0, vec![(0x22, vec![slot(0, true, 0x33, 0x44)])]),
        ],
    );
    let mut account = vec![0x94];
    account.extend([0x22; 20]);
    // [[key, [[1, value], [2, value]]]]
    account.extend([0xf8, 0x6b, 0xf8, 0x69, 0xa0]);
    account.extend([0x33; 32]);
    account.extend([0xf8, 0x46, 0xe2, 0x01, 0xa0]);
    account.extend([0x44; 32]);
    account.extend([0xe2, 0x02, 0xa0]);
    account.extend([0x55; 32]);
    // [key]
    account.extend([0xe1, 0xa0]);
    account.extend([0x11; 32]);
    account.extend([0xc0, 0xc0, 0xc0]);
    let mut list_bytes = vec![0xf8, account.len() as u8];
    list_bytes.extend(&account);
    let mut expected = vec![0xf8, list_bytes.len() as u8];
    expected.extend(&list_bytes);
    assert_eq!(hex::encode(lists.changes.encode_from(1)), hex::encode(&expected));
}

#[test]
fn the_value_of_a_slot_is_that_of_its_last_change() {
    let write = |n: u32| simulation(n, vec![(1, vec![slot(n, true, 1, 10 + n as u8)])]);
    let lists = merge_lists(HEAD, vec![write(2), write(0), write(1)]);
    let writes = &lists.changes.accounts[0].changes[0].writes;
    assert_eq!(writes.len(), 3);
    assert_eq!(lists.accesses.accounts[0].storage_items[0].value, writes[2].value);
}

#[test]
fn the_list_of_changes_does_not_depend_on_the_order_of_simulations() {
    let parts = || {
        vec![
            simulation(0, vec![(1, vec![slot(0, true, 1, 1)]), (2, vec![slot(0, true, 9, 1)])]),
            simulation(1, vec![(1, vec![slot(1, true, 1, 2), slot(1, false, 3, 0)])]),
            simulation(2, vec![(1, vec![slot(2, false, 1, 7)]), (3, vec![slot(2, false, 4, 0)])]),
        ]
    };
    let reference = merge_lists(HEAD, parts()).changes.encode_from(1);
    for order in [[0, 2, 1], [1, 0, 2], [1, 2, 0], [2, 0, 1], [2, 1, 0]] {
        let mut all: Vec<Option<SimulatedTransaction>> = parts().into_iter().map(Some).collect();
        let shuffled = order.iter().map(|&i: &usize| all[i].take().unwrap()).collect();
        assert_eq!(merge_lists(HEAD, shuffled).changes.encode_from(1), reference);
    }
}

#[test]
fn the_payload_does_not_depend_on_the_order_of_simulations() {
    let parts = || {
        vec![
            simulation(0, vec![(1, vec![slot(0, false, 1, 1)]), (2, vec![slot(0, true, 9, 1)])]),
            simulation(1, vec![(1, vec![slot(1, true, 1, 2), slot(1, false, 3, 0)])]),
            simulation(2, vec![(3, vec![slot(2, false, 4, 0)])]),
        ]
    };
    let reference = merge_simulations(HEAD, parts()).0.rlp_encode();
    for order in [[0, 2, 1], [1, 0, 2], [1, 2, 0], [2, 0, 1], [2, 1, 0]] {
        let mut all: Vec<Option<SimulatedTransaction>> = parts().into_iter().map(Some).collect();
        let shuffled = order.iter().map(|&i: &usize| all[i].take().unwrap()).collect();
        assert_eq!(merge_simulations(HEAD, shuffled).0.rlp_encode(), reference);
    }
}

#[test]
fn an_account_without_slots_is_kept() {
    let (list, slots, ..) = merge_simulations(HEAD, vec![simulation(4, vec![(1, vec![])])]);
    assert_eq!(slots, 0);
    assert_eq!(list.accounts.len(), 1);
    assert_eq!(list.accounts[0].tx_index, 4);
}

#[test]
fn every_slot_is_read_or_written() {
    let items = (0..100u32).map(|n| slot(0, n % 3 == 0, n as u8, 0)).collect();
    let (_, slots, reads, writes) = merge_simulations(HEAD, vec![simulation(0, vec![(1, items)])]);
    assert_eq!((slots, reads, writes), (100, 66, 34));
}
